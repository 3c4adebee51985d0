use diners::agent::Phase;
use diners::change::greedy_coin_change;
use diners::fruit::{create_fruit_salad, EsotericFruits};
use diners::list::insert_at;
use diners::person::Person;
use diners::resource::{ReleaseError, Resource};
use diners::ring::{assign, ConfigError};
use diners::sim::{run, Simulation};

#[test]
fn test_greedy_coin_change() {
    assert_eq!(greedy_coin_change(10), vec![10]);
    assert_eq!(greedy_coin_change(11), vec![10, 1]);
    assert_eq!(greedy_coin_change(0), vec![]);
    assert_eq!(greedy_coin_change(1), vec![1]);
    assert_eq!(greedy_coin_change(100), vec![25, 25, 25, 25]);
    assert_eq!(greedy_coin_change(29), vec![25, 1, 1, 1, 1]);
    assert_eq!(greedy_coin_change(37), vec![25, 10, 1, 1]);
}

#[test]
fn classic_ring_completes_five_cycles() {
    let report = run(5, 5, 1).unwrap();
    assert_eq!(report.completed, 5);
}

#[test]
fn degenerate_sharing_completes_serialized() {
    for i in 0..5 {
        let a = assign(i, 1).unwrap();
        assert_eq!(a.left, a.right);
        assert_eq!(a.first, a.second);
        assert_eq!(a.first, 0);
    }
    let report = run(5, 1, 1).unwrap();
    assert_eq!(report.completed, 5);
}

#[test]
fn zero_resources_is_rejected() {
    assert_eq!(run(5, 0, 1).unwrap_err(), ConfigError::NoResources);
    assert_eq!(assign(3, 0).unwrap_err(), ConfigError::NoResources);
    assert_eq!(
        ConfigError::NoResources.describe(),
        "the resource count must be at least 1"
    );
}

#[test]
fn more_agents_than_resources_still_complete() {
    let report = run(12, 5, 2).unwrap();
    assert_eq!(report.completed, 12);
}

#[test]
fn zero_agents_complete_immediately() {
    let report = run(0, 3, 1).unwrap();
    assert_eq!(report.completed, 0);
}

#[test]
fn ring_assignment_wraps_and_orders() {
    let a = assign(0, 5).unwrap();
    assert_eq!((a.left, a.right), (0, 1));
    assert_eq!((a.first, a.second), (0, 1));
    let a = assign(4, 5).unwrap();
    assert_eq!((a.left, a.right), (4, 0));
    assert_eq!((a.first, a.second), (0, 4));
    let a = assign(7, 5).unwrap();
    assert_eq!((a.left, a.right), (2, 3));
    assert_eq!((a.first, a.second), (2, 3));
}

#[test]
fn fifo_grant_order_is_arrival_order() {
    let mut sim = Simulation::new(2, 2, 0).unwrap();
    assert_eq!(sim.agents[0].first, 0);
    assert_eq!(sim.agents[1].first, 0);
    assert!(sim.step_agent(0));
    assert!(sim.step_agent(1));
    assert_eq!(sim.resources[0].waiters, vec![0, 1]);
    // agent 1 arrived second: it cannot jump the queue
    assert!(!sim.step_agent(1));
    assert_eq!(sim.resources[0].holder, None);
    // agent 0 arrived first and is granted first
    assert!(sim.step_agent(0));
    assert_eq!(sim.resources[0].holder, Some(0));
    assert_eq!(sim.resources[0].waiters, vec![1]);
}

#[test]
fn mutual_exclusion_on_contended_resource() {
    let mut sim = Simulation::new(2, 2, 1).unwrap();
    assert!(sim.step_agent(0));
    assert!(sim.step_agent(1));
    assert!(sim.step_agent(0)); // agent 0 takes resource 0, queues on 1
    assert_eq!(sim.resources[0].holder, Some(0));
    // agent 1 stays blocked while agent 0 holds their shared resource
    assert!(!sim.step_agent(1));
    assert_eq!(sim.resources[0].holder, Some(0));
    sim.run_to_done();
    assert!(sim.all_done());
    for a in &sim.agents {
        assert!(matches!(a.phase, Phase::Done));
    }
    for r in &sim.resources {
        assert_eq!(r.holder, None);
        assert!(r.available);
        assert!(r.waiters.is_empty());
    }
}

#[test]
fn single_agent_cycle_phases_in_order() {
    let mut sim = Simulation::new(1, 2, 1).unwrap();
    let mut seen = vec![sim.agents[0].phase];
    while !sim.all_done() {
        assert!(sim.step_agent(0));
        seen.push(sim.agents[0].phase);
    }
    assert_eq!(
        seen,
        vec![
            Phase::Idle,
            Phase::AcquiringFirst,
            Phase::AcquiringSecond,
            Phase::Holding { remaining: 1 },
            Phase::Holding { remaining: 0 },
            Phase::ReleasingFirst,
            Phase::ReleasingSecond,
            Phase::Done,
        ]
    );
}

#[test]
fn degenerate_agent_uses_single_acquire() {
    let mut sim = Simulation::new(1, 1, 0).unwrap();
    assert_eq!(sim.agents[0].first, sim.agents[0].second);
    let mut seen = vec![sim.agents[0].phase];
    while !sim.all_done() {
        assert!(sim.step_agent(0));
        seen.push(sim.agents[0].phase);
    }
    assert_eq!(
        seen,
        vec![
            Phase::Idle,
            Phase::AcquiringFirst,
            Phase::Holding { remaining: 0 },
            Phase::ReleasingFirst,
            Phase::Done,
        ]
    );
}

#[test]
fn three_way_contention_grants_in_arrival_order() {
    let mut sim = Simulation::new(3, 1, 0).unwrap();
    assert!(sim.step_agent(2));
    assert!(sim.step_agent(0));
    assert!(sim.step_agent(1));
    assert_eq!(sim.resources[0].waiters, vec![2, 0, 1]);
    let mut grant_order = Vec::new();
    while !sim.all_done() {
        for i in (0..3).rev() {
            let before = sim.resources[0].holder;
            sim.step_agent(i);
            let after = sim.resources[0].holder;
            if before.is_none() && after.is_some() {
                grant_order.push(after.unwrap());
            }
        }
    }
    assert_eq!(grant_order, vec![2, 0, 1]);
}

#[test]
fn sweep_moves_every_enabled_agent() {
    let mut sim = Simulation::new(3, 3, 0).unwrap();
    assert!(!sim.all_done());
    // all three agents are idle, so all three enqueue in one sweep
    let moved = sim.sweep();
    assert_eq!(moved, 3);
    for a in &sim.agents {
        assert!(matches!(a.phase, Phase::AcquiringFirst));
    }
    sim.run_to_done();
    assert!(sim.all_done());
}

#[test]
fn release_by_non_holder_is_refused() {
    let mut res = Resource::new(0);
    res.enqueue(7);
    assert!(res.may_grant(7));
    res.grant(7);
    assert_eq!(res.try_release(3), Err(ReleaseError::NotHolder));
    assert_eq!(res.holder, Some(7));
    assert_eq!(res.try_release(7), Ok(()));
    assert_eq!(res.holder, None);
    assert!(res.available);
}

#[test]
fn insert_at_front_middle_and_past_end() {
    let mut v = vec!["Arbutus", "Loquat", "Strawberry Tree Berry"];
    insert_at(&mut v, 0, "Pomegranate");
    assert_eq!(v, vec!["Pomegranate", "Arbutus", "Loquat", "Strawberry Tree Berry"]);
    insert_at(&mut v, 2, "Kiwi");
    assert_eq!(v, vec!["Pomegranate", "Arbutus", "Kiwi", "Loquat", "Strawberry Tree Berry"]);
    insert_at(&mut v, 99, "Fig");
    assert_eq!(v.len(), 6);
    assert_eq!(v.last(), Some(&"Fig"));
}

#[test]
fn esoteric_fruits_ordinals_and_names() {
    assert_eq!(EsotericFruits::from_ordinal(0), Some(EsotericFruits::Pomegranate));
    assert_eq!(EsotericFruits::from_ordinal(1), Some(EsotericFruits::Guava));
    assert_eq!(EsotericFruits::from_ordinal(2), Some(EsotericFruits::Pawpaw));
    assert_eq!(EsotericFruits::from_ordinal(3), Some(EsotericFruits::Durian));
    assert_eq!(EsotericFruits::from_ordinal(4), Some(EsotericFruits::Mangosteen));
    assert_eq!(EsotericFruits::from_ordinal(5), Some(EsotericFruits::Cupuacu));
    assert_eq!(EsotericFruits::from_ordinal(6), None);
    assert_eq!(EsotericFruits::Pomegranate.as_str(), "Pomegranate");
    assert_eq!(EsotericFruits::Guava.as_str(), "Guava");
    assert_eq!(EsotericFruits::Pawpaw.as_str(), "Pawpaw");
    assert_eq!(EsotericFruits::Durian.as_str(), "Durian");
    assert_eq!(EsotericFruits::Mangosteen.as_str(), "Mangosteen");
    assert_eq!(EsotericFruits::Cupuacu.as_str(), "Cupuacu");
}

#[test]
fn fruit_salad_is_a_permutation() {
    let fruits: Vec<String> = vec![
        "apple".to_string(),
        "banana".to_string(),
        "cherry".to_string(),
        "apple".to_string(),
    ];
    let mut salad = create_fruit_salad(fruits.clone());
    let mut expected = fruits;
    salad.sort();
    expected.sort();
    assert_eq!(salad, expected);
}

#[test]
fn person_new_keeps_fields() {
    let p = Person::new("John".to_string(), 20);
    assert_eq!(p.name, "John");
    assert_eq!(p.age, 20);
}
