//! The orchestrated system: `n` agents contending for a ring of `r`
//! resources, each coordinator enforcing exclusivity and FIFO grants, each
//! agent acquiring in ascending id order. The simulation advances agents in
//! deterministic round-robin sweeps; every interleaving of grants respects
//! the same transition relation, so the safety proofs (mutual exclusion,
//! FIFO order, exactly-once cycling) and the liveness proof (no deadlock,
//! hence termination) hold of any schedule the sweeps realize.

use vstd::prelude::*;
use crate::agent::{Agent, Phase, phase_next, phase_measure, lemma_phase_measure_decreases};
use crate::resource::{Resource, enqueued, granted, released};
use crate::ring::{assign, ConfigError};

verus! {

/// The whole system state: one entry per agent, one per resource, and the
/// configured hold duration (in simulated time units).
pub struct Simulation {
    pub agents: Vec<Agent>,
    pub resources: Vec<Resource>,
    pub hold: usize,
}

/// Sum of the agents' phase measures: how many steps of work remain.
pub open spec fn agents_measure(s: Seq<Agent>, hold: usize) -> nat
    decreases s.len(),
{
    if s.len() == 0 {
        0
    } else {
        agents_measure(s.drop_last(), hold) + phase_measure(s.last().phase, hold)
    }
}

/// Replacing one agent changes the total measure by exactly the difference
/// of the two phase measures.
proof fn lemma_agents_measure_update(s: Seq<Agent>, i: int, a: Agent, hold: usize)
    requires
        0 <= i < s.len(),
    ensures
        agents_measure(s.update(i, a), hold) + phase_measure(s[i].phase, hold) == agents_measure(
            s,
            hold,
        ) + phase_measure(a.phase, hold),
    decreases s.len(),
{
    let su = s.update(i, a);
    if i == s.len() - 1 {
        assert(su.drop_last() =~= s.drop_last());
    } else {
        assert(su.drop_last() =~= s.drop_last().update(i, a));
        lemma_agents_measure_update(s.drop_last(), i, a, hold);
    }
}

impl Simulation {
    /// The number of agents.
    pub open spec fn n(self) -> int {
        self.agents@.len() as int
    }

    /// The number of resources.
    pub open spec fn r(self) -> int {
        self.resources@.len() as int
    }

    /// Agent `i` currently holds resource `j`, as determined by its phase:
    /// it holds its first resource from the first grant until the first
    /// release, and its second from the second grant until the second
    /// release (a degenerate agent holds its only resource while Holding).
    pub open spec fn holds(self, i: int, j: int) -> bool {
        let a = self.agents@[i];
        match a.phase {
            Phase::AcquiringSecond => j == a.first,
            Phase::Holding { .. } => j == a.first || j == a.second,
            Phase::ReleasingFirst => j == a.first || j == a.second,
            Phase::ReleasingSecond => j == a.second,
            _ => false,
        }
    }

    /// Agent `i` has a pending request on resource `j`.
    pub open spec fn waits(self, i: int, j: int) -> bool {
        let a = self.agents@[i];
        match a.phase {
            Phase::AcquiringFirst => j == a.first,
            Phase::AcquiringSecond => j == a.second,
            _ => false,
        }
    }

    /// The resource a blocked acquiring agent is waiting for.
    pub open spec fn target(self, i: int) -> int {
        let a = self.agents@[i];
        if a.phase is AcquiringFirst {
            a.first as int
        } else {
            a.second as int
        }
    }

    /// Every resource is internally consistent and sits at its own index.
    pub open spec fn wf_resources(self) -> bool {
        forall|j: int|
            0 <= j < self.r() ==> (#[trigger] self.resources@[j]).wf() && self.resources@[j].id
                == j
    }

    /// Every agent sits at its own index, its assignments are ordered and in
    /// range, and the phases that presuppose two distinct resources occur
    /// only for non-degenerate agents.
    pub open spec fn wf_agents(self) -> bool {
        forall|i: int|
            0 <= i < self.n() ==> {
                let a = #[trigger] self.agents@[i];
                &&& a.id == i
                &&& a.first <= a.second
                &&& a.second < self.r()
                &&& (a.phase is AcquiringSecond ==> a.first < a.second)
                &&& (a.phase is ReleasingSecond ==> a.first < a.second)
            }
    }

    /// The holder records agree with the phases: whoever holds by phase is
    /// recorded as holder, and every recorded holder is a live agent whose
    /// phase says it holds.
    pub open spec fn wf_holders(self) -> bool {
        &&& forall|i: int, j: int|
            0 <= i < self.n() && 0 <= j < self.r() && #[trigger] self.holds(i, j)
                ==> self.resources@[j].holder == Some(i as usize)
        &&& forall|j: int|
            0 <= j < self.r() && (#[trigger] self.resources@[j]).holder is Some ==> {
                let k = self.resources@[j].holder->0 as int;
                &&& 0 <= k < self.n()
                &&& self.holds(k, j)
            }
    }

    /// The wait queues agree with the phases: every queued id belongs to an
    /// agent whose phase says it waits there, and every waiting agent is
    /// queued there.
    pub open spec fn wf_waiters(self) -> bool {
        &&& forall|j: int, q: int|
            0 <= j < self.r() && 0 <= q < self.resources@[j].waiters@.len() ==> {
                let w = (#[trigger] self.resources@[j].waiters@[q]) as int;
                &&& 0 <= w < self.n()
                &&& self.waits(w, j)
            }
        &&& forall|i: int, j: int|
            0 <= i < self.n() && 0 <= j < self.r() && #[trigger] self.waits(i, j)
                ==> self.resources@[j].waiters@.contains(i as usize)
    }

    /// The system invariant, established at construction and preserved by
    /// every step.
    pub open spec fn wf(self) -> bool {
        &&& self.wf_resources()
        &&& self.wf_agents()
        &&& self.wf_holders()
        &&& self.wf_waiters()
    }

    /// Agent `i` can take a step right now: always, except that an acquiring
    /// agent needs its target available with its request at the head of the
    /// queue, and a finished agent never moves again.
    pub open spec fn enabled(self, i: int) -> bool {
        let a = self.agents@[i];
        match a.phase {
            Phase::Idle => true,
            Phase::AcquiringFirst => self.resources@[a.first as int].can_grant(a.id),
            Phase::AcquiringSecond => self.resources@[a.second as int].can_grant(a.id),
            Phase::Holding { .. } => true,
            Phase::ReleasingFirst => true,
            Phase::ReleasingSecond => true,
            Phase::Done => false,
        }
    }

    /// Every agent has completed its cycle.
    pub open spec fn all_done_spec(self) -> bool {
        forall|i: int| 0 <= i < self.n() ==> (#[trigger] self.agents@[i]).phase is Done
    }

    /// Total remaining work; strictly decreases with every step taken.
    pub open spec fn measure(self) -> nat {
        agents_measure(self.agents@, self.hold)
    }

    /// Builds the system: `r` fresh resources with ids `0..r` and `n` idle
    /// agents with the ring assignment, each set to acquire its lower id
    /// first. Fails exactly when `r == 0`.
    pub fn new(n: usize, r: usize, hold: usize) -> (res: Result<Simulation, ConfigError>)
        ensures
            r == 0 <==> res is Err,
            res matches Err(e) ==> e == ConfigError::NoResources,
            res matches Ok(s) ==> {
                &&& s.wf()
                &&& s.agents@.len() == n
                &&& s.resources@.len() == r
                &&& s.hold == hold
                &&& forall|i: int| 0 <= i < n ==> (#[trigger] s.agents@[i]).phase is Idle
                &&& forall|i: int|
                    0 <= i < n ==> {
                        let a = #[trigger] s.agents@[i];
                        let left = i % r as int;
                        let right = (i + 1) % r as int;
                        &&& a.first == if left <= right { left } else { right }
                        &&& a.second == if left <= right { right } else { left }
                    }
            },
    {
        if r == 0 {
            return Err(ConfigError::NoResources);
        }
        let mut resources: Vec<Resource> = Vec::new();
        let mut j: usize = 0;
        while j < r
            invariant
                j <= r,
                resources@.len() == j,
                forall|q: int|
                    0 <= q < j ==> {
                        let res = #[trigger] resources@[q];
                        &&& res.wf()
                        &&& res.id == q
                        &&& res.available
                        &&& res.holder is None
                        &&& res.waiters@.len() == 0
                    },
            decreases r - j,
        {
            resources.push(Resource::new(j));
            j = j + 1;
        }
        let mut agents: Vec<Agent> = Vec::new();
        let mut i: usize = 0;
        while i < n
            invariant
                i <= n,
                r > 0,
                agents@.len() == i,
                forall|q: int|
                    0 <= q < i ==> {
                        let a = #[trigger] agents@[q];
                        let left = q % r as int;
                        let right = (q + 1) % r as int;
                        &&& a.id == q
                        &&& a.phase is Idle
                        &&& a.first == if left <= right { left } else { right }
                        &&& a.second == if left <= right { right } else { left }
                        &&& a.first <= a.second < r
                    },
            decreases n - i,
        {
            match assign(i, r) {
                Ok(a) => {
                    agents.push(Agent::new(i, a));
                },
                Err(_) => {
                    proof {
                        assert(false);
                    }
                },
            }
            i = i + 1;
        }
        let s = Simulation { agents, resources, hold };
        proof {
            assert forall|i2: int, j2: int|
                0 <= i2 < s.n() && 0 <= j2 < s.r() implies !s.holds(i2, j2) && !s.waits(
                i2,
                j2,
            ) by {
                assert(s.agents@[i2].phase is Idle);
            }
        }
        Ok(s)
    }

    /// Advances agent `i` by one step if it can move: an idle agent enqueues
    /// its request on its first resource; a blocked acquirer is granted its
    /// target when the target is free and its request heads the queue (and,
    /// for the first of two distinct resources, immediately enqueues on the
    /// second); a holding agent counts its hold down; a releasing agent puts
    /// one resource back. Returns whether the agent moved; a blocked or
    /// finished agent leaves the state untouched.
    pub fn step_agent(&mut self, i: usize) -> (progressed: bool)
        requires
            old(self).wf(),
            i < old(self).agents@.len(),
        ensures
            final(self).wf(),
            progressed == old(self).enabled(i as int),
            !progressed ==> *final(self) == *old(self),
            progressed ==> step_rel(*old(self), *final(self), i as int),
            progressed ==> final(self).measure() < old(self).measure(),
            final(self).hold == old(self).hold,
            final(self).agents@.len() == old(self).agents@.len(),
            final(self).resources@.len() == old(self).resources@.len(),
    {
        let ghost pre = *self;
        let a = self.agents[i];
        proof {
            assert(a == pre.agents@[i as int]);
            assert(a.id == i && a.first <= a.second < pre.r());
        }
        match a.phase {
            Phase::Idle => {
                proof {
                    lemma_not_waiting_not_queued(pre, i as int, a.first as int);
                }
                self.resources[a.first].enqueue(a.id);
                self.agents[i] = Agent {
                    id: a.id,
                    first: a.first,
                    second: a.second,
                    phase: Phase::AcquiringFirst,
                };
                proof {
                    lemma_after_step(pre, *self, i as int);
                }
                true
            },
            Phase::AcquiringFirst => {
                let can = self.resources[a.first].may_grant(a.id);
                if can {
                    self.resources[a.first].grant(a.id);
                    if a.first != a.second {
                        proof {
                            let s2 = a.second as int;
                            assert(self.resources@[s2] == pre.resources@[s2]);
                            lemma_not_waiting_not_queued(pre, i as int, s2);
                        }
                        self.resources[a.second].enqueue(a.id);
                        self.agents[i] = Agent {
                            id: a.id,
                            first: a.first,
                            second: a.second,
                            phase: Phase::AcquiringSecond,
                        };
                    } else {
                        self.agents[i] = Agent {
                            id: a.id,
                            first: a.first,
                            second: a.second,
                            phase: Phase::Holding { remaining: self.hold },
                        };
                    }
                    proof {
                        lemma_after_step(pre, *self, i as int);
                    }
                    true
                } else {
                    false
                }
            },
            Phase::AcquiringSecond => {
                let can = self.resources[a.second].may_grant(a.id);
                if can {
                    self.resources[a.second].grant(a.id);
                    self.agents[i] = Agent {
                        id: a.id,
                        first: a.first,
                        second: a.second,
                        phase: Phase::Holding { remaining: self.hold },
                    };
                    proof {
                        lemma_after_step(pre, *self, i as int);
                    }
                    true
                } else {
                    false
                }
            },
            Phase::Holding { remaining } => {
                if remaining > 0 {
                    self.agents[i] = Agent {
                        id: a.id,
                        first: a.first,
                        second: a.second,
                        phase: Phase::Holding { remaining: remaining - 1 },
                    };
                } else {
                    self.agents[i] = Agent {
                        id: a.id,
                        first: a.first,
                        second: a.second,
                        phase: Phase::ReleasingFirst,
                    };
                }
                proof {
                    lemma_after_step(pre, *self, i as int);
                }
                true
            },
            Phase::ReleasingFirst => {
                proof {
                    assert(pre.holds(i as int, a.first as int));
                }
                self.resources[a.first].release(a.id);
                if a.first != a.second {
                    self.agents[i] = Agent {
                        id: a.id,
                        first: a.first,
                        second: a.second,
                        phase: Phase::ReleasingSecond,
                    };
                } else {
                    self.agents[i] = Agent {
                        id: a.id,
                        first: a.first,
                        second: a.second,
                        phase: Phase::Done,
                    };
                }
                proof {
                    lemma_after_step(pre, *self, i as int);
                }
                true
            },
            Phase::ReleasingSecond => {
                proof {
                    assert(pre.holds(i as int, a.second as int));
                }
                self.resources[a.second].release(a.id);
                self.agents[i] = Agent {
                    id: a.id,
                    first: a.first,
                    second: a.second,
                    phase: Phase::Done,
                };
                proof {
                    lemma_after_step(pre, *self, i as int);
                }
                true
            },
            Phase::Done => false,
        }
    }

    /// One round-robin pass: each agent in id order takes a step if it can.
    /// Returns how many agents moved. If none moved, no agent was enabled
    /// and the state is untouched; if any moved, the remaining work shrank.
    pub fn sweep(&mut self) -> (moved: usize)
        requires
            old(self).wf(),
        ensures
            final(self).wf(),
            final(self).hold == old(self).hold,
            final(self).agents@.len() == old(self).agents@.len(),
            final(self).resources@.len() == old(self).resources@.len(),
            moved == 0 ==> *final(self) == *old(self) && (forall|i: int|
                0 <= i < old(self).n() ==> !#[trigger] old(self).enabled(i)),
            moved > 0 ==> final(self).measure() < old(self).measure(),
            same_agents(*old(self), *final(self)),
    {
        let ghost entry = *self;
        let mut moved: usize = 0;
        let n = self.agents.len();
        let mut i: usize = 0;
        while i < n
            invariant
                self.wf(),
                n == entry.agents@.len(),
                self.hold == entry.hold,
                self.agents@.len() == entry.agents@.len(),
                self.resources@.len() == entry.resources@.len(),
                i <= n,
                moved <= i,
                moved == 0 ==> *self == entry && (forall|k: int|
                    0 <= k < i ==> !#[trigger] entry.enabled(k)),
                moved > 0 ==> self.measure() < entry.measure(),
                same_agents(entry, *self),
            decreases n - i,
        {
            let p = self.step_agent(i);
            if p {
                moved = moved + 1;
            }
            i = i + 1;
        }
        moved
    }

    /// Drives the system until every agent has completed its cycle. This
    /// terminates for every well-formed configuration: by the
    /// deadlock-freedom law some agent can always move while any is
    /// unfinished, and every move strictly shrinks the remaining work.
    pub fn run_to_done(&mut self)
        requires
            old(self).wf(),
        ensures
            final(self).wf(),
            final(self).all_done_spec(),
            final(self).hold == old(self).hold,
            final(self).agents@.len() == old(self).agents@.len(),
            final(self).resources@.len() == old(self).resources@.len(),
            same_agents(*old(self), *final(self)),
    {
        while !self.all_done()
            invariant
                self.wf(),
                self.hold == old(self).hold,
                self.agents@.len() == old(self).agents@.len(),
                self.resources@.len() == old(self).resources@.len(),
                same_agents(*old(self), *self),
            decreases self.measure(),
        {
            proof {
                lemma_no_deadlock(*self);
            }
            let moved = self.sweep();
            proof {
                if moved == 0 {
                    assert(false);
                }
            }
        }
    }

    /// Whether every agent has completed its cycle.
    pub fn all_done(&self) -> (b: bool)
        ensures
            b == self.all_done_spec(),
    {
        let mut k: usize = 0;
        while k < self.agents.len()
            invariant
                k <= self.agents@.len(),
                forall|q: int| 0 <= q < k ==> (#[trigger] self.agents@[q]).phase is Done,
            decreases self.agents@.len() - k,
        {
            let done = match self.agents[k].phase {
                Phase::Done => true,
                _ => false,
            };
            if !done {
                return false;
            }
            k = k + 1;
        }
        true
    }
}

/// Both states have the same agents at the same indices, with the same ids
/// and ring assignments (only their phases may differ).
pub open spec fn same_agents(pre: Simulation, post: Simulation) -> bool {
    &&& post.agents@.len() == pre.agents@.len()
    &&& forall|i: int|
        0 <= i < pre.n() ==> {
            let b = #[trigger] post.agents@[i];
            let a = pre.agents@[i];
            b.id == a.id && b.first == a.first && b.second == a.second
        }
}

/// The agent as it stands after its one step.
pub open spec fn stepped_agent(a: Agent, hold: usize) -> Agent {
    Agent {
        id: a.id,
        first: a.first,
        second: a.second,
        phase: phase_next(a.phase, hold, a.first == a.second),
    }
}

/// All resources outside `{e1, e2}` kept their exact state.
pub open spec fn resources_unchanged_except(
    pre: Simulation,
    post: Simulation,
    e1: int,
    e2: int,
) -> bool {
    forall|j: int|
        0 <= j < pre.r() && j != e1 && j != e2 ==> post.resources@[j] == pre.resources@[j]
}

/// The full transition relation of one agent step: the agent moves to its
/// successor phase, and the resources change exactly as the phase dictates —
/// an enqueue on entering a wait, a grant on leaving one, a release on
/// putting a resource back, and nothing else anywhere.
pub open spec fn step_rel(pre: Simulation, post: Simulation, i: int) -> bool {
    let a = pre.agents@[i];
    &&& 0 <= i < pre.n()
    &&& pre.enabled(i)
    &&& post.hold == pre.hold
    &&& post.agents@ == pre.agents@.update(i, stepped_agent(a, pre.hold))
    &&& post.resources@.len() == pre.resources@.len()
    &&& match a.phase {
        Phase::Idle => {
            &&& enqueued(pre.resources@[a.first as int], post.resources@[a.first as int], a.id)
            &&& resources_unchanged_except(pre, post, a.first as int, a.first as int)
        },
        Phase::AcquiringFirst => {
            &&& granted(pre.resources@[a.first as int], post.resources@[a.first as int], a.id)
            &&& if a.first == a.second {
                resources_unchanged_except(pre, post, a.first as int, a.first as int)
            } else {
                &&& enqueued(
                    pre.resources@[a.second as int],
                    post.resources@[a.second as int],
                    a.id,
                )
                &&& resources_unchanged_except(pre, post, a.first as int, a.second as int)
            }
        },
        Phase::AcquiringSecond => {
            &&& granted(pre.resources@[a.second as int], post.resources@[a.second as int], a.id)
            &&& resources_unchanged_except(pre, post, a.second as int, a.second as int)
        },
        Phase::Holding { .. } => post.resources@ == pre.resources@,
        Phase::ReleasingFirst => {
            &&& released(pre.resources@[a.first as int], post.resources@[a.first as int])
            &&& resources_unchanged_except(pre, post, a.first as int, a.first as int)
        },
        Phase::ReleasingSecond => {
            &&& released(pre.resources@[a.second as int], post.resources@[a.second as int])
            &&& resources_unchanged_except(pre, post, a.second as int, a.second as int)
        },
        Phase::Done => false,
    }
}

/// An element other than the head survives dropping the head.
proof fn lemma_contains_after_drop_first(s: Seq<usize>, x: usize)
    requires
        s.len() > 0,
        s.contains(x),
        x != s[0],
    ensures
        s.drop_first().contains(x),
{
    let q = choose|q: int| 0 <= q < s.len() && s[q] == x;
    assert(q >= 1);
    assert(s.drop_first()[q - 1] == x);
}

/// Pushing keeps every element, and adds the pushed one.
proof fn lemma_contains_after_push(s: Seq<usize>, x: usize, y: usize)
    requires
        s.contains(y) || y == x,
    ensures
        s.push(x).contains(y),
{
    if s.contains(y) {
        let q = choose|q: int| 0 <= q < s.len() && s[q] == y;
        assert(s.push(x)[q] == y);
    } else {
        assert(s.push(x)[s.len() as int] == y);
    }
}

/// An agent whose phase does not wait on `j` has no request queued there.
proof fn lemma_not_waiting_not_queued(s: Simulation, i: int, j: int)
    requires
        s.wf(),
        0 <= i < s.n(),
        0 <= j < s.r(),
        !s.waits(i, j),
    ensures
        !s.resources@[j].waiters@.contains(s.agents@[i].id),
{
    if s.resources@[j].waiters@.contains(s.agents@[i].id) {
        let aid = s.agents@[i].id;
        let q = choose|q: int|
            0 <= q < s.resources@[j].waiters@.len() && s.resources@[j].waiters@[q] == aid;
        assert(s.resources@[j].waiters@[q] == s.agents@[i].id);
        assert(s.waits(s.agents@[i].id as int, j));
        assert(false);
    }
}

/// A step strictly shrinks the total measure.
proof fn lemma_step_measure(pre: Simulation, post: Simulation, i: int)
    requires
        step_rel(pre, post, i),
    ensures
        post.measure() < pre.measure(),
{
    let a = pre.agents@[i];
    lemma_agents_measure_update(pre.agents@, i, stepped_agent(a, pre.hold), pre.hold);
    lemma_phase_measure_decreases(a.phase, pre.hold, a.first == a.second);
}

/// One step from a well-formed state lands in a well-formed state, and the
/// remaining work strictly shrinks.
proof fn lemma_after_step(pre: Simulation, post: Simulation, i: int)
    requires
        pre.wf(),
        post.wf_resources(),
        step_rel(pre, post, i),
    ensures
        post.wf(),
        post.measure() < pre.measure(),
{
    lemma_step_measure(pre, post, i);
    let a = pre.agents@[i];
    match a.phase {
        Phase::Idle => lemma_wf_after_idle(pre, post, i),
        Phase::AcquiringFirst => lemma_wf_after_acquire_first(pre, post, i),
        Phase::AcquiringSecond => lemma_wf_after_acquire_second(pre, post, i),
        Phase::Holding { .. } => lemma_wf_after_hold(pre, post, i),
        Phase::ReleasingFirst => lemma_wf_after_release_first(pre, post, i),
        Phase::ReleasingSecond => lemma_wf_after_release_second(pre, post, i),
        Phase::Done => {},
    }
}

/// The agents' side conditions of `wf` survive a step.
proof fn lemma_wf_agents_after_step(pre: Simulation, post: Simulation, i: int)
    requires
        pre.wf(),
        step_rel(pre, post, i),
    ensures
        post.wf_agents(),
{
    assert forall|k: int| 0 <= k < post.n() implies {
        let ag = #[trigger] post.agents@[k];
        &&& ag.id == k
        &&& ag.first <= ag.second
        &&& ag.second < post.r()
        &&& (ag.phase is AcquiringSecond ==> ag.first < ag.second)
        &&& (ag.phase is ReleasingSecond ==> ag.first < ag.second)
    } by {
        if k != i {
            assert(post.agents@[k] == pre.agents@[k]);
            assert(pre.agents@[k].id == k);
        } else {
            assert(post.agents@[i] == stepped_agent(pre.agents@[i], pre.hold));
        }
    }
}

proof fn lemma_wf_after_idle(pre: Simulation, post: Simulation, i: int)
    requires
        pre.wf(),
        post.wf_resources(),
        step_rel(pre, post, i),
        pre.agents@[i].phase is Idle,
    ensures
        post.wf(),
{
    let a = pre.agents@[i];
    let f = a.first as int;
    lemma_wf_agents_after_step(pre, post, i);
    assert forall|k: int, j: int|
        0 <= k < post.n() && 0 <= j < post.r() && #[trigger] post.holds(k, j) implies post.resources@[j].holder == Some(k as usize) by {
        assert(post.resources@[j].holder == pre.resources@[j].holder);
        if k == i {
            assert(false);
        } else {
            assert(post.agents@[k] == pre.agents@[k]);
            assert(pre.holds(k, j));
        }
    }
    assert forall|j: int|
        0 <= j < post.r() && (#[trigger] post.resources@[j]).holder is Some implies {
        let k = post.resources@[j].holder->0 as int;
        0 <= k < post.n() && post.holds(k, j)
    } by {
        assert(post.resources@[j].holder == pre.resources@[j].holder);
        let k = pre.resources@[j].holder->0 as int;
        assert(0 <= k < pre.n() && pre.holds(k, j));
        assert(k != i);
        assert(post.agents@[k] == pre.agents@[k]);
    }
    assert forall|j: int, q: int|
        0 <= j < post.r() && 0 <= q < post.resources@[j].waiters@.len() implies {
        let w = (#[trigger] post.resources@[j].waiters@[q]) as int;
        0 <= w < post.n() && post.waits(w, j)
    } by {
        let prew = pre.resources@[j].waiters@;
        if j == f {
            assert(post.resources@[f].waiters@ == prew.push(a.id));
            if q < prew.len() {
                assert(post.resources@[j].waiters@[q] == prew[q]);
                assert(prew[q] == pre.resources@[j].waiters@[q]);
                let w = prew[q] as int;
                assert(0 <= w < pre.n() && pre.waits(w, j));
                assert(w != i);
                assert(post.agents@[w] == pre.agents@[w]);
            } else {
                assert(post.resources@[j].waiters@[q] == a.id);
                assert(post.agents@[i] == stepped_agent(a, pre.hold));
                assert(post.waits(i, f));
            }
        } else {
            assert(post.resources@[j] == pre.resources@[j]);
            let w = prew[q] as int;
            assert(0 <= w < pre.n() && pre.waits(w, j));
            assert(w != i);
            assert(post.agents@[w] == pre.agents@[w]);
        }
    }
    assert forall|k: int, j: int|
        0 <= k < post.n() && 0 <= j < post.r() && #[trigger] post.waits(k, j) implies post.resources@[j].waiters@.contains(k as usize) by {
        if k == i {
            assert(j == f);
            lemma_contains_after_push(pre.resources@[f].waiters@, a.id, a.id);
        } else {
            assert(post.agents@[k] == pre.agents@[k]);
            assert(pre.waits(k, j));
            assert(pre.resources@[j].waiters@.contains(k as usize));
            if j == f {
                lemma_contains_after_push(pre.resources@[f].waiters@, a.id, k as usize);
            } else {
                assert(post.resources@[j] == pre.resources@[j]);
            }
        }
    }
}

proof fn lemma_wf_after_acquire_first(pre: Simulation, post: Simulation, i: int)
    requires
        pre.wf(),
        post.wf_resources(),
        step_rel(pre, post, i),
        pre.agents@[i].phase is AcquiringFirst,
    ensures
        post.wf(),
{
    let a = pre.agents@[i];
    let f = a.first as int;
    let s2 = a.second as int;
    let deg = a.first == a.second;
    lemma_wf_agents_after_step(pre, post, i);
    assert(pre.resources@[f].can_grant(a.id));
    assert(pre.resources@[f].holder is None);
    assert(pre.resources@[f].waiters@[0] == a.id);
    assert forall|k: int, j: int|
        0 <= k < post.n() && 0 <= j < post.r() && #[trigger] post.holds(k, j) implies post.resources@[j].holder == Some(k as usize) by {
        if k == i {
            assert(j == f);
            assert(post.resources@[f].holder == Some(a.id));
        } else {
            assert(post.agents@[k] == pre.agents@[k]);
            assert(pre.holds(k, j));
            assert(pre.resources@[j].holder == Some(k as usize));
            assert(j != f);
            assert(post.resources@[j].holder == pre.resources@[j].holder);
        }
    }
    assert forall|j: int|
        0 <= j < post.r() && (#[trigger] post.resources@[j]).holder is Some implies {
        let k = post.resources@[j].holder->0 as int;
        0 <= k < post.n() && post.holds(k, j)
    } by {
        if j == f {
            assert(post.resources@[f].holder == Some(a.id));
            assert(post.agents@[i] == stepped_agent(a, pre.hold));
            assert(post.holds(i, f));
        } else {
            assert(post.resources@[j].holder == pre.resources@[j].holder);
            let k = pre.resources@[j].holder->0 as int;
            assert(0 <= k < pre.n() && pre.holds(k, j));
            assert(k != i);
            assert(post.agents@[k] == pre.agents@[k]);
        }
    }
    assert forall|j: int, q: int|
        0 <= j < post.r() && 0 <= q < post.resources@[j].waiters@.len() implies {
        let w = (#[trigger] post.resources@[j].waiters@[q]) as int;
        0 <= w < post.n() && post.waits(w, j)
    } by {
        let prew = pre.resources@[j].waiters@;
        if j == f {
            assert(post.resources@[f].waiters@ == prew.drop_first());
            assert(post.resources@[j].waiters@[q] == prew[q + 1]);
            let w = prew[q + 1] as int;
            assert(prew[q + 1] == pre.resources@[j].waiters@[q + 1]);
            assert(0 <= w < pre.n() && pre.waits(w, j));
            assert(prew.no_duplicates());
            assert(prew[q + 1] != prew[0]);
            assert(w != i);
            assert(post.agents@[w] == pre.agents@[w]);
        } else if !deg && j == s2 {
            assert(post.resources@[s2].waiters@ == prew.push(a.id));
            if q < prew.len() {
                assert(post.resources@[j].waiters@[q] == prew[q]);
                assert(prew[q] == pre.resources@[j].waiters@[q]);
                let w = prew[q] as int;
                assert(0 <= w < pre.n() && pre.waits(w, j));
                assert(w != i);
                assert(post.agents@[w] == pre.agents@[w]);
            } else {
                assert(post.resources@[j].waiters@[q] == a.id);
                assert(post.agents@[i] == stepped_agent(a, pre.hold));
                assert(post.waits(i, s2));
            }
        } else {
            assert(post.resources@[j] == pre.resources@[j]);
            let w = prew[q] as int;
            assert(0 <= w < pre.n() && pre.waits(w, j));
            assert(w != i);
            assert(post.agents@[w] == pre.agents@[w]);
        }
    }
    assert forall|k: int, j: int|
        0 <= k < post.n() && 0 <= j < post.r() && #[trigger] post.waits(k, j) implies post.resources@[j].waiters@.contains(k as usize) by {
        if k == i {
            assert(post.agents@[i] == stepped_agent(a, pre.hold));
            assert(!deg && j == s2);
            lemma_contains_after_push(pre.resources@[s2].waiters@, a.id, a.id);
        } else {
            assert(post.agents@[k] == pre.agents@[k]);
            assert(pre.waits(k, j));
            assert(pre.resources@[j].waiters@.contains(k as usize));
            if j == f {
                lemma_contains_after_drop_first(pre.resources@[f].waiters@, k as usize);
            } else if !deg && j == s2 {
                lemma_contains_after_push(pre.resources@[s2].waiters@, a.id, k as usize);
            } else {
                assert(post.resources@[j] == pre.resources@[j]);
            }
        }
    }
}

proof fn lemma_wf_after_acquire_second(pre: Simulation, post: Simulation, i: int)
    requires
        pre.wf(),
        post.wf_resources(),
        step_rel(pre, post, i),
        pre.agents@[i].phase is AcquiringSecond,
    ensures
        post.wf(),
{
    let a = pre.agents@[i];
    let f = a.first as int;
    let s2 = a.second as int;
    lemma_wf_agents_after_step(pre, post, i);
    assert(a.first < a.second);
    assert(pre.resources@[s2].can_grant(a.id));
    assert(pre.resources@[s2].holder is None);
    assert(pre.resources@[s2].waiters@[0] == a.id);
    assert(pre.holds(i, f));
    assert(pre.resources@[f].holder == Some(a.id));
    assert forall|k: int, j: int|
        0 <= k < post.n() && 0 <= j < post.r() && #[trigger] post.holds(k, j) implies post.resources@[j].holder == Some(k as usize) by {
        if k == i {
            assert(j == f || j == s2);
            if j == f {
                assert(post.resources@[f].holder == pre.resources@[f].holder);
            } else {
                assert(post.resources@[s2].holder == Some(a.id));
            }
        } else {
            assert(post.agents@[k] == pre.agents@[k]);
            assert(pre.holds(k, j));
            assert(pre.resources@[j].holder == Some(k as usize));
            assert(j != s2);
            assert(post.resources@[j].holder == pre.resources@[j].holder);
        }
    }
    assert forall|j: int|
        0 <= j < post.r() && (#[trigger] post.resources@[j]).holder is Some implies {
        let k = post.resources@[j].holder->0 as int;
        0 <= k < post.n() && post.holds(k, j)
    } by {
        assert(post.agents@[i] == stepped_agent(a, pre.hold));
        if j == s2 {
            assert(post.resources@[s2].holder == Some(a.id));
            assert(post.holds(i, s2));
        } else {
            assert(post.resources@[j].holder == pre.resources@[j].holder);
            let k = pre.resources@[j].holder->0 as int;
            assert(0 <= k < pre.n() && pre.holds(k, j));
            if k == i {
                assert(j == f);
                assert(post.holds(i, f));
            } else {
                assert(post.agents@[k] == pre.agents@[k]);
            }
        }
    }
    assert forall|j: int, q: int|
        0 <= j < post.r() && 0 <= q < post.resources@[j].waiters@.len() implies {
        let w = (#[trigger] post.resources@[j].waiters@[q]) as int;
        0 <= w < post.n() && post.waits(w, j)
    } by {
        let prew = pre.resources@[j].waiters@;
        if j == s2 {
            assert(post.resources@[s2].waiters@ == prew.drop_first());
            assert(post.resources@[j].waiters@[q] == prew[q + 1]);
            let w = prew[q + 1] as int;
            assert(prew[q + 1] == pre.resources@[j].waiters@[q + 1]);
            assert(0 <= w < pre.n() && pre.waits(w, j));
            assert(prew.no_duplicates());
            assert(prew[q + 1] != prew[0]);
            assert(w != i);
            assert(post.agents@[w] == pre.agents@[w]);
        } else {
            assert(post.resources@[j] == pre.resources@[j]);
            let w = prew[q] as int;
            assert(0 <= w < pre.n() && pre.waits(w, j));
            assert(w != i);
            assert(post.agents@[w] == pre.agents@[w]);
        }
    }
    assert forall|k: int, j: int|
        0 <= k < post.n() && 0 <= j < post.r() && #[trigger] post.waits(k, j) implies post.resources@[j].waiters@.contains(k as usize) by {
        if k == i {
            assert(post.agents@[i] == stepped_agent(a, pre.hold));
            assert(false);
        } else {
            assert(post.agents@[k] == pre.agents@[k]);
            assert(pre.waits(k, j));
            assert(pre.resources@[j].waiters@.contains(k as usize));
            if j == s2 {
                lemma_contains_after_drop_first(pre.resources@[s2].waiters@, k as usize);
            } else {
                assert(post.resources@[j] == pre.resources@[j]);
            }
        }
    }
}

proof fn lemma_wf_after_hold(pre: Simulation, post: Simulation, i: int)
    requires
        pre.wf(),
        post.wf_resources(),
        step_rel(pre, post, i),
        pre.agents@[i].phase is Holding,
    ensures
        post.wf(),
{
    let a = pre.agents@[i];
    lemma_wf_agents_after_step(pre, post, i);
    assert(post.agents@[i] == stepped_agent(a, pre.hold));
    assert forall|k: int, j: int|
        0 <= k < post.n() && 0 <= j < post.r() && #[trigger] post.holds(k, j) implies post.resources@[j].holder == Some(k as usize) by {
        if k == i {
            assert(pre.holds(i, j));
        } else {
            assert(post.agents@[k] == pre.agents@[k]);
            assert(pre.holds(k, j));
        }
    }
    assert forall|j: int|
        0 <= j < post.r() && (#[trigger] post.resources@[j]).holder is Some implies {
        let k = post.resources@[j].holder->0 as int;
        0 <= k < post.n() && post.holds(k, j)
    } by {
        let k = pre.resources@[j].holder->0 as int;
        assert(0 <= k < pre.n() && pre.holds(k, j));
        if k != i {
            assert(post.agents@[k] == pre.agents@[k]);
        }
    }
    assert forall|j: int, q: int|
        0 <= j < post.r() && 0 <= q < post.resources@[j].waiters@.len() implies {
        let w = (#[trigger] post.resources@[j].waiters@[q]) as int;
        0 <= w < post.n() && post.waits(w, j)
    } by {
        let w = pre.resources@[j].waiters@[q] as int;
        assert(0 <= w < pre.n() && pre.waits(w, j));
        assert(w != i);
        assert(post.agents@[w] == pre.agents@[w]);
    }
    assert forall|k: int, j: int|
        0 <= k < post.n() && 0 <= j < post.r() && #[trigger] post.waits(k, j) implies post.resources@[j].waiters@.contains(k as usize) by {
        assert(k != i);
        assert(post.agents@[k] == pre.agents@[k]);
        assert(pre.waits(k, j));
    }
}

proof fn lemma_wf_after_release_first(pre: Simulation, post: Simulation, i: int)
    requires
        pre.wf(),
        post.wf_resources(),
        step_rel(pre, post, i),
        pre.agents@[i].phase is ReleasingFirst,
    ensures
        post.wf(),
{
    let a = pre.agents@[i];
    let f = a.first as int;
    let s2 = a.second as int;
    let deg = a.first == a.second;
    lemma_wf_agents_after_step(pre, post, i);
    assert(post.agents@[i] == stepped_agent(a, pre.hold));
    assert(pre.holds(i, f));
    assert(pre.resources@[f].holder == Some(a.id));
    assert forall|k: int, j: int|
        0 <= k < post.n() && 0 <= j < post.r() && #[trigger] post.holds(k, j) implies post.resources@[j].holder == Some(k as usize) by {
        if k == i {
            assert(!deg && j == s2);
            assert(pre.holds(i, s2));
            assert(post.resources@[s2].holder == pre.resources@[s2].holder);
        } else {
            assert(post.agents@[k] == pre.agents@[k]);
            assert(pre.holds(k, j));
            assert(pre.resources@[j].holder == Some(k as usize));
            assert(j != f);
            assert(post.resources@[j].holder == pre.resources@[j].holder);
        }
    }
    assert forall|j: int|
        0 <= j < post.r() && (#[trigger] post.resources@[j]).holder is Some implies {
        let k = post.resources@[j].holder->0 as int;
        0 <= k < post.n() && post.holds(k, j)
    } by {
        assert(j != f);
        assert(post.resources@[j].holder == pre.resources@[j].holder);
        let k = pre.resources@[j].holder->0 as int;
        assert(0 <= k < pre.n() && pre.holds(k, j));
        if k == i {
            assert(j == s2 && !deg);
            assert(post.holds(i, s2));
        } else {
            assert(post.agents@[k] == pre.agents@[k]);
        }
    }
    assert forall|j: int, q: int|
        0 <= j < post.r() && 0 <= q < post.resources@[j].waiters@.len() implies {
        let w = (#[trigger] post.resources@[j].waiters@[q]) as int;
        0 <= w < post.n() && post.waits(w, j)
    } by {
        assert(post.resources@[j].waiters@ == pre.resources@[j].waiters@);
        let w = pre.resources@[j].waiters@[q] as int;
        assert(0 <= w < pre.n() && pre.waits(w, j));
        assert(w != i);
        assert(post.agents@[w] == pre.agents@[w]);
    }
    assert forall|k: int, j: int|
        0 <= k < post.n() && 0 <= j < post.r() && #[trigger] post.waits(k, j) implies post.resources@[j].waiters@.contains(k as usize) by {
        assert(k != i);
        assert(post.agents@[k] == pre.agents@[k]);
        assert(pre.waits(k, j));
        assert(post.resources@[j].waiters@ == pre.resources@[j].waiters@);
    }
}

proof fn lemma_wf_after_release_second(pre: Simulation, post: Simulation, i: int)
    requires
        pre.wf(),
        post.wf_resources(),
        step_rel(pre, post, i),
        pre.agents@[i].phase is ReleasingSecond,
    ensures
        post.wf(),
{
    let a = pre.agents@[i];
    let s2 = a.second as int;
    lemma_wf_agents_after_step(pre, post, i);
    assert(post.agents@[i] == stepped_agent(a, pre.hold));
    assert(a.first < a.second);
    assert(pre.holds(i, s2));
    assert(pre.resources@[s2].holder == Some(a.id));
    assert forall|k: int, j: int|
        0 <= k < post.n() && 0 <= j < post.r() && #[trigger] post.holds(k, j) implies post.resources@[j].holder == Some(k as usize) by {
        assert(k != i);
        assert(post.agents@[k] == pre.agents@[k]);
        assert(pre.holds(k, j));
        assert(pre.resources@[j].holder == Some(k as usize));
        assert(j != s2);
        assert(post.resources@[j].holder == pre.resources@[j].holder);
    }
    assert forall|j: int|
        0 <= j < post.r() && (#[trigger] post.resources@[j]).holder is Some implies {
        let k = post.resources@[j].holder->0 as int;
        0 <= k < post.n() && post.holds(k, j)
    } by {
        assert(j != s2);
        assert(post.resources@[j].holder == pre.resources@[j].holder);
        let k = pre.resources@[j].holder->0 as int;
        assert(0 <= k < pre.n() && pre.holds(k, j));
        assert(k != i);
        assert(post.agents@[k] == pre.agents@[k]);
    }
    assert forall|j: int, q: int|
        0 <= j < post.r() && 0 <= q < post.resources@[j].waiters@.len() implies {
        let w = (#[trigger] post.resources@[j].waiters@[q]) as int;
        0 <= w < post.n() && post.waits(w, j)
    } by {
        assert(post.resources@[j].waiters@ == pre.resources@[j].waiters@);
        let w = pre.resources@[j].waiters@[q] as int;
        assert(0 <= w < pre.n() && pre.waits(w, j));
        assert(w != i);
        assert(post.agents@[w] == pre.agents@[w]);
    }
    assert forall|k: int, j: int|
        0 <= k < post.n() && 0 <= j < post.r() && #[trigger] post.waits(k, j) implies post.resources@[j].waiters@.contains(k as usize) by {
        assert(k != i);
        assert(post.agents@[k] == pre.agents@[k]);
        assert(pre.waits(k, j));
        assert(post.resources@[j].waiters@ == pre.resources@[j].waiters@);
    }
}

/// Mutual exclusion law: in a well-formed configuration no resource is held
/// by two agents — whoever holds by phase is the recorded holder, and there
/// is only one holder record per resource.
pub proof fn lemma_mutual_exclusion(s: Simulation, i: int, k: int, j: int)
    requires
        s.wf(),
        0 <= i < s.n(),
        0 <= k < s.n(),
        0 <= j < s.r(),
        s.holds(i, j),
        s.holds(k, j),
    ensures
        i == k,
{
    assert(s.resources@[j].holder == Some(i as usize));
    assert(s.resources@[j].holder == Some(k as usize));
}

/// If no agent at all can move, the resource a blocked acquirer waits for
/// must be held by someone: were it free, its head waiter could move.
proof fn lemma_blocked_target_held(s: Simulation, i: int)
    requires
        s.wf(),
        forall|k: int| 0 <= k < s.n() ==> !#[trigger] s.enabled(k),
        0 <= i < s.n(),
        s.agents@[i].phase is AcquiringFirst || s.agents@[i].phase is AcquiringSecond,
    ensures
        0 <= s.target(i) < s.r(),
        s.resources@[s.target(i)].holder is Some,
{
    let a = s.agents@[i];
    let t = s.target(i);
    assert(s.waits(i, t));
    assert(s.resources@[t].waiters@.contains(a.id));
    if s.resources@[t].available {
        let q = choose|q: int|
            0 <= q < s.resources@[t].waiters@.len() && s.resources@[t].waiters@[q] == a.id;
        assert(s.resources@[t].waiters@.len() > 0);
        let h = s.resources@[t].waiters@[0];
        let hi = h as int;
        assert(0 <= hi < s.n() && s.waits(hi, t));
        assert(s.resources@[t].can_grant(h));
        assert(s.agents@[hi].id == hi);
        assert(s.enabled(hi));
        assert(false);
    }
}

/// Among the resources with ids up to `hi` that are held, returns the one
/// with the greatest id.
proof fn lemma_max_held_from(s: Simulation, hi: int) -> (jm: int)
    requires
        s.wf(),
        0 <= hi < s.r(),
        exists|j: int| 0 <= j <= hi && (#[trigger] s.resources@[j]).holder is Some,
    ensures
        0 <= jm <= hi,
        s.resources@[jm].holder is Some,
        forall|j: int| 0 <= j <= hi && (#[trigger] s.resources@[j]).holder is Some ==> j <= jm,
    decreases hi,
{
    if s.resources@[hi].holder is Some {
        hi
    } else {
        let j0 = choose|j: int| 0 <= j <= hi && (#[trigger] s.resources@[j]).holder is Some;
        assert(j0 < hi);
        lemma_max_held_from(s, hi - 1)
    }
}

/// Deadlock-freedom law (the resource-ordering argument): in a well-formed
/// configuration where some agent is unfinished, at least one agent can take
/// a step. Were every agent blocked, every blocked acquirer's target would
/// be held, and every holder would itself be an acquirer blocked on its
/// higher-id second resource; the holder of the highest held id would then
/// be waiting on a held resource with a still higher id — impossible. This
/// holds for any `n` and `r`, including `r < n` and the degenerate ring of
/// one resource, where agents fall back to a single acquire.
pub proof fn lemma_no_deadlock(s: Simulation)
    requires
        s.wf(),
        !s.all_done_spec(),
    ensures
        exists|i: int| 0 <= i < s.n() && #[trigger] s.enabled(i),
{
    if !(exists|i: int| 0 <= i < s.n() && #[trigger] s.enabled(i)) {
        assert forall|k: int| 0 <= k < s.n() implies !#[trigger] s.enabled(k) by {}
        let i0 = choose|i: int|
            0 <= i < s.n() && !((#[trigger] s.agents@[i]).phase is Done);
        assert(!s.enabled(i0));
        assert(s.agents@[i0].phase is AcquiringFirst || s.agents@[i0].phase is AcquiringSecond);
        lemma_blocked_target_held(s, i0);
        let t0 = s.target(i0);
        assert(s.resources@[t0].holder is Some);
        let jm = lemma_max_held_from(s, s.r() - 1);
        let km = s.resources@[jm].holder->0 as int;
        assert(0 <= km < s.n() && s.holds(km, jm));
        assert(!s.enabled(km));
        assert(s.agents@[km].phase is AcquiringSecond);
        assert(jm == s.agents@[km].first as int);
        assert(s.agents@[km].first < s.agents@[km].second);
        lemma_blocked_target_held(s, km);
        let t2 = s.target(km);
        assert(t2 == s.agents@[km].second as int);
        assert(s.resources@[t2].holder is Some);
        assert(t2 <= jm);
        assert(false);
    }
}

/// A step changes no agent's assignment, and moves each agent's phase either
/// not at all or to its successor: per agent, any run of the system projects
/// to a valid phase trace, so the exactly-once cycle laws of the agent module
/// apply to every agent of every run.
pub proof fn lemma_step_extends_trace(pre: Simulation, post: Simulation, i: int, k: int)
    requires
        step_rel(pre, post, i),
        0 <= k < pre.n(),
    ensures
        post.agents@[k].first == pre.agents@[k].first,
        post.agents@[k].second == pre.agents@[k].second,
        post.agents@[k].phase == pre.agents@[k].phase || post.agents@[k].phase == phase_next(
            pre.agents@[k].phase,
            pre.hold,
            pre.agents@[k].first == pre.agents@[k].second,
        ),
{
    if k != i {
        assert(post.agents@[k] == pre.agents@[k]);
    } else {
        assert(post.agents@[i] == stepped_agent(pre.agents@[i], pre.hold));
    }
}

/// FIFO fairness at system level: whenever a step hands out a resource, the
/// grantee is the head of that resource's wait queue — the request that
/// arrived before every other pending one — and the later requests keep
/// their order. With the queue laws of the resource module this gives: if
/// agent A's request was enqueued strictly before agent B's, B is never
/// granted while A still waits.
pub proof fn lemma_step_grants_head(pre: Simulation, post: Simulation, i: int, j: int)
    requires
        step_rel(pre, post, i),
        0 <= j < pre.r(),
        pre.resources@[j].holder is None,
        post.resources@[j].holder is Some,
    ensures
        pre.resources@[j].waiters@.len() > 0,
        post.resources@[j].holder == Some(pre.resources@[j].waiters@[0]),
        post.resources@[j].waiters@ == pre.resources@[j].waiters@.drop_first(),
{
    let a = pre.agents@[i];
    match a.phase {
        Phase::AcquiringFirst => {
            assert(j == a.first as int);
        },
        Phase::AcquiringSecond => {
            assert(j == a.second as int);
        },
        _ => {
            assert(false);
        },
    }
}

/// Once every agent is done, every resource is available again with an
/// empty wait queue: nothing is leaked and nothing is left pending.
pub proof fn lemma_all_done_resources_free(s: Simulation, j: int)
    requires
        s.wf(),
        s.all_done_spec(),
        0 <= j < s.r(),
    ensures
        s.resources@[j].holder is None,
        s.resources@[j].available,
        s.resources@[j].waiters@.len() == 0,
{
    if s.resources@[j].holder is Some {
        let k = s.resources@[j].holder->0 as int;
        assert(s.holds(k, j));
        assert(false);
    }
    if s.resources@[j].waiters@.len() > 0 {
        let w = s.resources@[j].waiters@[0] as int;
        assert(s.waits(w, j));
        assert(false);
    }
}

/// The observable outcome of a completed run.
#[derive(Clone, Copy, Debug, PartialEq, Eq, Structural)]
pub struct SimReport {
    /// How many agents completed their acquire-hold-release cycle.
    pub completed: usize,
}

/// Builds a system of `n` agents and `r` resources with the given hold
/// duration, drives it to completion, and reports how many cycles finished.
/// Rejects `r == 0`; for every other configuration it terminates with all
/// `n` cycles completed — no deadlock can occur.
pub fn run(n: usize, r: usize, hold: usize) -> (res: Result<SimReport, ConfigError>)
    ensures
        r == 0 <==> res is Err,
        res matches Err(e) ==> e == ConfigError::NoResources,
        res matches Ok(rep) ==> rep.completed == n,
{
    match Simulation::new(n, r, hold) {
        Ok(sim) => {
            let mut sim = sim;
            sim.run_to_done();
            Ok(SimReport { completed: sim.agents.len() })
        },
        Err(e) => Err(e),
    }
}

} // verus!
