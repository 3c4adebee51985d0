//! One agent's acquire-hold-release cycle as a strictly sequential state
//! machine: Idle, AcquiringFirst, AcquiringSecond, Holding, ReleasingFirst,
//! ReleasingSecond, Done. An agent with two distinct assigned resources
//! acquires the lower id first; an agent whose two assignments coincide (the
//! ring of one resource) performs a single acquire/release pair instead.

use vstd::prelude::*;
use crate::ring::Assignment;

verus! {

/// Where an agent stands in its single acquire-hold-release cycle.
#[derive(Clone, Copy, Debug, PartialEq, Eq, Structural)]
pub enum Phase {
    /// Has not yet requested anything.
    Idle,
    /// Queued on its first (lowest-id) resource.
    AcquiringFirst,
    /// Holds the first resource, queued on the second.
    AcquiringSecond,
    /// Holds everything it asked for; `remaining` simulated time units left.
    Holding { remaining: usize },
    /// Finished holding, about to put down the first-acquired resource.
    ReleasingFirst,
    /// About to put down the second-acquired resource.
    ReleasingSecond,
    /// The cycle is complete; terminal.
    Done,
}

/// One concurrent unit of work: it contends for the two ring-assigned
/// resources `first <= second` and runs exactly one cycle.
#[derive(Clone, Copy, Debug, PartialEq, Eq, Structural)]
pub struct Agent {
    pub id: usize,
    pub first: usize,
    pub second: usize,
    pub phase: Phase,
}

impl Agent {
    /// Both assignments coincide: possible only on a ring of one resource,
    /// where the agent must fall back to a single acquire/release pair.
    pub open spec fn degenerate(self) -> bool {
        self.first == self.second
    }

    /// A fresh agent at the start of its cycle, acquisition order taken from
    /// its ring assignment.
    pub fn new(id: usize, a: Assignment) -> (ag: Agent)
        ensures
            ag.id == id,
            ag.first == a.first,
            ag.second == a.second,
            ag.phase == Phase::Idle,
    {
        Agent { id, first: a.first, second: a.second, phase: Phase::Idle }
    }
}

/// How far along its cycle a phase is. Strictly ordered along the chain; the
/// countdown inside `Holding` does not change the rank.
pub open spec fn phase_rank(p: Phase) -> nat {
    match p {
        Phase::Idle => 0,
        Phase::AcquiringFirst => 1,
        Phase::AcquiringSecond => 2,
        Phase::Holding { .. } => 3,
        Phase::ReleasingFirst => 4,
        Phase::ReleasingSecond => 5,
        Phase::Done => 6,
    }
}

/// The deterministic successor of a phase, once the step it is waiting for
/// happens. `hold` is the configured hold duration; `degenerate` says whether
/// the agent's two assignments coincide (then the second acquire and the
/// second release are skipped). `Done` is terminal.
pub open spec fn phase_next(p: Phase, hold: usize, degenerate: bool) -> Phase {
    match p {
        Phase::Idle => Phase::AcquiringFirst,
        Phase::AcquiringFirst => if degenerate {
            Phase::Holding { remaining: hold }
        } else {
            Phase::AcquiringSecond
        },
        Phase::AcquiringSecond => Phase::Holding { remaining: hold },
        Phase::Holding { remaining } => if remaining > 0 {
            Phase::Holding { remaining: (remaining - 1) as usize }
        } else {
            Phase::ReleasingFirst
        },
        Phase::ReleasingFirst => if degenerate {
            Phase::Done
        } else {
            Phase::ReleasingSecond
        },
        Phase::ReleasingSecond => Phase::Done,
        Phase::Done => Phase::Done,
    }
}

/// How many steps a phase is from `Done`: the termination measure of one
/// agent. Every transition strictly decreases it.
pub open spec fn phase_measure(p: Phase, hold: usize) -> nat {
    match p {
        Phase::Idle => (hold + 6) as nat,
        Phase::AcquiringFirst => (hold + 5) as nat,
        Phase::AcquiringSecond => (hold + 4) as nat,
        Phase::Holding { remaining } => (remaining + 3) as nat,
        Phase::ReleasingFirst => 2,
        Phase::ReleasingSecond => 1,
        Phase::Done => 0,
    }
}

/// Every transition out of a non-terminal phase strictly shrinks the measure.
pub proof fn lemma_phase_measure_decreases(p: Phase, hold: usize, degenerate: bool)
    requires
        !(p is Done),
    ensures
        phase_measure(phase_next(p, hold, degenerate), hold) < phase_measure(p, hold),
{
}

/// The rank never moves backwards: a transition keeps it or raises it.
pub proof fn lemma_phase_rank_nondecreasing(p: Phase, hold: usize, degenerate: bool)
    ensures
        phase_rank(p) <= phase_rank(phase_next(p, hold, degenerate)),
{
}

/// A trace of one agent's observed phases: it starts `Idle`, and at each
/// instant the phase either stays (the agent was blocked or not scheduled) or
/// moves to its successor.
pub open spec fn valid_trace(t: Seq<Phase>, hold: usize, degenerate: bool) -> bool {
    &&& t.len() > 0
    &&& t[0] == Phase::Idle
    &&& forall|k: int|
        0 <= k < t.len() - 1 ==> t[k + 1] == t[k] || t[k + 1] == phase_next(
            t[k],
            hold,
            degenerate,
        )
}

/// At instant `k` the trace crosses the stage boundary `rho`: the agent's
/// rank was below `rho` and reaches at least `rho` one step later. Crossing
/// boundary 1 is the unique start of the first acquisition, 2 of the second,
/// 3 the grant that begins the hold, 4 and 5 the two releases, 6 completion.
pub open spec fn crosses(t: Seq<Phase>, k: int, rho: nat) -> bool {
    &&& 0 <= k < t.len() - 1
    &&& phase_rank(t[k]) < rho
    &&& rho <= phase_rank(t[k + 1])
}

/// Along a valid trace the rank is monotone: an agent never revisits an
/// earlier stage of its cycle.
pub proof fn lemma_rank_monotone(t: Seq<Phase>, hold: usize, degenerate: bool, a: int, b: int)
    requires
        valid_trace(t, hold, degenerate),
        0 <= a <= b < t.len(),
    ensures
        phase_rank(t[a]) <= phase_rank(t[b]),
    decreases b - a,
{
    if a < b {
        lemma_rank_monotone(t, hold, degenerate, a, b - 1);
        lemma_phase_rank_nondecreasing(t[b - 1], hold, degenerate);
    }
}

/// Exactly-once cycle law, uniqueness half: no stage boundary is crossed
/// twice, so there is no second acquire, hold, or release within one cycle.
pub proof fn lemma_stage_crossed_at_most_once(
    t: Seq<Phase>,
    hold: usize,
    degenerate: bool,
    rho: nat,
    k1: int,
    k2: int,
)
    requires
        valid_trace(t, hold, degenerate),
        crosses(t, k1, rho),
        crosses(t, k2, rho),
    ensures
        k1 == k2,
{
    if k1 < k2 {
        lemma_rank_monotone(t, hold, degenerate, k1 + 1, k2);
        assert(false);
    }
    if k2 < k1 {
        lemma_rank_monotone(t, hold, degenerate, k2 + 1, k1);
        assert(false);
    }
}

/// Exactly-once cycle law, existence half: a trace that ends `Done` crossed
/// every stage boundary of the cycle at some instant.
pub proof fn lemma_stage_crossed_at_least_once(
    t: Seq<Phase>,
    hold: usize,
    degenerate: bool,
    rho: nat,
)
    requires
        valid_trace(t, hold, degenerate),
        t.last() is Done,
        1 <= rho <= 6,
    ensures
        exists|k: int| crosses(t, k, rho),
{
    lemma_crossing_in_range(t, hold, degenerate, rho, 0, t.len() - 1);
}

/// If the rank sits below `rho` at instant `a` and at or above it at `b`,
/// some step in between crossed the boundary.
proof fn lemma_crossing_in_range(
    t: Seq<Phase>,
    hold: usize,
    degenerate: bool,
    rho: nat,
    a: int,
    b: int,
)
    requires
        valid_trace(t, hold, degenerate),
        0 <= a < b < t.len(),
        phase_rank(t[a]) < rho,
        rho <= phase_rank(t[b]),
    ensures
        exists|k: int| a <= k < b && crosses(t, k, rho),
    decreases b - a,
{
    if phase_rank(t[b - 1]) < rho {
        assert(crosses(t, b - 1, rho));
    } else {
        lemma_crossing_in_range(t, hold, degenerate, rho, a, b - 1);
    }
}

} // verus!
