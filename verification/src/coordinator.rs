//! The coordinator's lifecycle.
//!
//! Every worker steps through the same phases; only the merge point runs
//! the merging and selection phases, the others finish right after the
//! barrier once their partial tables are handed over. The runtime around
//! the engine performs each phase's outside work (scanning, the barrier,
//! the transfer) and asks [`phase_step`] for the next phase.

use vstd::prelude::*;

verus! {

#[derive(Clone, Copy, Debug, PartialEq, Eq, Structural)]
pub enum Phase {
    Init,
    Partitioned,
    Scanning,
    Barrier,
    Merging,
    Selecting,
    Done,
}

/// The phase that follows `p` for a worker that is (or is not) the merge
/// point.
pub open spec fn phase_next(p: Phase, merge_point: bool) -> Phase {
    match p {
        Phase::Init => Phase::Partitioned,
        Phase::Partitioned => Phase::Scanning,
        Phase::Scanning => Phase::Barrier,
        Phase::Barrier => if merge_point {
            Phase::Merging
        } else {
            Phase::Done
        },
        Phase::Merging => Phase::Selecting,
        Phase::Selecting => Phase::Done,
        Phase::Done => Phase::Done,
    }
}

/// One transition of the lifecycle.
pub fn phase_step(p: Phase, merge_point: bool) -> (r: Phase)
    ensures
        r == phase_next(p, merge_point),
{
    match p {
        Phase::Init => Phase::Partitioned,
        Phase::Partitioned => Phase::Scanning,
        Phase::Scanning => Phase::Barrier,
        Phase::Barrier => {
            if merge_point {
                Phase::Merging
            } else {
                Phase::Done
            }
        },
        Phase::Merging => Phase::Selecting,
        Phase::Selecting => Phase::Done,
        Phase::Done => Phase::Done,
    }
}

/// The phase reached after `n` transitions from `p`.
pub open spec fn phase_after(p: Phase, merge_point: bool, n: nat) -> Phase
    decreases n,
{
    if n == 0 {
        p
    } else {
        phase_after(phase_next(p, merge_point), merge_point, (n - 1) as nat)
    }
}

/// Every run terminates: six transitions from `Init` always end in
/// `Done`, merge point or not.
pub proof fn lemma_lifecycle_terminates(merge_point: bool)
    ensures
        phase_after(Phase::Init, merge_point, 6) == Phase::Done,
{
    reveal_with_fuel(phase_after, 7);
}

} // verus!
