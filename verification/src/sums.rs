//! Counting measurements and summing up their timings.

use crate::extrinsic::{trials_of, StepRepeatEntry, Trial};
use vstd::prelude::*;

verus! {

/// The sum of the extrinsic times of `trials`.
pub open spec fn extrinsic_total(trials: Seq<Trial>) -> nat
    decreases trials.len(),
{
    if trials.len() == 0 {
        0
    } else {
        extrinsic_total(trials.drop_last()) + trials.last().extrinsic_time as nat
    }
}

/// The sum of the storage root times of `trials`.
pub open spec fn storage_root_total(trials: Seq<Trial>) -> nat
    decreases trials.len(),
{
    if trials.len() == 0 {
        0
    } else {
        storage_root_total(trials.drop_last()) + trials.last().storage_root_time as nat
    }
}

/// What can be summed up: fewer than 2^32 measurements whose extrinsic
/// times, and whose storage root times, sum to less than 2^64.
pub open spec fn within_limits(count: nat, extrinsic_total: nat, storage_root_total: nat) -> bool {
    count <= u32::MAX && extrinsic_total <= u64::MAX && storage_root_total <= u64::MAX
}

/// The measurements can be summed up.
pub open spec fn summable(trials: Seq<Trial>) -> bool {
    within_limits(trials.len(), extrinsic_total(trials), storage_root_total(trials))
}

/// The first measurements sum to no more than all of them.
pub proof fn lemma_totals_grow(trials: Seq<Trial>, k: int)
    requires
        0 <= k <= trials.len(),
    ensures
        extrinsic_total(trials.take(k)) <= extrinsic_total(trials),
        storage_root_total(trials.take(k)) <= storage_root_total(trials),
    decreases trials.len(),
{
    if k == trials.len() {
        assert(trials.take(k) =~= trials);
    } else {
        lemma_totals_grow(trials.drop_last(), k);
        assert(trials.drop_last().take(k) =~= trials.take(k));
    }
}

/// One more measurement adds its timings to the sums.
pub proof fn lemma_totals_push(trials: Seq<Trial>, trial: Trial)
    ensures
        extrinsic_total(trials.push(trial)) == extrinsic_total(trials) + trial.extrinsic_time,
        storage_root_total(trials.push(trial)) == storage_root_total(trials)
            + trial.storage_root_time,
{
    assert(trials.push(trial).drop_last() =~= trials);
}

/// The sums of measurements put together are the sums of the sums.
pub proof fn lemma_totals_add(a: Seq<Trial>, b: Seq<Trial>)
    ensures
        extrinsic_total(a + b) == extrinsic_total(a) + extrinsic_total(b),
        storage_root_total(a + b) == storage_root_total(a) + storage_root_total(b),
    decreases b.len(),
{
    if b.len() == 0 {
        assert(a + b =~= a);
    } else {
        lemma_totals_add(a, b.drop_last());
        assert((a + b).drop_last() =~= a + b.drop_last());
    }
}

/// How many measurements were summed up, and what their timings sum to.
#[derive(Clone, Copy)]
pub(crate) struct Sums {
    pub(crate) count: u32,
    pub(crate) extrinsic: u64,
    pub(crate) storage_root: u64,
}

impl Sums {
    /// These are the sums of `trials`.
    pub(crate) open spec fn sums_up(self, trials: Seq<Trial>) -> bool {
        &&& self.count == trials.len()
        &&& self.extrinsic == extrinsic_total(trials)
        &&& self.storage_root == storage_root_total(trials)
    }
}

/// Sums up `trials`, if they are not more than can be summed up.
pub(crate) fn sum_up(trials: &Vec<StepRepeatEntry>) -> (res: Option<Sums>)
    ensures
        match res {
            Some(sums) => sums.sums_up(trials_of(trials@)),
            None => !summable(trials_of(trials@)),
        },
{
    let ghost all = trials_of(trials@);
    if trials.len() > u32::MAX as usize {
        return None;
    }
    let mut extrinsic: u64 = 0;
    let mut storage_root: u64 = 0;
    let mut i: usize = 0;
    proof {
        assert(all.take(0) =~= Seq::<Trial>::empty());
    }
    while i < trials.len()
        invariant
            all == trials_of(trials@),
            i <= trials@.len() <= u32::MAX,
            extrinsic == extrinsic_total(all.take(i as int)),
            storage_root == storage_root_total(all.take(i as int)),
        decreases trials@.len() - i,
    {
        let trial = &trials[i];
        proof {
            assert(all.take(i + 1).drop_last() =~= all.take(i as int));
            assert(all.take(i + 1).last() == trial@);
            lemma_totals_grow(all, i + 1);
        }
        extrinsic = match extrinsic.checked_add(trial.extrinsic_time) {
            Some(sum) => sum,
            None => {
                return None;
            },
        };
        storage_root = match storage_root.checked_add(trial.storage_root_time) {
            Some(sum) => sum,
            None => {
                return None;
            },
        };
        i = i + 1;
    }
    proof {
        assert(all.take(i as int) =~= all);
    }
    Some(Sums { count: trials.len() as u32, extrinsic, storage_root })
}

} // verus!
