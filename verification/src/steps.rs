//! How the measurements of a collection fall into the step table.
//!
//! The measurements are grouped by extrinsic, that is by the names of pallet
//! and extrinsic together, whichever result they came with. Within an
//! extrinsic they are grouped by step: by the values of the input variables
//! they were made at. Groups and steps stand in the order in which their
//! first measurement was pushed.

use crate::collection::{operations_of, ExtrinsicCollectionError};
use crate::extrinsic::{trials_of, ExtrinsicResult, Operation, StepRepeatEntry, Trial};
use crate::numeric::{divide_rounded, lemma_round_div_bounded, round_div, PERCENT_SCALE, SCALE};
use crate::sums::{
    extrinsic_total, lemma_totals_add, lemma_totals_push, storage_root_total, summable, Sums,
};
use crate::tables::{step_rows_of, StepGroup, StepIncr, StepIncrTableEntry, StepRow};
use vstd::prelude::*;

verus! {

/// What names an extrinsic.
pub struct GroupKey {
    pub pallet: Seq<char>,
    pub extrinsic: Seq<char>,
}

/// The name of the extrinsic that a result belongs to.
pub open spec fn key_of(op: Operation) -> GroupKey {
    GroupKey { pallet: op.pallet, extrinsic: op.extrinsic }
}

/// The extrinsics that `ops` hold measurements of, each once, in the order
/// of their first result that has a measurement.
pub open spec fn group_keys(ops: Seq<Operation>) -> Seq<GroupKey>
    decreases ops.len(),
{
    if ops.len() == 0 {
        Seq::<GroupKey>::empty()
    } else {
        let before = group_keys(ops.drop_last());
        if ops.last().trials.len() == 0 || before.contains(key_of(ops.last())) {
            before
        } else {
            before.push(key_of(ops.last()))
        }
    }
}

/// All measurements of the extrinsic `key` in `ops`, in order.
pub open spec fn group_trials(ops: Seq<Operation>, key: GroupKey) -> Seq<Trial>
    decreases ops.len(),
{
    if ops.len() == 0 {
        Seq::<Trial>::empty()
    } else if key_of(ops.last()) == key {
        group_trials(ops.drop_last(), key) + ops.last().trials
    } else {
        group_trials(ops.drop_last(), key)
    }
}

/// The steps that `trials` were made at, each once, in the order of their
/// first measurement.
pub open spec fn step_keys(trials: Seq<Trial>) -> Seq<Seq<u64>>
    decreases trials.len(),
{
    if trials.len() == 0 {
        Seq::<Seq<u64>>::empty()
    } else {
        let before = step_keys(trials.drop_last());
        if before.contains(trials.last().input_vars) {
            before
        } else {
            before.push(trials.last().input_vars)
        }
    }
}

/// Whether a measurement was made at the step `vars`.
pub open spec fn at_step(vars: Seq<u64>) -> spec_fn(Trial) -> bool {
    |trial: Trial| trial.input_vars == vars
}

/// Those of `trials` that were made at the step `vars`.
pub open spec fn step_trials(trials: Seq<Trial>, vars: Seq<u64>) -> Seq<Trial> {
    trials.filter(at_step(vars))
}

/// The average of `count` measurements that sum to `total`, in
/// ten-thousandths, rounded.
pub open spec fn average(total: nat, count: nat) -> nat {
    round_div(total * SCALE, count as int) as nat
}

/// By how many percent `value` lies above `lowest`, in ten-thousandths of a
/// percent, rounded.
pub open spec fn increase(value: nat, lowest: nat) -> nat {
    round_div((value - lowest) * PERCENT_SCALE, lowest as int) as nat
}

/// The least of `values`.
pub open spec fn least(values: Seq<nat>) -> nat
    decreases values.len(),
{
    if values.len() == 0 {
        0
    } else if values.len() == 1 {
        values[0]
    } else {
        let before = least(values.drop_last());
        if values.last() < before {
            values.last()
        } else {
            before
        }
    }
}

/// The average extrinsic time of each step of `trials`, in the order of the
/// steps.
pub open spec fn extrinsic_averages(trials: Seq<Trial>) -> Seq<nat> {
    let keys = step_keys(trials);
    Seq::new(
        keys.len(),
        |i: int|
            average(
                extrinsic_total(step_trials(trials, keys[i])),
                step_trials(trials, keys[i]).len(),
            ),
    )
}

/// The average storage root time of each step of `trials`, in the order of
/// the steps.
pub open spec fn storage_root_averages(trials: Seq<Trial>) -> Seq<nat> {
    let keys = step_keys(trials);
    Seq::new(
        keys.len(),
        |i: int|
            average(
                storage_root_total(step_trials(trials, keys[i])),
                step_trials(trials, keys[i]).len(),
            ),
    )
}

/// The steps of an extrinsic whose measurements are `trials`. Each average
/// is compared with the lowest average of its kind among these steps, and
/// with nothing else.
pub open spec fn step_rows(trials: Seq<Trial>) -> Seq<StepRow> {
    let keys = step_keys(trials);
    let extrinsic = extrinsic_averages(trials);
    let storage_root = storage_root_averages(trials);
    Seq::new(
        keys.len(),
        |i: int|
            StepRow {
                input_vars: keys[i],
                avg_extrinsic_time: extrinsic[i],
                avg_storage_root_time: storage_root[i],
                extrinsic_incr_percentage: increase(extrinsic[i], least(extrinsic)),
                storage_root_incr_percentage: increase(storage_root[i], least(storage_root)),
            },
    )
}

/// The extrinsic `key` in the step table of `ops`.
pub open spec fn step_group(ops: Seq<Operation>, key: GroupKey) -> StepGroup {
    StepGroup {
        pallet: key.pallet,
        extrinsic: key.extrinsic,
        steps: step_rows(group_trials(ops, key)),
    }
}

/// The extrinsics of the step table of `ops`, in order.
pub open spec fn step_groups(ops: Seq<Operation>) -> Seq<StepGroup> {
    let keys = group_keys(ops);
    Seq::new(keys.len(), |g: int| step_group(ops, keys[g]))
}

/// The measurements of the extrinsic `key` at the step `vars` can be summed
/// up.
pub open spec fn step_summable(ops: Seq<Operation>, key: GroupKey, vars: Seq<u64>) -> bool {
    summable(step_trials(group_trials(ops, key), vars))
}

/// Whether some step of some extrinsic has more than can be summed up.
pub open spec fn some_step_overflows(ops: Seq<Operation>) -> bool {
    exists|key: GroupKey, vars: Seq<u64>| !#[trigger] step_summable(ops, key, vars)
}

/// Whether the steps of an extrinsic whose measurements are `trials` have
/// nothing but zero to be compared with: the lowest average extrinsic time,
/// or the lowest average storage root time, is zero.
pub open spec fn lowest_is_zero(trials: Seq<Trial>) -> bool {
    least(extrinsic_averages(trials)) == 0 || least(storage_root_averages(trials)) == 0
}

/// Whether some extrinsic has nothing but zero to compare its steps with.
pub open spec fn some_lowest_is_zero(ops: Seq<Operation>) -> bool {
    exists|g: int|
        0 <= g < group_keys(ops).len() && lowest_is_zero(
            group_trials(ops, #[trigger] group_keys(ops)[g]),
        )
}

/// The step table of `ops`, or why there is none.
///
/// There is none where some step has more than can be summed up, nor where
/// some extrinsic has nothing but zero to compare its steps with, which
/// would ask for a division by zero.
pub open spec fn steps_overview(ops: Seq<Operation>) -> Result<
    Seq<StepGroup>,
    ExtrinsicCollectionError,
> {
    if some_step_overflows(ops) {
        Err(ExtrinsicCollectionError::Overflow)
    } else if some_lowest_is_zero(ops) {
        Err(ExtrinsicCollectionError::EmptyResults)
    } else {
        Ok(step_groups(ops))
    }
}

/// One more measurement joins the step it was made at, and no other.
pub proof fn lemma_step_trials_push(trials: Seq<Trial>, trial: Trial, vars: Seq<u64>)
    ensures
        step_trials(trials.push(trial), vars) == if trial.input_vars == vars {
            step_trials(trials, vars).push(trial)
        } else {
            step_trials(trials, vars)
        },
{
    reveal(Seq::filter);
    assert(trials.push(trial).drop_last() =~= trials);
}

/// The measurements of a step among measurements put together are those of
/// the step in each part, put together.
pub proof fn lemma_step_trials_add(a: Seq<Trial>, b: Seq<Trial>, vars: Seq<u64>)
    ensures
        step_trials(a + b, vars) == step_trials(a, vars) + step_trials(b, vars),
{
    Seq::filter_distributes_over_add(a, b, at_step(vars));
}

/// A step that has more than can be summed up still has when measurements
/// are added behind.
pub proof fn lemma_overflow_stays(a: Seq<Trial>, b: Seq<Trial>, vars: Seq<u64>)
    requires
        !summable(step_trials(a, vars)),
    ensures
        !summable(step_trials(a + b, vars)),
{
    lemma_step_trials_add(a, b, vars);
    lemma_totals_add(step_trials(a, vars), step_trials(b, vars));
}

/// The steps of more measurements begin with the steps of the first of
/// them.
pub proof fn lemma_step_keys_push(trials: Seq<Trial>, trial: Trial)
    ensures
        step_keys(trials.push(trial)) == if step_keys(trials).contains(trial.input_vars) {
            step_keys(trials)
        } else {
            step_keys(trials).push(trial.input_vars)
        },
{
    assert(trials.push(trial).drop_last() =~= trials);
}

/// No step stands twice among the steps, a setting at which no measurement
/// was made is no step, and at every step a measurement was made.
pub proof fn lemma_step_keys(trials: Seq<Trial>)
    ensures
        step_keys(trials).no_duplicates(),
        forall|vars: Seq<u64>|
            !step_keys(trials).contains(vars) ==> #[trigger] step_trials(trials, vars)
                == Seq::<Trial>::empty(),
        forall|i: int|
            0 <= i < step_keys(trials).len() ==> step_trials(
                trials,
                #[trigger] step_keys(trials)[i],
            ).len() > 0,
    decreases trials.len(),
{
    if trials.len() == 0 {
        assert forall|vars: Seq<u64>| #[trigger]
            step_trials(trials, vars) == Seq::<Trial>::empty() by {
            reveal(Seq::filter);
            assert(trials.filter(at_step(vars)) =~= Seq::<Trial>::empty());
        }
    } else {
        let front = trials.drop_last();
        let last = trials.last();
        let before = step_keys(front);
        let keys = step_keys(trials);
        lemma_step_keys(front);
        assert(front.push(last) =~= trials);
        assert forall|vars: Seq<u64>| !keys.contains(vars) implies #[trigger] step_trials(
            trials,
            vars,
        ) == Seq::<Trial>::empty() by {
            lemma_step_trials_push(front, last, vars);
            if before.contains(vars) {
                let i = choose|i: int| 0 <= i < before.len() && before[i] == vars;
                assert(keys[i] == vars);
            }
            if last.input_vars == vars {
                if before.contains(vars) {
                } else {
                    assert(keys[before.len() as int] == vars);
                }
            }
        }
        assert forall|i: int| 0 <= i < keys.len() implies step_trials(
            trials,
            #[trigger] keys[i],
        ).len() > 0 by {
            lemma_step_trials_push(front, last, keys[i]);
            if i < before.len() {
                assert(keys[i] == before[i]);
            }
        }
    }
}

/// The results of more than `i` benchmark files hold, of each extrinsic,
/// what the first `i` hold and then what the others hold.
pub proof fn lemma_group_trials_split(ops: Seq<Operation>, i: int, key: GroupKey)
    requires
        0 <= i <= ops.len(),
    ensures
        group_trials(ops, key) == group_trials(ops.take(i), key) + group_trials(ops.skip(i), key),
    decreases ops.len() - i,
{
    if i == ops.len() {
        assert(ops.take(i) =~= ops);
        assert(ops.skip(i) =~= Seq::<Operation>::empty());
        assert(group_trials(ops, key) + Seq::<Trial>::empty() =~= group_trials(ops, key));
    } else {
        let front = ops.drop_last();
        lemma_group_trials_split(front, i, key);
        assert(front.take(i) =~= ops.take(i));
        assert(front.skip(i) =~= ops.skip(i).drop_last());
        assert(ops.skip(i).last() == ops.last());
        if key_of(ops.last()) == key {
            assert(group_trials(ops.take(i), key) + (group_trials(front.skip(i), key)
                + ops.last().trials) =~= group_trials(ops.take(i), key) + group_trials(
                front.skip(i),
                key,
            ) + ops.last().trials);
        }
    }
}

/// No extrinsic stands twice among the groups, and an extrinsic that is not
/// among them has no measurement.
pub proof fn lemma_group_keys(ops: Seq<Operation>)
    ensures
        group_keys(ops).no_duplicates(),
        forall|key: GroupKey|
            !group_keys(ops).contains(key) ==> #[trigger] group_trials(ops, key)
                == Seq::<Trial>::empty(),
    decreases ops.len(),
{
    if ops.len() > 0 {
        let front = ops.drop_last();
        let last = ops.last();
        let before = group_keys(front);
        let keys = group_keys(ops);
        lemma_group_keys(front);
        assert forall|key: GroupKey| !keys.contains(key) implies #[trigger] group_trials(
            ops,
            key,
        ) == Seq::<Trial>::empty() by {
            if before.contains(key) {
                let i = choose|i: int| 0 <= i < before.len() && before[i] == key;
                assert(keys[i] == key);
                assert(keys.contains(key));
            }
            assert(group_trials(front, key) == Seq::<Trial>::empty());
            if key_of(last) == key {
                if last.trials.len() == 0 {
                    assert(group_trials(front, key) + last.trials =~= Seq::<Trial>::empty());
                } else {
                    assert(keys[before.len() as int] == key);
                    assert(keys.contains(key));
                }
            }
        }
    }
}

/// Every extrinsic of the step table has a measurement, and so a step.
pub proof fn lemma_groups_have_steps(ops: Seq<Operation>)
    ensures
        forall|g: int|
            0 <= g < group_keys(ops).len() ==> group_trials(
                ops,
                #[trigger] group_keys(ops)[g],
            ).len() > 0 && step_keys(group_trials(ops, group_keys(ops)[g])).len() > 0,
    decreases ops.len(),
{
    if ops.len() > 0 {
        let front = ops.drop_last();
        let before = group_keys(front);
        let keys = group_keys(ops);
        lemma_groups_have_steps(front);
        assert forall|g: int| 0 <= g < keys.len() implies group_trials(
            ops,
            #[trigger] keys[g],
        ).len() > 0 && step_keys(group_trials(ops, keys[g])).len() > 0 by {
            if g < before.len() {
                assert(keys[g] == before[g]);
                assert(group_trials(front, before[g]).len() > 0);
            }
            let own = group_trials(ops, keys[g]);
            assert(own.len() > 0);
            if step_keys(own.drop_last()).contains(own.last().input_vars) {
            }
        }
    }
}

/// The steps of an extrinsic come from its own measurements alone: two
/// collections that hold the same measurements of it give it the same
/// steps, with the same averages and increases, whatever else they hold.
pub proof fn lemma_group_stands_alone(a: Seq<Operation>, b: Seq<Operation>, key: GroupKey)
    requires
        group_trials(a, key) == group_trials(b, key),
    ensures
        step_group(a, key) == step_group(b, key),
{
}

/// A result of one extrinsic changes nothing for another: with it or
/// without it the other extrinsic has the same steps, with the same
/// averages and increases.
pub proof fn lemma_other_results_change_nothing(
    ops: Seq<Operation>,
    other: Operation,
    key: GroupKey,
)
    requires
        key_of(other) != key,
    ensures
        step_group(ops.push(other), key) == step_group(ops, key),
{
    assert(ops.push(other).drop_last() =~= ops);
}

/// Each extrinsic of the step table holds the steps of its own
/// measurements.
pub proof fn lemma_step_table_groups(ops: Seq<Operation>, g: int)
    requires
        0 <= g < group_keys(ops).len(),
    ensures
        step_groups(ops).len() == group_keys(ops).len(),
        step_groups(ops)[g] == step_group(ops, group_keys(ops)[g]),
        step_groups(ops)[g].steps == step_rows(group_trials(ops, group_keys(ops)[g])),
{
}

/// The least of some values is one of them and above none of them.
pub proof fn lemma_least(values: Seq<nat>)
    requires
        values.len() > 0,
    ensures
        values.contains(least(values)),
        forall|i: int| 0 <= i < values.len() ==> least(values) <= #[trigger] values[i],
    decreases values.len(),
{
    if values.len() == 1 {
        assert(values[0] == least(values));
    } else {
        let front = values.drop_last();
        lemma_least(front);
        let i = choose|i: int| 0 <= i < front.len() && front[i] == least(front);
        assert(values[i] == least(front));
        assert(values[values.len() - 1] == values.last());
        assert forall|i: int| 0 <= i < values.len() implies least(values)
            <= #[trigger] values[i] by {
            if i < front.len() {
                assert(front[i] == values[i]);
            }
        }
    }
}

/// The same numbers, as contracts count.
pub(crate) open spec fn naturals(values: Seq<u128>) -> Seq<nat> {
    Seq::new(values.len(), |i: int| values[i] as nat)
}

/// The least of `values`; zero where there are none.
pub(crate) fn lowest(values: &Vec<u128>) -> (low: u128)
    ensures
        low == least(naturals(values@)),
{
    if values.len() == 0 {
        return 0;
    }
    let ghost all = naturals(values@);
    let mut low = values[0];
    let mut i: usize = 1;
    proof {
        assert(all.take(1).len() == 1);
    }
    while i < values.len()
        invariant
            all == naturals(values@),
            1 <= i <= values@.len(),
            low == least(all.take(i as int)),
        decreases values@.len() - i,
    {
        proof {
            assert(all.take(i + 1).drop_last() =~= all.take(i as int));
            assert(all.take(i + 1).last() == values@[i as int]);
        }
        if values[i] < low {
            low = values[i];
        }
        i = i + 1;
    }
    proof {
        assert(all.take(i as int) =~= all);
    }
    low
}

/// Where among `steps` the step `vars` stands, if it does.
fn step_position(steps: &Vec<Vec<u64>>, vars: &Vec<u64>) -> (found: Option<usize>)
    ensures
        match found {
            Some(i) => i < steps@.len() && steps@[i as int]@ == vars@,
            None => forall|j: int| 0 <= j < steps@.len() ==> (#[trigger] steps@[j])@ != vars@,
        },
{
    let mut i: usize = 0;
    while i < steps.len()
        invariant
            i <= steps@.len(),
            forall|j: int| 0 <= j < i ==> (#[trigger] steps@[j])@ != vars@,
        decreases steps@.len() - i,
    {
        let same = &steps[i] == vars;
        proof {
            if same {
                assert(steps@[i as int]@ =~= vars@);
            }
        }
        if same {
            return Some(i);
        }
        i = i + 1;
    }
    None
}

/// The measurements of one extrinsic, summed up step by step.
pub(crate) struct GroupSums {
    pub(crate) pallet: String,
    pub(crate) extrinsic: String,
    /// The steps, in the order of their first measurement.
    pub(crate) steps: Vec<Vec<u64>>,
    /// The sums of each step, in the order of the steps.
    pub(crate) sums: Vec<Sums>,
}

impl GroupSums {
    /// The name of the extrinsic.
    pub(crate) open spec fn key(&self) -> GroupKey {
        GroupKey { pallet: self.pallet@, extrinsic: self.extrinsic@ }
    }

    /// These are the steps of `trials` and the sums of each.
    pub(crate) open spec fn sums_up(&self, trials: Seq<Trial>) -> bool {
        let keys = step_keys(trials);
        &&& self.steps@.len() == keys.len()
        &&& self.sums@.len() == keys.len()
        &&& forall|i: int| 0 <= i < keys.len() ==> (#[trigger] self.steps@[i])@ == keys[i]
        &&& forall|i: int|
            0 <= i < keys.len() ==> (#[trigger] self.sums@[i]).sums_up(
                step_trials(trials, keys[i]),
            )
    }

    /// Adds one measurement to the sums of its step, unless the step then
    /// has more than can be summed up. `trials` are the measurements
    /// summed up so far.
    fn add(&mut self, entry: &StepRepeatEntry, Ghost(trials): Ghost<Seq<Trial>>) -> (added: bool)
        requires
            old(self).sums_up(trials),
        ensures
            final(self).key() == old(self).key(),
            added ==> final(self).sums_up(trials.push(entry@)),
            !added ==> !summable(step_trials(trials.push(entry@), entry@.input_vars)),
    {
        let ghost keys = step_keys(trials);
        let ghost trial = entry@;
        let ghost vars = trial.input_vars;
        let ghost more = trials.push(trial);
        proof {
            lemma_step_keys(trials);
            lemma_step_keys_push(trials, trial);
            lemma_step_trials_push(trials, trial, vars);
            lemma_totals_push(step_trials(trials, vars), trial);
            assert forall|j: int| 0 <= j < keys.len() implies step_trials(more, #[trigger] keys[j])
                == if keys[j] == vars {
                step_trials(trials, vars).push(trial)
            } else {
                step_trials(trials, keys[j])
            } by {
                lemma_step_trials_push(trials, trial, keys[j]);
            }
        }
        match step_position(&self.steps, &entry.input_vars) {
            Some(i) => {
                let sums = self.sums[i];
                proof {
                    assert(self.steps@[i as int]@ == keys[i as int]);
                    assert(keys[i as int] == vars);
                    assert(keys.contains(vars));
                    assert(sums.sums_up(step_trials(trials, keys[i as int])));
                }
                if sums.count == u32::MAX {
                    return false;
                }
                let extrinsic = match sums.extrinsic.checked_add(entry.extrinsic_time) {
                    Some(sum) => sum,
                    None => {
                        return false;
                    },
                };
                let storage_root = match sums.storage_root.checked_add(entry.storage_root_time) {
                    Some(sum) => sum,
                    None => {
                        return false;
                    },
                };
                self.sums[i] = Sums { count: sums.count + 1, extrinsic, storage_root };
                proof {
                    assert forall|j: int| 0 <= j < keys.len() implies (
                    #[trigger] self.sums@[j]).sums_up(step_trials(more, keys[j])) by {
                        if j != i {
                            assert(self.sums@[j] == old(self).sums@[j]);
                            assert(keys[j] != keys[i as int]);
                        }
                    }
                }
                true
            },
            None => {
                proof {
                    assert(!keys.contains(vars)) by {
                        if keys.contains(vars) {
                            let j = choose|j: int| 0 <= j < keys.len() && keys[j] == vars;
                            assert(self.steps@[j]@ == keys[j]);
                        }
                    }
                    assert(step_trials(trials, vars) == Seq::<Trial>::empty());
                    assert(Seq::<Trial>::empty().push(trial).len() == 1);
                }
                let copy = entry.input_vars.clone();
                proof {
                    assert(copy@ =~= vars);
                }
                self.steps.push(copy);
                self.sums.push(
                    Sums {
                        count: 1,
                        extrinsic: entry.extrinsic_time,
                        storage_root: entry.storage_root_time,
                    },
                );
                proof {
                    let new_keys = step_keys(more);
                    assert(new_keys == keys.push(vars));
                    assert forall|j: int| 0 <= j < new_keys.len() implies (
                    #[trigger] self.steps@[j])@ == new_keys[j] by {
                        if j < keys.len() {
                            assert(self.steps@[j] == old(self).steps@[j]);
                        }
                    }
                    assert forall|j: int| 0 <= j < new_keys.len() implies (
                    #[trigger] self.sums@[j]).sums_up(step_trials(more, new_keys[j])) by {
                        if j < keys.len() {
                            assert(self.sums@[j] == old(self).sums@[j]);
                            assert(new_keys[j] == keys[j]);
                            assert(keys.contains(keys[j]));
                        }
                    }
                }
                true
            },
        }
    }

    /// Adds the measurements of one result, unless some step then has more
    /// than can be summed up. `trials` are the measurements summed up so
    /// far.
    fn add_all(
        &mut self,
        entries: &Vec<StepRepeatEntry>,
        Ghost(trials): Ghost<Seq<Trial>>,
    ) -> (added: bool)
        requires
            old(self).sums_up(trials),
        ensures
            final(self).key() == old(self).key(),
            added ==> final(self).sums_up(trials + trials_of(entries@)),
            !added ==> some_step_unsummable(trials + trials_of(entries@)),
    {
        let ghost new = trials_of(entries@);
        let mut j: usize = 0;
        proof {
            assert(trials + new.take(0) =~= trials);
        }
        while j < entries.len()
            invariant
                new == trials_of(entries@),
                j <= entries@.len(),
                self.key() == old(self).key(),
                self.sums_up(trials + new.take(j as int)),
            decreases entries@.len() - j,
        {
            let ghost seen = trials + new.take(j as int);
            let entry = &entries[j];
            proof {
                assert(seen.push(entry@) =~= trials + new.take(j + 1));
            }
            if !self.add(entry, Ghost(seen)) {
                proof {
                    lemma_overflow_stays(
                        trials + new.take(j + 1),
                        new.skip(j + 1),
                        entry@.input_vars,
                    );
                    assert((trials + new.take(j + 1)) + new.skip(j + 1) =~= trials + new);
                }
                return false;
            }
            j = j + 1;
        }
        proof {
            assert(new.take(j as int) =~= new);
        }
        true
    }

    /// The extrinsic's entry in the step table, unless it has nothing but
    /// zero to compare its steps with. `trials` are the measurements that
    /// were summed up.
    pub(crate) fn entry(&self, Ghost(trials): Ghost<Seq<Trial>>) -> (res: Option<
        StepIncrTableEntry,
    >)
        requires
            self.sums_up(trials),
        ensures
            match res {
                Some(entry) => !lowest_is_zero(trials) && entry@ == (StepGroup {
                    pallet: self.pallet@,
                    extrinsic: self.extrinsic@,
                    steps: step_rows(trials),
                }),
                None => lowest_is_zero(trials),
            },
    {
        let ghost keys = step_keys(trials);
        let len = self.sums.len();
        let mut extrinsic: Vec<u128> = Vec::new();
        let mut storage_root: Vec<u128> = Vec::new();
        let mut i: usize = 0;
        proof {
            lemma_step_keys(trials);
        }
        while i < len
            invariant
                self.sums_up(trials),
                keys == step_keys(trials),
                len == keys.len(),
                forall|i: int|
                    0 <= i < keys.len() ==> step_trials(trials, #[trigger] keys[i]).len() > 0,
                i <= len,
                extrinsic@.len() == i,
                storage_root@.len() == i,
                forall|j: int|
                    0 <= j < i ==> #[trigger] extrinsic@[j] == extrinsic_averages(trials)[j]
                        && extrinsic@[j] <= u64::MAX * SCALE,
                forall|j: int|
                    0 <= j < i ==> #[trigger] storage_root@[j] == storage_root_averages(trials)[j]
                        && storage_root@[j] <= u64::MAX * SCALE,
            decreases len - i,
        {
            let sums = self.sums[i];
            proof {
                assert(sums.sums_up(step_trials(trials, keys[i as int])));
                assert(sums.extrinsic * SCALE <= u64::MAX * SCALE <= u128::MAX
                    && sums.storage_root * SCALE <= u64::MAX * SCALE) by (nonlinear_arith)
                    requires
                        sums.extrinsic <= u64::MAX,
                        sums.storage_root <= u64::MAX,
                        SCALE == 10_000,
                ;
                lemma_round_div_bounded(sums.extrinsic * SCALE, sums.count as int);
                lemma_round_div_bounded(sums.storage_root * SCALE, sums.count as int);
            }
            extrinsic.push(divide_rounded(sums.extrinsic as u128 * SCALE, sums.count as u128));
            storage_root.push(
                divide_rounded(sums.storage_root as u128 * SCALE, sums.count as u128),
            );
            i = i + 1;
        }
        proof {
            assert(naturals(extrinsic@) =~= extrinsic_averages(trials));
            assert(naturals(storage_root@) =~= storage_root_averages(trials));
        }
        let lowest_extrinsic = lowest(&extrinsic);
        let lowest_storage_root = lowest(&storage_root);
        if lowest_extrinsic == 0 || lowest_storage_root == 0 {
            return None;
        }
        proof {
            lemma_least(extrinsic_averages(trials));
            lemma_least(storage_root_averages(trials));
        }
        let mut step_incrs: Vec<StepIncr> = Vec::new();
        let mut i: usize = 0;
        while i < len
            invariant
                self.sums_up(trials),
                keys == step_keys(trials),
                len == keys.len(),
                extrinsic@.len() == len,
                storage_root@.len() == len,
                naturals(extrinsic@) == extrinsic_averages(trials),
                naturals(storage_root@) == storage_root_averages(trials),
                forall|j: int| 0 <= j < len ==> #[trigger] extrinsic@[j] <= u64::MAX * SCALE,
                forall|j: int| 0 <= j < len ==> #[trigger] storage_root@[j] <= u64::MAX * SCALE,
                lowest_extrinsic == least(extrinsic_averages(trials)),
                lowest_storage_root == least(storage_root_averages(trials)),
                lowest_extrinsic > 0,
                lowest_storage_root > 0,
                forall|j: int|
                    0 <= j < len ==> lowest_extrinsic <= #[trigger] extrinsic_averages(trials)[j],
                forall|j: int|
                    0 <= j < len ==> lowest_storage_root <= #[trigger] storage_root_averages(
                        trials,
                    )[j],
                i <= len,
                step_incrs@.len() == i,
                step_rows_of(step_incrs@) == step_rows(trials).take(i as int),
            decreases len - i,
        {
            let avg_extrinsic_time = extrinsic[i];
            let avg_storage_root_time = storage_root[i];
            proof {
                assert(naturals(extrinsic@)[i as int] == avg_extrinsic_time);
                assert(naturals(storage_root@)[i as int] == avg_storage_root_time);
                assert(lowest_extrinsic <= extrinsic_averages(trials)[i as int]);
                assert(lowest_storage_root <= storage_root_averages(trials)[i as int]);
                assert((avg_extrinsic_time - lowest_extrinsic) * PERCENT_SCALE <= u128::MAX && (
                avg_storage_root_time - lowest_storage_root) * PERCENT_SCALE <= u128::MAX)
                    by (nonlinear_arith)
                    requires
                        0 <= lowest_extrinsic <= avg_extrinsic_time <= u64::MAX * SCALE,
                        0 <= lowest_storage_root <= avg_storage_root_time <= u64::MAX * SCALE,
                        SCALE == 10_000,
                        PERCENT_SCALE == 1_000_000,
                ;
            }
            let input_vars = self.steps[i].clone();
            let incr = StepIncr {
                input_vars,
                avg_extrinsic_time,
                avg_storage_root_time,
                extrinsic_incr_percentage: divide_rounded(
                    (avg_extrinsic_time - lowest_extrinsic) * PERCENT_SCALE,
                    lowest_extrinsic,
                ),
                storage_root_incr_percentage: divide_rounded(
                    (avg_storage_root_time - lowest_storage_root) * PERCENT_SCALE,
                    lowest_storage_root,
                ),
            };
            let ghost before = step_incrs@;
            proof {
                assert(incr.input_vars@ =~= keys[i as int]);
                assert(incr@ == step_rows(trials)[i as int]);
            }
            step_incrs.push(incr);
            proof {
                assert forall|j: int| 0 <= j < i + 1 implies step_rows_of(step_incrs@)[j]
                    == step_rows(trials).take(i + 1)[j] by {
                    if j < i {
                        assert(step_rows_of(before)[j] == step_rows(trials).take(i as int)[j]);
                    }
                }
                assert(step_rows_of(step_incrs@) =~= step_rows(trials).take(i + 1));
            }
            i = i + 1;
        }
        proof {
            assert(step_rows(trials).take(i as int) =~= step_rows(trials));
        }
        Some(
            StepIncrTableEntry {
                pallet: self.pallet.clone(),
                extrinsic: self.extrinsic.clone(),
                step_incrs,
            },
        )
    }
}

/// Whether some step of `trials` has more than can be summed up.
pub open spec fn some_step_unsummable(trials: Seq<Trial>) -> bool {
    exists|vars: Seq<u64>| !summable(#[trigger] step_trials(trials, vars))
}

/// These are the extrinsics of `ops`, each with the sums of its steps.
pub(crate) open spec fn groups_sum_up(groups: Seq<GroupSums>, ops: Seq<Operation>) -> bool {
    let keys = group_keys(ops);
    &&& groups.len() == keys.len()
    &&& forall|g: int| 0 <= g < keys.len() ==> (#[trigger] groups[g]).key() == keys[g]
    &&& forall|g: int|
        0 <= g < keys.len() ==> (#[trigger] groups[g]).sums_up(group_trials(ops, keys[g]))
}

/// Where among `groups` the extrinsic of the given names stands, if it does.
fn group_position(groups: &Vec<GroupSums>, pallet: &String, extrinsic: &String) -> (found: Option<
    usize,
>)
    ensures
        match found {
            Some(g) => g < groups@.len() && groups@[g as int].key() == (GroupKey {
                pallet: pallet@,
                extrinsic: extrinsic@,
            }),
            None => forall|h: int|
                0 <= h < groups@.len() ==> (#[trigger] groups@[h]).key() != (GroupKey {
                    pallet: pallet@,
                    extrinsic: extrinsic@,
                }),
        },
{
    let mut g: usize = 0;
    while g < groups.len()
        invariant
            g <= groups@.len(),
            forall|h: int|
                0 <= h < g ==> (#[trigger] groups@[h]).key() != (GroupKey {
                    pallet: pallet@,
                    extrinsic: extrinsic@,
                }),
        decreases groups@.len() - g,
    {
        if groups[g].pallet == *pallet && groups[g].extrinsic == *extrinsic {
            return Some(g);
        }
        g = g + 1;
    }
    None
}

/// Where every step of every extrinsic was summed up, none has more than
/// can be summed up.
proof fn lemma_groups_summable(groups: Seq<GroupSums>, ops: Seq<Operation>)
    requires
        groups_sum_up(groups, ops),
    ensures
        !some_step_overflows(ops),
{
    let keys = group_keys(ops);
    lemma_group_keys(ops);
    assert forall|key: GroupKey, vars: Seq<u64>| #[trigger] step_summable(ops, key, vars) by {
        let all = group_trials(ops, key);
        lemma_step_keys(all);
        if keys.contains(key) && step_keys(all).contains(vars) {
            let g = choose|g: int| 0 <= g < keys.len() && keys[g] == key;
            let i = choose|i: int| 0 <= i < step_keys(all).len() && step_keys(all)[i] == vars;
            assert(groups[g].sums_up(all));
            assert(groups[g].sums@[i].sums_up(step_trials(all, vars)));
        } else if keys.contains(key) {
            assert(step_trials(all, vars) == Seq::<Trial>::empty());
        } else {
            assert(all == Seq::<Trial>::empty());
            assert(!step_keys(all).contains(vars));
        }
    }
}

/// A step that has more than can be summed up among the first results has
/// so among all of them.
proof fn lemma_overflow_found(ops: Seq<Operation>, i: int, key: GroupKey)
    requires
        0 <= i <= ops.len(),
        some_step_unsummable(group_trials(ops.take(i), key)),
    ensures
        some_step_overflows(ops),
{
    let vars = choose|vars: Seq<u64>|
        !summable(#[trigger] step_trials(group_trials(ops.take(i), key), vars));
    lemma_group_trials_split(ops, i, key);
    lemma_overflow_stays(group_trials(ops.take(i), key), group_trials(ops.skip(i), key), vars);
    assert(!step_summable(ops, key, vars));
}

/// Sums up the measurements of `results`, extrinsic by extrinsic and step
/// by step, unless some step has more than can be summed up.
pub(crate) fn accumulate(results: &Vec<ExtrinsicResult>) -> (res: Option<Vec<GroupSums>>)
    ensures
        match res {
            Some(groups) => groups_sum_up(groups@, operations_of(results@)) && !some_step_overflows(
                operations_of(results@),
            ),
            None => some_step_overflows(operations_of(results@)),
        },
{
    let ghost ops = operations_of(results@);
    let mut groups: Vec<GroupSums> = Vec::new();
    let mut i: usize = 0;
    proof {
        assert(ops.take(0) =~= Seq::<Operation>::empty());
    }
    while i < results.len()
        invariant
            ops == operations_of(results@),
            i <= results@.len(),
            groups_sum_up(groups@, ops.take(i as int)),
        decreases results@.len() - i,
    {
        let result = &results[i];
        let entries = result.steps_repeats();
        let ghost op = ops[i as int];
        let ghost key = key_of(op);
        let ghost seen = ops.take(i as int);
        let ghost next = ops.take(i + 1);
        let ghost keys = group_keys(seen);
        let ghost before = groups@;
        proof {
            assert(op == result@);
            assert(next.drop_last() =~= seen);
            assert(next.last() == op);
            assert(trials_of(entries@).len() == entries@.len());
            lemma_group_keys(seen);
        }
        if entries.len() == 0 {
            proof {
                assert forall|g: int| 0 <= g < keys.len() implies (#[trigger] groups@[g]).sums_up(
                    group_trials(next, keys[g]),
                ) by {
                    assert(group_trials(seen, keys[g]) + op.trials =~= group_trials(
                        seen,
                        keys[g],
                    ));
                }
            }
        } else {
            match group_position(&groups, result.pallet(), result.extrinsic()) {
                Some(g) => {
                    proof {
                        assert(keys[g as int] == key);
                        assert(keys.contains(key));
                    }
                    let added = groups[g].add_all(entries, Ghost(group_trials(seen, key)));
                    if !added {
                        proof {
                            lemma_overflow_found(ops, i + 1, key);
                        }
                        return None;
                    }
                    proof {
                        assert forall|h: int| 0 <= h < keys.len() implies (
                        #[trigger] groups@[h]).key() == keys[h] && groups@[h].sums_up(
                            group_trials(next, keys[h]),
                        ) by {
                            if h != g {
                                assert(groups@[h] == before[h]);
                                assert(keys[h] != keys[g as int]);
                            }
                        }
                    }
                },
                None => {
                    proof {
                        assert(!keys.contains(key)) by {
                            if keys.contains(key) {
                                let h = choose|h: int| 0 <= h < keys.len() && keys[h] == key;
                                assert(before[h].key() == keys[h]);
                            }
                        }
                        assert(group_trials(seen, key) == Seq::<Trial>::empty());
                    }
                    let mut group = GroupSums {
                        pallet: result.pallet().clone(),
                        extrinsic: result.extrinsic().clone(),
                        steps: Vec::new(),
                        sums: Vec::new(),
                    };
                    let added = group.add_all(entries, Ghost(Seq::<Trial>::empty()));
                    if !added {
                        proof {
                            lemma_overflow_found(ops, i + 1, key);
                        }
                        return None;
                    }
                    groups.push(group);
                    proof {
                        let new_keys = group_keys(next);
                        assert(new_keys == keys.push(key));
                        assert forall|h: int| 0 <= h < new_keys.len() implies (
                        #[trigger] groups@[h]).key() == new_keys[h] && groups@[h].sums_up(
                            group_trials(next, new_keys[h]),
                        ) by {
                            if h < keys.len() {
                                assert(groups@[h] == before[h]);
                                assert(new_keys[h] == keys[h]);
                                assert(keys.contains(keys[h]));
                            }
                        }
                    }
                },
            }
        }
        i = i + 1;
    }
    proof {
        assert(ops.take(i as int) =~= ops);
        lemma_groups_summable(groups@, ops);
    }
    Some(groups)
}

} // verus!
