//! A collection of results, and the tables that sum it up.

use crate::extrinsic::{trials_of, ExtrinsicResult, Operation};
use crate::overview::{
    all_summable, baseline, lemma_baseline_is_first_least, mean_below, overview, ratio_row,
    ratio_rows, some_empty,
};
use crate::steps::{
    accumulate, group_keys, group_trials, groups_sum_up, lowest_is_zero, some_lowest_is_zero,
    some_step_overflows, step_group, step_groups, steps_overview,
};
use crate::sums::{sum_up, summable, Sums};
use crate::tables::{PerExtrTable, RatioRow, StepGroup, StepIncrTable};
use vstd::prelude::*;

verus! {

/// Why a collection has no table.
#[derive(Debug, Clone, Copy, PartialEq, Eq)]
pub enum ExtrinsicCollectionError {
    /// There is nothing to take an average of, or nothing but zero to
    /// compare with.
    EmptyResults,
    /// The measurements are too many or too long to be summed up.
    Overflow,
}

impl ExtrinsicCollectionError {
    /// The error in words.
    pub fn message(&self) -> (text: String)
        ensures
            text@ == match *self {
                ExtrinsicCollectionError::EmptyResults => {
                    "collection does not contain any results"@
                },
                ExtrinsicCollectionError::Overflow => {
                    "collection holds more than can be summed up"@
                },
            },
    {
        match self {
            ExtrinsicCollectionError::EmptyResults => {
                "collection does not contain any results".to_owned()
            },
            ExtrinsicCollectionError::Overflow => {
                "collection holds more than can be summed up".to_owned()
            },
        }
    }
}

/// What each of `results` holds, in order.
pub open spec fn operations_of(results: Seq<ExtrinsicResult>) -> Seq<Operation> {
    Seq::new(results.len(), |i: int| results[i]@)
}

/// The results of any number of benchmark files, in the order in which they
/// were pushed.
#[derive(Debug)]
pub struct ExtrinsicCollection {
    results: Vec<ExtrinsicResult>,
}

impl View for ExtrinsicCollection {
    type V = Seq<Operation>;

    closed spec fn view(&self) -> Seq<Operation> {
        operations_of(self.results@)
    }
}

impl ExtrinsicCollection {
    /// `res` is the ratio table of the collection, or says why there is
    /// none.
    pub open spec fn has_overview(
        &self,
        res: Result<PerExtrTable, ExtrinsicCollectionError>,
    ) -> bool {
        match res {
            Ok(table) => overview(self@) == Ok::<Seq<RatioRow>, ExtrinsicCollectionError>(table@),
            Err(e) => overview(self@) == Err::<Seq<RatioRow>, ExtrinsicCollectionError>(e),
        }
    }

    /// `res` is the step table of the collection, or says why there is
    /// none.
    pub open spec fn has_step_table(
        &self,
        res: Result<StepIncrTable, ExtrinsicCollectionError>,
    ) -> bool {
        match res {
            Ok(table) => steps_overview(self@) == Ok::<Seq<StepGroup>, ExtrinsicCollectionError>(
                table@,
            ),
            Err(e) => steps_overview(self@) == Err::<Seq<StepGroup>, ExtrinsicCollectionError>(e),
        }
    }

    /// A collection without results.
    pub fn new() -> (collection: ExtrinsicCollection)
        ensures
            collection@ == Seq::<Operation>::empty(),
    {
        let collection = ExtrinsicCollection { results: Vec::new() };
        proof {
            assert(collection@ =~= Seq::<Operation>::empty());
        }
        collection
    }

    /// Adds a result behind the others.
    pub fn push(&mut self, result: ExtrinsicResult)
        ensures
            final(self)@ == old(self)@.push(result@),
    {
        self.results.push(result);
        proof {
            assert(self@ =~= old(self)@.push(result@));
        }
    }

    /// The ratio table of the collection: one row for each result, in the
    /// order of the results, each compared with the result of the lowest
    /// average extrinsic time.
    ///
    /// Fails with `EmptyResults` where the collection is empty, where a
    /// result has no measurement, and where the lowest average is zero;
    /// with `Overflow` where a result has more than can be summed up.
    pub fn generate_overview_table(&self) -> (res: Result<PerExtrTable, ExtrinsicCollectionError>)
        ensures
            self.has_overview(res),
            self@.len() == 0 ==> res is Err && res->Err_0 == ExtrinsicCollectionError::EmptyResults,
    {
        let ghost ops = self@;
        let len = self.results.len();
        if len == 0 {
            return Err(ExtrinsicCollectionError::EmptyResults);
        }
        // No average without a measurement.
        let mut i: usize = 0;
        while i < len
            invariant
                len == self.results@.len(),
                ops == self@,
                i <= len,
                forall|j: int| 0 <= j < i ==> (#[trigger] ops[j]).trials.len() != 0,
            decreases len - i,
        {
            let trials = self.results[i].steps_repeats();
            proof {
                assert(ops[i as int] == self.results@[i as int]@);
                assert(trials_of(trials@).len() == trials@.len());
            }
            if trials.len() == 0 {
                return Err(ExtrinsicCollectionError::EmptyResults);
            }
            i = i + 1;
        }
        // Sum up each result.
        let mut sums: Vec<Sums> = Vec::new();
        let mut i: usize = 0;
        while i < len
            invariant
                len == self.results@.len(),
                ops == self@,
                !some_empty(ops),
                i <= len,
                sums@.len() == i,
                forall|j: int| 0 <= j < i ==> summable((#[trigger] ops[j]).trials),
                forall|j: int| 0 <= j < i ==> (#[trigger] sums@[j]).sums_up(ops[j].trials),
            decreases len - i,
        {
            let trials = self.results[i].steps_repeats();
            proof {
                assert(ops[i as int] == self.results@[i as int]@);
                assert(trials_of(trials@).len() == trials@.len());
            }
            match sum_up(trials) {
                Some(sum) => {
                    sums.push(sum);
                },
                None => {
                    proof {
                        assert(!summable(ops[i as int].trials));
                    }
                    return Err(ExtrinsicCollectionError::Overflow);
                },
            }
            i = i + 1;
        }
        // Find the result of the lowest average, the first of them.
        let mut base: usize = 0;
        let mut i: usize = 1;
        proof {
            assert(ops.take(1).len() == 1);
        }
        while i < len
            invariant
                len == self.results@.len(),
                ops == self@,
                !some_empty(ops),
                1 <= i <= len,
                sums@.len() == len,
                forall|j: int| 0 <= j < len ==> (#[trigger] sums@[j]).sums_up(ops[j].trials),
                base < i,
                base == baseline(ops.take(i as int)),
            decreases len - i,
        {
            let ghost seen = ops.take(i + 1);
            proof {
                assert(seen.drop_last() =~= ops.take(i as int));
                assert(seen.last() == ops[i as int]);
                assert(seen[base as int] == ops[base as int]);
                assert(sums@[i as int].sums_up(ops[i as int].trials));
                assert(sums@[base as int].sums_up(ops[base as int].trials));
            }
            if sums[i].mean_below(&sums[base]) {
                base = i;
            }
            i = i + 1;
        }
        proof {
            assert(ops.take(len as int) =~= ops);
            lemma_baseline_is_first_least(ops);
            assert(sums@[base as int].sums_up(ops[base as int].trials));
        }
        let lowest = sums[base];
        // No ratio to nothing.
        if lowest.extrinsic == 0 {
            return Err(ExtrinsicCollectionError::EmptyResults);
        }
        let mut table = PerExtrTable::new();
        let mut i: usize = 0;
        while i < len
            invariant
                len == self.results@.len(),
                ops == self@,
                !some_empty(ops),
                i <= len,
                sums@.len() == len,
                forall|j: int| 0 <= j < len ==> (#[trigger] sums@[j]).sums_up(ops[j].trials),
                base == baseline(ops),
                base < len,
                lowest == sums@[base as int],
                lowest.extrinsic > 0,
                forall|j: int|
                    0 <= j < len ==> !mean_below(
                        (#[trigger] ops[j]).trials,
                        ops[base as int].trials,
                    ),
                table@ == ratio_rows(ops).take(i as int),
            decreases len - i,
        {
            let result = &self.results[i];
            let sum = sums[i];
            proof {
                assert(ops[i as int] == result@);
                assert(sums@[i as int].sums_up(ops[i as int].trials));
                assert(sums@[base as int].sums_up(ops[base as int].trials));
                assert(!mean_below(ops[i as int].trials, ops[base as int].trials));
            }
            let entry = sum.entry(result.pallet().clone(), result.extrinsic().clone(), &lowest);
            proof {
                assert(entry@ == ratio_row(ops[i as int], ops[base as int]));
                assert(ratio_rows(ops).take(i + 1) =~= ratio_rows(ops).take(i as int).push(entry@));
            }
            table.push(entry);
            i = i + 1;
        }
        proof {
            assert(ratio_rows(ops).take(len as int) =~= ratio_rows(ops));
            assert(all_summable(ops));
        }
        Ok(table)
    }

    /// The step table of the collection: for each extrinsic its steps, each
    /// with its average timings and with what they have above the lowest
    /// averages among the steps of that extrinsic. Extrinsics and steps
    /// stand in the order in which their first measurement was pushed.
    ///
    /// Fails with `Overflow` where a step has more than can be summed up;
    /// with `EmptyResults` where, for some extrinsic, the lowest average
    /// extrinsic time or the lowest average storage root time is zero.
    pub fn generate_step_table(&self) -> (res: Result<StepIncrTable, ExtrinsicCollectionError>)
        ensures
            self.has_step_table(res),
    {
        let ghost ops = self@;
        let ghost keys = group_keys(ops);
        let groups = match accumulate(&self.results) {
            Some(groups) => groups,
            None => {
                return Err(ExtrinsicCollectionError::Overflow);
            },
        };
        let mut table = StepIncrTable::new();
        let mut g: usize = 0;
        while g < groups.len()
            invariant
                ops == self@,
                keys == group_keys(ops),
                groups_sum_up(groups@, ops),
                !some_step_overflows(ops),
                g <= groups@.len(),
                forall|h: int|
                    0 <= h < g ==> !lowest_is_zero(group_trials(ops, #[trigger] keys[h])),
                table@ == step_groups(ops).take(g as int),
            decreases groups@.len() - g,
        {
            proof {
                assert(groups@[g as int].key() == keys[g as int]);
                assert(groups@[g as int].sums_up(group_trials(ops, keys[g as int])));
            }
            match groups[g].entry(Ghost(group_trials(ops, keys[g as int]))) {
                Some(entry) => {
                    proof {
                        assert(entry@ == step_group(ops, keys[g as int]));
                        assert(step_groups(ops).take(g + 1) =~= step_groups(ops).take(
                            g as int,
                        ).push(entry@));
                    }
                    table.push(entry);
                },
                None => {
                    proof {
                        assert(lowest_is_zero(group_trials(ops, keys[g as int])));
                        assert(some_lowest_is_zero(ops));
                    }
                    return Err(ExtrinsicCollectionError::EmptyResults);
                },
            }
            g = g + 1;
        }
        proof {
            assert(step_groups(ops).take(g as int) =~= step_groups(ops));
        }
        Ok(table)
    }
}

/// Making the ratio table of a collection a second time gives what the
/// first time gave: the same rows in the same order, or the same error.
pub proof fn lemma_overview_is_repeatable(
    collection: ExtrinsicCollection,
    first: Result<PerExtrTable, ExtrinsicCollectionError>,
    second: Result<PerExtrTable, ExtrinsicCollectionError>,
)
    requires
        collection.has_overview(first),
        collection.has_overview(second),
    ensures
        match (first, second) {
            (Ok(a), Ok(b)) => a@ == b@,
            (Err(a), Err(b)) => a == b,
            _ => false,
        },
{
}

/// Making the step table of a collection a second time gives what the first
/// time gave: the same extrinsics and steps in the same order, or the same
/// error.
pub proof fn lemma_step_table_is_repeatable(
    collection: ExtrinsicCollection,
    first: Result<StepIncrTable, ExtrinsicCollectionError>,
    second: Result<StepIncrTable, ExtrinsicCollectionError>,
)
    requires
        collection.has_step_table(first),
        collection.has_step_table(second),
    ensures
        match (first, second) {
            (Ok(a), Ok(b)) => a@ == b@,
            (Err(a), Err(b)) => a == b,
            _ => false,
        },
{
}

/// A collection without results has no ratio table: making one fails with
/// `EmptyResults`.
pub proof fn lemma_no_overview_of_nothing(
    collection: ExtrinsicCollection,
    res: Result<PerExtrTable, ExtrinsicCollectionError>,
)
    requires
        collection@.len() == 0,
        collection.has_overview(res),
    ensures
        res is Err,
        res->Err_0 == ExtrinsicCollectionError::EmptyResults,
{
}

} // verus!
