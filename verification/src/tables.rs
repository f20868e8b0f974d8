//! The two tables that a collection of results is summed up in.
//!
//! Every figure in them is a decimal number with four digits after the
//! point, held as the whole number of its ten-thousandths.

use crate::order::{arranged, by_rank, lemma_arranged_alike, sort_stably, sorted_stably, Ranked};
use crate::text::{comes_first, lemma_text_le_total, lemma_text_le_transitive, text_le};
use vstd::prelude::*;

verus! {

/// One row of the ratio table, as contracts see it.
pub struct RatioRow {
    pub pallet: Seq<char>,
    pub extrinsic: Seq<char>,
    pub avg_extrinsic_time: nat,
    pub avg_storage_root_time: nat,
    pub ratio: nat,
    pub percentage: nat,
}

/// One row of the ratio table: an extrinsic, its average timings, and how
/// its average extrinsic time compares with the lowest one of the table.
#[derive(Debug)]
pub struct PerExtrTableEntry {
    pub pallet: String,
    pub extrinsic: String,
    pub avg_extrinsic_time: u128,
    pub avg_storage_root_time: u128,
    /// The average extrinsic time over the lowest one.
    pub ratio: u128,
    /// By how many percent the average extrinsic time lies above the lowest
    /// one.
    pub percentage: u128,
}

impl View for PerExtrTableEntry {
    type V = RatioRow;

    open spec fn view(&self) -> RatioRow {
        RatioRow {
            pallet: self.pallet@,
            extrinsic: self.extrinsic@,
            avg_extrinsic_time: self.avg_extrinsic_time as nat,
            avg_storage_root_time: self.avg_storage_root_time as nat,
            ratio: self.ratio as nat,
            percentage: self.percentage as nat,
        }
    }
}

/// The rows that `entries` stand for, in order.
pub open spec fn ratio_rows_of(entries: Seq<PerExtrTableEntry>) -> Seq<RatioRow> {
    Seq::new(entries.len(), |i: int| entries[i]@)
}

/// The ratio table: one row for each result of a collection.
#[derive(Debug)]
pub struct PerExtrTable {
    entries: Vec<PerExtrTableEntry>,
}

impl View for PerExtrTable {
    type V = Seq<RatioRow>;

    closed spec fn view(&self) -> Seq<RatioRow> {
        ratio_rows_of(self.entries@)
    }
}

impl PerExtrTable {
    /// A table without rows.
    pub fn new() -> (table: PerExtrTable)
        ensures
            table@ == Seq::<RatioRow>::empty(),
    {
        let table = PerExtrTable { entries: Vec::new() };
        proof {
            assert(table@ =~= Seq::<RatioRow>::empty());
        }
        table
    }

    /// Adds a row below the others.
    pub fn push(&mut self, entry: PerExtrTableEntry)
        ensures
            final(self)@ == old(self)@.push(entry@),
    {
        self.entries.push(entry);
        proof {
            assert(self@ =~= old(self)@.push(entry@));
        }
    }

    /// Sorts the rows by ratio, the lowest first. Rows of the same ratio
    /// keep their order.
    pub fn sort_by_ratio(&mut self)
        ensures
            sorted_stably(old(self)@, final(self)@, by_ratio()),
    {
        sort_stably(&mut self.entries);
        proof {
            let before = old(self).entries@;
            let after = self.entries@;
            let from = choose|from: Seq<int>|
                arranged(before, after, from, by_rank::<PerExtrTableEntry>());
            let view = |entry: PerExtrTableEntry| entry@;
            lemma_arranged_alike(
                before,
                after,
                from,
                by_rank::<PerExtrTableEntry>(),
                view,
                by_ratio(),
            );
            assert(before.map_values(view) =~= old(self)@);
            assert(after.map_values(view) =~= self@);
        }
    }

    /// The rows as plain values, in order: pallet, extrinsic, average
    /// extrinsic time, average storage root time, ratio, percentage.
    pub fn raw_list(&self) -> (list: Vec<(&str, &str, u128, u128, u128, u128)>)
        ensures
            list@.len() == self@.len(),
            forall|i: int|
                0 <= i < list@.len() ==> listed_ratio_row(#[trigger] list@[i]) == self@[i],
    {
        let mut list: Vec<(&str, &str, u128, u128, u128, u128)> = Vec::new();
        let mut i: usize = 0;
        while i < self.entries.len()
            invariant
                i <= self.entries@.len(),
                list@.len() == i,
                forall|j: int|
                    0 <= j < i ==> listed_ratio_row(#[trigger] list@[j]) == self.entries@[j]@,
            decreases self.entries@.len() - i,
        {
            let entry = &self.entries[i];
            list.push(
                (
                    entry.pallet.as_str(),
                    entry.extrinsic.as_str(),
                    entry.avg_extrinsic_time,
                    entry.avg_storage_root_time,
                    entry.ratio,
                    entry.percentage,
                ),
            );
            i = i + 1;
        }
        list
    }
}

impl Ranked for PerExtrTableEntry {
    open spec fn rank_le(&self, other: &Self) -> bool {
        self.ratio <= other.ratio
    }

    fn ranks_le(&self, other: &Self) -> (le: bool) {
        self.ratio <= other.ratio
    }

    proof fn lemma_rank_total(a: &Self, b: &Self) {
    }

    proof fn lemma_rank_transitive(a: &Self, b: &Self, c: &Self) {
    }
}

/// Rows rank by ratio, the lowest first.
pub open spec fn by_ratio() -> spec_fn(RatioRow, RatioRow) -> bool {
    |a: RatioRow, b: RatioRow| a.ratio <= b.ratio
}

/// The row that a tuple of plain values stands for.
pub open spec fn listed_ratio_row(row: (&str, &str, u128, u128, u128, u128)) -> RatioRow {
    RatioRow {
        pallet: row.0@,
        extrinsic: row.1@,
        avg_extrinsic_time: row.2 as nat,
        avg_storage_root_time: row.3 as nat,
        ratio: row.4 as nat,
        percentage: row.5 as nat,
    }
}

/// One step of one extrinsic in the step table, as contracts see it.
pub struct StepRow {
    pub input_vars: Seq<u64>,
    pub avg_extrinsic_time: nat,
    pub avg_storage_root_time: nat,
    pub extrinsic_incr_percentage: nat,
    pub storage_root_incr_percentage: nat,
}

/// One extrinsic in the step table, as contracts see it.
pub struct StepGroup {
    pub pallet: Seq<char>,
    pub extrinsic: Seq<char>,
    pub steps: Seq<StepRow>,
}

/// One step of one extrinsic: a setting of the input variables, the average
/// timings of the measurements made at it, and by how many percent each
/// average lies above the lowest one among the steps of the extrinsic.
#[derive(Debug)]
pub struct StepIncr {
    pub input_vars: Vec<u64>,
    pub avg_extrinsic_time: u128,
    pub avg_storage_root_time: u128,
    pub extrinsic_incr_percentage: u128,
    pub storage_root_incr_percentage: u128,
}

impl View for StepIncr {
    type V = StepRow;

    open spec fn view(&self) -> StepRow {
        StepRow {
            input_vars: self.input_vars@,
            avg_extrinsic_time: self.avg_extrinsic_time as nat,
            avg_storage_root_time: self.avg_storage_root_time as nat,
            extrinsic_incr_percentage: self.extrinsic_incr_percentage as nat,
            storage_root_incr_percentage: self.storage_root_incr_percentage as nat,
        }
    }
}

/// The steps that `incrs` stand for, in order.
pub open spec fn step_rows_of(incrs: Seq<StepIncr>) -> Seq<StepRow> {
    Seq::new(incrs.len(), |i: int| incrs[i]@)
}

/// One extrinsic of the step table, with its steps.
#[derive(Debug)]
pub struct StepIncrTableEntry {
    pub pallet: String,
    pub extrinsic: String,
    pub step_incrs: Vec<StepIncr>,
}

impl View for StepIncrTableEntry {
    type V = StepGroup;

    open spec fn view(&self) -> StepGroup {
        StepGroup {
            pallet: self.pallet@,
            extrinsic: self.extrinsic@,
            steps: step_rows_of(self.step_incrs@),
        }
    }
}

/// The extrinsics that `entries` stand for, in order.
pub open spec fn step_groups_of(entries: Seq<StepIncrTableEntry>) -> Seq<StepGroup> {
    Seq::new(entries.len(), |i: int| entries[i]@)
}

/// The step table: for each extrinsic of a collection, its steps.
#[derive(Debug)]
pub struct StepIncrTable {
    entries: Vec<StepIncrTableEntry>,
}

impl View for StepIncrTable {
    type V = Seq<StepGroup>;

    closed spec fn view(&self) -> Seq<StepGroup> {
        step_groups_of(self.entries@)
    }
}

impl StepIncrTable {
    /// A table without extrinsics.
    pub fn new() -> (table: StepIncrTable)
        ensures
            table@ == Seq::<StepGroup>::empty(),
    {
        let table = StepIncrTable { entries: Vec::new() };
        proof {
            assert(table@ =~= Seq::<StepGroup>::empty());
        }
        table
    }

    /// Adds an extrinsic below the others.
    pub fn push(&mut self, entry: StepIncrTableEntry)
        ensures
            final(self)@ == old(self)@.push(entry@),
    {
        self.entries.push(entry);
        proof {
            assert(self@ =~= old(self)@.push(entry@));
        }
    }

    /// Sorts the steps of each extrinsic by the increase of the extrinsic
    /// time, the highest first, and then the extrinsics by the name of their
    /// pallet. What ranks alike keeps its order, both times.
    pub fn sort_by_extrinsic_incr_percentage(&mut self)
        ensures
            sorted_by_increase(old(self)@, final(self)@),
    {
        let ghost before = self.entries@;
        let mut i: usize = 0;
        while i < self.entries.len()
            invariant
                self.entries@.len() == before.len(),
                i <= before.len(),
                forall|j: int|
                    0 <= j < i ==> steps_sorted(before[j]@, #[trigger] self.entries@[j]@),
                forall|j: int| i <= j < before.len() ==> #[trigger] self.entries@[j] == before[j],
            decreases before.len() - i,
        {
            let ghost unsorted = self.entries@[i as int].step_incrs@;
            sort_stably(&mut self.entries[i].step_incrs);
            proof {
                let sorted = self.entries@[i as int].step_incrs@;
                let from = choose|from: Seq<int>|
                    arranged(unsorted, sorted, from, by_rank::<StepIncr>());
                let view = |incr: StepIncr| incr@;
                lemma_arranged_alike(
                    unsorted,
                    sorted,
                    from,
                    by_rank::<StepIncr>(),
                    view,
                    by_falling_increase(),
                );
                assert(unsorted.map_values(view) =~= before[i as int]@.steps);
                assert(sorted.map_values(view) =~= self.entries@[i as int]@.steps);
            }
            i = i + 1;
        }
        let ghost within = self.entries@;
        sort_stably(&mut self.entries);
        proof {
            let after = self.entries@;
            let from = choose|from: Seq<int>|
                arranged(within, after, from, by_rank::<StepIncrTableEntry>());
            let view = |entry: StepIncrTableEntry| entry@;
            lemma_arranged_alike(
                within,
                after,
                from,
                by_rank::<StepIncrTableEntry>(),
                view,
                by_pallet(),
            );
            assert(within.map_values(view) =~= step_groups_of(within));
            assert(after.map_values(view) =~= self@);
            assert(each_sorted_within(old(self)@, step_groups_of(within)));
        }
    }

    /// The steps as plain values, extrinsic after extrinsic, in order:
    /// pallet, extrinsic, input variables, average extrinsic time, average
    /// storage root time, increase of the extrinsic time in percent,
    /// increase of the storage root time in percent.
    pub fn raw_list(&self) -> (list: Vec<(&str, &str, &[u64], u128, u128, u128, u128)>)
        ensures
            listed_step_lines(list@) == step_lines(self@),
    {
        let ghost groups = self@;
        let mut list: Vec<(&str, &str, &[u64], u128, u128, u128, u128)> = Vec::new();
        let mut g: usize = 0;
        proof {
            assert(groups.take(0) =~= Seq::<StepGroup>::empty());
            assert(listed_step_lines(list@) =~= step_lines(groups.take(0)));
        }
        while g < self.entries.len()
            invariant
                groups == self@,
                g <= self.entries@.len(),
                listed_step_lines(list@) == step_lines(groups.take(g as int)),
            decreases self.entries@.len() - g,
        {
            let entry = &self.entries[g];
            let ghost done = step_lines(groups.take(g as int));
            let ghost own = lines_of_group(entry@);
            let mut i: usize = 0;
            proof {
                assert(groups[g as int] == entry@);
                assert(groups.take(g + 1).drop_last() =~= groups.take(g as int));
                assert(groups.take(g + 1).last() == entry@);
                assert(done + own.take(0) =~= done);
                assert(listed_step_lines(list@).len() == list@.len());
            }
            while i < entry.step_incrs.len()
                invariant
                    i <= entry.step_incrs@.len(),
                    own == lines_of_group(entry@),
                    own.len() == entry.step_incrs@.len(),
                    list@.len() == done.len() + i,
                    listed_step_lines(list@) == done + own.take(i as int),
                decreases entry.step_incrs@.len() - i,
            {
                let incr = &entry.step_incrs[i];
                let ghost listed = list@;
                list.push(
                    (
                        entry.pallet.as_str(),
                        entry.extrinsic.as_str(),
                        incr.input_vars.as_slice(),
                        incr.avg_extrinsic_time,
                        incr.avg_storage_root_time,
                        incr.extrinsic_incr_percentage,
                        incr.storage_root_incr_percentage,
                    ),
                );
                proof {
                    assert(own[i as int].step == incr@);
                    assert(list@[listed.len() as int] == list@.last());
                    assert(listed_step_line(list@.last()) == own[i as int]);
                    assert forall|j: int| 0 <= j < list@.len() implies listed_step_lines(list@)[j]
                        == (done + own.take(i + 1))[j] by {
                        if j < listed.len() {
                            assert(listed_step_lines(listed)[j] == (done + own.take(i as int))[j]);
                        }
                    }
                    assert(listed_step_lines(list@) =~= done + own.take(i + 1));
                }
                i = i + 1;
            }
            proof {
                assert(own.take(i as int) =~= own);
            }
            g = g + 1;
        }
        proof {
            assert(groups.take(g as int) =~= groups);
        }
        list
    }
}

impl Ranked for StepIncr {
    open spec fn rank_le(&self, other: &Self) -> bool {
        self.extrinsic_incr_percentage >= other.extrinsic_incr_percentage
    }

    fn ranks_le(&self, other: &Self) -> (le: bool) {
        self.extrinsic_incr_percentage >= other.extrinsic_incr_percentage
    }

    proof fn lemma_rank_total(a: &Self, b: &Self) {
    }

    proof fn lemma_rank_transitive(a: &Self, b: &Self, c: &Self) {
    }
}

impl Ranked for StepIncrTableEntry {
    open spec fn rank_le(&self, other: &Self) -> bool {
        text_le(self.pallet@, other.pallet@)
    }

    fn ranks_le(&self, other: &Self) -> (le: bool) {
        comes_first(self.pallet.as_str(), other.pallet.as_str())
    }

    proof fn lemma_rank_total(a: &Self, b: &Self) {
        lemma_text_le_total(a.pallet@, b.pallet@);
    }

    proof fn lemma_rank_transitive(a: &Self, b: &Self, c: &Self) {
        lemma_text_le_transitive(a.pallet@, b.pallet@, c.pallet@);
    }
}

/// Steps rank by the increase of the extrinsic time, the highest first.
pub open spec fn by_falling_increase() -> spec_fn(StepRow, StepRow) -> bool {
    |a: StepRow, b: StepRow| a.extrinsic_incr_percentage >= b.extrinsic_incr_percentage
}

/// Extrinsics rank by the name of their pallet, as in a dictionary that
/// orders characters by their code points.
pub open spec fn by_pallet() -> spec_fn(StepGroup, StepGroup) -> bool {
    |a: StepGroup, b: StepGroup| text_le(a.pallet, b.pallet)
}

/// `after` is the extrinsic `before` with its steps sorted by the increase
/// of the extrinsic time, the highest first, steps of the same increase in
/// the order they had.
pub open spec fn steps_sorted(before: StepGroup, after: StepGroup) -> bool {
    &&& after.pallet == before.pallet
    &&& after.extrinsic == before.extrinsic
    &&& sorted_stably(before.steps, after.steps, by_falling_increase())
}

/// `after` holds the extrinsics of `before`, in their order, each with its
/// steps sorted.
pub open spec fn each_sorted_within(before: Seq<StepGroup>, after: Seq<StepGroup>) -> bool {
    &&& after.len() == before.len()
    &&& forall|i: int| 0 <= i < before.len() ==> steps_sorted(before[i], #[trigger] after[i])
}

/// `after` holds the extrinsics of `before`, each with its steps sorted, in
/// the order of their pallets' names, extrinsics of one pallet in the order
/// they had.
pub open spec fn sorted_by_increase(before: Seq<StepGroup>, after: Seq<StepGroup>) -> bool {
    exists|within: Seq<StepGroup>| #[trigger]
        each_sorted_within(before, within) && sorted_stably(within, after, by_pallet())
}

/// One step of the step table with the names of its extrinsic, as contracts
/// see it.
pub struct StepLine {
    pub pallet: Seq<char>,
    pub extrinsic: Seq<char>,
    pub step: StepRow,
}

/// The steps of an extrinsic, each with the names of the extrinsic.
pub open spec fn lines_of_group(group: StepGroup) -> Seq<StepLine> {
    Seq::new(
        group.steps.len(),
        |i: int|
            StepLine { pallet: group.pallet, extrinsic: group.extrinsic, step: group.steps[i] },
    )
}

/// The steps of all of `groups`, extrinsic after extrinsic.
pub open spec fn step_lines(groups: Seq<StepGroup>) -> Seq<StepLine>
    decreases groups.len(),
{
    if groups.len() == 0 {
        Seq::<StepLine>::empty()
    } else {
        step_lines(groups.drop_last()) + lines_of_group(groups.last())
    }
}

/// The step that a tuple of plain values stands for.
pub open spec fn listed_step_line(row: (&str, &str, &[u64], u128, u128, u128, u128)) -> StepLine {
    StepLine {
        pallet: row.0@,
        extrinsic: row.1@,
        step: StepRow {
            input_vars: row.2@,
            avg_extrinsic_time: row.3 as nat,
            avg_storage_root_time: row.4 as nat,
            extrinsic_incr_percentage: row.5 as nat,
            storage_root_incr_percentage: row.6 as nat,
        },
    }
}

/// The steps that tuples of plain values stand for, in order.
pub open spec fn listed_step_lines(list: Seq<(&str, &str, &[u64], u128, u128, u128, u128)>) -> Seq<
    StepLine,
> {
    Seq::new(list.len(), |i: int| listed_step_line(list[i]))
}

} // verus!
