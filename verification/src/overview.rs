//! What the ratio table of a collection holds.
//!
//! Each result has one row. Its average extrinsic time is compared with the
//! lowest one among all results of the collection.

use crate::collection::ExtrinsicCollectionError;
use crate::extrinsic::{Operation, Trial};
use crate::numeric::{
    divide_rounded, lemma_round_div_grows, lemma_round_div_is_nearest, lemma_round_div_of_equals,
    round_div, PERCENT_SCALE, SCALE,
};
use crate::sums::{extrinsic_total, storage_root_total, summable, Sums};
use crate::tables::{PerExtrTableEntry, RatioRow};
use vstd::prelude::*;

verus! {

/// Whether the average extrinsic time of `a` is less than that of `b`,
/// where neither is empty.
pub open spec fn mean_below(a: Seq<Trial>, b: Seq<Trial>) -> bool {
    extrinsic_total(a) * b.len() < extrinsic_total(b) * a.len()
}

/// The place of the result that the others are compared with: the first
/// among those of the lowest average extrinsic time.
pub open spec fn baseline(ops: Seq<Operation>) -> int
    decreases ops.len(),
{
    if ops.len() <= 1 {
        0
    } else {
        let before = baseline(ops.drop_last());
        if mean_below(ops.last().trials, ops[before].trials) {
            ops.len() - 1
        } else {
            before
        }
    }
}

/// The row of `op` in a ratio table whose lowest average extrinsic time is
/// that of `base`. The ratio is the quotient of the two averages, neither
/// rounded, and the percentage is a hundred times what the quotient has
/// above one. Each figure is rounded once, to its ten-thousandths.
pub open spec fn ratio_row(op: Operation, base: Operation) -> RatioRow {
    let count = op.trials.len() as int;
    let time = extrinsic_total(op.trials) as int;
    let base_count = base.trials.len() as int;
    let base_time = extrinsic_total(base.trials) as int;
    RatioRow {
        pallet: op.pallet,
        extrinsic: op.extrinsic,
        avg_extrinsic_time: round_div(time * SCALE, count) as nat,
        avg_storage_root_time: round_div(storage_root_total(op.trials) * SCALE, count) as nat,
        ratio: round_div(time * base_count * SCALE, count * base_time) as nat,
        percentage: round_div(
            (time * base_count - count * base_time) * PERCENT_SCALE,
            count * base_time,
        ) as nat,
    }
}

/// The rows of the ratio table of `ops`, one for each result, in order.
pub open spec fn ratio_rows(ops: Seq<Operation>) -> Seq<RatioRow> {
    Seq::new(ops.len(), |i: int| ratio_row(ops[i], ops[baseline(ops)]))
}

/// Whether some result has no measurement.
pub open spec fn some_empty(ops: Seq<Operation>) -> bool {
    exists|i: int| 0 <= i < ops.len() && (#[trigger] ops[i]).trials.len() == 0
}

/// Whether every result can be summed up.
pub open spec fn all_summable(ops: Seq<Operation>) -> bool {
    forall|i: int| 0 <= i < ops.len() ==> summable((#[trigger] ops[i]).trials)
}

/// The ratio table of `ops`, or why there is none.
///
/// There is none of no results, nor where a result has no measurement, nor
/// where the lowest average extrinsic time is zero: each would ask for a
/// division by zero. Nor is there one where a result has more than can be
/// summed up, which is found out before the lowest average is looked at.
pub open spec fn overview(ops: Seq<Operation>) -> Result<Seq<RatioRow>, ExtrinsicCollectionError> {
    if ops.len() == 0 || some_empty(ops) {
        Err(ExtrinsicCollectionError::EmptyResults)
    } else if !all_summable(ops) {
        Err(ExtrinsicCollectionError::Overflow)
    } else if extrinsic_total(ops[baseline(ops)].trials) == 0 {
        Err(ExtrinsicCollectionError::EmptyResults)
    } else {
        Ok(ratio_rows(ops))
    }
}

/// Averages compare as fractions do: what lies below one that is not above
/// a third lies below the third. Each average is a sum over a count.
pub proof fn lemma_mean_order(a: nat, a_count: nat, b: nat, b_count: nat, c: nat, c_count: nat)
    requires
        a_count > 0,
        b_count > 0,
        c_count > 0,
        a * b_count < b * a_count,
        b * c_count <= c * b_count,
    ensures
        a * c_count < c * a_count,
{
    assert(a * c_count * b_count < c * a_count * b_count) by (nonlinear_arith)
        requires
            a_count > 0,
            b_count > 0,
            c_count > 0,
            a * b_count < b * a_count,
            b * c_count <= c * b_count,
    {
        assert((a * b_count) * c_count < (b * a_count) * c_count);
        assert((b * c_count) * a_count <= (c * b_count) * a_count);
    }
    assert(a * c_count < c * a_count) by (nonlinear_arith)
        requires
            b_count > 0,
            a * c_count * b_count < c * a_count * b_count,
    ;
}

/// The result that the others are compared with has the lowest average
/// extrinsic time, and is the first that has it.
pub proof fn lemma_baseline_is_first_least(ops: Seq<Operation>)
    requires
        ops.len() > 0,
        !some_empty(ops),
    ensures
        0 <= baseline(ops) < ops.len(),
        forall|j: int|
            0 <= j < ops.len() ==> !mean_below(
                (#[trigger] ops[j]).trials,
                ops[baseline(ops)].trials,
            ),
        forall|j: int|
            0 <= j < baseline(ops) ==> mean_below(
                ops[baseline(ops)].trials,
                (#[trigger] ops[j]).trials,
            ),
    decreases ops.len(),
{
    if ops.len() > 1 {
        let front = ops.drop_last();
        assert forall|i: int| 0 <= i < front.len() implies (#[trigger] front[i]).trials.len()
            != 0 by {
            assert(front[i] == ops[i]);
        }
        lemma_baseline_is_first_least(front);
        let before = baseline(front);
        let last = ops.last();
        let low = ops[before];
        assert(front[before] == low);
        assert(last.trials.len() > 0);
        assert(low.trials.len() > 0);
        if mean_below(last.trials, low.trials) {
            assert forall|j: int| 0 <= j < ops.len() implies !mean_below(
                (#[trigger] ops[j]).trials,
                last.trials,
            ) && (j < ops.len() - 1 ==> mean_below(last.trials, ops[j].trials)) by {
                if j < ops.len() - 1 {
                    assert(front[j] == ops[j]);
                    assert(ops[j].trials.len() > 0);
                    lemma_mean_order(
                        extrinsic_total(last.trials),
                        last.trials.len(),
                        extrinsic_total(low.trials),
                        low.trials.len(),
                        extrinsic_total(ops[j].trials),
                        ops[j].trials.len(),
                    );
                }
            }
        } else {
            assert forall|j: int| 0 <= j < ops.len() implies !mean_below(
                (#[trigger] ops[j]).trials,
                low.trials,
            ) by {
                if j < ops.len() - 1 {
                    assert(front[j] == ops[j]);
                }
            }
            assert forall|j: int| 0 <= j < before implies mean_below(
                low.trials,
                (#[trigger] ops[j]).trials,
            ) by {
                assert(front[j] == ops[j]);
            }
        }
    } else {
        assert(ops[0].trials.len() > 0);
    }
}

/// In the ratio table the result that the others are compared with has the
/// ratio one and the percentage zero, and no result has a ratio below one.
pub proof fn lemma_ratios_start_at_one(ops: Seq<Operation>)
    requires
        overview(ops) is Ok,
    ensures
        0 <= baseline(ops) < ops.len(),
        ratio_rows(ops)[baseline(ops)].ratio == SCALE,
        ratio_rows(ops)[baseline(ops)].percentage == 0,
        forall|i: int| 0 <= i < ops.len() ==> (#[trigger] ratio_rows(ops)[i]).ratio >= SCALE,
{
    lemma_baseline_is_first_least(ops);
    let base = ops[baseline(ops)];
    let base_count = base.trials.len() as int;
    let base_time = extrinsic_total(base.trials) as int;
    assert(base_count > 0);
    assert(base_time * base_count > 0 && base_count * base_time == base_time * base_count)
        by (nonlinear_arith)
        requires
            base_time > 0,
            base_count > 0,
    ;
    lemma_round_div_of_equals(base_time * base_count);
    assert(base_time * base_count * SCALE == (base_time * base_count) * SCALE);
    assert((base_time * base_count - base_count * base_time) * PERCENT_SCALE == 0);
    vstd::arithmetic::div_mod::lemma_basic_div(
        base_count * base_time,
        2 * (base_count * base_time),
    );
    assert forall|i: int| 0 <= i < ops.len() implies (#[trigger] ratio_rows(ops)[i]).ratio
        >= SCALE by {
        let count = ops[i].trials.len() as int;
        let time = extrinsic_total(ops[i].trials) as int;
        assert(count > 0);
        assert(!mean_below(ops[i].trials, base.trials));
        let below = count * base_time;
        let above = time * base_count;
        assert(0 < below <= above) by (nonlinear_arith)
            requires
                count > 0,
                base_time > 0,
                below == count * base_time,
                above == time * base_count,
                !(time * base_count < base_time * count),
        ;
        assert(below * SCALE <= above * SCALE) by (nonlinear_arith)
            requires
                0 < below <= above,
        ;
        lemma_round_div_of_equals(below);
        lemma_round_div_grows(below * SCALE, above * SCALE, below);
    }
}

/// The percentage of a row is a hundred times what its ratio has above
/// one, but for the rounding: it is taken from the ratio before that is
/// rounded, and so lies within half a hundredth of a percent of what the
/// rounded ratio gives.
pub proof fn lemma_percentage_follows_ratio(op: Operation, base: Operation)
    requires
        op.trials.len() > 0,
        base.trials.len() > 0,
        extrinsic_total(base.trials) > 0,
        !mean_below(op.trials, base.trials),
    ensures
        ratio_row(op, base).ratio >= SCALE,
        -50 <= ratio_row(op, base).percentage - 100 * (ratio_row(op, base).ratio - SCALE) <= 50,
{
    let count = op.trials.len() as int;
    let time = extrinsic_total(op.trials) as int;
    let base_count = base.trials.len() as int;
    let base_time = extrinsic_total(base.trials) as int;
    let above = time * base_count;
    let below = count * base_time;
    assert(0 < below <= above) by (nonlinear_arith)
        requires
            count > 0,
            base_time > 0,
            below == count * base_time,
            above == time * base_count,
            !(time * base_count < base_time * count),
    ;
    let scale = SCALE as int;
    let ratio = round_div(above * scale, below);
    let percentage = round_div((above - below) * (100 * scale), below);
    assert(above * scale >= 0 && (above - below) * (100 * scale) >= 0 && below * scale
        <= above * scale) by (nonlinear_arith)
        requires
            0 < below <= above,
            scale == 10_000,
    ;
    lemma_round_div_is_nearest(above * scale, below);
    lemma_round_div_is_nearest((above - below) * (100 * scale), below);
    lemma_round_div_of_equals(below);
    lemma_round_div_grows(below * scale, above * scale, below);
    assert(-101 * below < 2 * below * (percentage - 100 * (ratio - scale)) < 101 * below)
        by (nonlinear_arith)
        requires
            below > 0,
            2 * (above * scale) - below < 2 * below * ratio <= 2 * (above * scale) + below,
            2 * ((above - below) * (100 * scale)) - below < 2 * below * percentage <= 2 * ((above
                - below) * (100 * scale)) + below,
    ;
    assert(-50 <= percentage - 100 * (ratio - scale) <= 50) by (nonlinear_arith)
        requires
            below > 0,
            -101 * below < 2 * below * (percentage - 100 * (ratio - scale)) < 101 * below,
    ;
    assert(time * base_count * SCALE == above * scale);
    assert((time * base_count - count * base_time) * PERCENT_SCALE == (above - below) * (100
        * scale)) by (nonlinear_arith)
        requires
            above == time * base_count,
            below == count * base_time,
            PERCENT_SCALE == 1_000_000,
            scale == 10_000,
    ;
}

impl Sums {
    /// Whether the average extrinsic time is less than that of `other`.
    pub(crate) fn mean_below(&self, other: &Sums) -> (below: bool)
        ensures
            below == (self.extrinsic * other.count < other.extrinsic * self.count),
    {
        proof {
            assert(self.extrinsic * other.count <= u128::MAX && other.extrinsic * self.count
                <= u128::MAX) by (nonlinear_arith)
                requires
                    self.extrinsic <= u64::MAX,
                    other.extrinsic <= u64::MAX,
                    self.count <= u32::MAX,
                    other.count <= u32::MAX,
            ;
        }
        (self.extrinsic as u128) * (other.count as u128) < (other.extrinsic as u128) * (
        self.count as u128)
    }

    /// The row of the ratio table for the extrinsic with these sums, where
    /// `lowest` are the sums of the lowest average extrinsic time.
    pub(crate) fn entry(&self, pallet: String, extrinsic: String, lowest: &Sums) -> (entry:
        PerExtrTableEntry)
        requires
            self.count > 0,
            lowest.count > 0,
            lowest.extrinsic > 0,
            lowest.extrinsic * self.count <= self.extrinsic * lowest.count,
        ensures
            entry.pallet == pallet,
            entry.extrinsic == extrinsic,
            entry.avg_extrinsic_time == round_div(self.extrinsic * SCALE, self.count as int),
            entry.avg_storage_root_time == round_div(
                self.storage_root * SCALE,
                self.count as int,
            ),
            entry.ratio == round_div(
                self.extrinsic * lowest.count * SCALE,
                self.count * lowest.extrinsic,
            ),
            entry.percentage == round_div(
                (self.extrinsic * lowest.count - self.count * lowest.extrinsic) * PERCENT_SCALE,
                self.count * lowest.extrinsic,
            ),
    {
        let count = self.count as u128;
        let time = self.extrinsic as u128;
        let base_count = lowest.count as u128;
        let base_time = lowest.extrinsic as u128;
        proof {
            assert(time * base_count <= 0x1_0000_0000_0000_0000_0000_0000 && count * base_time
                <= 0x1_0000_0000_0000_0000_0000_0000 && count * base_time > 0 && count * base_time
                <= time * base_count) by (nonlinear_arith)
                requires
                    time <= u64::MAX,
                    base_time <= u64::MAX,
                    count <= u32::MAX,
                    base_count <= u32::MAX,
                    count > 0,
                    base_time > 0,
                    base_time * count <= time * base_count,
            ;
            assert(time * base_count * SCALE <= u128::MAX && (time * base_count - count
                * base_time) * PERCENT_SCALE <= u128::MAX) by (nonlinear_arith)
                requires
                    0 <= count * base_time <= time * base_count
                        <= 0x1_0000_0000_0000_0000_0000_0000,
                    SCALE == 10_000,
                    PERCENT_SCALE == 1_000_000,
            ;
            assert(time * SCALE <= u128::MAX && self.storage_root * SCALE <= u128::MAX)
                by (nonlinear_arith)
                requires
                    time <= u64::MAX,
                    self.storage_root <= u64::MAX,
                    SCALE == 10_000,
            ;
        }
        let above = time * base_count;
        let below = count * base_time;
        PerExtrTableEntry {
            pallet,
            extrinsic,
            avg_extrinsic_time: divide_rounded(time * SCALE, count),
            avg_storage_root_time: divide_rounded(self.storage_root as u128 * SCALE, count),
            ratio: divide_rounded(above * SCALE, below),
            percentage: divide_rounded((above - below) * PERCENT_SCALE, below),
        }
    }
}

} // verus!
