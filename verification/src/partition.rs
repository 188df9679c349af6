//! Splitting the contributor index universe `[1, total]` into a fixed
//! number of contiguous, disjoint, half-open ranges, one per worker.

use vstd::prelude::*;
use vstd::arithmetic::div_mod::{lemma_fundamental_div_mod, lemma_mod_division_less_than_divisor};
use vstd::arithmetic::mul::lemma_mul_inequality;

verus! {

/// A half-open range `[start, end)` of contributor indices, owned by
/// exactly one worker.
#[derive(Clone, Copy, Debug, PartialEq, Eq, Structural)]
pub struct IndexRange {
    pub start: i64,
    pub end: i64,
}

impl IndexRange {
    /// Whether index `j` falls inside this range.
    pub open spec fn spec_contains(self, j: int) -> bool {
        self.start <= j < self.end
    }

    /// Number of indices in the range.
    pub open spec fn spec_len(self) -> int {
        if self.end >= self.start {
            self.end - self.start
        } else {
            0
        }
    }

    pub fn is_empty(&self) -> (r: bool)
        ensures
            r <==> self.spec_len() == 0,
    {
        self.end <= self.start
    }
}

/// Size of every range but the last: `floor(total / task_count)`.
/// The last range absorbs the remainder.
pub open spec fn base_size(total: int, task_count: int) -> int
    recommends
        total >= 0,
        task_count >= 1,
{
    total / task_count
}

/// Start of the `i`-th range (0-based `i`); the first range starts at
/// index 1, never 0.
pub open spec fn range_start(total: int, task_count: int, i: int) -> int {
    1 + i * base_size(total, task_count)
}

/// Exclusive end of the `i`-th range; the last range ends at
/// `total + 1` so the universe `[1, total]` is covered whole.
pub open spec fn range_end(total: int, task_count: int, i: int) -> int {
    if i == task_count - 1 {
        total + 1
    } else {
        1 + (i + 1) * base_size(total, task_count)
    }
}

/// Whether index `j` falls inside some range of the partition of
/// `[1, total]` into `task_count` ranges.
pub open spec fn index_covered(total: int, task_count: int, j: int) -> bool {
    exists|i: int|
        0 <= i < task_count && #[trigger] range_start(total, task_count, i) <= j < range_end(
            total,
            task_count,
            i,
        )
}

/// Facts used throughout: the base size is non-negative and
/// `task_count * base_size <= total < task_count * (base_size + 1)`.
proof fn lemma_base_size_bounds(total: int, task_count: int)
    requires
        total >= 0,
        task_count >= 1,
    ensures
        0 <= base_size(total, task_count),
        task_count * base_size(total, task_count) <= total,
        0 <= total % task_count < task_count,
        total == task_count * base_size(total, task_count) + total % task_count,
{
    lemma_fundamental_div_mod(total, task_count);
    lemma_mod_division_less_than_divisor(total, task_count);
    let q = base_size(total, task_count);
    let rem = total % task_count;
    assert(total == task_count * q + rem);
    assert(q >= 0) by (nonlinear_arith)
        requires
            total >= 0,
            task_count >= 1,
            0 <= rem < task_count,
            total == task_count * q + rem,
    ;
}

/// Divide `[1, total]` into `task_count` contiguous half-open ranges:
/// each of size `floor(total / task_count)`, except the last, which
/// runs to `total + 1` and so absorbs the remainder.
pub fn partition(total: i64, task_count: i64) -> (r: Vec<IndexRange>)
    requires
        0 <= total < i64::MAX,
        1 <= task_count,
    ensures
        r@.len() == task_count,
        forall|i: int|
            0 <= i < task_count ==> (#[trigger] r@[i]).start == range_start(
                total as int,
                task_count as int,
                i,
            ),
        forall|i: int|
            0 <= i < task_count ==> (#[trigger] r@[i]).end == range_end(
                total as int,
                task_count as int,
                i,
            ),
{
    let q: i64 = total / task_count;
    proof {
        lemma_base_size_bounds(total as int, task_count as int);
    }
    let mut r: Vec<IndexRange> = Vec::new();
    let mut i: i64 = 0;
    while i < task_count
        invariant
            0 <= i <= task_count,
            0 <= total < i64::MAX,
            1 <= task_count,
            q == base_size(total as int, task_count as int),
            0 <= q,
            task_count * q <= total,
            r@.len() == i,
            forall|k: int|
                0 <= k < i ==> (#[trigger] r@[k]).start == range_start(
                    total as int,
                    task_count as int,
                    k,
                ),
            forall|k: int|
                0 <= k < i ==> (#[trigger] r@[k]).end == range_end(
                    total as int,
                    task_count as int,
                    k,
                ),
        decreases task_count - i,
    {
        proof {
            lemma_mul_inequality(i as int, task_count as int, q as int);
            lemma_mul_inequality(i as int + 1, task_count as int, q as int);
            assert(0 <= i as int * q as int) by (nonlinear_arith)
                requires
                    0 <= i,
                    0 <= q,
            ;
            assert(0 <= (i as int + 1) * q as int) by (nonlinear_arith)
                requires
                    0 <= i,
                    0 <= q,
            ;
        }
        let s: i64 = 1 + i * q;
        let e: i64 = if i == task_count - 1 {
            total + 1
        } else {
            1 + (i + 1) * q
        };
        r.push(IndexRange { start: s, end: e });
        i = i + 1;
    }
    r
}

/// The partition's ranges are pairwise disjoint, ascend by start,
/// stay inside `[1, total + 1)`, collectively cover `{1, ..., total}`,
/// and each holds `base_size` indices except the last, which also
/// holds the remainder.
pub proof fn lemma_partition_properties(total: int, task_count: int)
    requires
        total >= 0,
        task_count >= 1,
    ensures
        forall|i: int|
            0 <= i < task_count ==> #[trigger] range_start(total, task_count, i) <= range_end(
                total,
                task_count,
                i,
            ),
        forall|i: int, k: int|
            0 <= i < k < task_count ==> #[trigger] range_end(total, task_count, i)
                <= #[trigger] range_start(total, task_count, k),
        forall|i: int|
            0 <= i < task_count ==> 1 <= #[trigger] range_start(total, task_count, i)
                && range_end(total, task_count, i) <= total + 1,
        forall|j: int| 1 <= j <= total ==> #[trigger] index_covered(total, task_count, j),
        forall|i: int|
            0 <= i < task_count - 1 ==> #[trigger] range_end(total, task_count, i) - range_start(
                total,
                task_count,
                i,
            ) == base_size(total, task_count),
        range_end(total, task_count, task_count - 1) - range_start(
            total,
            task_count,
            task_count - 1,
        ) == base_size(total, task_count) + total % task_count,
{
    lemma_base_size_bounds(total, task_count);
    let q = base_size(total, task_count);
    assert forall|i: int| 0 <= i < task_count implies 1 <= #[trigger] range_start(
        total,
        task_count,
        i,
    ) && range_end(total, task_count, i) <= total + 1 by {
        lemma_range_bounds(total, task_count, i);
    }
    assert forall|i: int| 0 <= i < task_count implies #[trigger] range_start(total, task_count, i)
        <= range_end(total, task_count, i) by {
        lemma_range_bounds(total, task_count, i);
    }
    assert forall|i: int, k: int| 0 <= i < k < task_count implies #[trigger] range_end(
        total,
        task_count,
        i,
    ) <= #[trigger] range_start(total, task_count, k) by {
        lemma_mul_inequality(i + 1, k, q);
        if k == task_count - 1 {
            lemma_range_bounds(total, task_count, k);
        }
    }
    assert forall|j: int| 1 <= j <= total implies #[trigger] index_covered(
        total,
        task_count,
        j,
    ) by {
        lemma_partition_covers(total, task_count, j);
    }
    assert forall|i: int| 0 <= i < task_count - 1 implies #[trigger] range_end(
        total,
        task_count,
        i,
    ) - range_start(total, task_count, i) == base_size(total, task_count) by {
        assert((i + 1) * q - i * q == q) by (nonlinear_arith);
    }
    assert((task_count - 1) * q == task_count * q - q) by (nonlinear_arith);
}

/// Every range lies inside `[1, total + 1)` and is well-formed.
proof fn lemma_range_bounds(total: int, task_count: int, i: int)
    requires
        total >= 0,
        task_count >= 1,
        0 <= i < task_count,
    ensures
        1 <= range_start(total, task_count, i),
        range_start(total, task_count, i) <= range_end(total, task_count, i),
        range_end(total, task_count, i) <= total + 1,
{
    lemma_base_size_bounds(total, task_count);
    let q = base_size(total, task_count);
    assert(0 <= i * q) by (nonlinear_arith)
        requires
            0 <= i,
            0 <= q,
    ;
    lemma_mul_inequality(i, i + 1, q);
    lemma_mul_inequality(i + 1, task_count, q);
    lemma_mul_inequality(task_count - 1, task_count, q);
}

/// Every index of `[1, total]` falls inside some range.
pub proof fn lemma_partition_covers(total: int, task_count: int, j: int)
    requires
        total >= 0,
        task_count >= 1,
        1 <= j <= total,
    ensures
        index_covered(total, task_count, j),
{
    lemma_base_size_bounds(total, task_count);
    let q = base_size(total, task_count);
    if q == 0 {
        let i = task_count - 1;
        assert(i * 0 == 0) by (nonlinear_arith);
        assert(range_start(total, task_count, i) == 1);
        assert(range_start(total, task_count, i) <= j < range_end(total, task_count, i));
    } else {
        lemma_fundamental_div_mod(j - 1, q);
        lemma_mod_division_less_than_divisor(j - 1, q);
        let d = (j - 1) / q;
        let rm = (j - 1) % q;
        assert(j - 1 == q * d + rm);
        assert(d >= 0) by (nonlinear_arith)
            requires
                j - 1 >= 0,
                q >= 1,
                0 <= rm < q,
                j - 1 == q * d + rm,
        ;
        if d < task_count - 1 {
            let i = d;
            assert(i * q == q * i) by (nonlinear_arith);
            assert(range_start(total, task_count, i) == 1 + q * d);
            assert((i + 1) * q == q * d + q) by (nonlinear_arith)
                requires
                    i == d,
            ;
            assert(range_start(total, task_count, i) <= j < range_end(total, task_count, i));
        } else {
            let i = task_count - 1;
            lemma_mul_inequality(task_count - 1, d, q);
            assert(d * q == q * d) by (nonlinear_arith);
            assert(range_start(total, task_count, i) <= j);
            assert(j < range_end(total, task_count, i));
        }
    }
}

} // verus!
