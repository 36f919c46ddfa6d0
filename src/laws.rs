//! Properties of the column kernels, stated over their specifications.

use crate::bitmap::array_values;
use crate::bitmap::bit_of;
use crate::bitmap::count_false;
use crate::bitmap::count_true;
use crate::column::filtered;
use crate::column::non_decreasing;
use crate::column::partition;
use crate::column::prev_offset;
use crate::column::replicated;
use crate::column::BooleanColumn;
use arrow2::array::BooleanArray;
use vstd::prelude::*;

verus! {

/// Number of entries of `s` equal to `b`.
pub open spec fn count_of(s: Seq<bool>, b: bool) -> nat {
    if b {
        count_true(s)
    } else {
        count_false(s)
    }
}

/// Total number of entries equal to `b` over partitions `0 .. n`.
pub open spec fn partitions_count(v: Seq<bool>, idx: Seq<usize>, n: int, b: bool) -> int
    decreases n,
{
    if n <= 0 {
        0
    } else {
        partitions_count(v, idx, n - 1, b) + count_of(partition(v, idx, n - 1), b)
    }
}

pub proof fn lemma_count_push(s: Seq<bool>, x: bool)
    ensures
        count_true(s.push(x)) == count_true(s) + if x {
            1int
        } else {
            0int
        },
        count_false(s.push(x)) == count_false(s) + if x {
            0int
        } else {
            1int
        },
{
    assert(s.push(x).drop_last() =~= s);
}

/// The set and unset entries of a bit sequence add up to its length.
pub proof fn lemma_count_split(s: Seq<bool>)
    ensures
        count_true(s) + count_false(s) == s.len(),
    decreases s.len(),
{
    if s.len() > 0 {
        lemma_count_split(s.drop_last());
    }
}

pub proof fn lemma_filtered_step(v: Seq<bool>, m: Seq<bool>, i: int)
    requires
        0 <= i < v.len(),
        v.len() == m.len(),
    ensures
        filtered(v.subrange(0, i + 1), m.subrange(0, i + 1)) == if m[i] {
            filtered(v.subrange(0, i), m.subrange(0, i)).push(v[i])
        } else {
            filtered(v.subrange(0, i), m.subrange(0, i))
        },
{
    assert(v.subrange(0, i + 1).drop_last() =~= v.subrange(0, i));
    assert(m.subrange(0, i + 1).drop_last() =~= m.subrange(0, i));
}

/// Filtering keeps exactly as many rows as the mask has set bits.
pub proof fn filter_length(v: Seq<bool>, m: Seq<bool>)
    requires
        v.len() == m.len(),
    ensures
        filtered(v, m).len() == count_true(m),
    decreases v.len(),
{
    if v.len() > 0 {
        filter_length(v.drop_last(), m.drop_last());
    }
}

/// With a mask whose bits are all set, filtering returns the values unchanged.
pub proof fn filter_all_set(v: Seq<bool>, m: Seq<bool>)
    requires
        v.len() == m.len(),
        count_false(m) == 0,
    ensures
        filtered(v, m) == v,
    decreases v.len(),
{
    if v.len() > 0 {
        filter_all_set(v.drop_last(), m.drop_last());
        assert(v.drop_last().push(v.last()) =~= v);
    }
}

/// Filtering keeps the order of rows: the value of a selected row `i` lands at
/// the position given by the number of selected rows before it.
pub proof fn filter_keeps_order(v: Seq<bool>, m: Seq<bool>, i: int)
    requires
        v.len() == m.len(),
        0 <= i < v.len(),
        m[i],
    ensures
        count_true(m.subrange(0, i)) < filtered(v, m).len(),
        filtered(v, m)[count_true(m.subrange(0, i)) as int] == v[i],
    decreases v.len(),
{
    let k = v.len() - 1;
    assert(m.drop_last() =~= m.subrange(0, k));
    filter_length(v.drop_last(), m.drop_last());
    if i < k {
        filter_keeps_order(v.drop_last(), m.drop_last(), i);
        assert(m.drop_last().subrange(0, i) =~= m.subrange(0, i));
    }
}

pub proof fn lemma_partition_step(v: Seq<bool>, idx: Seq<usize>, i: int, p: int)
    requires
        0 <= i < v.len(),
        v.len() == idx.len(),
    ensures
        partition(v.subrange(0, i + 1), idx.subrange(0, i + 1), p) == if idx[i] == p {
            partition(v.subrange(0, i), idx.subrange(0, i), p).push(v[i])
        } else {
            partition(v.subrange(0, i), idx.subrange(0, i), p)
        },
{
    assert(v.subrange(0, i + 1).drop_last() =~= v.subrange(0, i));
    assert(idx.subrange(0, i + 1).drop_last() =~= idx.subrange(0, i));
}

/// A partition holds no more values than its source.
pub proof fn lemma_partition_len(v: Seq<bool>, idx: Seq<usize>, p: int)
    ensures
        partition(v, idx, p).len() <= v.len(),
    decreases v.len(),
{
    if v.len() > 0 && idx.len() > 0 {
        lemma_partition_len(v.drop_last(), idx.drop_last(), p);
    }
}

proof fn lemma_partitions_empty(v: Seq<bool>, idx: Seq<usize>, n: int, b: bool)
    requires
        v.len() == 0,
    ensures
        partitions_count(v, idx, n, b) == 0,
    decreases n,
{
    if n > 0 {
        lemma_partitions_empty(v, idx, n - 1, b);
    }
}

proof fn lemma_partitions_last(v: Seq<bool>, idx: Seq<usize>, n: int, b: bool)
    requires
        v.len() == idx.len(),
        v.len() > 0,
    ensures
        partitions_count(v, idx, n, b) == partitions_count(v.drop_last(), idx.drop_last(), n, b)
            + if 0 <= idx.last() < n && v.last() == b {
            1int
        } else {
            0int
        },
    decreases n,
{
    if n > 0 {
        lemma_partitions_last(v, idx, n - 1, b);
        lemma_count_push(partition(v.drop_last(), idx.drop_last(), n - 1), v.last());
    }
}

/// Scattering loses and duplicates no row: over all partitions, each value
/// occurs as often as in the source. Each partition keeps source order by the
/// definition of `partition`.
pub proof fn scatter_covers(v: Seq<bool>, idx: Seq<usize>, n: int)
    requires
        v.len() == idx.len(),
        forall|i: int| 0 <= i < idx.len() ==> idx[i] < n,
    ensures
        forall|b: bool| partitions_count(v, idx, n, b) == count_of(v, b),
    decreases v.len(),
{
    if v.len() == 0 {
        assert forall|b: bool| partitions_count(v, idx, n, b) == count_of(v, b) by {
            lemma_partitions_empty(v, idx, n, b);
        }
    } else {
        scatter_covers(v.drop_last(), idx.drop_last(), n);
        assert forall|b: bool| partitions_count(v, idx, n, b) == count_of(v, b) by {
            lemma_partitions_last(v, idx, n, b);
            lemma_count_push(v.drop_last(), v.last());
            assert(v.drop_last().push(v.last()) =~= v);
            assert(idx.last() < n);
            assert(partitions_count(v.drop_last(), idx.drop_last(), n, b) == count_of(
                v.drop_last(),
                b,
            ));
        }
    }
}

pub proof fn lemma_replicated_step(v: Seq<bool>, o: Seq<usize>, i: int)
    requires
        0 <= i < v.len(),
        v.len() == o.len(),
    ensures
        replicated(v.subrange(0, i + 1), o.subrange(0, i + 1)) == replicated(
            v.subrange(0, i),
            o.subrange(0, i),
        ) + Seq::new((o[i] - prev_offset(o, i)) as nat, |_j: int| v[i]),
{
    assert(v.subrange(0, i + 1).drop_last() =~= v.subrange(0, i));
    assert(o.subrange(0, i + 1).drop_last() =~= o.subrange(0, i));
}

/// Replication gives row `i` the output positions `o[i - 1] .. o[i]` (from zero
/// for the first row), each holding the row's value; the length is the last
/// offset, or zero without rows.
pub proof fn replicate_expands(v: Seq<bool>, o: Seq<usize>)
    requires
        v.len() == o.len(),
        non_decreasing(o),
    ensures
        replicated(v, o).len() == prev_offset(o, o.len() as int),
        forall|i: int, j: int|
            0 <= i < v.len() && prev_offset(o, i) <= j < o[i] ==> replicated(v, o)[j] == v[i],
    decreases v.len(),
{
    if v.len() > 0 {
        let k = v.len() - 1;
        let vp = v.drop_last();
        let op = o.drop_last();
        assert(non_decreasing(op));
        replicate_expands(vp, op);
        assert forall|i: int, j: int|
            0 <= i < v.len() && prev_offset(o, i) <= j < o[i] implies replicated(v, o)[j]
            == v[i] by {
            let head = replicated(vp, op);
            let tail = Seq::new((o[k] - prev_offset(o, k)) as nat, |_j: int| v[k]);
            assert(replicated(v, o) == head + tail);
            assert(head.len() == prev_offset(o, k));
            if i < k {
                assert(prev_offset(op, i) == prev_offset(o, i));
                assert(op[i] == o[i] && vp[i] == v[i]);
                assert(o[i] <= prev_offset(o, k));
                assert(head[j] == v[i]);
            } else {
                assert(tail[j - head.len()] == v[i]);
            }
        }
    }
}

/// Slicing gives a column of the requested length.
pub proof fn slice_length(v: Seq<bool>, offset: int, length: int)
    requires
        0 <= offset,
        0 <= length,
        offset + length <= v.len(),
    ensures
        v.subrange(offset, offset + length).len() == length,
{
}

/// Converting a column to a boolean array and back reproduces its values: the
/// array holds the column's values, and a column read from it holds the array's.
pub proof fn arrow_round_trip(c: BooleanColumn, a: BooleanArray, back: BooleanColumn)
    requires
        array_values(a) == c@,
        back@ == array_values(a),
    ensures
        back@ == c@,
{
}

/// Clearing the lowest set bit of a byte, `x & (x - 1)`, keeps every other bit.
pub proof fn lemma_clear_lowest(x: u8, n: u8, j: u8)
    requires
        n < 8,
        j < 8,
        (x >> n) & 1u8 == 1u8,
        x << ((8 - n) as u8) == 0,
    ensures
        j == n ==> ((x & ((x - 1) as u8)) >> j) & 1u8 == 0u8,
        j != n ==> ((x & ((x - 1) as u8)) >> j) & 1u8 == (x >> j) & 1u8,
{
    assert(j == n ==> ((x & ((x - 1) as u8)) >> j) & 1u8 == 0u8) by (bit_vector)
        requires
            n < 8,
            (x >> n) & 1u8 == 1u8,
            x << ((8 - n) as u8) == 0,
    ;
    assert(j != n ==> ((x & ((x - 1) as u8)) >> j) & 1u8 == (x >> j) & 1u8) by (bit_vector)
        requires
            n < 8,
            j < 8,
            (x >> n) & 1u8 == 1u8,
            x << ((8 - n) as u8) == 0,
    ;
}

/// A byte is zero when none of its eight bits is set.
pub proof fn lemma_zero_byte(x: u8)
    requires
        forall|j: int| 0 <= j < 8 ==> !#[trigger] bit_of(x, j),
    ensures
        x == 0,
{
    assert(!bit_of(x, 0) && !bit_of(x, 1) && !bit_of(x, 2) && !bit_of(x, 3));
    assert(!bit_of(x, 4) && !bit_of(x, 5) && !bit_of(x, 6) && !bit_of(x, 7));
    assert(((x >> 0u8) & 1u8 != 1u8 && (x >> 1u8) & 1u8 != 1u8 && (x >> 2u8) & 1u8 != 1u8 && (x >> 3u8) & 1u8
        != 1u8 && (x >> 4u8) & 1u8 != 1u8 && (x >> 5u8) & 1u8 != 1u8 && (x >> 6u8) & 1u8 != 1u8 && (x
        >> 7u8) & 1u8 != 1u8) ==> x == 0) by (bit_vector);
}

/// Rows whose mask bit is clear add nothing to a filtered prefix.
pub proof fn lemma_filtered_skip(v: Seq<bool>, m: Seq<bool>, a: int, b: int)
    requires
        v.len() == m.len(),
        0 <= a <= b <= v.len(),
        forall|j: int| a <= j < b ==> !m[j],
    ensures
        filtered(v.subrange(0, b), m.subrange(0, b)) == filtered(v.subrange(0, a), m.subrange(0, a)),
    decreases b - a,
{
    if a < b {
        lemma_filtered_skip(v, m, a, b - 1);
        lemma_filtered_step(v, m, b - 1);
    }
}

} // verus!
