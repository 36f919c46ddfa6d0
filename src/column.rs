//! The immutable boolean column and its vectorized kernels.

use crate::bitmap::array_from_bitmap;
use crate::bitmap::array_values;
use crate::bitmap::bit_of;
use crate::bitmap::bitmap_bits;
use crate::bitmap::count_false;
use crate::bitmap::mutable_bits;
use crate::bitmap::mutable_from_slice;
use crate::bitmap::freeze;
use crate::builder::MutableBooleanColumn;
use crate::laws::filter_all_set;
use crate::laws::lemma_clear_lowest;
use crate::laws::lemma_count_split;
use crate::laws::lemma_filtered_skip;
use crate::laws::lemma_filtered_step;
use crate::laws::lemma_partition_len;
use crate::laws::lemma_partition_step;
use crate::laws::lemma_replicated_step;
use arrow2::array::BooleanArray;
use arrow2::bitmap::Bitmap;
use arrow2::bitmap::MutableBitmap;
use vstd::prelude::*;
use vstd::std_specs::bits::axiom_u8_trailing_zeros;

verus! {

/// A decoded single value of a column.
#[derive(PartialEq, Eq, Structural, Clone, Copy, Debug)]
pub enum DataValue {
    Boolean(bool),
}

/// The values of `v` at the positions where `m` is set, in ascending order.
pub open spec fn filtered(v: Seq<bool>, m: Seq<bool>) -> Seq<bool>
    decreases v.len(),
{
    if v.len() == 0 || m.len() == 0 {
        Seq::empty()
    } else if m.last() {
        filtered(v.drop_last(), m.drop_last()).push(v.last())
    } else {
        filtered(v.drop_last(), m.drop_last())
    }
}

/// The values of `v` whose destination in `idx` is `p`, in ascending order.
pub open spec fn partition(v: Seq<bool>, idx: Seq<usize>, p: int) -> Seq<bool>
    decreases v.len(),
{
    if v.len() == 0 || idx.len() == 0 {
        Seq::empty()
    } else if idx.last() == p {
        partition(v.drop_last(), idx.drop_last(), p).push(v.last())
    } else {
        partition(v.drop_last(), idx.drop_last(), p)
    }
}

/// The end offset of the row before `i` (zero for the first row).
pub open spec fn prev_offset(o: Seq<usize>, i: int) -> int {
    if i <= 0 {
        0
    } else {
        o[i - 1] as int
    }
}

/// Offsets that never decrease.
pub open spec fn non_decreasing(o: Seq<usize>) -> bool {
    forall|i: int, j: int| 0 <= i <= j < o.len() ==> o[i] <= o[j]
}

/// Row `i` of `v` repeated `o[i] - o[i - 1]` times, rows in order.
pub open spec fn replicated(v: Seq<bool>, o: Seq<usize>) -> Seq<bool>
    decreases v.len(),
{
    if v.len() == 0 || o.len() == 0 {
        Seq::empty()
    } else {
        replicated(v.drop_last(), o.drop_last()) + Seq::new(
            (o.last() - prev_offset(o, o.len() - 1)) as nat,
            |_j: int| v.last(),
        )
    }
}

/// An immutable column of booleans backed by a shared bitmap.
#[derive(Clone)]
pub struct BooleanColumn {
    values: Bitmap,
}

impl View for BooleanColumn {
    type V = Seq<bool>;

    closed spec fn view(&self) -> Seq<bool> {
        bitmap_bits(self.values)
    }
}

impl BooleanColumn {
    pub(crate) fn from_bitmap(values: Bitmap) -> (r: Self)
        ensures
            r@ == bitmap_bits(values),
    {
        BooleanColumn { values }
    }

    /// A column over the values of a boolean array.
    pub fn new(array: BooleanArray) -> (r: Self)
        ensures
            r@ == array_values(array),
    {
        BooleanColumn { values: array.values().clone() }
    }

    /// A column over the values of a boolean array, sharing its bitmap.
    pub fn from_arrow_array(array: &BooleanArray) -> (r: Self)
        ensures
            r@ == array_values(*array),
    {
        BooleanColumn { values: array.values().clone() }
    }

    /// A column over a bitmap, going through the boolean array form.
    pub fn from_arrow_data(values: Bitmap) -> (r: Self)
        ensures
            r@ == bitmap_bits(values),
    {
        Self::from_arrow_array(&array_from_bitmap(values))
    }

    /// The backing bitmap.
    pub fn values(&self) -> (r: &Bitmap)
        ensures
            bitmap_bits(*r) == self@,
    {
        &self.values
    }

    /// The name of the column's type.
    pub fn column_type_name(&self) -> (r: String)
        ensures
            r@ == "Boolean"@,
    {
        "Boolean".to_owned()
    }

    /// Number of rows.
    pub fn len(&self) -> (r: usize)
        ensures
            r == self@.len(),
    {
        self.values.len()
    }

    /// Bytes of backing storage that the rows span.
    pub fn memory_size(&self) -> (r: usize)
        ensures
            self@.len() + 14 <= usize::MAX ==> self@.len() <= 8 * r <= self@.len() + 14,
    {
        self.values.as_slice().0.len()
    }

    /// The column as a boolean array without validity.
    pub fn as_arrow_array(&self) -> (r: BooleanArray)
        ensures
            array_values(r) == self@,
    {
        array_from_bitmap(self.values.clone())
    }

    /// A shared handle to a copy of this column.
    pub fn arc(&self) -> (r: std::sync::Arc<BooleanColumn>)
        ensures
            r@ == self@,
    {
        std::sync::Arc::new(self.convert_full_column())
    }

    /// The same column, sharing its bits.
    pub fn convert_full_column(&self) -> (r: BooleanColumn)
        ensures
            r@ == self@,
    {
        BooleanColumn { values: self.values.clone() }
    }

    /// The rows `offset .. offset + length`, sharing the bits.
    pub fn slice(&self, offset: usize, length: usize) -> (r: BooleanColumn)
        requires
            offset + length <= self@.len(),
        ensures
            r@ == self@.subrange(offset as int, offset + length),
    {
        BooleanColumn { values: self.values.clone().slice(offset, length) }
    }

    /// The value of row `index`.
    pub fn get(&self, index: usize) -> (r: DataValue)
        requires
            index < self@.len(),
        ensures
            r == DataValue::Boolean(self@[index as int]),
    {
        DataValue::Boolean(self.values.get_bit(index))
    }

    /// The value of row `idx` as a plain bool.
    pub fn get_data(&self, idx: usize) -> (r: bool)
        requires
            idx < self@.len(),
        ensures
            r == self@[idx as int],
    {
        self.values.get_bit(idx)
    }

    /// A column holding the given values in order.
    pub fn from_slice(data: &[bool]) -> (r: BooleanColumn)
        ensures
            r@ == data@,
    {
        BooleanColumn { values: freeze(mutable_from_slice(data)) }
    }

    /// The rows whose bit is set in `filter`, in their original order. When
    /// every bit is set the column itself is returned, sharing its bits.
    pub fn filter(&self, filter: &BooleanColumn) -> (r: BooleanColumn)
        requires
            filter@.len() == self@.len(),
        ensures
            r@ == filtered(self@, filter@),
    {
        proof {
            lemma_count_split(filter@);
        }
        let selected = filter.values.len() - filter.values.null_count();
        if selected == self.len() {
            proof {
                filter_all_set(self@, filter@);
            }
            return self.convert_full_column();
        }
        let mut bitmap = MutableBitmap::with_capacity(selected);
        let (value_bytes, value_offset, n) = self.values.as_slice();
        let (mask_bytes, mask_offset, _mask_len) = filter.values.as_slice();
        // Whole bytes are processed as chunks when both bitmaps start on a byte
        // boundary; the remaining rows are processed one at a time.
        let mut chunks: usize = 0;
        if value_offset == 0 && mask_offset == 0 {
            chunks = n / 8;
            if value_bytes.len() < chunks {
                chunks = value_bytes.len();
            }
            if mask_bytes.len() < chunks {
                chunks = mask_bytes.len();
            }
        }
        proof {
            assert(forall|x: u8| (0u8 >> x) & 1u8 == 0u8) by (bit_vector);
        }
        let mut k: usize = 0;
        while k < chunks
            invariant
                k <= chunks,
                8 * chunks <= n,
                chunks <= value_bytes@.len(),
                chunks <= mask_bytes@.len(),
                n == self@.len(),
                filter@.len() == n,
                chunks > 0 ==> value_offset == 0 && mask_offset == 0,
                forall|i: int|
                    0 <= i < n ==> #[trigger] self@[i] == bit_of(
                        value_bytes@[(value_offset + i) / 8],
                        (value_offset + i) % 8,
                    ),
                forall|i: int|
                    0 <= i < n ==> #[trigger] filter@[i] == bit_of(
                        mask_bytes@[(mask_offset + i) / 8],
                        (mask_offset + i) % 8,
                    ),
                forall|x: u8| (0u8 >> x) & 1u8 == 0u8,
                mutable_bits(bitmap) == filtered(self@.subrange(0, 8 * k), filter@.subrange(0, 8 * k)),
                mutable_bits(bitmap).len() <= 8 * k,
            decreases chunks - k,
        {
            let chunk = value_bytes[k];
            let mut mask = mask_bytes[k];
            let ghost base = 8 * k as int;
            let ghost mut p: int = 0;
            proof {
                assert forall|j: int| 0 <= j < 8 implies #[trigger] bit_of(chunk, j) == self@[base + j]
                    && bit_of(mask, j) == filter@[base + j] by {
                    assert((base + j) / 8 == k && (base + j) % 8 == j);
                    assert(self@[base + j] == bit_of(value_bytes@[(value_offset + (base + j)) / 8], (value_offset + (base + j)) % 8));
                    assert(filter@[base + j] == bit_of(mask_bytes@[(mask_offset + (base + j)) / 8], (mask_offset + (base + j)) % 8));
                }
            }
            while mask != 0
                invariant
                    0 <= p <= 8,
                    base + 8 <= n,
                    n == self@.len(),
                    filter@.len() == n,
                    forall|j: int| 0 <= j < 8 ==> #[trigger] bit_of(chunk, j) == self@[base + j],
                    forall|j: int|
                        0 <= j < 8 ==> #[trigger] bit_of(mask, j) == (p <= j && filter@[base + j]),
                    mutable_bits(bitmap) == filtered(
                        self@.subrange(0, base + p),
                        filter@.subrange(0, base + p),
                    ),
                    mutable_bits(bitmap).len() <= base + p,
                decreases 8 - p,
            {
                let t = mask.trailing_zeros();
                proof {
                    axiom_u8_trailing_zeros(mask);
                }
                let s = t as u8;
                let value: bool = (chunk >> s) & 1u8 == 1u8;
                proof {
                    assert(bit_of(mask, s as int));
                    assert forall|j: int| base + p <= j < base + s implies !filter@[j] by {
                        let jj = (j - base) as u8;
                        assert((mask >> jj) & 1u8 == 0u8);
                        assert(!bit_of(mask, j - base));
                    }
                    lemma_filtered_skip(self@, filter@, base + p, base + s);
                    lemma_filtered_step(self@, filter@, base + s);
                    assert(bit_of(chunk, s as int) == self@[base + s]);
                    assert(mask << ((8 - s) as u8) == 0);
                    assert((mask >> s) & 1u8 == 1u8);
                    assert forall|j: int| 0 <= j < 8 implies #[trigger] bit_of(mask & ((mask - 1) as u8), j)
                        == (s + 1 <= j && filter@[base + j]) by {
                        lemma_clear_lowest(mask, s, j as u8);
                        assert(bit_of(mask, j) == (p <= j && filter@[base + j]));
                        if j < s {
                            let jj = j as u8;
                            assert((mask >> jj) & 1u8 == 0u8);
                        }
                    }
                    p = s + 1;
                }
                bitmap.push(value);
                mask = mask & (mask - 1);
            }
            proof {
                assert forall|j: int| base + p <= j < base + 8 implies !filter@[j] by {
                    assert(bit_of(mask, j - base) == (p <= j - base && filter@[j]));
                }
                lemma_filtered_skip(self@, filter@, base + p, base + 8);
            }
            k += 1;
        }
        let mut i: usize = 8 * k;
        while i < n
            invariant
                8 * k <= i <= n,
                n == self@.len(),
                filter@.len() == n,
                mutable_bits(bitmap) == filtered(self@.subrange(0, i as int), filter@.subrange(0, i as int)),
                mutable_bits(bitmap).len() <= i,
            decreases n - i,
        {
            proof {
                lemma_filtered_step(self@, filter@, i as int);
            }
            if filter.values.get_bit(i) {
                bitmap.push(self.values.get_bit(i));
            }
            i += 1;
        }
        proof {
            assert(self@.subrange(0, n as int) =~= self@);
            assert(filter@.subrange(0, n as int) =~= filter@);
        }
        BooleanColumn { values: freeze(bitmap) }
    }

    /// Splits the rows into `scattered_size` columns: row `i` goes to column
    /// `indices[i]`, and each column keeps the rows' order.
    pub fn scatter(&self, indices: &[usize], scattered_size: usize) -> (r: Vec<BooleanColumn>)
        requires
            indices@.len() == self@.len(),
            forall|i: int| 0 <= i < indices@.len() ==> indices@[i] < scattered_size,
        ensures
            r@.len() == scattered_size,
            forall|p: int| 0 <= p < scattered_size ==> #[trigger] r@[p]@ == partition(self@, indices@, p),
    {
        let n = self.len();
        let mut builders: Vec<MutableBooleanColumn> = Vec::with_capacity(scattered_size);
        let mut k: usize = 0;
        while k < scattered_size
            invariant
                k <= scattered_size,
                builders@.len() == k,
                forall|p: int| 0 <= p < k ==> #[trigger] builders@[p]@ == Seq::<bool>::empty(),
            decreases scattered_size - k,
        {
            builders.push(MutableBooleanColumn::with_capacity(n));
            k += 1;
        }
        let mut i: usize = 0;
        while i < n
            invariant
                i <= n,
                n == self@.len(),
                indices@.len() == n,
                forall|i: int| 0 <= i < indices@.len() ==> indices@[i] < scattered_size,
                builders@.len() == scattered_size,
                forall|p: int| 0 <= p < scattered_size ==> #[trigger] builders@[p]@ == partition(
                    self@.subrange(0, i as int),
                    indices@.subrange(0, i as int),
                    p,
                ),
            decreases n - i,
        {
            let d = indices[i];
            let value = self.values.get_bit(i);
            proof {
                lemma_partition_len(self@.subrange(0, i as int), indices@.subrange(0, i as int), d as int);
                assert forall|p: int| 0 <= p < scattered_size implies partition(
                    self@.subrange(0, i + 1),
                    indices@.subrange(0, i + 1),
                    p,
                ) == if p == d {
                    partition(self@.subrange(0, i as int), indices@.subrange(0, i as int), p).push(value)
                } else {
                    partition(self@.subrange(0, i as int), indices@.subrange(0, i as int), p)
                } by {
                    lemma_partition_step(self@, indices@, i as int, p);
                }
            }
            builders[d].append_value(value);
            i += 1;
        }
        proof {
            assert(self@.subrange(0, n as int) =~= self@);
            assert(indices@.subrange(0, n as int) =~= indices@);
        }
        let mut columns: Vec<BooleanColumn> = Vec::with_capacity(scattered_size);
        let mut k: usize = 0;
        while k < scattered_size
            invariant
                k <= scattered_size,
                builders@.len() == scattered_size,
                columns@.len() == k,
                forall|p: int| k <= p < scattered_size ==> #[trigger] builders@[p]@ == partition(self@, indices@, p),
                forall|p: int| 0 <= p < k ==> #[trigger] columns@[p]@ == partition(self@, indices@, p),
            decreases scattered_size - k,
        {
            let mut taken = MutableBooleanColumn::with_capacity(0);
            std::mem::swap(&mut builders[k], &mut taken);
            columns.push(taken.to_column());
            k += 1;
        }
        columns
    }

    /// Repeats row `i` `offsets[i] - offsets[i - 1]` times (`offsets[i]` times
    /// for the first row), rows in order.
    pub fn replicate(&self, offsets: &[usize]) -> (r: BooleanColumn)
        requires
            offsets@.len() == self@.len(),
            non_decreasing(offsets@),
        ensures
            r@ == replicated(self@, offsets@),
    {
        if offsets.len() == 0 {
            proof {
                assert(self@.subrange(0, 0) =~= Seq::<bool>::empty());
            }
            return self.slice(0, 0);
        }
        let n = self.len();
        let mut builder = MutableBooleanColumn::with_capacity(offsets[n - 1]);
        let mut previous_offset: usize = 0;
        let mut i: usize = 0;
        while i < n
            invariant
                i <= n,
                n == self@.len(),
                offsets@.len() == n,
                non_decreasing(offsets@),
                previous_offset == prev_offset(offsets@, i as int),
                builder@ == replicated(self@.subrange(0, i as int), offsets@.subrange(0, i as int)),
                builder@.len() == previous_offset,
            decreases n - i,
        {
            let offset = offsets[i];
            let data = self.values.get_bit(i);
            proof {
                lemma_replicated_step(self@, offsets@, i as int);
                if i > 0 {
                    assert(offsets@[i - 1] <= offsets@[i as int]);
                }
            }
            builder.append_constant(offset - previous_offset, data);
            previous_offset = offset;
            i += 1;
        }
        proof {
            assert(self@.subrange(0, n as int) =~= self@);
            assert(offsets@.subrange(0, n as int) =~= offsets@);
        }
        builder.to_column()
    }
}

} // verus!
