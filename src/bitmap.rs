//! Contracts for the arrow2 bit containers that back a boolean column.
//!
//! The contents of each container are named by an uninterpreted spec function;
//! every method the library calls is described over those names.

use arrow2::array::BooleanArray;
use arrow2::bitmap::Bitmap;
use arrow2::bitmap::MutableBitmap;
use arrow2::datatypes::DataType;
use vstd::prelude::*;

verus! {

#[verifier::external_type_specification]
#[verifier::external_body]
pub struct ExBitmap(Bitmap);

#[verifier::external_type_specification]
#[verifier::external_body]
pub struct ExMutableBitmap(MutableBitmap);

#[verifier::external_type_specification]
#[verifier::external_body]
pub struct ExBooleanArray(BooleanArray);

/// The bits held by an immutable bitmap, in order.
pub uninterp spec fn bitmap_bits(b: Bitmap) -> Seq<bool>;

/// The bits held by a growable bitmap, in order.
pub uninterp spec fn mutable_bits(b: MutableBitmap) -> Seq<bool>;

/// The values of a boolean array, in order (its validity is not part of them).
pub uninterp spec fn array_values(a: BooleanArray) -> Seq<bool>;

/// Number of `false` entries of a bit sequence.
pub open spec fn count_false(s: Seq<bool>) -> nat
    decreases s.len(),
{
    if s.len() == 0 {
        0
    } else {
        count_false(s.drop_last()) + if s.last() {
            0nat
        } else {
            1nat
        }
    }
}

/// Number of `true` entries of a bit sequence.
pub open spec fn count_true(s: Seq<bool>) -> nat
    decreases s.len(),
{
    if s.len() == 0 {
        0
    } else {
        count_true(s.drop_last()) + if s.last() {
            1nat
        } else {
            0nat
        }
    }
}

/// Bit `j` (least significant first) of a byte, for `0 <= j < 8`.
pub open spec fn bit_of(x: u8, j: int) -> bool {
    (x >> (j as u8)) & 1u8 == 1u8
}

/// Relies on `Bitmap::as_slice`: the bytes that cover the bits, the bit offset of
/// the first bit inside the first byte, and the length. Bit `i` is bit
/// `(offset + i) % 8` of byte `(offset + i) / 8`, least significant first.
pub assume_specification[ Bitmap::as_slice ](b: &Bitmap) -> (r: (&[u8], usize, usize))
    ensures
        r.1 < 8,
        r.2 == bitmap_bits(*b).len(),
        r.1 + r.2 + 7 <= usize::MAX ==> r.0@.len() == (r.1 + r.2 + 7) / 8,
        forall|i: int|
            0 <= i < bitmap_bits(*b).len() ==> #[trigger] bitmap_bits(*b)[i] == bit_of(
                r.0@[(r.1 + i) / 8],
                (r.1 + i) % 8,
            ),
;

/// Relies on `Bitmap::len`: the number of bits.
pub assume_specification[ Bitmap::len ](b: &Bitmap) -> (r: usize)
    ensures
        r == bitmap_bits(*b).len(),
;

/// Relies on `Bitmap::null_count`: the cached number of unset bits.
pub assume_specification[ Bitmap::null_count ](b: &Bitmap) -> (r: usize)
    ensures
        r == count_false(bitmap_bits(*b)),
;

/// Relies on `Bitmap::get_bit`: the bit at a position below the length.
pub assume_specification[ Bitmap::get_bit ](b: &Bitmap, i: usize) -> (r: bool)
    requires
        i < bitmap_bits(*b).len(),
    ensures
        r == bitmap_bits(*b)[i as int],
;

/// Relies on `Bitmap::slice`: a view of `length` bits from `offset`; it asserts
/// that the range lies inside the bitmap.
pub assume_specification[ Bitmap::slice ](b: Bitmap, offset: usize, length: usize) -> (r: Bitmap)
    requires
        offset + length <= bitmap_bits(b).len(),
    ensures
        bitmap_bits(r) == bitmap_bits(b).subrange(offset as int, offset + length),
;

/// Relies on the derived `Clone` of `Bitmap`: it shares the same bits.
pub assume_specification[ <Bitmap as Clone>::clone ](b: &Bitmap) -> (r: Bitmap)
    ensures
        bitmap_bits(r) == bitmap_bits(*b),
;

/// Relies on `MutableBitmap::with_capacity`: an empty bitmap.
pub assume_specification[ MutableBitmap::with_capacity ](capacity: usize) -> (r: MutableBitmap)
    ensures
        mutable_bits(r) == Seq::<bool>::empty(),
;

/// Relies on `MutableBitmap::len`: the number of bits.
pub assume_specification[ MutableBitmap::len ](b: &MutableBitmap) -> (r: usize)
    ensures
        r == mutable_bits(*b).len(),
;

/// Relies on `MutableBitmap::push`: appends one bit; the length counter must not
/// overflow.
pub assume_specification[ MutableBitmap::push ](b: &mut MutableBitmap, value: bool)
    requires
        mutable_bits(*old(b)).len() < usize::MAX,
    ensures
        mutable_bits(*final(b)) == mutable_bits(*old(b)).push(value),
;

/// Relies on `MutableBitmap::extend_constant`: appends `additional` copies of
/// `value`; the length counter must not overflow.
pub assume_specification[ MutableBitmap::extend_constant ](
    b: &mut MutableBitmap,
    additional: usize,
    value: bool,
)
    requires
        mutable_bits(*old(b)).len() + additional <= usize::MAX,
    ensures
        mutable_bits(*final(b)) == mutable_bits(*old(b)) + Seq::new(
            additional as nat,
            |_j: int| value,
        ),
;

/// Relies on `BooleanArray::values`: the bitmap of values.
pub assume_specification[ BooleanArray::values ](a: &BooleanArray) -> (r: &Bitmap)
    ensures
        bitmap_bits(*r) == array_values(*a),
;

/// Relies on `From<MutableBitmap> for Bitmap`: freezes the bits unchanged.
#[verifier::external_body]
pub(crate) fn freeze(b: MutableBitmap) -> (r: Bitmap)
    ensures
        bitmap_bits(r) == mutable_bits(b),
{
    Bitmap::from(b)
}

/// Relies on `MutableBitmap::from_iter`: a bitmap holding the given bools in order.
#[verifier::external_body]
pub(crate) fn mutable_from_slice(data: &[bool]) -> (r: MutableBitmap)
    ensures
        mutable_bits(r) == data@,
{
    data.iter().copied().collect::<MutableBitmap>()
}

/// Relies on `BooleanArray::from_data` with the `Boolean` type and no validity:
/// an array whose values are the given bits. Neither of its checks can fail here.
#[verifier::external_body]
pub(crate) fn array_from_bitmap(values: Bitmap) -> (r: BooleanArray)
    ensures
        array_values(r) == bitmap_bits(values),
{
    BooleanArray::from_data(DataType::Boolean, values, None)
}

} // verus!
