use arrow2::array::Array;
use arrow2::array::BooleanArray;
use arrow2::bitmap::Bitmap;
use arrow2::datatypes::DataType;
use datavalues::builder::MutableBooleanColumn;
use datavalues::column::BooleanColumn;
use datavalues::column::DataValue;

const T: bool = true;
const F: bool = false;

fn values_of(c: &BooleanColumn) -> Vec<bool> {
    (0..c.len()).map(|i| c.get_data(i)).collect()
}

#[test]
fn filter_keeps_selected_rows() {
    let c = BooleanColumn::from_slice(&[T, F, T, T, F]);
    let m = BooleanColumn::from_slice(&[T, F, T, F, F]);
    assert_eq!(values_of(&c.filter(&m)), vec![T, T]);
}

#[test]
fn filter_all_true_mask_returns_same_values() {
    let c = BooleanColumn::from_slice(&[T, F, T]);
    let m = BooleanColumn::from_slice(&[T, T, T]);
    assert_eq!(values_of(&c.filter(&m)), vec![T, F, T]);
}

#[test]
fn filter_all_false_mask_is_empty() {
    let c = BooleanColumn::from_slice(&[T, F, T]);
    let m = BooleanColumn::from_slice(&[F, F, F]);
    assert_eq!(c.filter(&m).len(), 0);
}

#[test]
fn filter_length_is_set_bit_count_over_many_words() {
    let data: Vec<bool> = (0..200).map(|i| i % 3 == 0).collect();
    let mask: Vec<bool> = (0..200).map(|i| i % 5 != 1).collect();
    let c = BooleanColumn::from_slice(&data);
    let m = BooleanColumn::from_slice(&mask);
    let r = c.filter(&m);
    let expected: Vec<bool> = data
        .iter()
        .zip(mask.iter())
        .filter(|(_, s)| **s)
        .map(|(v, _)| *v)
        .collect();
    assert_eq!(r.len(), mask.iter().filter(|b| **b).count());
    assert_eq!(values_of(&r), expected);
}

#[test]
fn filter_of_sliced_column() {
    let c = BooleanColumn::from_slice(&[F, T, F, T, T, F, F, T, T, T]).slice(3, 6);
    let m = BooleanColumn::from_slice(&[T, F, T, T, F, T]);
    assert_eq!(values_of(&c.filter(&m)), vec![T, F, F, T]);
}

#[test]
fn filter_empty_column() {
    let c = BooleanColumn::from_slice(&[]);
    let m = BooleanColumn::from_slice(&[]);
    assert_eq!(c.filter(&m).len(), 0);
}

#[test]
fn scatter_into_two_partitions() {
    let c = BooleanColumn::from_slice(&[T, F, T, F]);
    let parts = c.scatter(&[0, 1, 0, 1], 2);
    assert_eq!(parts.len(), 2);
    assert_eq!(values_of(&parts[0]), vec![T, T]);
    assert_eq!(values_of(&parts[1]), vec![F, F]);
}

#[test]
fn scatter_keeps_order_and_covers_rows() {
    let c = BooleanColumn::from_slice(&[T, F, F, T, T]);
    let parts = c.scatter(&[2, 0, 2, 2, 0], 3);
    assert_eq!(values_of(&parts[0]), vec![F, T]);
    assert_eq!(values_of(&parts[1]), Vec::<bool>::new());
    assert_eq!(values_of(&parts[2]), vec![T, F, T]);
    let total: usize = parts.iter().map(|p| p.len()).sum();
    assert_eq!(total, c.len());
    let trues: usize = parts.iter().map(|p| values_of(p).iter().filter(|b| **b).count()).sum();
    assert_eq!(trues, 3);
}

#[test]
fn scatter_with_no_partitions_of_empty_column() {
    let c = BooleanColumn::from_slice(&[]);
    assert_eq!(c.scatter(&[], 0).len(), 0);
}

#[test]
fn replicate_expands_rows() {
    let c = BooleanColumn::from_slice(&[T, F]);
    assert_eq!(values_of(&c.replicate(&[2, 3])), vec![T, T, F]);
}

#[test]
fn replicate_with_zero_runs() {
    let c = BooleanColumn::from_slice(&[T, F, T]);
    assert_eq!(values_of(&c.replicate(&[0, 2, 2])), vec![F, F]);
}

#[test]
fn replicate_empty_offsets() {
    let c = BooleanColumn::from_slice(&[]);
    assert_eq!(c.replicate(&[]).len(), 0);
}

#[test]
fn slice_middle() {
    let c = BooleanColumn::from_slice(&[T, F, T]);
    let s = c.slice(1, 2);
    assert_eq!(s.len(), 2);
    assert_eq!(values_of(&s), vec![F, T]);
}

#[test]
fn slice_empty_at_end() {
    let c = BooleanColumn::from_slice(&[T, F, T]);
    assert_eq!(c.slice(3, 0).len(), 0);
}

#[test]
fn get_decodes_one_row() {
    let c = BooleanColumn::from_slice(&[T, F, T]);
    assert_eq!(c.get(0), DataValue::Boolean(true));
    assert_eq!(c.get(1), DataValue::Boolean(false));
}

#[test]
fn arrow_round_trip_keeps_values() {
    let c = BooleanColumn::from_slice(&[T, F, F, T, T, F, T, F, T]);
    let array = c.as_arrow_array();
    assert_eq!(array.len(), 9);
    assert_eq!(array.value(1), false);
    assert_eq!(array.value(3), true);
    let back = BooleanColumn::from_arrow_array(&array);
    assert_eq!(values_of(&back), values_of(&c));
}

#[test]
fn new_reads_array_values() {
    let array = BooleanArray::from_slice(&[F, T, T]);
    let c = BooleanColumn::new(array);
    assert_eq!(values_of(&c), vec![F, T, T]);
}

#[test]
fn from_arrow_data_reads_bitmap() {
    let bitmap = Bitmap::from(&[T, T, F, T]);
    let c = BooleanColumn::from_arrow_data(bitmap);
    assert_eq!(values_of(&c), vec![T, T, F, T]);
    assert_eq!(c.values().len(), 4);
    assert_eq!(c.values().null_count(), 1);
}

#[test]
fn arrow_array_has_boolean_type() {
    let c = BooleanColumn::from_slice(&[T]);
    assert_eq!(c.as_arrow_array().data_type(), &DataType::Boolean);
}

#[test]
fn column_type_name_is_boolean() {
    let c = BooleanColumn::from_slice(&[T]);
    assert_eq!(c.column_type_name(), "Boolean");
}

#[test]
fn memory_size_counts_bytes() {
    let data: Vec<bool> = (0..17).map(|i| i % 2 == 0).collect();
    let c = BooleanColumn::from_slice(&data);
    assert_eq!(c.memory_size(), 3);
    assert_eq!(BooleanColumn::from_slice(&[]).memory_size(), 0);
}

#[test]
fn full_column_and_arc_share_values() {
    let c = BooleanColumn::from_slice(&[F, T]);
    assert_eq!(values_of(&c.convert_full_column()), vec![F, T]);
    assert_eq!(values_of(&c.arc()), vec![F, T]);
}

#[test]
fn builder_appends_and_freezes() {
    let mut b = MutableBooleanColumn::with_capacity(4);
    b.append_value(true);
    b.append_constant(3, false);
    b.append_value(true);
    assert_eq!(b.len(), 5);
    let c = b.to_column();
    assert_eq!(values_of(&c), vec![T, F, F, F, T]);
}

#[test]
fn filter_of_byte_aligned_slice() {
    let data: Vec<bool> = (0..40).map(|i| i % 7 < 3).collect();
    let mask: Vec<bool> = (0..24).map(|i| i % 4 != 2).collect();
    let c = BooleanColumn::from_slice(&data).slice(8, 24);
    let m = BooleanColumn::from_slice(&mask);
    let expected: Vec<bool> = (0..24).filter(|i| mask[*i]).map(|i| data[8 + i]).collect();
    assert_eq!(values_of(&c.filter(&m)), expected);
}
