use external_sort::codec::{
    compute_offsets, deserialize_records, holds_its_records, mem_move, read_record,
    serialize_records, write_record, Record, RowOffsets, HEADER_SIZE, KEY_SIZE, PAGE_SIZE,
    RECORDS_PER_PAGE, RECORD_SIZE, VAL_SIZE,
};
use external_sort::sorter::ExternalMergeSort;
use external_sort::util::{
    bytearray_to_i32, bytearray_to_u64, bytearray_to_usize, i32_to_bytearray,
};

#[test]
fn constants_match_the_page_layout() {
    assert_eq!(PAGE_SIZE, 4096);
    assert_eq!(HEADER_SIZE, 8);
    assert_eq!(KEY_SIZE, 4);
    assert_eq!(VAL_SIZE, 4);
    assert_eq!(RECORD_SIZE, KEY_SIZE + VAL_SIZE);
    assert_eq!(RECORDS_PER_PAGE, (PAGE_SIZE - 1) / (KEY_SIZE + VAL_SIZE));
    assert_eq!(RECORDS_PER_PAGE, 511);
}

#[test]
fn i32_is_encoded_least_significant_byte_first() {
    assert_eq!(i32_to_bytearray(0), [0, 0, 0, 0]);
    assert_eq!(i32_to_bytearray(1), [1, 0, 0, 0]);
    assert_eq!(i32_to_bytearray(256), [0, 1, 0, 0]);
    assert_eq!(i32_to_bytearray(0x0102_0304), [4, 3, 2, 1]);
    assert_eq!(i32_to_bytearray(-1), [255, 255, 255, 255]);
    assert_eq!(i32_to_bytearray(-2), [254, 255, 255, 255]);
    assert_eq!(i32_to_bytearray(i32::MAX), [255, 255, 255, 127]);
    assert_eq!(i32_to_bytearray(i32::MIN), [0, 0, 0, 128]);
}

#[test]
fn i32_encoding_agrees_with_the_machine() {
    for n in [0, 1, -1, 511, -511, 65_536, 1_000_000_007, i32::MIN, i32::MAX] {
        assert_eq!(i32_to_bytearray(n), n.to_le_bytes());
        assert_eq!(bytearray_to_i32(&n.to_le_bytes()), n);
    }
}

#[test]
fn i32_is_decoded_from_four_bytes() {
    assert_eq!(bytearray_to_i32(&[0, 0, 0, 0]), 0);
    assert_eq!(bytearray_to_i32(&[4, 3, 2, 1]), 0x0102_0304);
    assert_eq!(bytearray_to_i32(&[255, 255, 255, 255]), -1);
    assert_eq!(bytearray_to_i32(&[255, 255, 255, 127]), i32::MAX);
    assert_eq!(bytearray_to_i32(&[0, 0, 0, 128]), i32::MIN);
}

#[test]
fn i32_round_trip() {
    let mut n: i32 = i32::MIN;
    loop {
        assert_eq!(bytearray_to_i32(&i32_to_bytearray(n)), n);
        match n.checked_add(104_729) {
            Some(next) => n = next,
            None => break,
        }
    }
    for n in [-1, 0, 1, i32::MAX, i32::MIN, 0x7f00_00ff, -0x7f00_00ff] {
        assert_eq!(bytearray_to_i32(&i32_to_bytearray(n)), n);
    }
}

#[test]
fn usize_is_decoded_from_eight_bytes() {
    assert_eq!(bytearray_to_usize(&[0, 0, 0, 0, 0, 0, 0, 0]), 0);
    assert_eq!(bytearray_to_usize(&[1, 0, 0, 0, 0, 0, 0, 0]), 1);
    assert_eq!(bytearray_to_usize(&[255, 1, 0, 0, 0, 0, 0, 0]), 511);
    assert_eq!(bytearray_to_usize(&[0, 0, 0, 0, 1, 0, 0, 0]), 1 << 32);
    assert_eq!(
        bytearray_to_usize(&[255, 255, 255, 255, 255, 255, 255, 255]),
        usize::MAX
    );
    assert_eq!(
        bytearray_to_usize(&[1, 2, 3, 4, 5, 6, 7, 8]),
        0x0807_0605_0403_0201
    );
}

#[test]
fn u64_is_decoded_from_eight_bytes() {
    assert_eq!(bytearray_to_u64(&[0, 0, 0, 0, 0, 0, 0, 0]), 0);
    assert_eq!(bytearray_to_u64(&[0, 2, 0, 0, 0, 0, 0, 0]), 512);
    assert_eq!(
        bytearray_to_u64(&[1, 2, 3, 4, 5, 6, 7, 8]),
        u64::from_le_bytes([1, 2, 3, 4, 5, 6, 7, 8])
    );
    assert_eq!(bytearray_to_u64(&[255; 8]), u64::MAX);
}

#[test]
fn page_holds_its_records_if_the_count_fits() {
    assert!(holds_its_records(&[0u8; PAGE_SIZE]));
    assert!(holds_its_records(&[0u8; 8]));
    assert!(!holds_its_records(&[0u8; 7]));
    assert!(!holds_its_records(&[]));
    let mut page = [0u8; PAGE_SIZE];
    page[0] = 255;
    page[1] = 1;
    assert!(holds_its_records(&page));
    page[0] = 0;
    page[1] = 2;
    assert!(!holds_its_records(&page));
    page[1] = 0;
    page[4] = 1;
    assert!(!holds_its_records(&page));
    let mut short = [0u8; 24];
    short[0] = 2;
    assert!(holds_its_records(&short));
    short[0] = 3;
    assert!(!holds_its_records(&short));
}

#[test]
fn offsets_of_rows() {
    let first: RowOffsets = compute_offsets(0, KEY_SIZE, VAL_SIZE);
    assert_eq!(
        (first.key_offset, first.val_offset, first.row_end),
        (8, 12, 16)
    );
    let third = compute_offsets(2, KEY_SIZE, VAL_SIZE);
    assert_eq!(
        (third.key_offset, third.val_offset, third.row_end),
        (24, 28, 32)
    );
    let last = compute_offsets(RECORDS_PER_PAGE - 1, KEY_SIZE, VAL_SIZE);
    assert_eq!(
        (last.key_offset, last.val_offset, last.row_end),
        (4088, 4092, 4096)
    );
    let wide = compute_offsets(3, 2, 10);
    assert_eq!(
        (wide.key_offset, wide.val_offset, wide.row_end),
        (44, 46, 56)
    );
}

#[test]
fn mem_move_stops_at_the_shorter_end() {
    let mut dest = [9u8; 8];
    mem_move(&mut dest, 2, 6, &[1, 2]);
    assert_eq!(dest, [9, 9, 1, 2, 9, 9, 9, 9]);
    let mut dest = [9u8; 8];
    mem_move(&mut dest, 2, 6, &[1, 2, 3, 4, 5, 6]);
    assert_eq!(dest, [9, 9, 1, 2, 3, 4, 9, 9]);
    let mut dest = [9u8; 8];
    mem_move(&mut dest, 3, 3, &[1, 2, 3]);
    assert_eq!(dest, [9u8; 8]);
    let mut dest = [9u8; 8];
    mem_move(&mut dest, 0, 8, &[]);
    assert_eq!(dest, [9u8; 8]);
}

#[test]
fn record_is_written_and_read_at_its_offsets() {
    let mut data = [0u8; 32];
    write_record(compute_offsets(1, 4, 4), &mut data, -2, &[7, 8, 9, 10]);
    let mut expected = [0u8; 32];
    expected[16..24].copy_from_slice(&[254, 255, 255, 255, 7, 8, 9, 10]);
    assert_eq!(data, expected);
    let record = read_record(compute_offsets(1, 4, 4), &data);
    assert_eq!(record, (-2, vec![7, 8, 9, 10]));
    let blank = read_record(compute_offsets(0, 4, 4), &data);
    assert_eq!(blank, (0, vec![0, 0, 0, 0]));
}

#[test]
fn page_layout_of_two_records() {
    let records: Vec<Record> = vec![(5, vec![1, 2, 3, 4]), (-1, vec![111, 0, 0, 0])];
    let storage = serialize_records(&records);
    let mut expected = [0u8; PAGE_SIZE];
    expected[0] = 2;
    expected[8..16].copy_from_slice(&[5, 0, 0, 0, 1, 2, 3, 4]);
    expected[16..24].copy_from_slice(&[255, 255, 255, 255, 111, 0, 0, 0]);
    assert_eq!(storage, expected);
}

#[test]
fn page_without_records_is_all_zeros() {
    let storage = serialize_records(&[]);
    assert_eq!(storage, [0u8; PAGE_SIZE]);
    assert_eq!(
        ExternalMergeSort::read_records(&storage),
        Vec::<Record>::new()
    );
}

#[test]
fn short_value_is_padded_and_long_value_is_cut() {
    let records: Vec<Record> = vec![(1, vec![9]), (2, vec![1, 2, 3, 4, 5, 6])];
    let storage = serialize_records(&records);
    assert_eq!(
        ExternalMergeSort::read_records(&storage),
        vec![(1, vec![9, 0, 0, 0]), (2, vec![1, 2, 3, 4])]
    );
}

#[test]
fn page_round_trip() {
    let records: Vec<Record> = vec![
        (3, vec![1, 2, 3, 4]),
        (i32::MIN, vec![255, 255, 255, 255]),
        (i32::MAX, vec![0, 0, 0, 0]),
        (3, vec![4, 3, 2, 1]),
    ];
    let storage = serialize_records(&records);
    assert_eq!(ExternalMergeSort::read_records(&storage), records);
    assert_eq!(deserialize_records(&storage), records);
}

#[test]
fn full_page_round_trip() {
    let mut records: Vec<Record> = vec![];
    for i in 0..RECORDS_PER_PAGE {
        let key = (i as i32) * 7919 - 2_000_000;
        records.push((key, i32_to_bytearray(i as i32).to_vec()));
    }
    let storage = serialize_records(&records);
    assert_eq!(storage[0..8], [255, 1, 0, 0, 0, 0, 0, 0]);
    assert_eq!(ExternalMergeSort::read_records(&storage), records);
}

#[test]
fn zero_values_survive_the_round_trip() {
    let records: Vec<Record> = vec![
        (2, vec![0, 0, 0, 0]),
        (0, vec![0, 0, 0, 0]),
        (1, vec![0, 0, 0, 0]),
    ];
    let storage = serialize_records(&records);
    assert_eq!(ExternalMergeSort::read_records(&storage), records);
}

#[test]
fn padding_behind_the_records_is_ignored() {
    let records: Vec<Record> = vec![(10, vec![1, 1, 1, 1])];
    let mut storage = serialize_records(&records);
    for byte in storage[16..].iter_mut() {
        *byte = 0xee;
    }
    assert_eq!(ExternalMergeSort::read_records(&storage), records);
}

#[test]
fn records_are_read_from_a_short_buffer_that_holds_them() {
    let mut data = vec![0u8; 24];
    data[0] = 2;
    data[8..16].copy_from_slice(&[1, 0, 0, 0, 5, 6, 7, 8]);
    data[16..24].copy_from_slice(&[2, 0, 0, 0, 9, 9, 9, 9]);
    assert_eq!(
        ExternalMergeSort::read_records(&data),
        vec![(1, vec![5, 6, 7, 8]), (2, vec![9, 9, 9, 9])]
    );
}
