use external_sort::codec::{serialize_records, Record, PAGE_SIZE};
use external_sort::page::Page;
use external_sort::pager::{pages_for, PageFile};
use external_sort::sorter::ExternalMergeSort;

#[test]
fn new_page_is_empty() {
    let page = Page::new();
    assert_eq!(page.id, 0);
    assert_eq!(page.num_records, 0);
    assert_eq!(page.records, Vec::<Record>::new());
    assert_eq!(page.len(), 0);
}

#[test]
fn push_appends_and_clear_drops() {
    let mut page = Page::new();
    page.push((3, vec![1, 0, 0, 0]));
    page.push((1, vec![2, 0, 0, 0]));
    assert_eq!(page.len(), 2);
    assert_eq!(
        page.records,
        vec![(3, vec![1, 0, 0, 0]), (1, vec![2, 0, 0, 0])]
    );
    page.clear();
    assert_eq!(page.len(), 0);
    assert_eq!(page.records, Vec::<Record>::new());
}

#[test]
fn sort_orders_by_key() {
    let mut page = Page::new();
    for key in [5, -3, 9, 0, i32::MAX, i32::MIN, 2] {
        page.push((key, vec![key as u8, 0, 0, 0]));
    }
    page.id = 7;
    page.num_records = 3;
    page.sort();
    let keys: Vec<i32> = page.records.iter().map(|r| r.0).collect();
    assert_eq!(keys, vec![i32::MIN, -3, 0, 2, 5, 9, i32::MAX]);
    for record in page.records.iter() {
        assert_eq!(record.1, vec![record.0 as u8, 0, 0, 0]);
    }
    assert_eq!(page.id, 7);
    assert_eq!(page.num_records, 3);
}

#[test]
fn sort_keeps_the_order_of_equal_keys() {
    let mut page = Page::new();
    page.push((2, vec![b'a', 0, 0, 0]));
    page.push((1, vec![b'b', 0, 0, 0]));
    page.push((2, vec![b'c', 0, 0, 0]));
    page.push((1, vec![b'd', 0, 0, 0]));
    page.push((2, vec![b'e', 0, 0, 0]));
    page.push((0, vec![b'f', 0, 0, 0]));
    page.sort();
    assert_eq!(
        page.records,
        vec![
            (0, vec![b'f', 0, 0, 0]),
            (1, vec![b'b', 0, 0, 0]),
            (1, vec![b'd', 0, 0, 0]),
            (2, vec![b'a', 0, 0, 0]),
            (2, vec![b'c', 0, 0, 0]),
            (2, vec![b'e', 0, 0, 0]),
        ]
    );
}

#[test]
fn sort_agrees_with_a_stable_sort() {
    let mut state: u32 = 12345;
    let mut page = Page::new();
    for i in 0..511u32 {
        state = state.wrapping_mul(1_103_515_245).wrapping_add(12_345);
        let key = ((state >> 16) % 64) as i32 - 32;
        page.push((key, i.to_le_bytes().to_vec()));
    }
    let mut expected = page.records.clone();
    expected.sort_by(|a, b| a.0.cmp(&b.0));
    page.sort();
    assert_eq!(page.records, expected);
}

#[test]
fn sort_of_nothing_and_of_one() {
    let mut page = Page::new();
    page.sort();
    assert_eq!(page.len(), 0);
    page.push((4, vec![1, 2, 3, 4]));
    page.sort();
    assert_eq!(page.records, vec![(4, vec![1, 2, 3, 4])]);
}

#[test]
fn pages_of_a_file_size() {
    assert_eq!(pages_for(0), 0);
    assert_eq!(pages_for(1), 1);
    assert_eq!(pages_for(4095), 1);
    assert_eq!(pages_for(4096), 1);
    assert_eq!(pages_for(4097), 2);
    assert_eq!(pages_for(8 * 4096), 8);
    assert_eq!(pages_for(u64::MAX), 1 << 52);
}

#[test]
fn new_file_has_no_pages_and_reads_as_zeros() {
    let file = PageFile::new();
    assert_eq!(file.len(), 0);
    assert_eq!(file.read_page(0), [0u8; PAGE_SIZE]);
    assert_eq!(file.read_page(1000), [0u8; PAGE_SIZE]);
}

#[test]
fn written_page_is_read_back() {
    let mut file = PageFile::new();
    let one = serialize_records(&[(1, vec![1, 1, 1, 1])]);
    let two = serialize_records(&[(2, vec![2, 2, 2, 2])]);
    ExternalMergeSort::write_page(&mut file, 0, &one);
    file.write_page(1, &two);
    assert_eq!(file.len(), 2);
    assert_eq!(file.read_page(0), one);
    assert_eq!(file.read_page(1), two);
    ExternalMergeSort::write_page(&mut file, 0, &two);
    assert_eq!(file.len(), 2);
    assert_eq!(file.read_page(0), two);
    assert_eq!(file.read_page(1), two);
}

#[test]
fn write_behind_the_end_fills_the_gap_with_zeros() {
    let mut file = PageFile::new();
    let page = serialize_records(&[(7, vec![7, 7, 7, 7])]);
    ExternalMergeSort::write_page(&mut file, 3, &page);
    assert_eq!(file.len(), 4);
    assert_eq!(file.read_page(0), [0u8; PAGE_SIZE]);
    assert_eq!(file.read_page(1), [0u8; PAGE_SIZE]);
    assert_eq!(file.read_page(2), [0u8; PAGE_SIZE]);
    assert_eq!(file.read_page(3), page);
    assert_eq!(file.read_page(4), [0u8; PAGE_SIZE]);
    assert_eq!(
        ExternalMergeSort::read_records(&file.read_page(1)),
        Vec::<Record>::new()
    );
}

#[test]
fn clear_leaves_a_new_file() {
    let mut file = PageFile::new();
    let page = serialize_records(&[(7, vec![7, 7, 7, 7])]);
    file.write_page(2, &page);
    file.clear();
    assert_eq!(file.len(), 0);
    assert_eq!(file.read_page(2), [0u8; PAGE_SIZE]);
}
