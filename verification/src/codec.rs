//! Page codec: the binary layout of records within a page.
//!
//! | offset        | length | meaning                         |
//! |---------------|--------|---------------------------------|
//! | 0             | 8      | number of records, little endian |
//! | 8 + 8 * i     | 4      | key of record `i`               |
//! | 8 + 8 * i + 4 | 4      | value of record `i`             |
//!
//! Bytes behind the last record are padding. A freshly encoded page has zero
//! padding; a decoder ignores it.

use crate::util::{
    bytearray_to_i32, bytearray_to_u64, bytearray_to_usize, bytes_i32, bytes_u64, i32_bytes,
    i32_to_bytearray, lemma_i32_round_trip,
};
use vstd::prelude::*;
use vstd::slice::slice_to_vec;

verus! {

/// Size of a page in bytes.
pub const PAGE_SIZE: usize = 4096;

/// Size of the page header, which holds the record count.
pub const HEADER_SIZE: usize = 8;

/// Size of an encoded key.
pub const KEY_SIZE: usize = 4;

/// Size of an encoded value.
pub const VAL_SIZE: usize = 4;

/// Size of an encoded record.
pub const RECORD_SIZE: usize = 8;

/// The largest number of records that a page holds.
pub const RECORDS_PER_PAGE: usize = 511;

/// A record as the executable code holds it: a key and its value bytes.
pub type Record = (i32, Vec<u8>);

/// The mathematical model of a record.
pub type RecordView = (i32, Seq<u8>);

/// The model of one record.
pub open spec fn record_view(r: Record) -> RecordView {
    (r.0, r.1@)
}

/// The model of a sequence of records.
pub open spec fn records_view(rs: Seq<Record>) -> Seq<RecordView> {
    rs.map_values(|r: Record| record_view(r))
}

/// Every record of `rs` carries a value of exactly `VAL_SIZE` bytes.
pub open spec fn values_fit(rs: Seq<RecordView>) -> bool {
    forall|i: int| 0 <= i < rs.len() ==> (#[trigger] rs[i]).1.len() == VAL_SIZE
}

/// Byte positions of one record within a page.
pub struct RowOffsets {
    pub key_offset: usize,
    pub val_offset: usize,
    pub row_end: usize,
}

/// The positions of row `row_num` for keys of `keysize` and values of `valsize` bytes.
pub fn compute_offsets(row_num: usize, keysize: usize, valsize: usize) -> (offsets: RowOffsets)
    requires
        HEADER_SIZE + row_num * (keysize + valsize) + keysize + valsize <= usize::MAX,
    ensures
        offsets.key_offset == HEADER_SIZE + row_num * (keysize + valsize),
        offsets.val_offset == offsets.key_offset + keysize,
        offsets.row_end == offsets.val_offset + valsize,
{
    let total_size: usize = keysize + valsize;
    assert(row_num * total_size >= 0) by (nonlinear_arith);
    let row_offset: usize = HEADER_SIZE + (row_num * total_size);
    let key_offset: usize = row_offset;
    let val_offset: usize = key_offset + keysize;
    let row_end: usize = val_offset + valsize;

    RowOffsets { key_offset: key_offset, val_offset: val_offset, row_end: row_end }
}

/// Decodes the record that `offsets` delimits in `data`.
pub fn read_record(offsets: RowOffsets, data: &[u8]) -> (record: Record)
    requires
        offsets.key_offset + KEY_SIZE == offsets.val_offset,
        offsets.val_offset <= offsets.row_end <= data@.len(),
    ensures
        record.0 == bytes_i32(data@.subrange(offsets.key_offset as int, offsets.val_offset as int)),
        record.1@ == data@.subrange(offsets.val_offset as int, offsets.row_end as int),
{
    let key: i32 = bytearray_to_i32(&data[offsets.key_offset..offsets.val_offset]);
    let val: Vec<u8> = slice_to_vec(&data[offsets.val_offset..offsets.row_end]);
    (key, val)
}

/// `dest` after the window `[start, end)` of it took the leading bytes of
/// `src`, as many as the window and `src` both hold.
pub open spec fn overlay(dest: Seq<u8>, start: int, end: int, src: Seq<u8>) -> Seq<u8> {
    Seq::new(
        dest.len(),
        |i: int|
            if start <= i < end && i - start < src.len() {
                src[i - start]
            } else {
                dest[i]
            },
    )
}

/// Copies `src` into the window `[start, end)` of `dest`, stopping at the end
/// of the shorter of the two.
pub fn mem_move(dest: &mut [u8], start: usize, end: usize, src: &[u8])
    requires
        start <= end <= old(dest)@.len(),
    ensures
        final(dest)@ == overlay(old(dest)@, start as int, end as int, src@),
{
    let mut i: usize = 0;
    while i < end - start && i < src.len()
        invariant
            start <= end <= dest@.len(),
            dest@.len() == old(dest)@.len(),
            i <= end - start,
            i <= src@.len(),
            dest@ == overlay(old(dest)@, start as int, start + i, src@),
        decreases src@.len() - i,
    {
        dest[start + i] = src[i];
        i += 1;
    }
    assert(dest@ =~= overlay(old(dest)@, start as int, end as int, src@));
}

/// Encodes `key` and `val` at the positions `offsets` of `data`.
pub fn write_record(offsets: RowOffsets, data: &mut [u8], key: i32, val: &[u8])
    requires
        offsets.key_offset <= offsets.val_offset <= offsets.row_end <= old(data)@.len(),
    ensures
        final(data)@ == overlay(
            overlay(
                old(data)@,
                offsets.key_offset as int,
                offsets.val_offset as int,
                i32_bytes(key),
            ),
            offsets.val_offset as int,
            offsets.row_end as int,
            val@,
        ),
{
    let key_bytes: [u8; 4] = i32_to_bytearray(key);
    mem_move(data, offsets.key_offset, offsets.val_offset, &key_bytes);
    mem_move(data, offsets.val_offset, offsets.row_end, val);
}

/// The byte at position `p` of the page that encodes `rs`.
pub open spec fn page_byte(rs: Seq<RecordView>, p: int) -> u8 {
    if p < 4 {
        // the count takes the low half of the header
        i32_bytes(rs.len() as i32)[p]
    } else if p < HEADER_SIZE {
        0
    } else {
        let row = (p - HEADER_SIZE) / (RECORD_SIZE as int);
        let col = (p - HEADER_SIZE) % (RECORD_SIZE as int);
        if row >= rs.len() {
            0
        } else if col < KEY_SIZE {
            i32_bytes(rs[row].0)[col]
        } else if col - KEY_SIZE < rs[row].1.len() {
            rs[row].1[col - KEY_SIZE]
        } else {
            0
        }
    }
}

/// The page that encodes `rs`: the count in the header, the records packed
/// behind it, zeros to the end. A value shorter than `VAL_SIZE` is padded with
/// zeros, of a longer one the leading `VAL_SIZE` bytes are kept.
pub open spec fn page_bytes(rs: Seq<RecordView>) -> Seq<u8> {
    Seq::new(PAGE_SIZE as nat, |p: int| page_byte(rs, p))
}

/// The record count that the header of `data` announces.
pub open spec fn page_count(data: Seq<u8>) -> int {
    bytes_u64(data.subrange(0, HEADER_SIZE as int))
}

/// Record `row` of the page `data`.
pub open spec fn page_record(data: Seq<u8>, row: int) -> RecordView {
    let at = HEADER_SIZE + row * RECORD_SIZE;
    (bytes_i32(data.subrange(at, at + KEY_SIZE)), data.subrange(at + KEY_SIZE, at + RECORD_SIZE))
}

/// The records that the page `data` holds.
pub open spec fn page_records(data: Seq<u8>) -> Seq<RecordView> {
    Seq::new(page_count(data) as nat, |row: int| page_record(data, row))
}

/// The header of `data` announces no more records than `data` has room for.
pub open spec fn page_well_formed(data: Seq<u8>) -> bool {
    &&& data.len() >= HEADER_SIZE
    &&& HEADER_SIZE + page_count(data) * RECORD_SIZE <= data.len()
}

/// Tells whether `data` has room for the records that its header announces.
pub fn holds_its_records(data: &[u8]) -> (ok: bool)
    ensures
        ok == page_well_formed(data@),
{
    let size: usize = data.len();
    if size < HEADER_SIZE {
        return false;
    }
    let count: u64 = bytearray_to_u64(&data[0..HEADER_SIZE]);
    let room: usize = (size - HEADER_SIZE) / RECORD_SIZE;
    count <= room as u64
}

/// Encodes up to `RECORDS_PER_PAGE` records as one page.
pub fn serialize_records(records: &[Record]) -> (storage: [u8; PAGE_SIZE])
    requires
        records@.len() <= RECORDS_PER_PAGE,
    ensures
        storage@ == page_bytes(records_view(records@)),
{
    let mut storage: [u8; PAGE_SIZE] = [0; PAGE_SIZE];
    let ghost rs = records_view(records@);
    let count_bytes: [u8; 4] = i32_to_bytearray(records.len() as i32);
    mem_move(&mut storage, 0, HEADER_SIZE, &count_bytes);
    let mut i: usize = 0;
    while i < records.len()
        invariant
            i <= records@.len() <= RECORDS_PER_PAGE,
            rs == records_view(records@),
            storage@.len() == PAGE_SIZE,
            forall|p: int|
                0 <= p < HEADER_SIZE + i * RECORD_SIZE ==> #[trigger] storage@[p] == page_byte(
                    rs,
                    p,
                ),
            forall|p: int| HEADER_SIZE + i * RECORD_SIZE <= p < PAGE_SIZE ==> storage@[p] == 0,
        decreases records@.len() - i,
    {
        let offsets = compute_offsets(i, KEY_SIZE, VAL_SIZE);
        write_record(offsets, &mut storage, records[i].0, records[i].1.as_slice());
        i += 1;
    }
    assert(storage@ =~= page_bytes(rs));
    storage
}

/// Decodes the records of a page.
pub fn deserialize_records(data: &[u8]) -> (records: Vec<Record>)
    requires
        page_well_formed(data@),
    ensures
        records_view(records@) == page_records(data@),
{
    let size: usize = data.len();
    let num_records: usize = bytearray_to_usize(&data[0..HEADER_SIZE]);
    let mut records: Vec<Record> = Vec::with_capacity(num_records);
    let mut i: usize = 0;
    while i < num_records
        invariant
            i <= num_records,
            num_records == page_count(data@),
            page_well_formed(data@),
            size == data@.len(),
            records@.len() == i,
            forall|row: int|
                0 <= row < i ==> record_view(#[trigger] records@[row]) == page_record(
                    data@,
                    row,
                ),
        decreases num_records - i,
    {
        let offsets = compute_offsets(i, KEY_SIZE, VAL_SIZE);
        records.push(read_record(offsets, data));
        i += 1;
    }
    assert(records_view(records@) =~= page_records(data@));
    records
}

/// Decoding the page that encodes `rs` gives `rs` back, for every `rs` that
/// fits a page and whose values have `VAL_SIZE` bytes.
pub proof fn lemma_page_round_trip(rs: Seq<RecordView>)
    requires
        rs.len() <= RECORDS_PER_PAGE,
        values_fit(rs),
    ensures
        page_bytes(rs).len() == PAGE_SIZE,
        page_well_formed(page_bytes(rs)),
        page_count(page_bytes(rs)) == rs.len(),
        page_records(page_bytes(rs)) == rs,
{
    let data = page_bytes(rs);
    let header = data.subrange(0, HEADER_SIZE as int);
    lemma_i32_round_trip(rs.len() as i32);
    assert(header.subrange(0, 4) =~= i32_bytes(rs.len() as i32));
    assert(header.subrange(4, 8) =~= seq![0u8, 0u8, 0u8, 0u8]);
    assert(page_count(data) == rs.len());
    assert forall|row: int| 0 <= row < rs.len() implies page_record(data, row) == rs[row] by {
        let at = HEADER_SIZE + row * RECORD_SIZE;
        lemma_i32_round_trip(rs[row].0);
        assert(data.subrange(at, at + KEY_SIZE) =~= i32_bytes(rs[row].0));
        assert(data.subrange(at + KEY_SIZE, at + RECORD_SIZE) =~= rs[row].1);
    }
    assert(page_records(data) =~= rs);
}

} // verus!
