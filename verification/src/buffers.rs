//! Buffer pool: the three page buffers of the sorter, two for input and one
//! for output, and the steps of a merge through them.
//!
//! The pool touches no file. A step of a merge says what has to be done with
//! the files next, if anything: which page to fetch into which input buffer,
//! or under which number to write the page that the output buffer has filled.

use crate::codec::{
    PAGE_SIZE, RECORDS_PER_PAGE, Record, RecordView, deserialize_records, page_bytes,
    page_records, page_well_formed, record_view, records_view, serialize_records,
};
use crate::page::{Page, stable_sort};
use vstd::prelude::*;

verus! {

/// Where a merge of two runs stands.
#[derive(Clone, Copy, Debug, PartialEq, Eq)]
pub struct MergeCursor {
    /// The page of the left run that is at hand.
    pub a: usize,
    /// The page of the right run that is at hand.
    pub b: usize,
    /// The last page of the left run.
    pub a_end: usize,
    /// The last page of the right run.
    pub b_end: usize,
    /// The number of records of the left page that were emitted.
    pub at_a: usize,
    /// The number of records of the right page that were emitted.
    pub at_b: usize,
    /// The page of the output file that is written next.
    pub output_page_id: usize,
}

/// What one step of a merge did, and what it asks for.
#[derive(Clone, Copy, Debug, PartialEq, Eq)]
pub enum MergeStep {
    /// The page at hand of one run is used up and the run goes on: page
    /// `page_id` of it is to be fetched into input buffer `bufpool_id`.
    Fetch { page_id: usize, bufpool_id: usize },
    /// A record went to the output buffer, which has room left.
    Emitted,
    /// A record went to the output buffer and filled it: the buffer is to be
    /// written as page `page_id` of the output file.
    Flush { page_id: usize },
    /// Both runs are used up: what is left in the output buffer is to be
    /// written as page `page_id` of the output file, and the merge is over.
    Finish { page_id: usize },
}

impl MergeCursor {
    /// The cursor at the start of the merge of the run of `run_size` pages
    /// from page `a` on with the one from page `b` on.
    pub fn new(a: usize, b: usize, run_size: usize) -> (cursor: MergeCursor)
        requires
            run_size >= 1,
            a + run_size <= usize::MAX,
            b + run_size <= usize::MAX,
        ensures
            cursor == (MergeCursor {
                a: a,
                b: b,
                a_end: (a + run_size - 1) as usize,
                b_end: (b + run_size - 1) as usize,
                at_a: 0,
                at_b: 0,
                output_page_id: a,
            }),
    {
        MergeCursor {
            a: a,
            b: b,
            a_end: a + run_size - 1,
            b_end: b + run_size - 1,
            at_a: 0,
            at_b: 0,
            output_page_id: a,
        }
    }
}

/// What the merge does next: which of the two records at hand it emits, or
/// for which run it takes up the next page, or that it ends.
pub enum Move {
    /// The record at hand of the left page is emitted.
    TakeLeft,
    /// The record at hand of the right page is emitted.
    TakeRight,
    /// The next page of the left run is taken up.
    NextLeft,
    /// The next page of the right run is taken up.
    NextRight,
    /// The merge ends.
    Stop,
}

/// The next move of a merge that stands at `cursor`, with the records `left`
/// and `right` in its input buffers.
pub open spec fn next_move(
    cursor: MergeCursor,
    left: Seq<RecordView>,
    right: Seq<RecordView>,
) -> Move {
    let has_a = cursor.at_a < left.len();
    let has_b = cursor.at_b < right.len();
    if has_a && has_b {
        if left[cursor.at_a as int].0 < right[cursor.at_b as int].0 {
            Move::TakeLeft
        } else {
            Move::TakeRight
        }
    } else if has_a {
        if cursor.b < cursor.b_end {
            Move::NextRight
        } else {
            Move::TakeLeft
        }
    } else if has_b {
        if cursor.a < cursor.a_end {
            Move::NextLeft
        } else {
            Move::TakeRight
        }
    } else if cursor.b < cursor.b_end {
        Move::NextRight
    } else if cursor.a < cursor.a_end {
        Move::NextLeft
    } else {
        Move::Stop
    }
}

/// The record that the next step of the merge emits, if it emits one.
pub open spec fn next_record(
    cursor: MergeCursor,
    left: Seq<RecordView>,
    right: Seq<RecordView>,
) -> Option<RecordView> {
    match next_move(cursor, left, right) {
        Move::TakeLeft => Some(left[cursor.at_a as int]),
        Move::TakeRight => Some(right[cursor.at_b as int]),
        _ => None,
    }
}

/// Where the merge stands after its next step, with `waiting` records in the
/// output buffer before the step.
pub open spec fn next_cursor(
    cursor: MergeCursor,
    left: Seq<RecordView>,
    right: Seq<RecordView>,
    waiting: nat,
) -> MergeCursor {
    let written = if waiting + 1 >= RECORDS_PER_PAGE {
        (cursor.output_page_id + 1) as usize
    } else {
        cursor.output_page_id
    };
    match next_move(cursor, left, right) {
        Move::TakeLeft => MergeCursor {
            at_a: (cursor.at_a + 1) as usize,
            output_page_id: written,
            ..cursor
        },
        Move::TakeRight => MergeCursor {
            at_b: (cursor.at_b + 1) as usize,
            output_page_id: written,
            ..cursor
        },
        Move::NextLeft => MergeCursor { a: (cursor.a + 1) as usize, at_a: 0, ..cursor },
        Move::NextRight => MergeCursor { b: (cursor.b + 1) as usize, at_b: 0, ..cursor },
        Move::Stop => cursor,
    }
}

/// What the next step of the merge reports, with `waiting` records in the
/// output buffer before the step.
pub open spec fn next_step(
    cursor: MergeCursor,
    left: Seq<RecordView>,
    right: Seq<RecordView>,
    waiting: nat,
) -> MergeStep {
    match next_move(cursor, left, right) {
        Move::NextLeft => MergeStep::Fetch { page_id: (cursor.a + 1) as usize, bufpool_id: 0 },
        Move::NextRight => MergeStep::Fetch { page_id: (cursor.b + 1) as usize, bufpool_id: 1 },
        Move::Stop => MergeStep::Finish { page_id: cursor.output_page_id },
        _ => if waiting + 1 >= RECORDS_PER_PAGE {
            MergeStep::Flush { page_id: cursor.output_page_id }
        } else {
            MergeStep::Emitted
        },
    }
}

/// A copy of `record`.
fn clone_record(record: &Record) -> (copy: Record)
    ensures
        record_view(copy) == record_view(*record),
{
    let value: Vec<u8> = record.1.clone();
    assert(value@ =~= record.1@);
    (record.0, value)
}

/// The page buffers of the sorter.
pub struct BufferPool {
    output_buffer: Page,
    input_buffers: Vec<Page>,
    // how many records can a page hold
    records_per_page: usize,
}

impl BufferPool {
    /// The records that input buffer `k` holds.
    pub closed spec fn input_records(&self, k: int) -> Seq<RecordView> {
        records_view(self.input_buffers@[k].records@)
    }

    /// The records that wait in the output buffer.
    pub closed spec fn output_records(&self) -> Seq<RecordView> {
        records_view(self.output_buffer.records@)
    }

    /// The pool holds its two input buffers.
    pub closed spec fn well_formed(&self) -> bool {
        &&& self.input_buffers@.len() == 2
        &&& self.records_per_page == RECORDS_PER_PAGE
    }

    /// A pool of empty buffers.
    pub fn new() -> (pool: BufferPool)
        ensures
            pool.well_formed(),
            pool.input_records(0) == Seq::<RecordView>::empty(),
            pool.input_records(1) == Seq::<RecordView>::empty(),
            pool.output_records() == Seq::<RecordView>::empty(),
    {
        let mut input_buffers: Vec<Page> = Vec::new();
        input_buffers.push(Page::new());
        input_buffers.push(Page::new());
        let pool = BufferPool {
            output_buffer: Page::new(),
            input_buffers: input_buffers,
            records_per_page: RECORDS_PER_PAGE,
        };
        assert(pool.input_records(0) =~= Seq::<RecordView>::empty());
        assert(pool.input_records(1) =~= Seq::<RecordView>::empty());
        assert(pool.output_records() =~= Seq::<RecordView>::empty());
        pool
    }

    /// Input buffer `index`.
    pub fn input_buffer(&self, index: usize) -> (page: &Page)
        requires
            self.well_formed(),
            index < 2,
        ensures
            records_view(page.records@) == self.input_records(index as int),
    {
        &self.input_buffers[index]
    }

    /// The output buffer.
    pub fn output_buffer(&self) -> (page: &Page)
        ensures
            records_view(page.records@) == self.output_records(),
    {
        &self.output_buffer
    }

    /// Decodes the page `data` into input buffer `bufpool_id`.
    pub fn load_page(&mut self, bufpool_id: usize, data: &[u8])
        requires
            old(self).well_formed(),
            bufpool_id < 2,
            page_well_formed(data@),
        ensures
            final(self).well_formed(),
            final(self).output_records() == old(self).output_records(),
            final(self).input_records(bufpool_id as int) == page_records(data@),
            final(self).input_records(1 - bufpool_id) == old(self).input_records(1 - bufpool_id),
    {
        self.input_buffers[bufpool_id].records = deserialize_records(data);
    }

    /// Sorts the records of input buffer `bufpool_id` by key.
    pub fn sort_input(&mut self, bufpool_id: usize)
        requires
            old(self).well_formed(),
            bufpool_id < 2,
        ensures
            final(self).well_formed(),
            final(self).output_records() == old(self).output_records(),
            final(self).input_records(bufpool_id as int) == stable_sort(
                old(self).input_records(bufpool_id as int),
            ),
            final(self).input_records(1 - bufpool_id) == old(self).input_records(1 - bufpool_id),
    {
        self.input_buffers[bufpool_id].sort();
    }

    /// Encodes the records of input buffer `bufpool_id` as a page.
    pub fn input_page(&self, bufpool_id: usize) -> (data: [u8; PAGE_SIZE])
        requires
            self.well_formed(),
            bufpool_id < 2,
            self.input_records(bufpool_id as int).len() <= RECORDS_PER_PAGE,
        ensures
            data@ == page_bytes(self.input_records(bufpool_id as int)),
    {
        serialize_records(self.input_buffers[bufpool_id].records.as_slice())
    }

    /// Encodes the records of the output buffer as a page and empties the
    /// buffer.
    pub fn take_output(&mut self) -> (data: [u8; PAGE_SIZE])
        requires
            old(self).well_formed(),
            old(self).output_records().len() <= RECORDS_PER_PAGE,
        ensures
            final(self).well_formed(),
            data@ == page_bytes(old(self).output_records()),
            final(self).output_records() == Seq::<RecordView>::empty(),
            final(self).input_records(0) == old(self).input_records(0),
            final(self).input_records(1) == old(self).input_records(1),
    {
        let mut records: Vec<Record> = Vec::new();
        core::mem::swap(&mut records, &mut self.output_buffer.records);
        assert(self.output_records() =~= Seq::<RecordView>::empty());
        serialize_records(records.as_slice())
    }

    /// Appends record `at` of input buffer `side` to the output buffer.
    fn emit(&mut self, side: usize, at: usize)
        requires
            old(self).well_formed(),
            side < 2,
            at < old(self).input_records(side as int).len(),
        ensures
            final(self).well_formed(),
            final(self).input_records(0) == old(self).input_records(0),
            final(self).input_records(1) == old(self).input_records(1),
            final(self).output_records() == old(self).output_records().push(
                old(self).input_records(side as int)[at as int],
            ),
    {
        let record: Record = clone_record(&self.input_buffers[side].records[at]);
        self.output_buffer.push(record);
        assert(self.output_records() =~= old(self).output_records().push(
            old(self).input_records(side as int)[at as int],
        ));
    }

    /// Takes one step of the merge at which `cursor` stands.
    ///
    /// While both input buffers have a record left, the one of smaller key
    /// goes to the output buffer, and the right one on a tie. Where a buffer
    /// is used up, the next page of its run is asked for, if the run has one;
    /// where it has none, the record of the other buffer goes to the output
    /// buffer. The merge is over when both buffers are used up and neither
    /// run has a page left.
    pub fn merge_step(&mut self, cursor: &mut MergeCursor) -> (step: MergeStep)
        requires
            old(self).well_formed(),
            old(cursor).at_a <= old(self).input_records(0).len(),
            old(cursor).at_b <= old(self).input_records(1).len(),
            old(self).output_records().len() < RECORDS_PER_PAGE,
            old(cursor).output_page_id < usize::MAX,
        ensures
            final(self).well_formed(),
            final(self).input_records(0) == old(self).input_records(0),
            final(self).input_records(1) == old(self).input_records(1),
            step == next_step(
                *old(cursor),
                old(self).input_records(0),
                old(self).input_records(1),
                old(self).output_records().len(),
            ),
            *final(cursor) == next_cursor(
                *old(cursor),
                old(self).input_records(0),
                old(self).input_records(1),
                old(self).output_records().len(),
            ),
            final(self).output_records() == match next_record(
                *old(cursor),
                old(self).input_records(0),
                old(self).input_records(1),
            ) {
                Some(record) => old(self).output_records().push(record),
                None => old(self).output_records(),
            },
    {
        let has_a: bool = cursor.at_a < self.input_buffers[0].records.len();
        let has_b: bool = cursor.at_b < self.input_buffers[1].records.len();
        proof {
            if has_a {
                assert(self.input_records(0)[cursor.at_a as int] == record_view(
                    self.input_buffers@[0].records@[cursor.at_a as int],
                ));
            }
            if has_b {
                assert(self.input_records(1)[cursor.at_b as int] == record_view(
                    self.input_buffers@[1].records@[cursor.at_b as int],
                ));
            }
        }
        let ghost next = next_move(
            *old(cursor),
            old(self).input_records(0),
            old(self).input_records(1),
        );
        if !has_b && cursor.b < cursor.b_end {
            cursor.b += 1;
            cursor.at_b = 0;
            MergeStep::Fetch { page_id: cursor.b, bufpool_id: 1 }
        } else if !has_a && cursor.a < cursor.a_end {
            cursor.a += 1;
            cursor.at_a = 0;
            MergeStep::Fetch { page_id: cursor.a, bufpool_id: 0 }
        } else if !has_a && !has_b {
            MergeStep::Finish { page_id: cursor.output_page_id }
        } else {
            let take_a: bool = has_a && (!has_b || self.input_buffers[0].records[cursor.at_a].0
                < self.input_buffers[1].records[cursor.at_b].0);
            if take_a {
                assert(next == Move::TakeLeft);
                self.emit(0, cursor.at_a);
                cursor.at_a += 1;
            } else {
                assert(next == Move::TakeRight);
                self.emit(1, cursor.at_b);
                cursor.at_b += 1;
            }
            assert(self.output_buffer.records@.len() == self.output_records().len());
            // check if output buffer is full. If it is full, it has to be
            // written to file, and the merge goes on with an empty buffer.
            if self.output_buffer.len() >= self.records_per_page {
                let page_id: usize = cursor.output_page_id;
                cursor.output_page_id += 1;
                MergeStep::Flush { page_id: page_id }
            } else {
                MergeStep::Emitted
            }
        }
    }
}

} // verus!
