//! Merge engine: the in-page sort of the first pass, the two-way merge of two
//! runs through three page buffers, and the passes that double the run length
//! until one run is left.
//!
//! The sorter of this module holds its three files in memory. It does what
//! the steps of `buffers` and `plan` ask for, one step after the other, and
//! its contracts say what that leaves in the files. Whoever holds the files
//! elsewhere can take the same steps, and has to do for each step what the
//! sorter does for it.

use crate::buffers::{BufferPool, MergeCursor, MergeStep, next_record};
use crate::codec::{
    PAGE_SIZE, RECORDS_PER_PAGE, Record, RecordView, deserialize_records, holds_its_records,
    page_bytes, page_records, page_well_formed, records_view,
};
use crate::laws::{
    lemma_first_pass, lemma_merge_linearity, lemma_merged, lemma_sort_order, lemma_sort_totality,
    lemma_step_follows_merge,
};
use crate::page::{Page, lemma_stable_sort, sorted_by_key, stable_sort};
use crate::pager::{PageFile, page_at, with_page};
use crate::passes::{
    holds_runs, lemma_group_bounds, lemma_run_pages, lemma_runs_file, lemma_sorted_pages, nth_run,
    passes, run_pages, runs_file, sorted_file, sorted_pages, sorted_records,
};
use crate::plan::{PassPlan, PlanStep};
use crate::runs::{
    chunk, clear_from, file_records, lemma_run_of_fits, lemma_written_done, lemma_written_flush,
    lemma_written_push, merge_from, merge_records, merged, page_valid, pages_valid,
    partly_written, run_of, run_records, with_records,
};
use vstd::prelude::*;

verus! {

/// Index of the input file, which the sorter only reads.
pub const INPUT_FILE: usize = 0;

/// Index of the first scratch file.
pub const SCRATCH_A: usize = 1;

/// Index of the second scratch file.
pub const SCRATCH_B: usize = 2;

/// The path at which scratch file `file_index` is kept on disk.
pub fn scratch_path(file_index: usize) -> (path: &'static str)
    requires
        file_index == SCRATCH_A || file_index == SCRATCH_B,
    ensures
        path@ == if file_index == SCRATCH_A {
            "/tmp/file_a"@
        } else {
            "/tmp/file_b"@
        },
{
    if file_index == SCRATCH_A {
        "/tmp/file_a"
    } else {
        "/tmp/file_b"
    }
}

/// Tells whether each of the leading `num_pages` pages of `file` announces no
/// more records than a page holds.
pub fn pages_are_valid(file: &PageFile, num_pages: usize) -> (ok: bool)
    ensures
        ok == pages_valid(file@, 0, num_pages as int),
{
    let mut page_id: usize = 0;
    while page_id < num_pages
        invariant
            page_id <= num_pages,
            pages_valid(file@, 0, page_id as int),
        decreases num_pages - page_id,
    {
        let storage: [u8; PAGE_SIZE] = file.read_page(page_id);
        if !holds_its_records(&storage) {
            assert(!page_valid(page_at(file@, page_id as int)));
            return false;
        }
        assert(page_valid(page_at(file@, page_id as int)));
        page_id += 1;
    }
    true
}

/// External merge sorter over an input file and two scratch files.
pub struct ExternalMergeSort {
    // runs of one scratch file go into the other as they are merged; in the
    // next pass the two change places, and so on.
    files: Vec<PageFile>,
    buffers: BufferPool,
}

impl ExternalMergeSort {
    /// The three files: the input, then the two scratch files.
    pub closed spec fn files(&self) -> Seq<Seq<Seq<u8>>> {
        self.files@.map_values(|file: PageFile| file@)
    }

    /// The records that input buffer `k` holds.
    pub closed spec fn input_records(&self, k: int) -> Seq<RecordView> {
        self.buffers.input_records(k)
    }

    /// The records that wait in the output buffer.
    pub closed spec fn output_records(&self) -> Seq<RecordView> {
        self.buffers.output_records()
    }

    /// The sorter holds its three files and its buffers.
    pub closed spec fn well_formed(&self) -> bool {
        &&& self.files@.len() == 3
        &&& self.buffers.well_formed()
    }

    /// A well-formed sorter has three files: the input and the two scratch
    /// files.
    pub proof fn lemma_three_files(&self)
        requires
            self.well_formed(),
        ensures
            self.files().len() == 3,
    {
    }

    /// A sorter for `input`, with empty scratch files and empty buffers.
    pub fn new(input: PageFile) -> (sorter: ExternalMergeSort)
        ensures
            sorter.well_formed(),
            sorter.files().len() == 3,
            sorter.files() == seq![input@, Seq::<Seq<u8>>::empty(), Seq::<Seq<u8>>::empty()],
            sorter.input_records(0) == Seq::<RecordView>::empty(),
            sorter.input_records(1) == Seq::<RecordView>::empty(),
            sorter.output_records() == Seq::<RecordView>::empty(),
    {
        let mut files: Vec<PageFile> = Vec::new();
        files.push(input);
        files.push(PageFile::new());
        files.push(PageFile::new());
        let sorter = ExternalMergeSort { files: files, buffers: BufferPool::new() };
        assert(sorter.files() =~= seq![input@, Seq::<Seq<u8>>::empty(), Seq::<Seq<u8>>::empty()]);
        sorter
    }

    /// File `index` of the sorter.
    pub fn file(&self, index: usize) -> (file: &PageFile)
        requires
            self.well_formed(),
            index < 3,
        ensures
            file@ == self.files()[index as int],
    {
        &self.files[index]
    }

    /// Input buffer `index` of the sorter.
    pub fn input_buffer(&self, index: usize) -> (page: &Page)
        requires
            self.well_formed(),
            index < 2,
        ensures
            records_view(page.records@) == self.input_records(index as int),
    {
        self.buffers.input_buffer(index)
    }

    /// The output buffer of the sorter.
    pub fn output_buffer(&self) -> (page: &Page)
        ensures
            records_view(page.records@) == self.output_records(),
    {
        self.buffers.output_buffer()
    }

    /// Writes `data` as page `page_id` of `file`.
    pub fn write_page(file: &mut PageFile, page_id: usize, data: &[u8])
        requires
            data@.len() == PAGE_SIZE,
            page_id < usize::MAX,
        ensures
            final(file)@ == with_page(old(file)@, page_id as int, data@),
    {
        file.write_page(page_id, data);
    }

    /// Decodes the records of the page `data`.
    pub fn read_records(data: &[u8]) -> (records: Vec<Record>)
        requires
            page_well_formed(data@),
        ensures
            records_view(records@) == page_records(data@),
    {
        deserialize_records(data)
    }

    /// Reads page `page_id` of file `input_file_index` into input buffer
    /// `bufpool_id`.
    pub fn fetch_page(&mut self, input_file_index: usize, page_id: usize, bufpool_id: usize)
        requires
            old(self).well_formed(),
            input_file_index < 3,
            bufpool_id < 2,
            page_valid(page_at(old(self).files()[input_file_index as int], page_id as int)),
        ensures
            final(self).well_formed(),
            final(self).files().len() == 3,
            final(self).files() == old(self).files(),
            final(self).output_records() == old(self).output_records(),
            final(self).input_records(bufpool_id as int) == page_records(
                page_at(old(self).files()[input_file_index as int], page_id as int),
            ),
            final(self).input_records(1 - bufpool_id) == old(self).input_records(1 - bufpool_id),
    {
        let storage: [u8; PAGE_SIZE] = self.files[input_file_index].read_page(page_id);
        self.buffers.load_page(bufpool_id, &storage);
    }

    /// Sorts the records within each of the leading `num_pages` pages of the
    /// input file and writes the pages to the first scratch file. This is the
    /// first pass of the sort.
    pub fn sort_pages(&mut self, num_pages: usize)
        requires
            old(self).well_formed(),
            pages_valid(old(self).files()[0], 0, num_pages as int),
        ensures
            final(self).well_formed(),
            final(self).files().len() == 3,
            final(self).output_records() == old(self).output_records(),
            final(self).input_records(1) == old(self).input_records(1),
            final(self).input_records(0) == if num_pages == 0 {
                old(self).input_records(0)
            } else {
                stable_sort(page_records(page_at(old(self).files()[0], num_pages - 1)))
            },
            final(self).files() == old(self).files().update(
                1,
                sorted_pages(old(self).files()[0], old(self).files()[1], num_pages as int),
            ),
            forall|p: int|
                0 <= p < num_pages ==> {
                    let sorted = page_records(#[trigger] page_at(final(self).files()[1], p));
                    let given = page_records(page_at(old(self).files()[0], p));
                    &&& sorted == stable_sort(given)
                    &&& sorted_by_key(sorted)
                    &&& sorted.to_multiset() == given.to_multiset()
                },
    {
        let ghost input = self.files()[0];
        let ghost scratch = self.files()[1];
        assert(self.files()[1] =~= sorted_pages(input, scratch, 0));
        let mut i: usize = 0;
        while i < num_pages
            invariant
                i <= num_pages,
                old(self).well_formed(),
                self.well_formed(),
                self.output_records() == old(self).output_records(),
                self.input_records(1) == old(self).input_records(1),
                self.input_records(0) == if i == 0 {
                    old(self).input_records(0)
                } else {
                    stable_sort(page_records(page_at(input, i - 1)))
                },
                input == old(self).files()[0],
                scratch == old(self).files()[1],
                pages_valid(input, 0, num_pages as int),
                self.files() == old(self).files().update(1, sorted_pages(input, scratch, i as int)),
            decreases num_pages - i,
        {
            // get from input file
            assert(page_valid(page_at(input, i as int)));
            self.fetch_page(0, i, 0);
            self.buffers.sort_input(0);
            proof {
                lemma_stable_sort(page_records(page_at(input, i as int)));
            }
            let new_page_data: [u8; PAGE_SIZE] = self.buffers.input_page(0);
            // write to the first scratch file
            let ghost before = self.files();
            assert(new_page_data@ == page_bytes(
                stable_sort(page_records(page_at(input, i as int))),
            ));
            Self::write_page(&mut self.files[1], i, &new_page_data);
            assert(self.files()[0] == before[0]);
            assert(self.files()[1] == with_page(before[1], i as int, new_page_data@));
            assert(self.files()[2] == before[2]);
            i += 1;
            assert(self.files()[1] =~= sorted_pages(input, scratch, i as int));
            assert(self.files() =~= old(self).files().update(
                1,
                sorted_pages(input, scratch, i as int),
            ));
        }
        assert forall|p: int| 0 <= p < num_pages implies {
            let sorted = page_records(#[trigger] page_at(self.files()[1], p));
            let given = page_records(page_at(input, p));
            &&& sorted == stable_sort(given)
            &&& sorted_by_key(sorted)
            &&& sorted.to_multiset() == given.to_multiset()
        } by {
            lemma_first_pass(input, scratch, num_pages as int, p);
        }
    }

    /// Writes the records of the output buffer as page `output_page_id` of file
    /// `output_file_index` and empties the buffer.
    pub fn flush_output_buffer(&mut self, output_file_index: usize, output_page_id: usize)
        requires
            old(self).well_formed(),
            1 <= output_file_index < 3,
            output_page_id < usize::MAX,
            old(self).output_records().len() <= RECORDS_PER_PAGE,
        ensures
            final(self).well_formed(),
            final(self).files().len() == 3,
            final(self).files() == old(self).files().update(
                output_file_index as int,
                with_page(
                    old(self).files()[output_file_index as int],
                    output_page_id as int,
                    page_bytes(old(self).output_records()),
                ),
            ),
            final(self).output_records() == Seq::<RecordView>::empty(),
            final(self).input_records(0) == old(self).input_records(0),
            final(self).input_records(1) == old(self).input_records(1),
    {
        let new_page_data: [u8; PAGE_SIZE] = self.buffers.take_output();
        Self::write_page(&mut self.files[output_file_index], output_page_id, &new_page_data);
        assert(self.files() =~= old(self).files().update(
            output_file_index as int,
            with_page(
                old(self).files()[output_file_index as int],
                output_page_id as int,
                page_bytes(old(self).output_records()),
            ),
        ));
    }

    /// Merges the run of `run_size` pages that starts at page `a` of file
    /// `input_file_index` with the one that starts at page `b`, and writes
    /// what the merge emits to file `output_file_index` from page `a` on: a
    /// page whenever the output buffer is full, and what is left in the
    /// buffer, be it nothing, at the end. Every record of the two runs is
    /// emitted.
    pub fn merge(
        &mut self,
        a: usize,
        b: usize,
        run_size: usize,
        input_file_index: usize,
        output_file_index: usize,
    )
        requires
            old(self).well_formed(),
            old(self).output_records().len() == 0,
            run_size >= 1,
            input_file_index < 3,
            1 <= output_file_index < 3,
            input_file_index != output_file_index,
            a + 2 * run_size < usize::MAX,
            b + run_size <= usize::MAX,
            pages_valid(old(self).files()[input_file_index as int], a as int, run_size as int),
            pages_valid(old(self).files()[input_file_index as int], b as int, run_size as int),
        ensures
            final(self).well_formed(),
            final(self).files().len() == 3,
            final(self).output_records().len() == 0,
            final(self).files() == old(self).files().update(
                output_file_index as int,
                with_records(
                    old(self).files()[output_file_index as int],
                    a as int,
                    merged(
                        run_of(
                            old(self).files()[input_file_index as int],
                            a as int,
                            run_size as int,
                        ),
                        run_of(
                            old(self).files()[input_file_index as int],
                            b as int,
                            run_size as int,
                        ),
                    ),
                ),
            ),
            ({
                let left = run_of(
                    old(self).files()[input_file_index as int],
                    a as int,
                    run_size as int,
                );
                let right = run_of(
                    old(self).files()[input_file_index as int],
                    b as int,
                    run_size as int,
                );
                let written = run_records(
                    final(self).files()[output_file_index as int],
                    a as int,
                    2 * run_size,
                );
                &&& merged(left, right) == merge_records(left.flatten(), right.flatten())
                &&& merged(left, right).len() == left.flatten().len() + right.flatten().len()
                &&& merged(left, right).to_multiset() == left.flatten().to_multiset().add(
                    right.flatten().to_multiset(),
                )
                &&& merged(left, right).len() <= RECORDS_PER_PAGE * (2 * run_size)
                &&& clear_from(old(self).files()[output_file_index as int], a as int) ==> {
                    &&& written == merged(left, right)
                    &&& clear_from(
                        final(self).files()[output_file_index as int],
                        a + 2 * run_size,
                    )
                }
            }),
    {
        let ghost source = self.files()[input_file_index as int];
        let ghost target = self.files()[output_file_index as int];
        let ghost left = run_of(source, a as int, run_size as int);
        let ghost right = run_of(source, b as int, run_size as int);
        let ghost total = merged(left, right);
        let ghost mut emitted: Seq<RecordView> = Seq::empty();
        let mut cursor = MergeCursor::new(a, b, run_size);

        // fetch pages a and b into input buffers
        assert(page_valid(page_at(source, a as int)));
        self.fetch_page(input_file_index, a, 0);
        assert(page_valid(page_at(source, b as int)));
        self.fetch_page(input_file_index, b, 1);
        assert(self.output_records() =~= emitted);
        assert(emitted + total =~= total);
        loop
            invariant_except_break
                self.input_records(0) == left[cursor.a - a],
                self.input_records(1) == right[cursor.b - b],
                cursor.at_a <= self.input_records(0).len() <= RECORDS_PER_PAGE,
                cursor.at_b <= self.input_records(1).len() <= RECORDS_PER_PAGE,
                emitted + merge_from(
                    left,
                    right,
                    cursor.a - a,
                    cursor.at_a as int,
                    cursor.b - b,
                    cursor.at_b as int,
                ) == total,
                emitted.len() <= RECORDS_PER_PAGE * ((cursor.a - a) + (cursor.b - b)) + cursor.at_a
                    + cursor.at_b,
                a <= cursor.output_page_id,
                emitted.len() == RECORDS_PER_PAGE * (cursor.output_page_id - a)
                    + self.output_records().len(),
                self.output_records().len() < RECORDS_PER_PAGE,
                self.output_records() == chunk(emitted, cursor.output_page_id - a),
                partly_written(
                    self.files()[output_file_index as int],
                    target,
                    a as int,
                    cursor.output_page_id - a,
                    emitted,
                ),
            invariant
                self.well_formed(),
                old(self).well_formed(),
                input_file_index < 3,
                1 <= output_file_index < 3,
                input_file_index != output_file_index,
                a + 2 * run_size < usize::MAX,
                cursor.a_end == a + run_size - 1,
                cursor.b_end == b + run_size - 1,
                a <= cursor.a <= cursor.a_end,
                b <= cursor.b <= cursor.b_end < usize::MAX,
                source == old(self).files()[input_file_index as int],
                target == old(self).files()[output_file_index as int],
                left == run_of(source, a as int, run_size as int),
                right == run_of(source, b as int, run_size as int),
                total == merged(left, right),
                pages_valid(source, a as int, run_size as int),
                pages_valid(source, b as int, run_size as int),
                self.files() == old(self).files().update(
                    output_file_index as int,
                    self.files()[output_file_index as int],
                ),
            ensures
                self.output_records().len() == 0,
                self.files()[output_file_index as int] == with_records(target, a as int, total),
            decreases cursor.a_end - cursor.a + cursor.b_end - cursor.b,
                self.input_records(0).len() - cursor.at_a + self.input_records(1).len()
                    - cursor.at_b,
        {
            let ghost record = next_record(cursor, self.input_records(0), self.input_records(1));
            let ghost rest = merge_from(
                left,
                right,
                cursor.a - a,
                cursor.at_a as int,
                cursor.b - b,
                cursor.at_b as int,
            );
            let ghost pages = cursor.output_page_id - a;
            proof {
                lemma_step_follows_merge(
                    left,
                    right,
                    a as int,
                    b as int,
                    cursor,
                    self.output_records().len(),
                );
            }
            let step: MergeStep = self.buffers.merge_step(&mut cursor);
            proof {
                if record is Some {
                    let next = merge_from(
                        left,
                        right,
                        cursor.a - a,
                        cursor.at_a as int,
                        cursor.b - b,
                        cursor.at_b as int,
                    );
                    let r = record->0;
                    assert(rest == seq![r] + next);
                    assert(emitted + rest =~= emitted.push(r) + next);
                    lemma_written_push(
                        self.files()[output_file_index as int],
                        target,
                        a as int,
                        pages,
                        emitted,
                        r,
                    );
                    assert(chunk(emitted, pages).push(r) =~= chunk(emitted.push(r), pages));
                    emitted = emitted.push(r);
                }
            }
            match step {
                MergeStep::Fetch { page_id, bufpool_id } => {
                    assert(page_valid(page_at(source, page_id as int)));
                    self.fetch_page(input_file_index, page_id, bufpool_id);
                },
                MergeStep::Emitted => {},
                MergeStep::Flush { page_id } => {
                    // the output buffer is full: write it to file, and
                    // continue with empty buffer
                    proof {
                        lemma_written_flush(
                            self.files()[output_file_index as int],
                            target,
                            a as int,
                            pages,
                            emitted,
                        );
                    }
                    self.flush_output_buffer(output_file_index, page_id);
                    assert(self.output_records() =~= chunk(emitted, cursor.output_page_id - a));
                },
                MergeStep::Finish { page_id } => {
                    proof {
                        assert(emitted + Seq::<RecordView>::empty() =~= emitted);
                        lemma_written_done(
                            self.files()[output_file_index as int],
                            target,
                            a as int,
                            pages,
                            emitted,
                        );
                    }
                    self.flush_output_buffer(output_file_index, page_id);
                    break ;
                },
            }
        }
        proof {
            assert(self.files() =~= old(self).files().update(
                output_file_index as int,
                with_records(target, a as int, total),
            ));
            lemma_run_of_fits(source, a as int, run_size as int);
            lemma_run_of_fits(source, b as int, run_size as int);
            lemma_merged(left, right);
            lemma_merge_linearity(target, a as int, left, right, run_size as int);
        }
    }

    /// Sorts the leading `num_pages` pages of the input file: first the
    /// records within each page, then the pages, by merging runs of 1, 2, 4,
    /// ... pages from one scratch file into the other for as long as two runs
    /// fit `num_pages`. Returns the index of the scratch file that was written
    /// last, which holds the result; the other scratch file is left empty.
    pub fn sort_all(&mut self, num_pages: usize) -> (last: usize)
        requires
            old(self).well_formed(),
            old(self).output_records().len() == 0,
            old(self).files()[1].len() == 0,
            old(self).files()[2].len() == 0,
            num_pages < usize::MAX,
            pages_valid(old(self).files()[0], 0, num_pages as int),
        ensures
            final(self).well_formed(),
            final(self).files().len() == 3,
            final(self).output_records().len() == 0,
            last == if passes(num_pages as nat) % 2 == 0 {
                SCRATCH_A
            } else {
                SCRATCH_B
            },
            final(self).files()[0] == old(self).files()[0],
            final(self).files()[last as int] == sorted_file(
                old(self).files()[0],
                num_pages as nat,
            ),
            final(self).files()[3 - last].len() == 0,
            sorted_by_key(file_records(final(self).files()[last as int])),
            num_pages == run_pages(passes(num_pages as nat)) ==> file_records(
                final(self).files()[last as int],
            ).to_multiset() == run_records(old(self).files()[0], 0, num_pages as int).to_multiset(),
            num_pages >= 1 ==> file_records(final(self).files()[last as int]).to_multiset()
                == run_records(
                    old(self).files()[0],
                    0,
                    run_pages(passes(num_pages as nat)) as int,
                ).to_multiset(),
    {
        let ghost input = self.files()[0];
        let ghost n = num_pages as int;
        assert(self.files()[1] =~= Seq::<Seq<u8>>::empty());
        self.sort_pages(num_pages);
        let mut plan = PassPlan::new(num_pages);
        let ghost mut level: nat = 0;
        proof {
            lemma_sorted_pages(input, num_pages as nat);
            assert(n * 1 == n);
            assert(self.files()[2] =~= runs_file(input, 1, 0));
        }
        loop
            invariant
                self.well_formed(),
                self.output_records().len() == 0,
                plan.well_formed(),
                plan.num_pages == num_pages,
                n == num_pages,
                num_pages < usize::MAX,
                self.files().len() == 3,
                self.files()[0] == input,
                pages_valid(input, 0, n),
                plan.run_size == run_pages(level),
                level > 0 ==> plan.run_size <= num_pages,
                passes(num_pages as nat) == level + passes((num_pages / plan.run_size) as nat),
                plan.src_file == if level % 2 == 0 {
                    SCRATCH_A
                } else {
                    SCRATCH_B
                },
                plan.group <= plan.num_groups(),
                holds_runs(
                    self.files()[plan.src_file as int],
                    input,
                    level,
                    n / (plan.run_size as int),
                ),
                self.files()[plan.src_file as int] == if level == 0 {
                    sorted_pages(input, Seq::empty(), n)
                } else {
                    runs_file(input, level, (n / (plan.run_size as int)) as nat)
                },
                self.files()[plan.dest_file as int] == runs_file(
                    input,
                    level + 1,
                    plan.group as nat,
                ),
            ensures
                plan.run_size > num_pages / 2,
            decreases num_pages - plan.run_size, num_pages - plan.group,
        {
            let ghost before = self.files();
            let ghost source = self.files()[plan.src_file as int];
            let ghost size = plan.run_size as int;
            let ghost group = plan.group as int;
            proof {
                lemma_run_pages(level);
                if size <= n / 2 {
                    vstd::arithmetic::div_mod::lemma_div_denominator(n, size, 2);
                    assert(size * 2 == 2 * size);
                    assert(n / size >= 2) by (nonlinear_arith)
                        requires
                            size <= n / 2,
                            size >= 1,
                    ;
                    assert(passes((n / size) as nat) == 1 + passes(((n / size) / 2) as nat));
                    if group < n / (2 * size) {
                        lemma_group_bounds(n, size, group);
                        assert(nth_run(source, level, 2 * group) == run_of(
                            source,
                            group * (2 * size),
                            size,
                        ));
                        assert(nth_run(source, level, 2 * group + 1) == run_of(
                            source,
                            group * (2 * size) + size,
                            size,
                        ));
                        assert(sorted_records(input, group * (2 * size), level + 1) == merged(
                            run_of(source, group * (2 * size), size),
                            run_of(source, group * (2 * size) + size, size),
                        ));
                    } else {
                        vstd::arithmetic::div_mod::lemma_fundamental_div_mod(n, 2 * size);
                        assert((n / (2 * size)) * (2 * size) == (2 * size) * (n / (2 * size)))
                            by (nonlinear_arith);
                        assert forall|p: int|
                            0 <= p < (n / (2 * size)) * (2 * size) implies page_valid(
                            #[trigger] page_at(input, p),
                        ) by {}
                        lemma_runs_file(input, level + 1, (n / (2 * size)) as nat);
                    }
                }
            }
            match plan.next() {
                PlanStep::Merge { first_run, second_run, run_size, src_file, dest_file } => {
                    self.merge(first_run, second_run, run_size, src_file, dest_file);
                    assert(self.files()[0] == before[0]);
                    assert(self.files()[src_file as int] == before[src_file as int]);
                },
                PlanStep::Recycle { file } => {
                    // empty the file whose pages we just merged, to use it as
                    // the destination in the next pass
                    self.files[file].clear();
                    proof {
                        level = level + 1;
                        assert(self.files()[0] == before[0]);
                        assert(self.files()[plan.src_file as int] == before[plan.src_file as int]);
                        assert(self.files()[plan.dest_file as int] =~= runs_file(
                            input,
                            level + 1,
                            0,
                        ));
                    }
                },
                PlanStep::Done { file } => {
                    break ;
                },
            }
        }
        proof {
            assert(num_pages / plan.run_size < 2) by (nonlinear_arith)
                requires
                    plan.run_size > num_pages / 2,
                    plan.run_size >= 1,
            ;
            if level > 0 {
                assert(num_pages / plan.run_size == 1) by (nonlinear_arith)
                    requires
                        plan.run_size <= num_pages,
                        num_pages / plan.run_size < 2,
                        plan.run_size >= 1,
                ;
                assert(runs_file(input, level, 1) == with_records(
                    runs_file(input, level, 0),
                    0,
                    sorted_records(input, 0, level),
                ));
            }
            assert(plan.num_groups() == 0) by (nonlinear_arith)
                requires
                    plan.num_groups() == (num_pages as int) / (2 * plan.run_size),
                    2 * plan.run_size > num_pages,
                    plan.run_size >= 1,
            ;
            lemma_sort_order(input, num_pages as nat);
            if num_pages >= 1 {
                lemma_sort_totality(input, num_pages as nat);
            }
        }
        // last file written to
        plan.src_file
    }

    /// Sorts the pages of `input`. Returns the index of the scratch file in
    /// which the sort ended, and that file, which holds the result.
    pub fn sort_file(input: PageFile) -> (result: (usize, PageFile))
        requires
            input@.len() < usize::MAX,
            pages_valid(input@, 0, input@.len() as int),
        ensures
            result.0 == if passes(input@.len()) % 2 == 0 {
                SCRATCH_A
            } else {
                SCRATCH_B
            },
            result.1@ == sorted_file(input@, input@.len()),
            sorted_by_key(file_records(result.1@)),
            input@.len() == run_pages(passes(input@.len())) ==> file_records(
                result.1@,
            ).to_multiset() == file_records(input@).to_multiset(),
            input@.len() >= 1 ==> file_records(result.1@).to_multiset() == run_records(
                input@,
                0,
                run_pages(passes(input@.len())) as int,
            ).to_multiset(),
    {
        let num_pages: usize = input.len();
        let mut ems = ExternalMergeSort::new(input);
        let file_index: usize = ems.sort_all(num_pages);
        let mut output = PageFile::new();
        core::mem::swap(&mut output, &mut ems.files[file_index]);
        (file_index, output)
    }
}

} // verus!
