use external_sort::buffers::{BufferPool, MergeCursor, MergeStep};
use external_sort::codec::{holds_its_records, serialize_records, Record, PAGE_SIZE};
use external_sort::pager::{page_offset, PageFile};
use external_sort::plan::{PassPlan, PlanStep};
use external_sort::sorter::ExternalMergeSort;

fn tagged(keys: &[i32], tag: u8) -> Vec<Record> {
    keys.iter().map(|k| (*k, vec![tag, 0, 0, 0])).collect()
}

fn steps_of(num_pages: usize) -> Vec<PlanStep> {
    let mut plan = PassPlan::new(num_pages);
    let mut steps = vec![];
    loop {
        let step = plan.next();
        steps.push(step);
        if matches!(step, PlanStep::Done { .. }) {
            return steps;
        }
        assert!(steps.len() < 1000);
    }
}

fn merge_of(first_run: usize, second_run: usize, run_size: usize, from: usize) -> PlanStep {
    PlanStep::Merge {
        first_run,
        second_run,
        run_size,
        src_file: from,
        dest_file: 3 - from,
    }
}

// A sorter over paged files that does what the steps ask for and no more.
struct StepSort {
    files: Vec<PageFile>,
    buffers: BufferPool,
}

impl StepSort {
    fn fetch(&mut self, file: usize, page_id: usize, bufpool_id: usize) {
        let storage = self.files[file].read_page(page_id);
        assert!(holds_its_records(&storage));
        self.buffers.load_page(bufpool_id, &storage);
    }

    fn flush(&mut self, file: usize, page_id: usize) {
        let storage = self.buffers.take_output();
        self.files[file].write_page(page_id, &storage);
    }

    fn merge(&mut self, a: usize, b: usize, run_size: usize, from: usize, to: usize) {
        let mut cursor = MergeCursor::new(a, b, run_size);
        self.fetch(from, a, 0);
        self.fetch(from, b, 1);
        loop {
            match self.buffers.merge_step(&mut cursor) {
                MergeStep::Fetch {
                    page_id,
                    bufpool_id,
                } => self.fetch(from, page_id, bufpool_id),
                MergeStep::Emitted => {}
                MergeStep::Flush { page_id } => self.flush(to, page_id),
                MergeStep::Finish { page_id } => {
                    self.flush(to, page_id);
                    return;
                }
            }
        }
    }

    fn sort(input: PageFile, num_pages: usize) -> (usize, StepSort) {
        let mut sorter = StepSort {
            files: vec![input, PageFile::new(), PageFile::new()],
            buffers: BufferPool::new(),
        };
        for i in 0..num_pages {
            sorter.fetch(0, i, 0);
            sorter.buffers.sort_input(0);
            let storage = sorter.buffers.input_page(0);
            sorter.files[1].write_page(i, &storage);
        }
        let mut plan = PassPlan::new(num_pages);
        loop {
            match plan.next() {
                PlanStep::Merge {
                    first_run,
                    second_run,
                    run_size,
                    src_file,
                    dest_file,
                } => sorter.merge(first_run, second_run, run_size, src_file, dest_file),
                PlanStep::Recycle { file } => sorter.files[file].clear(),
                PlanStep::Done { file } => return (file, sorter),
            }
        }
    }
}

fn random_file(num_pages: usize, seed: u64) -> PageFile {
    let mut state = seed;
    let mut file = PageFile::new();
    for p in 0..num_pages {
        let mut records: Vec<Record> = vec![];
        state = state.wrapping_mul(6364136223846793005).wrapping_add(1);
        let count = (state >> 33) as usize % 512;
        for _ in 0..count {
            state = state.wrapping_mul(6364136223846793005).wrapping_add(1);
            let key = ((state >> 40) % 2000) as i32 - 1000;
            records.push((key, vec![p as u8, (state >> 8) as u8, 0, 1]));
        }
        file.write_page(p, &serialize_records(&records));
    }
    file
}

#[test]
fn page_offsets() {
    assert_eq!(page_offset(0), Some(0));
    assert_eq!(page_offset(1), Some(4096));
    assert_eq!(page_offset(8), Some(32768));
    assert_eq!(page_offset((1 << 52) - 1), Some(u64::MAX - 4095));
    assert_eq!(page_offset(1 << 52), None);
    assert_eq!(page_offset(usize::MAX), None);
}

#[test]
fn cursor_starts_at_the_first_pages_of_the_runs() {
    let cursor = MergeCursor::new(4, 6, 2);
    assert_eq!(
        cursor,
        MergeCursor {
            a: 4,
            b: 6,
            a_end: 5,
            b_end: 7,
            at_a: 0,
            at_b: 0,
            output_page_id: 4,
        }
    );
    let single = MergeCursor::new(0, 1, 1);
    assert_eq!((single.a_end, single.b_end), (0, 1));
}

#[test]
fn pool_loads_sorts_and_encodes_a_page() {
    let mut pool = BufferPool::new();
    let given = tagged(&[3, 1, 2, 1], 7);
    pool.load_page(1, &serialize_records(&given));
    assert_eq!(pool.input_buffer(1).records, given);
    assert_eq!(pool.input_buffer(0).len(), 0);
    pool.sort_input(1);
    assert_eq!(pool.input_buffer(1).records, tagged(&[1, 1, 2, 3], 7));
    assert_eq!(
        pool.input_page(1),
        serialize_records(&tagged(&[1, 1, 2, 3], 7))
    );
    assert_eq!(pool.input_page(0), [0u8; PAGE_SIZE]);
    assert_eq!(pool.output_buffer().len(), 0);
    assert_eq!(pool.take_output(), [0u8; PAGE_SIZE]);
}

#[test]
fn steps_of_a_merge_of_two_pages() {
    let mut pool = BufferPool::new();
    pool.load_page(0, &serialize_records(&tagged(&[1, 3], b'l')));
    pool.load_page(1, &serialize_records(&tagged(&[1, 2], b'r')));
    let mut cursor = MergeCursor::new(0, 1, 1);
    for (at_a, at_b) in [(0, 1), (1, 1), (1, 2), (2, 2)] {
        assert_eq!(pool.merge_step(&mut cursor), MergeStep::Emitted);
        assert_eq!((cursor.at_a, cursor.at_b), (at_a, at_b));
    }
    assert_eq!(
        pool.merge_step(&mut cursor),
        MergeStep::Finish { page_id: 0 }
    );
    assert_eq!(
        pool.output_buffer().records,
        vec![
            (1, vec![b'r', 0, 0, 0]),
            (1, vec![b'l', 0, 0, 0]),
            (2, vec![b'r', 0, 0, 0]),
            (3, vec![b'l', 0, 0, 0]),
        ]
    );
    let page = pool.take_output();
    assert_eq!(ExternalMergeSort::read_records(&page).len(), 4);
    assert_eq!(pool.output_buffer().len(), 0);
    // a finished merge stays finished
    assert_eq!(
        pool.merge_step(&mut cursor),
        MergeStep::Finish { page_id: 0 }
    );
}

#[test]
fn step_asks_for_the_next_page_of_a_run() {
    let mut pool = BufferPool::new();
    pool.load_page(0, &serialize_records(&tagged(&[5], 0)));
    pool.load_page(1, &serialize_records(&tagged(&[1], 1)));
    let mut cursor = MergeCursor::new(10, 12, 2);
    assert_eq!(pool.merge_step(&mut cursor), MergeStep::Emitted);
    assert_eq!(
        pool.merge_step(&mut cursor),
        MergeStep::Fetch {
            page_id: 13,
            bufpool_id: 1
        }
    );
    assert_eq!((cursor.b, cursor.at_b), (13, 0));
    pool.load_page(1, &serialize_records(&tagged(&[7], 1)));
    assert_eq!(pool.merge_step(&mut cursor), MergeStep::Emitted);
    assert_eq!(
        pool.merge_step(&mut cursor),
        MergeStep::Fetch {
            page_id: 11,
            bufpool_id: 0
        }
    );
    assert_eq!((cursor.a, cursor.at_a), (11, 0));
    pool.load_page(0, &serialize_records(&[]));
    // the left run has no page left: the right page is emitted to its end
    assert_eq!(pool.merge_step(&mut cursor), MergeStep::Emitted);
    assert_eq!(
        pool.merge_step(&mut cursor),
        MergeStep::Finish { page_id: 10 }
    );
    assert_eq!(
        pool.output_buffer().records,
        vec![(1, vec![1, 0, 0, 0]), (5, vec![0, 0, 0, 0]), (7, vec![1, 0, 0, 0])]
    );
}

#[test]
fn step_asks_for_a_page_when_both_buffers_are_used_up() {
    let mut pool = BufferPool::new();
    pool.load_page(0, &serialize_records(&tagged(&[1], 0)));
    pool.load_page(1, &serialize_records(&[]));
    let mut cursor = MergeCursor::new(0, 2, 2);
    // the right page is empty: the right run goes on
    assert_eq!(
        pool.merge_step(&mut cursor),
        MergeStep::Fetch {
            page_id: 3,
            bufpool_id: 1
        }
    );
    pool.load_page(1, &serialize_records(&[]));
    // the right run has no page left: the left record is emitted
    assert_eq!(pool.merge_step(&mut cursor), MergeStep::Emitted);
    // both buffers are used up, and the left run has a page left
    assert_eq!(
        pool.merge_step(&mut cursor),
        MergeStep::Fetch {
            page_id: 1,
            bufpool_id: 0
        }
    );
    assert_eq!((cursor.a, cursor.at_a), (1, 0));
    pool.load_page(0, &serialize_records(&tagged(&[2], 0)));
    assert_eq!(pool.merge_step(&mut cursor), MergeStep::Emitted);
    assert_eq!(
        pool.merge_step(&mut cursor),
        MergeStep::Finish { page_id: 0 }
    );
    assert_eq!(pool.output_buffer().records, tagged(&[1, 2], 0));
}

#[test]
fn step_takes_up_the_right_run_first_when_both_buffers_are_used_up() {
    let mut pool = BufferPool::new();
    let mut cursor = MergeCursor::new(4, 6, 2);
    assert_eq!(
        pool.merge_step(&mut cursor),
        MergeStep::Fetch {
            page_id: 7,
            bufpool_id: 1
        }
    );
    assert_eq!(
        pool.merge_step(&mut cursor),
        MergeStep::Fetch {
            page_id: 5,
            bufpool_id: 0
        }
    );
    assert_eq!(
        pool.merge_step(&mut cursor),
        MergeStep::Finish { page_id: 4 }
    );
}

#[test]
fn step_reports_a_full_output_buffer() {
    let mut pool = BufferPool::new();
    let left: Vec<i32> = (0..511).map(|k| 2 * k).collect();
    let right: Vec<i32> = (0..511).map(|k| 2 * k + 1).collect();
    pool.load_page(0, &serialize_records(&tagged(&left, 0)));
    pool.load_page(1, &serialize_records(&tagged(&right, 1)));
    let mut cursor = MergeCursor::new(2, 3, 1);
    for _ in 0..510 {
        assert_eq!(pool.merge_step(&mut cursor), MergeStep::Emitted);
    }
    assert_eq!(pool.merge_step(&mut cursor), MergeStep::Flush { page_id: 2 });
    assert_eq!(cursor.output_page_id, 3);
    let first = ExternalMergeSort::read_records(&pool.take_output());
    assert_eq!(
        first.iter().map(|r| r.0).collect::<Vec<i32>>(),
        (0..511).collect::<Vec<i32>>()
    );
    for _ in 0..510 {
        assert_eq!(pool.merge_step(&mut cursor), MergeStep::Emitted);
    }
    assert_eq!(pool.merge_step(&mut cursor), MergeStep::Flush { page_id: 3 });
    let second = ExternalMergeSort::read_records(&pool.take_output());
    assert_eq!(
        second.iter().map(|r| r.0).collect::<Vec<i32>>(),
        (511..1022).collect::<Vec<i32>>()
    );
    assert_eq!(
        pool.merge_step(&mut cursor),
        MergeStep::Finish { page_id: 4 }
    );
    assert_eq!(pool.take_output(), [0u8; PAGE_SIZE]);
}

#[test]
fn plan_without_a_merge_pass() {
    assert_eq!(steps_of(0), vec![PlanStep::Done { file: 1 }]);
    assert_eq!(steps_of(1), vec![PlanStep::Done { file: 1 }]);
}

#[test]
fn plan_of_two_and_of_three_pages() {
    let expected = vec![
        merge_of(0, 1, 1, 1),
        PlanStep::Recycle { file: 1 },
        PlanStep::Done { file: 2 },
    ];
    assert_eq!(steps_of(2), expected);
    assert_eq!(steps_of(3), expected);
}

#[test]
fn plan_of_eight_pages() {
    assert_eq!(
        steps_of(8),
        vec![
            merge_of(0, 1, 1, 1),
            merge_of(2, 3, 1, 1),
            merge_of(4, 5, 1, 1),
            merge_of(6, 7, 1, 1),
            PlanStep::Recycle { file: 1 },
            merge_of(0, 2, 2, 2),
            merge_of(4, 6, 2, 2),
            PlanStep::Recycle { file: 2 },
            merge_of(0, 4, 4, 1),
            PlanStep::Recycle { file: 1 },
            PlanStep::Done { file: 2 },
        ]
    );
}

#[test]
fn plan_of_six_pages_leaves_the_last_two_out_of_the_second_pass() {
    assert_eq!(
        steps_of(6),
        vec![
            merge_of(0, 1, 1, 1),
            merge_of(2, 3, 1, 1),
            merge_of(4, 5, 1, 1),
            PlanStep::Recycle { file: 1 },
            merge_of(0, 2, 2, 2),
            PlanStep::Recycle { file: 2 },
            PlanStep::Done { file: 1 },
        ]
    );
}

#[test]
fn plan_stays_done() {
    let mut plan = PassPlan::new(2);
    while plan.next() != (PlanStep::Done { file: 2 }) {}
    let done = plan;
    assert_eq!(plan.next(), PlanStep::Done { file: 2 });
    assert_eq!(plan, done);
    assert_eq!(
        done,
        PassPlan {
            num_pages: 2,
            run_size: 2,
            group: 0,
            src_file: 2,
            dest_file: 1,
        }
    );
}

#[test]
fn steps_done_one_by_one_give_what_the_sorter_gives() {
    for (num_pages, seed) in [(0, 1), (1, 2), (2, 3), (3, 4), (4, 5), (5, 6), (8, 7), (16, 8)] {
        let (file, stepped) = StepSort::sort(random_file(num_pages, seed), num_pages);
        let mut sorter = ExternalMergeSort::new(random_file(num_pages, seed));
        let last = sorter.sort_all(num_pages);
        assert_eq!(file, last);
        for index in 0..3 {
            assert_eq!(stepped.files[index].len(), sorter.file(index).len());
            for p in 0..stepped.files[index].len() {
                assert_eq!(
                    stepped.files[index].read_page(p),
                    sorter.file(index).read_page(p)
                );
            }
        }
    }
}
