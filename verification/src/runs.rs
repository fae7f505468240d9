//! Runs: spans of consecutive pages, what merging two of them emits, and how
//! the records that a merge emits are laid out over the pages of a file.

use crate::codec::{
    PAGE_SIZE, RECORDS_PER_PAGE, RecordView, lemma_page_round_trip, page_bytes, page_count,
    page_records, page_well_formed, values_fit,
};
use crate::pager::{page_at, with_page, zero_page};
use vstd::prelude::*;

verus! {

/// `data` is a whole page whose header announces no more records than a page
/// holds.
pub open spec fn page_valid(data: Seq<u8>) -> bool {
    &&& data.len() == PAGE_SIZE
    &&& page_count(data) <= RECORDS_PER_PAGE
}

/// The pages `start .. start + size` of `file` are valid.
pub open spec fn pages_valid(file: Seq<Seq<u8>>, start: int, size: int) -> bool {
    forall|p: int| start <= p < start + size ==> page_valid(#[trigger] page_at(file, p))
}

/// `file` reads as zeros from page `start` on.
pub open spec fn clear_from(file: Seq<Seq<u8>>, start: int) -> bool {
    forall|p: int| start <= p ==> #[trigger] page_at(file, p) == zero_page()
}

/// The records of the pages `start .. start + size` of `file`, page by page.
pub open spec fn run_of(file: Seq<Seq<u8>>, start: int, size: int) -> Seq<Seq<RecordView>> {
    Seq::new(size as nat, |k: int| page_records(page_at(file, start + k)))
}

/// The records of the pages `start .. start + size` of `file`, in the order
/// of the pages and, within a page, of the page.
pub open spec fn run_records(file: Seq<Seq<u8>>, start: int, size: int) -> Seq<RecordView> {
    run_of(file, start, size).flatten()
}

/// The records of `file`, in the order of its pages and, within a page, of
/// the page.
pub open spec fn file_records(file: Seq<Seq<u8>>) -> Seq<RecordView> {
    run_records(file, 0, file.len() as int)
}

/// `records` have values of `VAL_SIZE` bytes and are no more than `size`
/// pages hold.
pub open spec fn fits(records: Seq<RecordView>, size: int) -> bool {
    &&& records.len() <= RECORDS_PER_PAGE * size
    &&& values_fit(records)
}

/// Every page of `run` holds records that fit one page.
pub open spec fn pages_fit(run: Seq<Seq<RecordView>>) -> bool {
    forall|k: int| 0 <= k < run.len() ==> fits(#[trigger] run[k], 1)
}

/// What a merge emits from the point where it stands at record `i` of page
/// `a` of the left run and at record `j` of page `b` of the right run.
///
/// While both pages have a record left, the smaller key goes first, and the
/// right one on a tie. Where a page is used up, the next page of its run is
/// taken up, if the run has one; where it has none, the records of the other
/// run are emitted. The merge ends when both runs are used up.
#[verifier::opaque]
pub open spec fn merge_from(
    left: Seq<Seq<RecordView>>,
    right: Seq<Seq<RecordView>>,
    a: int,
    i: int,
    b: int,
    j: int,
) -> Seq<RecordView>
    decreases left.len() - a + right.len() - b, left[a].len() - i + right[b].len() - j,
{
    if !(0 <= a < left.len() && 0 <= b < right.len() && 0 <= i <= left[a].len() && 0 <= j
        <= right[b].len()) {
        Seq::empty()
    } else if i < left[a].len() && j < right[b].len() {
        if left[a][i].0 < right[b][j].0 {
            seq![left[a][i]] + merge_from(left, right, a, i + 1, b, j)
        } else {
            seq![right[b][j]] + merge_from(left, right, a, i, b, j + 1)
        }
    } else if i < left[a].len() {
        if b + 1 < right.len() {
            merge_from(left, right, a, i, b + 1, 0)
        } else {
            seq![left[a][i]] + merge_from(left, right, a, i + 1, b, j)
        }
    } else if j < right[b].len() {
        if a + 1 < left.len() {
            merge_from(left, right, a + 1, 0, b, j)
        } else {
            seq![right[b][j]] + merge_from(left, right, a, i, b, j + 1)
        }
    } else if b + 1 < right.len() {
        merge_from(left, right, a, i, b + 1, 0)
    } else if a + 1 < left.len() {
        merge_from(left, right, a + 1, 0, b, j)
    } else {
        Seq::empty()
    }
}

/// What merging the runs `left` and `right` emits.
pub open spec fn merged(left: Seq<Seq<RecordView>>, right: Seq<Seq<RecordView>>) -> Seq<
    RecordView,
> {
    merge_from(left, right, 0, 0, 0, 0)
}

/// The two-way merge of `x` and `y`: of the two records in front the one of
/// smaller key goes first, and the one of `y` where the keys are equal.
pub open spec fn merge_records(x: Seq<RecordView>, y: Seq<RecordView>) -> Seq<RecordView>
    decreases x.len() + y.len(),
{
    if x.len() == 0 {
        y
    } else if y.len() == 0 {
        x
    } else if x[0].0 < y[0].0 {
        seq![x[0]] + merge_records(x.drop_first(), y)
    } else {
        seq![y[0]] + merge_records(x, y.drop_first())
    }
}

/// The records that page `k` takes when `records` are laid out
/// `RECORDS_PER_PAGE` to the page.
pub open spec fn chunk(records: Seq<RecordView>, k: int) -> Seq<RecordView> {
    let from = if k * RECORDS_PER_PAGE <= records.len() {
        k * RECORDS_PER_PAGE
    } else {
        records.len() as int
    };
    let to = if (k + 1) * RECORDS_PER_PAGE <= records.len() {
        (k + 1) * RECORDS_PER_PAGE
    } else {
        records.len() as int
    };
    records.subrange(from, to)
}

/// `records` laid out over `size` pages.
pub open spec fn paginate(records: Seq<RecordView>, size: int) -> Seq<Seq<RecordView>> {
    Seq::new(size as nat, |k: int| chunk(records, k))
}

/// The file `file` after `records` were written to it from page `start` on:
/// `RECORDS_PER_PAGE` to the page, and what is left of them, be it none, to
/// one more page.
pub open spec fn with_records(file: Seq<Seq<u8>>, start: int, records: Seq<RecordView>) -> Seq<
    Seq<u8>,
> {
    let last = start + records.len() / (RECORDS_PER_PAGE as nat);
    Seq::new(
        if last < file.len() {
            file.len()
        } else {
            (last + 1) as nat
        },
        |p: int|
            if start <= p <= last {
                page_bytes(chunk(records, p - start))
            } else {
                page_at(file, p)
            },
    )
}

/// `file` is `target` with the leading `pages` full pages of `records`
/// written to it from page `start` on.
pub open spec fn partly_written(
    file: Seq<Seq<u8>>,
    target: Seq<Seq<u8>>,
    start: int,
    pages: int,
    records: Seq<RecordView>,
) -> bool {
    &&& file.len() == if pages == 0 || start + pages <= target.len() {
        target.len()
    } else {
        (start + pages) as nat
    }
    &&& forall|p: int|
        0 <= p < file.len() ==> #[trigger] file[p] == if start <= p < start + pages {
            page_bytes(chunk(records, p - start))
        } else {
            page_at(target, p)
        }
}

/// One step of a merge: what `merge_from` is at a point within the runs.
pub proof fn lemma_merge_step(
    left: Seq<Seq<RecordView>>,
    right: Seq<Seq<RecordView>>,
    a: int,
    i: int,
    b: int,
    j: int,
)
    requires
        0 <= a < left.len(),
        0 <= b < right.len(),
        0 <= i <= left[a].len(),
        0 <= j <= right[b].len(),
    ensures
        merge_from(left, right, a, i, b, j) == if i < left[a].len() && j < right[b].len() {
            if left[a][i].0 < right[b][j].0 {
                seq![left[a][i]] + merge_from(left, right, a, i + 1, b, j)
            } else {
                seq![right[b][j]] + merge_from(left, right, a, i, b, j + 1)
            }
        } else if i < left[a].len() {
            if b + 1 < right.len() {
                merge_from(left, right, a, i, b + 1, 0)
            } else {
                seq![left[a][i]] + merge_from(left, right, a, i + 1, b, j)
            }
        } else if j < right[b].len() {
            if a + 1 < left.len() {
                merge_from(left, right, a + 1, 0, b, j)
            } else {
                seq![right[b][j]] + merge_from(left, right, a, i, b, j + 1)
            }
        } else if b + 1 < right.len() {
            merge_from(left, right, a, i, b + 1, 0)
        } else if a + 1 < left.len() {
            merge_from(left, right, a + 1, 0, b, j)
        } else {
            Seq::empty()
        },
{
    reveal(merge_from);
}

/// A page without records is a page of zeros, and the other way round.
pub proof fn lemma_zero_page()
    ensures
        page_bytes(Seq::<RecordView>::empty()) == zero_page(),
        page_records(zero_page()) == Seq::<RecordView>::empty(),
        page_valid(zero_page()),
{
    let none = Seq::<RecordView>::empty();
    lemma_page_round_trip(none);
    assert(page_bytes(none) =~= zero_page());
}

/// The records of a valid page fit one page.
pub proof fn lemma_page_records_fit(data: Seq<u8>)
    requires
        page_valid(data),
    ensures
        page_well_formed(data),
        fits(page_records(data), 1),
{
}

/// The pages of a run of valid pages hold records that fit a page.
pub proof fn lemma_run_of_fits(file: Seq<Seq<u8>>, start: int, size: int)
    requires
        0 <= size,
        pages_valid(file, start, size),
    ensures
        pages_fit(run_of(file, start, size)),
        run_of(file, start, size).len() == size,
{
    let run = run_of(file, start, size);
    assert forall|k: int| 0 <= k < run.len() implies fits(#[trigger] run[k], 1) by {
        assert(page_valid(page_at(file, start + k)));
        lemma_page_records_fit(page_at(file, start + k));
    }
}

/// What a merge emits are records of its runs, no more than the pages ahead
/// of it hold.
pub proof fn lemma_merge_from_fits(
    left: Seq<Seq<RecordView>>,
    right: Seq<Seq<RecordView>>,
    a: int,
    i: int,
    b: int,
    j: int,
)
    requires
        pages_fit(left),
        pages_fit(right),
        0 <= a < left.len(),
        0 <= b < right.len(),
        0 <= i <= left[a].len(),
        0 <= j <= right[b].len(),
    ensures
        values_fit(merge_from(left, right, a, i, b, j)),
        merge_from(left, right, a, i, b, j).len() <= RECORDS_PER_PAGE * (left.len() - a) - i
            + RECORDS_PER_PAGE * (right.len() - b) - j,
    decreases left.len() - a + right.len() - b, left[a].len() - i + right[b].len() - j,
{
    assert(fits(left[a], 1));
    assert(fits(right[b], 1));
    lemma_merge_step(left, right, a, i, b, j);
    if i < left[a].len() && j < right[b].len() {
        if left[a][i].0 < right[b][j].0 {
            lemma_merge_from_fits(left, right, a, i + 1, b, j);
        } else {
            lemma_merge_from_fits(left, right, a, i, b, j + 1);
        }
    } else if i < left[a].len() {
        if b + 1 < right.len() {
            lemma_merge_from_fits(left, right, a, i, b + 1, 0);
        } else {
            lemma_merge_from_fits(left, right, a, i + 1, b, j);
        }
    } else if j < right[b].len() {
        if a + 1 < left.len() {
            lemma_merge_from_fits(left, right, a + 1, 0, b, j);
        } else {
            lemma_merge_from_fits(left, right, a, i, b, j + 1);
        }
    } else if b + 1 < right.len() {
        lemma_merge_from_fits(left, right, a, i, b + 1, 0);
    } else if a + 1 < left.len() {
        lemma_merge_from_fits(left, right, a + 1, 0, b, j);
    }
}

/// Cut into pages, records that have values of `VAL_SIZE` bytes give pages
/// that fit.
pub proof fn lemma_paginate_fits(records: Seq<RecordView>, size: int)
    requires
        values_fit(records),
        0 <= size,
    ensures
        pages_fit(paginate(records, size)),
        paginate(records, size).len() == size,
{
    let pages = paginate(records, size);
    assert forall|k: int| 0 <= k < pages.len() implies fits(#[trigger] pages[k], 1) by {
        let c = chunk(records, k);
        assert(c.len() <= RECORDS_PER_PAGE);
        assert forall|x: int| 0 <= x < c.len() implies (#[trigger] c[x]).1.len() == 4 by {
            assert(c[x] == records[k * RECORDS_PER_PAGE + x]);
        }
    }
}

/// Records cut into pages and put together again are the records, as far as
/// the pages hold them.
pub proof fn lemma_paginate_flatten(records: Seq<RecordView>, size: int)
    requires
        0 <= size,
    ensures
        paginate(records, size).flatten() == if records.len() <= RECORDS_PER_PAGE * size {
            records
        } else {
            records.take(RECORDS_PER_PAGE * size)
        },
    decreases size,
{
    if size == 0 {
        assert(records.take(0) =~= Seq::<RecordView>::empty());
        assert(paginate(records, 0) =~= Seq::<Seq<RecordView>>::empty());
        assert(paginate(records, 0).flatten() =~= Seq::<RecordView>::empty());
    } else {
        let less = paginate(records, size - 1);
        lemma_paginate_flatten(records, size - 1);
        assert(paginate(records, size) =~= less.push(chunk(records, size - 1)));
        less.lemma_flatten_push(chunk(records, size - 1));
        if records.len() <= RECORDS_PER_PAGE * (size - 1) {
            assert(records + chunk(records, size - 1) =~= records);
        } else if records.len() <= RECORDS_PER_PAGE * size {
            assert(records.take(RECORDS_PER_PAGE * (size - 1)) + chunk(records, size - 1)
                =~= records);
        } else {
            assert(records.take(RECORDS_PER_PAGE * (size - 1)) + chunk(records, size - 1)
                =~= records.take(RECORDS_PER_PAGE * size));
        }
    }
}

/// The records of a stretch of pages are those of its first part followed by
/// those of the rest.
pub proof fn lemma_run_records_split(file: Seq<Seq<u8>>, start: int, first: int, rest: int)
    requires
        0 <= first,
        0 <= rest,
    ensures
        run_records(file, start, first + rest) == run_records(file, start, first) + run_records(
            file,
            start + first,
            rest,
        ),
{
    assert(run_of(file, start, first + rest) =~= run_of(file, start, first) + run_of(
        file,
        start + first,
        rest,
    ));
    vstd::seq_lib::lemma_flatten_concat(
        run_of(file, start, first),
        run_of(file, start + first, rest),
    );
}

/// A full page of `records` stays what it is when a record is appended.
pub proof fn lemma_chunk_push(records: Seq<RecordView>, r: RecordView, k: int)
    requires
        0 <= k,
        (k + 1) * RECORDS_PER_PAGE <= records.len(),
    ensures
        chunk(records.push(r), k) == chunk(records, k),
{
    assert(chunk(records.push(r), k) =~= chunk(records, k));
}

/// Emitting one more record leaves the pages that were written as they are.
pub proof fn lemma_written_push(
    file: Seq<Seq<u8>>,
    target: Seq<Seq<u8>>,
    start: int,
    pages: int,
    records: Seq<RecordView>,
    r: RecordView,
)
    requires
        0 <= pages,
        pages * RECORDS_PER_PAGE <= records.len(),
        partly_written(file, target, start, pages, records),
    ensures
        partly_written(file, target, start, pages, records.push(r)),
{
    assert forall|p: int| 0 <= p < file.len() implies #[trigger] file[p] == if start <= p < start
        + pages {
        page_bytes(chunk(records.push(r), p - start))
    } else {
        page_at(target, p)
    } by {
        if start <= p < start + pages {
            lemma_chunk_push(records, r, p - start);
        }
    }
}

/// Writing the next full page extends what was written by one page.
pub proof fn lemma_written_flush(
    file: Seq<Seq<u8>>,
    target: Seq<Seq<u8>>,
    start: int,
    pages: int,
    records: Seq<RecordView>,
)
    requires
        0 <= start,
        0 <= pages,
        partly_written(file, target, start, pages, records),
    ensures
        partly_written(
            with_page(file, start + pages, page_bytes(chunk(records, pages))),
            target,
            start,
            pages + 1,
            records,
        ),
{
    let after = with_page(file, start + pages, page_bytes(chunk(records, pages)));
    assert forall|p: int| 0 <= p < after.len() implies #[trigger] after[p] == if start <= p < start
        + pages + 1 {
        page_bytes(chunk(records, p - start))
    } else {
        page_at(target, p)
    } by {
        if p != start + pages && p < file.len() {
            assert(after[p] == file[p]);
        }
    }
}

/// Writing what is left of the records behind their full pages completes the
/// run.
pub proof fn lemma_written_done(
    file: Seq<Seq<u8>>,
    target: Seq<Seq<u8>>,
    start: int,
    pages: int,
    records: Seq<RecordView>,
)
    requires
        0 <= start,
        0 <= pages,
        pages == records.len() / (RECORDS_PER_PAGE as nat),
        partly_written(file, target, start, pages, records),
    ensures
        with_page(file, start + pages, page_bytes(chunk(records, pages))) == with_records(
            target,
            start,
            records,
        ),
{
    lemma_written_flush(file, target, start, pages, records);
    let after = with_page(file, start + pages, page_bytes(chunk(records, pages)));
    assert(after =~= with_records(target, start, records));
}

/// Records written to a clear stretch of a file are read back as they were
/// laid out, and the file stays clear behind the pages that they were given.
pub proof fn lemma_with_records(
    file: Seq<Seq<u8>>,
    start: int,
    records: Seq<RecordView>,
    size: int,
)
    requires
        0 <= start,
        0 <= size,
        fits(records, size),
        clear_from(file, start),
    ensures
        forall|p: int|
            p < start ==> #[trigger] page_at(with_records(file, start, records), p) == page_at(
                file,
                p,
            ),
        run_of(with_records(file, start, records), start, size) == paginate(records, size),
        pages_valid(with_records(file, start, records), start, size),
        clear_from(with_records(file, start, records), start + size),
{
    let after = with_records(file, start, records);
    let last = start + records.len() / (RECORDS_PER_PAGE as nat);
    lemma_zero_page();
    assert forall|p: int| start <= p implies #[trigger] page_at(after, p) == page_bytes(
        chunk(records, p - start),
    ) && page_records(page_at(after, p)) == chunk(records, p - start) && page_valid(
        page_at(after, p),
    ) by {
        let c = chunk(records, p - start);
        assert(c.len() <= RECORDS_PER_PAGE);
        assert forall|x: int| 0 <= x < c.len() implies (#[trigger] c[x]).1.len() == 4 by {
            assert(c[x] == records[(p - start) * RECORDS_PER_PAGE + x]);
        }
        lemma_page_round_trip(c);
        if p <= last {
        } else {
            assert(page_at(file, p) == zero_page());
            assert(c =~= Seq::<RecordView>::empty());
        }
    }
    assert(run_of(after, start, size) =~= paginate(records, size));
    assert forall|p: int| start + size <= p implies #[trigger] page_at(after, p) == zero_page() by {
        assert(chunk(records, p - start) =~= Seq::<RecordView>::empty());
    }
}

} // verus!
