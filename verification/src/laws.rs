//! What holds of every merge and of every sort.

use crate::buffers::{MergeCursor, Move, next_cursor, next_move};
use crate::codec::{RECORDS_PER_PAGE, RecordView, lemma_page_round_trip, page_records};
use crate::page::{
    lemma_filter_none, lemma_split_first, lemma_stable_sort, sorted_by_key, stable_sort, with_key,
};
use crate::pager::page_at;
use crate::passes::{
    lemma_run_pages, lemma_sorted_file_records, lemma_sorted_records_fit, lemma_stable_sort_fits,
    lemma_top_run, passes, run_pages, sorted_file, sorted_pages, sorted_records,
};
use crate::runs::{
    clear_from, file_records, lemma_merge_from_fits, lemma_merge_step, lemma_page_records_fit,
    lemma_paginate_flatten, lemma_run_records_split, lemma_with_records, merge_from,
    merge_records, merged, page_valid, pages_fit, pages_valid, paginate, run_of, run_records,
    with_records,
};
use vstd::multiset::Multiset;
use vstd::prelude::*;

verus! {

/// Dropping the first record of an ascending sequence leaves it ascending,
/// and no key of the rest is below the first.
proof fn lemma_sorted_rest(s: Seq<RecordView>)
    requires
        s.len() > 0,
        sorted_by_key(s),
    ensures
        sorted_by_key(s.drop_first()),
        forall|k: int| 0 <= k < s.drop_first().len() ==> s[0].0 <= (#[trigger] s.drop_first()[k]).0,
{
    let rest = s.drop_first();
    assert forall|i: int, j: int| 0 <= i <= j < rest.len() implies rest[i].0 <= rest[j].0 by {
        assert(rest[i] == s[i + 1] && rest[j] == s[j + 1]);
    }
    assert forall|k: int| 0 <= k < rest.len() implies s[0].0 <= (#[trigger] rest[k]).0 by {
        assert(rest[k] == s[k + 1]);
    }
}

/// A record in front of an ascending sequence whose keys are not below its own
/// gives an ascending sequence.
proof fn lemma_sorted_cons(r: RecordView, s: Seq<RecordView>)
    requires
        sorted_by_key(s),
        forall|k: int| 0 <= k < s.len() ==> r.0 <= (#[trigger] s[k]).0,
    ensures
        sorted_by_key(seq![r] + s),
{
    let t = seq![r] + s;
    assert forall|i: int, j: int| 0 <= i <= j < t.len() implies t[i].0 <= t[j].0 by {
        if i > 0 {
            assert(t[i] == s[i - 1] && t[j] == s[j - 1]);
        } else if j > 0 {
            assert(t[j] == s[j - 1]);
        }
    }
}

/// What is a lower bound of the keys of both sequences is one of the keys of
/// their merge.
proof fn lemma_merge_records_bound(x: Seq<RecordView>, y: Seq<RecordView>, low: i32)
    requires
        forall|k: int| 0 <= k < x.len() ==> low <= (#[trigger] x[k]).0,
        forall|k: int| 0 <= k < y.len() ==> low <= (#[trigger] y[k]).0,
    ensures
        forall|k: int|
            0 <= k < merge_records(x, y).len() ==> low <= (#[trigger] merge_records(x, y)[k]).0,
    decreases x.len() + y.len(),
{
    let m = merge_records(x, y);
    if x.len() == 0 || y.len() == 0 {
    } else if x[0].0 < y[0].0 {
        let rest = x.drop_first();
        assert forall|k: int| 0 <= k < rest.len() implies low <= (#[trigger] rest[k]).0 by {
            assert(rest[k] == x[k + 1]);
        }
        lemma_merge_records_bound(rest, y, low);
        let tail = merge_records(rest, y);
        assert forall|k: int| 0 <= k < m.len() implies low <= (#[trigger] m[k]).0 by {
            if k > 0 {
                assert(m[k] == tail[k - 1]);
            }
        }
    } else {
        let rest = y.drop_first();
        assert forall|k: int| 0 <= k < rest.len() implies low <= (#[trigger] rest[k]).0 by {
            assert(rest[k] == y[k + 1]);
        }
        lemma_merge_records_bound(x, rest, low);
        let tail = merge_records(x, rest);
        assert forall|k: int| 0 <= k < m.len() implies low <= (#[trigger] m[k]).0 by {
            if k > 0 {
                assert(m[k] == tail[k - 1]);
            }
        }
    }
}

/// A merge holds the records of both sequences, each as often as the two
/// hold it together, and it ascends where both of them do.
pub proof fn lemma_merge_records(x: Seq<RecordView>, y: Seq<RecordView>)
    ensures
        merge_records(x, y).len() == x.len() + y.len(),
        merge_records(x, y).to_multiset() == x.to_multiset().add(y.to_multiset()),
        sorted_by_key(x) && sorted_by_key(y) ==> sorted_by_key(merge_records(x, y)),
    decreases x.len() + y.len(),
{
    broadcast use vstd::seq_lib::group_to_multiset_ensures;

    let m = merge_records(x, y);
    if x.len() == 0 {
        assert(x.to_multiset() =~= Multiset::<RecordView>::empty());
        assert(m.to_multiset() =~= x.to_multiset().add(y.to_multiset()));
    } else if y.len() == 0 {
        assert(y.to_multiset() =~= Multiset::<RecordView>::empty());
        assert(m.to_multiset() =~= x.to_multiset().add(y.to_multiset()));
    } else if x[0].0 < y[0].0 {
        let rest = x.drop_first();
        let tail = merge_records(rest, y);
        lemma_merge_records(rest, y);
        assert(x =~= rest.insert(0, x[0]));
        assert(m =~= tail.insert(0, x[0]));
        vstd::seq_lib::to_multiset_insert(rest, 0, x[0]);
        vstd::seq_lib::to_multiset_insert(tail, 0, x[0]);
        assert(m.to_multiset() =~= x.to_multiset().add(y.to_multiset()));
        if sorted_by_key(x) && sorted_by_key(y) {
            lemma_sorted_rest(x);
            lemma_merge_records_bound(rest, y, x[0].0);
            lemma_sorted_cons(x[0], tail);
        }
    } else {
        let rest = y.drop_first();
        let tail = merge_records(x, rest);
        lemma_merge_records(x, rest);
        assert(y =~= rest.insert(0, y[0]));
        assert(m =~= tail.insert(0, y[0]));
        vstd::seq_lib::to_multiset_insert(rest, 0, y[0]);
        vstd::seq_lib::to_multiset_insert(tail, 0, y[0]);
        assert(m.to_multiset() =~= x.to_multiset().add(y.to_multiset()));
        if sorted_by_key(x) && sorted_by_key(y) {
            lemma_sorted_rest(y);
            lemma_merge_records_bound(x, rest, y[0].0);
            lemma_sorted_cons(y[0], tail);
        }
    }
}

/// A merge of two ascending sequences keeps the records of each key in their
/// order, those of `y` in front of those of `x`.
pub proof fn lemma_merge_records_stable(x: Seq<RecordView>, y: Seq<RecordView>, key: i32)
    requires
        sorted_by_key(x),
        sorted_by_key(y),
    ensures
        with_key(merge_records(x, y), key) == with_key(y, key) + with_key(x, key),
    decreases x.len() + y.len(),
{
    let none = Seq::<RecordView>::empty();
    let m = merge_records(x, y);
    if x.len() == 0 {
        lemma_filter_none(x, key);
        assert(with_key(y, key) + none =~= with_key(y, key));
    } else if y.len() == 0 {
        lemma_filter_none(y, key);
        assert(none + with_key(x, key) =~= with_key(x, key));
    } else if x[0].0 < y[0].0 {
        let rest = x.drop_first();
        let tail = merge_records(rest, y);
        lemma_sorted_rest(x);
        lemma_merge_records_stable(rest, y, key);
        assert(m.drop_first() =~= tail);
        lemma_split_first(m);
        lemma_split_first(x);
        if key == x[0].0 {
            lemma_sorted_rest(y);
            assert forall|k: int| 0 <= k < y.len() implies (#[trigger] y[k]).0 != key by {
                assert(y[0].0 <= y[k].0);
            }
            lemma_filter_none(y, key);
            assert(with_key(m, key) =~= with_key(y, key) + with_key(x, key));
        }
    } else {
        let rest = y.drop_first();
        let tail = merge_records(x, rest);
        lemma_sorted_rest(y);
        lemma_merge_records_stable(x, rest, key);
        assert(m.drop_first() =~= tail);
        lemma_split_first(m);
        lemma_split_first(y);
        assert(with_key(m, key) =~= with_key(y, key) + with_key(x, key));
    }
}

/// A step of a merge through the buffers emits what `merge_from` says of the
/// point at which the cursor stands, and leaves the cursor at the point from
/// which `merge_from` goes on. The runs begin at the pages `first` and
/// `second` of their file; `waiting` records are in the output buffer.
pub proof fn lemma_step_follows_merge(
    left: Seq<Seq<RecordView>>,
    right: Seq<Seq<RecordView>>,
    first: int,
    second: int,
    cursor: MergeCursor,
    waiting: nat,
)
    requires
        cursor.a_end == first + left.len() - 1,
        cursor.b_end == second + right.len() - 1,
        first <= cursor.a <= cursor.a_end,
        second <= cursor.b <= cursor.b_end,
        cursor.at_a <= left[cursor.a - first].len(),
        cursor.at_b <= right[cursor.b - second].len(),
        cursor.at_a < usize::MAX,
        cursor.at_b < usize::MAX,
    ensures
        ({
            let page_a = left[cursor.a - first];
            let page_b = right[cursor.b - second];
            let after = next_cursor(cursor, page_a, page_b, waiting);
            let rest = merge_from(
                left,
                right,
                after.a - first,
                after.at_a as int,
                after.b - second,
                after.at_b as int,
            );
            merge_from(
                left,
                right,
                cursor.a - first,
                cursor.at_a as int,
                cursor.b - second,
                cursor.at_b as int,
            ) == match next_move(cursor, page_a, page_b) {
                Move::Stop => Seq::empty(),
                Move::TakeLeft => seq![page_a[cursor.at_a as int]] + rest,
                Move::TakeRight => seq![page_b[cursor.at_b as int]] + rest,
                _ => rest,
            }
        }),
{
    lemma_merge_step(
        left,
        right,
        cursor.a - first,
        cursor.at_a as int,
        cursor.b - second,
        cursor.at_b as int,
    );
}

/// The records of `run` from record `i` of its page `a` on.
pub open spec fn rest_of(run: Seq<Seq<RecordView>>, a: int, i: int) -> Seq<RecordView> {
    run[a].skip(i) + run.skip(a + 1).flatten()
}

/// Within a page, the rest of a run is the record at hand and the rest behind it.
proof fn lemma_rest_head(run: Seq<Seq<RecordView>>, a: int, i: int)
    requires
        0 <= a < run.len(),
        0 <= i < run[a].len(),
    ensures
        rest_of(run, a, i).len() > 0,
        rest_of(run, a, i)[0] == run[a][i],
        rest_of(run, a, i).drop_first() == rest_of(run, a, i + 1),
        rest_of(run, a, i) == seq![run[a][i]] + rest_of(run, a, i + 1),
{
    assert(rest_of(run, a, i).drop_first() =~= rest_of(run, a, i + 1));
    assert(rest_of(run, a, i) =~= seq![run[a][i]] + rest_of(run, a, i + 1));
}

/// At the end of a page, the rest of a run is the rest from the next page on,
/// and nothing where there is no next page.
proof fn lemma_rest_page_end(run: Seq<Seq<RecordView>>, a: int)
    requires
        0 <= a < run.len(),
    ensures
        a + 1 < run.len() ==> rest_of(run, a, run[a].len() as int) == rest_of(run, a + 1, 0),
        a + 1 == run.len() ==> rest_of(run, a, run[a].len() as int) == Seq::<RecordView>::empty(),
{
    let behind = run.skip(a + 1);
    if a + 1 < run.len() {
        assert(behind.first() == run[a + 1]);
        assert(behind.drop_first() =~= run.skip(a + 2));
        assert(rest_of(run, a, run[a].len() as int) =~= rest_of(run, a + 1, 0));
    } else {
        assert(behind =~= Seq::<Seq<RecordView>>::empty());
        assert(rest_of(run, a, run[a].len() as int) =~= Seq::<RecordView>::empty());
    }
}

/// From its first record on, the rest of a run is the whole run.
proof fn lemma_rest_start(run: Seq<Seq<RecordView>>)
    requires
        run.len() > 0,
    ensures
        rest_of(run, 0, 0) == run.flatten(),
{
    assert(run.skip(1) =~= run.drop_first());
    assert(rest_of(run, 0, 0) =~= run.flatten());
}

/// What a merge emits from a point within its runs is the two-way merge of
/// what the two runs hold from that point on.
pub proof fn lemma_merge_from_whole(
    left: Seq<Seq<RecordView>>,
    right: Seq<Seq<RecordView>>,
    a: int,
    i: int,
    b: int,
    j: int,
)
    requires
        0 <= a < left.len(),
        0 <= b < right.len(),
        0 <= i <= left[a].len(),
        0 <= j <= right[b].len(),
    ensures
        merge_from(left, right, a, i, b, j) == merge_records(
            rest_of(left, a, i),
            rest_of(right, b, j),
        ),
    decreases left.len() - a + right.len() - b, left[a].len() - i + right[b].len() - j,
{
    let x = rest_of(left, a, i);
    let y = rest_of(right, b, j);
    lemma_merge_step(left, right, a, i, b, j);
    if i < left[a].len() && j < right[b].len() {
        lemma_rest_head(left, a, i);
        lemma_rest_head(right, b, j);
        if left[a][i].0 < right[b][j].0 {
            lemma_merge_from_whole(left, right, a, i + 1, b, j);
        } else {
            lemma_merge_from_whole(left, right, a, i, b, j + 1);
        }
    } else if i < left[a].len() {
        lemma_rest_page_end(right, b);
        if b + 1 < right.len() {
            lemma_merge_from_whole(left, right, a, i, b + 1, 0);
        } else {
            lemma_rest_head(left, a, i);
            lemma_merge_from_whole(left, right, a, i + 1, b, j);
            assert(merge_records(rest_of(left, a, i + 1), y) == rest_of(left, a, i + 1));
            assert(merge_records(x, y) == x);
        }
    } else if j < right[b].len() {
        lemma_rest_page_end(left, a);
        if a + 1 < left.len() {
            lemma_merge_from_whole(left, right, a + 1, 0, b, j);
        } else {
            lemma_rest_head(right, b, j);
            lemma_merge_from_whole(left, right, a, i, b, j + 1);
            assert(merge_records(x, rest_of(right, b, j + 1)) == rest_of(right, b, j + 1));
            assert(merge_records(x, y) == y);
        }
    } else {
        lemma_rest_page_end(left, a);
        lemma_rest_page_end(right, b);
        if b + 1 < right.len() {
            lemma_merge_from_whole(left, right, a, i, b + 1, 0);
        } else if a + 1 < left.len() {
            lemma_merge_from_whole(left, right, a + 1, 0, b, j);
        }
    }
}

/// What a merge emits is the two-way merge of the records of its two runs:
/// it holds every record of the two runs as often as they hold it together,
/// it keeps the order of the records of each run, and it ascends where both
/// runs do.
pub proof fn lemma_merged(left: Seq<Seq<RecordView>>, right: Seq<Seq<RecordView>>)
    requires
        left.len() > 0,
        right.len() > 0,
    ensures
        merged(left, right) == merge_records(left.flatten(), right.flatten()),
        merged(left, right).len() == left.flatten().len() + right.flatten().len(),
        merged(left, right).to_multiset() == left.flatten().to_multiset().add(
            right.flatten().to_multiset(),
        ),
        sorted_by_key(left.flatten()) && sorted_by_key(right.flatten()) ==> sorted_by_key(
            merged(left, right),
        ),
{
    lemma_rest_start(left);
    lemma_rest_start(right);
    lemma_merge_from_whole(left, right, 0, 0, 0, 0);
    lemma_merge_records(left.flatten(), right.flatten());
}

/// A merge of two runs of `size` pages emits as many records as the two runs
/// hold together, which is no more than `2 * size` pages hold. Written from
/// page `start` on to a file that is clear from there on, they are what the
/// pages `start .. start + 2 * size` of the file hold afterwards; the pages in
/// front of these stay as they were, and behind them the file stays clear.
pub proof fn lemma_merge_linearity(
    target: Seq<Seq<u8>>,
    start: int,
    left: Seq<Seq<RecordView>>,
    right: Seq<Seq<RecordView>>,
    size: int,
)
    requires
        0 <= start,
        1 <= size,
        left.len() == size,
        right.len() == size,
        pages_fit(left),
        pages_fit(right),
    ensures
        merged(left, right).len() == left.flatten().len() + right.flatten().len(),
        merged(left, right).len() <= RECORDS_PER_PAGE * (2 * size),
        forall|p: int|
            p < start ==> #[trigger] page_at(with_records(target, start, merged(left, right)), p)
                == page_at(target, p),
        clear_from(target, start) ==> {
            let after = with_records(target, start, merged(left, right));
            &&& run_of(after, start, 2 * size) == paginate(merged(left, right), 2 * size)
            &&& run_records(after, start, 2 * size) == merged(left, right)
            &&& clear_from(after, start + 2 * size)
        },
{
    let records = merged(left, right);
    lemma_merged(left, right);
    lemma_merge_from_fits(left, right, 0, 0, 0, 0);
    if clear_from(target, start) {
        lemma_with_records(target, start, records, 2 * size);
        lemma_paginate_flatten(records, 2 * size);
    }
}

/// After the first pass each page of the scratch file holds the records of
/// the same page of the input, each as often as that page holds it, in
/// ascending order of their keys, records of one key in the order of the input.
pub proof fn lemma_first_pass(input: Seq<Seq<u8>>, scratch: Seq<Seq<u8>>, num_pages: int, p: int)
    requires
        pages_valid(input, 0, num_pages),
        0 <= p < num_pages,
    ensures
        page_valid(page_at(sorted_pages(input, scratch, num_pages), p)),
        page_records(page_at(sorted_pages(input, scratch, num_pages), p)) == stable_sort(
            page_records(page_at(input, p)),
        ),
        sorted_by_key(page_records(page_at(sorted_pages(input, scratch, num_pages), p))),
        page_records(page_at(sorted_pages(input, scratch, num_pages), p)).to_multiset()
            == page_records(page_at(input, p)).to_multiset(),
{
    let given = page_records(page_at(input, p));
    assert(page_valid(page_at(input, p)));
    lemma_page_records_fit(page_at(input, p));
    lemma_stable_sort_fits(given, 1);
    lemma_stable_sort(given);
    lemma_page_round_trip(stable_sort(given));
}

/// Every run that the sort makes ascends by key.
pub proof fn lemma_sorted_records_ascend(input: Seq<Seq<u8>>, start: int, level: nat)
    requires
        pages_valid(input, start, run_pages(level) as int),
    ensures
        sorted_by_key(sorted_records(input, start, level)),
    decreases level,
{
    if level == 0 {
        lemma_stable_sort(page_records(page_at(input, start)));
    } else {
        let below = (level - 1) as nat;
        let half = run_pages(below) as int;
        lemma_run_pages(below);
        assert forall|p: int| start <= p < start + half implies page_valid(
            #[trigger] page_at(input, p),
        ) by {}
        assert forall|p: int| start + half <= p < start + half + half implies page_valid(
            #[trigger] page_at(input, p),
        ) by {}
        let lower = sorted_records(input, start, below);
        let upper = sorted_records(input, start + half, below);
        lemma_sorted_records_ascend(input, start, below);
        lemma_sorted_records_ascend(input, start + half, below);
        lemma_sorted_records_fit(input, start, below);
        lemma_sorted_records_fit(input, start + half, below);
        lemma_paginate_flatten(lower, half);
        lemma_paginate_flatten(upper, half);
        lemma_merged(paginate(lower, half), paginate(upper, half));
    }
}

/// A run that the sort makes of more than one page is the two-way merge of
/// the runs that it makes of the two halves of these pages.
pub proof fn lemma_sorted_records_merge(input: Seq<Seq<u8>>, start: int, level: nat)
    requires
        level > 0,
        pages_valid(input, start, run_pages(level) as int),
    ensures
        sorted_records(input, start, level) == merge_records(
            sorted_records(input, start, (level - 1) as nat),
            sorted_records(
                input,
                start + run_pages((level - 1) as nat),
                (level - 1) as nat,
            ),
        ),
{
    let below = (level - 1) as nat;
    let half = run_pages(below) as int;
    lemma_run_pages(below);
    assert forall|p: int| start <= p < start + half implies page_valid(
        #[trigger] page_at(input, p),
    ) by {}
    assert forall|p: int| start + half <= p < start + half + half implies page_valid(
        #[trigger] page_at(input, p),
    ) by {}
    let lower = sorted_records(input, start, below);
    let upper = sorted_records(input, start + half, below);
    lemma_sorted_records_fit(input, start, below);
    lemma_sorted_records_fit(input, start + half, below);
    lemma_paginate_flatten(lower, half);
    lemma_paginate_flatten(upper, half);
    lemma_merged(paginate(lower, half), paginate(upper, half));
}

/// A run that the sort makes holds every record of its pages of the input as
/// often as these pages hold it.
pub proof fn lemma_sorted_records_total(input: Seq<Seq<u8>>, start: int, level: nat)
    requires
        pages_valid(input, start, run_pages(level) as int),
    ensures
        sorted_records(input, start, level).len() == run_records(
            input,
            start,
            run_pages(level) as int,
        ).len(),
        sorted_records(input, start, level).to_multiset() == run_records(
            input,
            start,
            run_pages(level) as int,
        ).to_multiset(),
    decreases level,
{
    if level == 0 {
        let page = page_records(page_at(input, start));
        lemma_stable_sort(page);
        assert(run_of(input, start, 1) =~= seq![page]);
        seq![page].lemma_flatten_one_element();
    } else {
        let below = (level - 1) as nat;
        let half = run_pages(below) as int;
        lemma_run_pages(below);
        assert forall|p: int| start <= p < start + half implies page_valid(
            #[trigger] page_at(input, p),
        ) by {}
        assert forall|p: int| start + half <= p < start + half + half implies page_valid(
            #[trigger] page_at(input, p),
        ) by {}
        let lower = sorted_records(input, start, below);
        let upper = sorted_records(input, start + half, below);
        let lower_all = run_records(input, start, half);
        let upper_all = run_records(input, start + half, half);
        lemma_sorted_records_total(input, start, below);
        lemma_sorted_records_total(input, start + half, below);
        lemma_sorted_records_merge(input, start, level);
        lemma_merge_records(lower, upper);
        lemma_run_records_split(input, start, half, half);
        vstd::seq_lib::lemma_multiset_commutative(lower_all, upper_all);
    }
}

/// The file that the sort leaves ascends by key from its first record to its
/// last: by the order of its pages and, within a page, of the page.
pub proof fn lemma_sort_order(input: Seq<Seq<u8>>, num_pages: nat)
    requires
        pages_valid(input, 0, num_pages as int),
    ensures
        sorted_by_key(file_records(sorted_file(input, num_pages))),
{
    lemma_sorted_file_records(input, num_pages);
    if num_pages > 0 {
        lemma_top_run(num_pages);
        assert(pages_valid(input, 0, run_pages(passes(num_pages)) as int));
        lemma_sorted_records_ascend(input, 0, passes(num_pages));
    }
}

/// The file that the sort leaves holds every record of the pages that were
/// sorted as often as these pages hold it. These are all `num_pages` pages
/// where `num_pages` is a power of two, and else the leading pages up to the
/// largest power of two within `num_pages`.
pub proof fn lemma_sort_totality(input: Seq<Seq<u8>>, num_pages: nat)
    requires
        pages_valid(input, 0, num_pages as int),
        num_pages >= 1,
    ensures
        run_pages(passes(num_pages)) <= num_pages,
        file_records(sorted_file(input, num_pages)).to_multiset() == run_records(
            input,
            0,
            run_pages(passes(num_pages)) as int,
        ).to_multiset(),
        file_records(sorted_file(input, num_pages)).len() == run_records(
            input,
            0,
            run_pages(passes(num_pages)) as int,
        ).len(),
{
    lemma_top_run(num_pages);
    assert(pages_valid(input, 0, run_pages(passes(num_pages)) as int));
    lemma_sorted_file_records(input, num_pages);
    lemma_sorted_records_total(input, 0, passes(num_pages));
}

} // verus!
