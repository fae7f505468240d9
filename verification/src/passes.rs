//! Passes: the runs and the files that the passes of a sort leave behind.

use crate::codec::{RECORDS_PER_PAGE, RecordView, lemma_page_round_trip, page_bytes, page_records};
use crate::page::{lemma_stable_sort, stable_sort};
use crate::pager::page_at;
use crate::runs::{
    chunk, clear_from, file_records, fits, lemma_merge_from_fits, lemma_page_records_fit,
    lemma_paginate_fits, lemma_paginate_flatten, lemma_with_records, lemma_zero_page, merged,
    page_valid, pages_valid, paginate, run_of, with_records,
};
use vstd::prelude::*;

verus! {

/// The scratch file `scratch` after the first pass over the leading
/// `num_pages` pages of `input`: each of these pages, sorted in itself, stands
/// at its own place in the scratch file.
pub open spec fn sorted_pages(input: Seq<Seq<u8>>, scratch: Seq<Seq<u8>>, num_pages: int) -> Seq<
    Seq<u8>,
> {
    Seq::new(
        if num_pages < scratch.len() {
            scratch.len()
        } else {
            num_pages as nat
        },
        |p: int|
            if p < num_pages {
                page_bytes(stable_sort(page_records(page_at(input, p))))
            } else {
                page_at(scratch, p)
            },
    )
}

/// The number of pages of a run after `level` merge passes.
pub open spec fn run_pages(level: nat) -> nat
    decreases level,
{
    if level == 0 {
        1
    } else {
        2 * run_pages((level - 1) as nat)
    }
}

/// The number of merge passes over a file of `num_pages` pages: the run length
/// doubles as long as two runs of it fit the file.
pub open spec fn passes(num_pages: nat) -> nat
    decreases num_pages,
{
    if num_pages < 2 {
        0
    } else {
        1 + passes(num_pages / 2)
    }
}

/// The records of the run that `level` merge passes make of the
/// `run_pages(level)` pages of `input` from page `start` on.
pub open spec fn sorted_records(input: Seq<Seq<u8>>, start: int, level: nat) -> Seq<RecordView>
    decreases level,
{
    if level == 0 {
        stable_sort(page_records(page_at(input, start)))
    } else {
        let below = (level - 1) as nat;
        let half = run_pages(below) as int;
        merged(
            paginate(sorted_records(input, start, below), half),
            paginate(sorted_records(input, start + half, below), half),
        )
    }
}

/// The destination file of merge pass `level`, once the first `count` runs
/// have been written to it.
pub open spec fn runs_file(input: Seq<Seq<u8>>, level: nat, count: nat) -> Seq<Seq<u8>>
    decreases count,
{
    if count == 0 {
        Seq::empty()
    } else {
        let start = (count - 1) * run_pages(level);
        with_records(
            runs_file(input, level, (count - 1) as nat),
            start,
            sorted_records(input, start, level),
        )
    }
}

/// The file that the sort leaves of the leading `num_pages` pages of `input`.
/// With fewer than two pages there is no merge pass and the file is that of the
/// first pass. Else the last pass merges two runs into one, which stands at the
/// start of the file.
pub open spec fn sorted_file(input: Seq<Seq<u8>>, num_pages: nat) -> Seq<Seq<u8>> {
    if passes(num_pages) == 0 {
        sorted_pages(input, Seq::empty(), num_pages as int)
    } else {
        with_records(Seq::empty(), 0, sorted_records(input, 0, passes(num_pages)))
    }
}

/// Run `g` of the runs of `run_pages(level)` pages that `file` is made of.
pub open spec fn nth_run(file: Seq<Seq<u8>>, level: nat, g: int) -> Seq<Seq<RecordView>> {
    run_of(file, g * run_pages(level), run_pages(level) as int)
}

/// The leading `count` runs of `file` are the runs that `level` merge passes
/// make of `input`, all of its pages are valid, and it is clear behind these
/// runs.
pub open spec fn holds_runs(
    file: Seq<Seq<u8>>,
    input: Seq<Seq<u8>>,
    level: nat,
    count: int,
) -> bool {
    &&& forall|g: int|
        0 <= g < count ==> #[trigger] nth_run(file, level, g) == paginate(
            sorted_records(input, g * run_pages(level), level),
            run_pages(level) as int,
        )
    &&& pages_valid(file, 0, count * run_pages(level))
    &&& clear_from(file, count * run_pages(level))
}

/// A run has at least one page.
pub proof fn lemma_run_pages(level: nat)
    ensures
        run_pages(level) >= 1,
        run_pages(level + 1) == 2 * run_pages(level),
    decreases level,
{
    if level > 0 {
        lemma_run_pages((level - 1) as nat);
    }
}

/// The largest run that the sort makes of `num_pages` pages lies within them.
pub proof fn lemma_top_run(num_pages: nat)
    requires
        num_pages >= 1,
    ensures
        1 <= run_pages(passes(num_pages)) <= num_pages,
        num_pages < 2 * run_pages(passes(num_pages)),
    decreases num_pages,
{
    if num_pages >= 2 {
        lemma_top_run(num_pages / 2);
        lemma_run_pages(passes(num_pages / 2));
    }
}

/// Where a file of `n` pages is cut into runs of `r` pages, run `2 * i` and
/// run `2 * i + 1` make up group `i` of the groups of `2 * r` pages.
pub proof fn lemma_group_bounds(n: int, r: int, i: int)
    requires
        0 <= n,
        1 <= r,
        0 <= i < n / (2 * r),
    ensures
        n / (2 * r) == (n / r) / 2,
        2 * i + 1 < n / r,
        i * (2 * r) == (2 * i) * r,
        i * (2 * r) + r == (2 * i + 1) * r,
        0 <= i * (2 * r),
        i * (2 * r) + 2 * r <= (n / r) * r,
        (n / r) * r <= n,
{
    vstd::arithmetic::div_mod::lemma_div_denominator(n, r, 2);
    assert(r * 2 == 2 * r);
    vstd::arithmetic::div_mod::lemma_fundamental_div_mod(n, r);
    assert((n / r) * r == r * (n / r)) by (nonlinear_arith);
    assert(i * (2 * r) == (2 * i) * r) by (nonlinear_arith);
    assert(i * (2 * r) + r == (2 * i + 1) * r) by (nonlinear_arith);
    assert(0 <= i * (2 * r)) by (nonlinear_arith)
        requires
            0 <= i,
            1 <= r,
    ;
    assert(i * (2 * r) + 2 * r <= (n / r) * r) by (nonlinear_arith)
        requires
            2 * i + 2 <= n / r,
            1 <= r,
    ;
}

/// Sorting keeps the values as long as they are.
pub proof fn lemma_stable_sort_fits(s: Seq<RecordView>, size: int)
    requires
        fits(s, size),
    ensures
        fits(stable_sort(s), size),
{
    lemma_stable_sort(s);
    let t = stable_sort(s);
    assert forall|i: int| 0 <= i < t.len() implies (#[trigger] t[i]).1.len() == 4 by {
        t.to_multiset_ensures();
        s.to_multiset_ensures();
        assert(t.contains(t[i]));
        assert(t.to_multiset().count(t[i]) > 0);
        assert(s.to_multiset().count(t[i]) > 0);
        assert(s.contains(t[i]));
        let j = choose|j: int| 0 <= j < s.len() && s[j] == t[i];
        assert(s[j].1.len() == 4);
    }
}

/// The records of a sorted run fit the pages of the run.
pub proof fn lemma_sorted_records_fit(input: Seq<Seq<u8>>, start: int, level: nat)
    requires
        pages_valid(input, start, run_pages(level) as int),
    ensures
        fits(sorted_records(input, start, level), run_pages(level) as int),
    decreases level,
{
    if level == 0 {
        assert(page_valid(page_at(input, start)));
        lemma_page_records_fit(page_at(input, start));
        lemma_stable_sort_fits(page_records(page_at(input, start)), 1);
    } else {
        let below = (level - 1) as nat;
        let half = run_pages(below) as int;
        lemma_run_pages(below);
        assert forall|p: int| start <= p < start + half implies page_valid(
            #[trigger] page_at(input, p),
        ) by {}
        assert forall|p: int| start + half <= p < start + half + half implies page_valid(
            #[trigger] page_at(input, p),
        ) by {}
        lemma_sorted_records_fit(input, start, below);
        lemma_sorted_records_fit(input, start + half, below);
        let left = paginate(sorted_records(input, start, below), half);
        let right = paginate(sorted_records(input, start + half, below), half);
        lemma_paginate_fits(sorted_records(input, start, below), half);
        lemma_paginate_fits(sorted_records(input, start + half, below), half);
        lemma_merge_from_fits(left, right, 0, 0, 0, 0);
    }
}

/// The scratch file of the first pass holds the runs of level 0.
pub proof fn lemma_sorted_pages(input: Seq<Seq<u8>>, num_pages: nat)
    requires
        pages_valid(input, 0, num_pages as int),
    ensures
        holds_runs(
            sorted_pages(input, Seq::empty(), num_pages as int),
            input,
            0,
            num_pages as int,
        ),
{
    let file = sorted_pages(input, Seq::empty(), num_pages as int);
    lemma_zero_page();
    assert forall|p: int| 0 <= p < num_pages implies page_valid(#[trigger] page_at(file, p))
        && page_records(page_at(file, p)) == sorted_records(input, p, 0) by {
        assert(page_valid(page_at(input, p)));
        lemma_page_records_fit(page_at(input, p));
        lemma_stable_sort_fits(page_records(page_at(input, p)), 1);
        lemma_page_round_trip(sorted_records(input, p, 0));
    }
    assert forall|g: int| 0 <= g < num_pages implies #[trigger] nth_run(file, 0, g) == paginate(
        sorted_records(input, g * run_pages(0), 0),
        run_pages(0) as int,
    ) by {
        assert(run_pages(0) == 1);
        assert(g * run_pages(0) == g) by (nonlinear_arith)
            requires
                run_pages(0) == 1,
        ;
        assert(page_valid(page_at(file, g)));
        assert(page_records(page_at(file, g)) == sorted_records(input, g, 0));
        assert(sorted_records(input, g, 0).len() <= RECORDS_PER_PAGE);
        assert(chunk(sorted_records(input, g, 0), 0) =~= sorted_records(input, g, 0));
        assert(nth_run(file, 0, g) =~= seq![sorted_records(input, g, 0)]);
        assert(paginate(sorted_records(input, g, 0), 1) =~= seq![sorted_records(input, g, 0)]);
    }
}

/// The destination file of a merge pass holds the runs of its level.
pub proof fn lemma_runs_file(input: Seq<Seq<u8>>, level: nat, count: nat)
    requires
        pages_valid(input, 0, (count * run_pages(level)) as int),
    ensures
        holds_runs(runs_file(input, level, count), input, level, count as int),
    decreases count,
{
    let size = run_pages(level) as int;
    lemma_run_pages(level);
    if count == 0 {
        assert(count * run_pages(level) == 0) by (nonlinear_arith)
            requires
                count == 0,
        ;
    } else {
        let less = (count - 1) as nat;
        let start = less * size;
        assert(less * run_pages(level) <= count * run_pages(level)) by (nonlinear_arith)
            requires
                less <= count,
        ;
        assert(start + size == count * size) by (nonlinear_arith)
            requires
                start == (count - 1) * size,
        ;
        assert(0 <= start) by (nonlinear_arith)
            requires
                start == less * size,
                size >= 1,
        ;
        let before = runs_file(input, level, less);
        let records = sorted_records(input, start, level);
        let after = runs_file(input, level, count);
        assert(pages_valid(input, 0, (less * run_pages(level)) as int));
        lemma_runs_file(input, level, less);
        assert(pages_valid(input, start, size));
        lemma_sorted_records_fit(input, start, level);
        lemma_with_records(before, start, records, size);
        assert forall|g: int| 0 <= g < count implies #[trigger] nth_run(after, level, g)
            == paginate(sorted_records(input, g * run_pages(level), level), size) by {
            if g < less {
                assert(nth_run(before, level, g) == paginate(
                    sorted_records(input, g * run_pages(level), level),
                    size,
                ));
                assert(g * size + size <= start) by (nonlinear_arith)
                    requires
                        start == less * size,
                        g < less,
                        size >= 1,
                ;
                assert(0 <= g * size) by (nonlinear_arith)
                    requires
                        0 <= g,
                        size >= 1,
                ;
                assert(nth_run(after, level, g) =~= nth_run(before, level, g));
            }
        }
        assert forall|p: int| 0 <= p < count * size implies page_valid(
            #[trigger] page_at(after, p),
        ) by {
            if p < start {
                assert(page_at(after, p) == page_at(before, p));
                assert(page_valid(page_at(before, p)));
            }
        }
    }
}

/// The records of the file that the sort leaves are those of the one run that
/// the last pass made.
pub proof fn lemma_sorted_file_records(input: Seq<Seq<u8>>, num_pages: nat)
    requires
        pages_valid(input, 0, num_pages as int),
    ensures
        file_records(sorted_file(input, num_pages)) == if num_pages == 0 {
            Seq::<RecordView>::empty()
        } else {
            sorted_records(input, 0, passes(num_pages))
        },
{
    let file = sorted_file(input, num_pages);
    let level = passes(num_pages);
    if num_pages == 0 {
        assert(run_of(file, 0, 0) =~= Seq::<Seq<RecordView>>::empty());
    } else {
        lemma_top_run(num_pages);
        let records = sorted_records(input, 0, level);
        assert(pages_valid(input, 0, run_pages(level) as int));
        lemma_sorted_records_fit(input, 0, level);
        if level == 0 {
            assert(page_valid(page_at(input, 0)));
            lemma_page_round_trip(records);
            assert(run_of(file, 0, 1) =~= seq![records]);
            seq![records].lemma_flatten_one_element();
        } else {
            let pages = file.len() as int;
            let blank = Seq::<Seq<u8>>::empty();
            lemma_zero_page();
            lemma_with_records(blank, 0, records, pages);
            lemma_paginate_flatten(records, pages);
        }
    }
}

} // verus!
