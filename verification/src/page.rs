//! Page buffer: the decoded records of one page, held in memory.

use crate::codec::{Record, RecordView, record_view, records_view};
use vstd::prelude::*;

verus! {

/// The keys of `s` ascend (equal neighbours allowed).
pub open spec fn sorted_by_key(s: Seq<RecordView>) -> bool {
    forall|i: int, j: int| 0 <= i <= j < s.len() ==> s[i].0 <= s[j].0
}

/// The records of `s` that carry `key`, in the order in which `s` holds them.
pub open spec fn with_key(s: Seq<RecordView>, key: i32) -> Seq<RecordView> {
    s.filter(|r: RecordView| r.0 == key)
}

/// The number of leading records of `s` whose key is below `key`.
pub open spec fn lower_bound(s: Seq<RecordView>, key: i32) -> int
    decreases s.len(),
{
    if s.len() == 0 || s[0].0 >= key {
        0
    } else {
        1 + lower_bound(s.drop_first(), key)
    }
}

/// `s` with `r` entered behind the leading records of smaller key, hence in
/// front of every record of `s` that carries the key of `r`.
pub open spec fn insert_first(s: Seq<RecordView>, r: RecordView) -> Seq<RecordView> {
    s.insert(lower_bound(s, r.0), r)
}

/// The records of `s` in ascending order of their keys, records of one key in
/// the order in which `s` holds them.
pub open spec fn stable_sort(s: Seq<RecordView>) -> Seq<RecordView>
    decreases s.len(),
{
    if s.len() == 0 {
        s
    } else {
        insert_first(stable_sort(s.drop_first()), s[0])
    }
}

/// `lower_bound` is the one position that splits `s` into keys below `key`
/// and a record whose key is not below it.
pub proof fn lemma_lower_bound(s: Seq<RecordView>, key: i32)
    ensures
        0 <= lower_bound(s, key) <= s.len(),
        forall|k: int| 0 <= k < lower_bound(s, key) ==> (#[trigger] s[k]).0 < key,
        lower_bound(s, key) < s.len() ==> s[lower_bound(s, key)].0 >= key,
    decreases s.len(),
{
    if s.len() == 0 || s[0].0 >= key {
    } else {
        let rest = s.drop_first();
        lemma_lower_bound(rest, key);
        assert forall|k: int| 0 <= k < lower_bound(s, key) implies (#[trigger] s[k]).0 < key by {
            if k > 0 {
                assert(s[k] == rest[k - 1]);
            }
        }
    }
}

/// A position that splits `s` as `lower_bound` does is `lower_bound`.
pub proof fn lemma_lower_bound_unique(s: Seq<RecordView>, key: i32, p: int)
    requires
        0 <= p <= s.len(),
        forall|k: int| 0 <= k < p ==> (#[trigger] s[k]).0 < key,
        p < s.len() ==> s[p].0 >= key,
    ensures
        lower_bound(s, key) == p,
    decreases s.len(),
{
    if s.len() == 0 || s[0].0 >= key {
        if p > 0 {
            assert(s[0].0 < key);
        }
    } else {
        let rest = s.drop_first();
        assert(p > 0);
        assert forall|k: int| 0 <= k < p - 1 implies (#[trigger] rest[k]).0 < key by {
            assert(rest[k] == s[k + 1]);
        }
        lemma_lower_bound_unique(rest, key, p - 1);
    }
}

/// Entering a record into an ascending sequence keeps it ascending, keeps the
/// records that were there, and puts the new record in front of its equals.
pub proof fn lemma_insert_first(s: Seq<RecordView>, r: RecordView)
    ensures
        insert_first(s, r).len() == s.len() + 1,
        insert_first(s, r).to_multiset() == s.to_multiset().insert(r),
        sorted_by_key(s) ==> sorted_by_key(insert_first(s, r)),
        forall|key: i32|
            #[trigger] with_key(insert_first(s, r), key) == if key == r.0 {
                seq![r] + with_key(s, key)
            } else {
                with_key(s, key)
            },
{
    let p = lower_bound(s, r.0);
    let t = insert_first(s, r);
    lemma_lower_bound(s, r.0);
    s.insert_ensures(p, r);
    vstd::seq_lib::to_multiset_insert(s, p, r);
    if sorted_by_key(s) {
        assert forall|i: int, j: int| 0 <= i <= j < t.len() implies t[i].0 <= t[j].0 by {
            if i < p && j > p {
                assert(t[j] == s[j - 1]);
            } else if i == p && j > p {
                assert(t[j] == s[j - 1]);
                assert(s[p].0 <= s[j - 1].0);
            } else if i > p {
                assert(t[i] == s[i - 1]);
                assert(t[j] == s[j - 1]);
            }
        }
    }
    assert forall|key: i32|
        #[trigger] with_key(t, key) == if key == r.0 {
            seq![r] + with_key(s, key)
        } else {
            with_key(s, key)
        } by {
        let pred = |x: RecordView| x.0 == key;
        let front = s.subrange(0, p);
        let back = s.subrange(p, s.len() as int);
        assert(s =~= front + back);
        assert(t =~= (front + seq![r]) + back);
        Seq::filter_distributes_over_add(front, back, pred);
        Seq::filter_distributes_over_add(front + seq![r], back, pred);
        Seq::filter_distributes_over_add(front, seq![r], pred);
        reveal(Seq::filter);
        assert(seq![r].drop_last() =~= Seq::<RecordView>::empty());
        assert(Seq::<RecordView>::empty().filter(pred) =~= Seq::<RecordView>::empty());
        if key == r.0 {
            assert(seq![r].filter(pred) =~= seq![r]);
            lemma_filter_none(front, key);
            assert(with_key(t, key) =~= seq![r] + with_key(s, key));
        } else {
            assert(seq![r].filter(pred) =~= Seq::<RecordView>::empty());
            assert(with_key(t, key) =~= with_key(s, key));
        }
    }
}

/// Where no key of `s` is `key`, no record of `s` carries `key`.
pub proof fn lemma_filter_none(s: Seq<RecordView>, key: i32)
    requires
        forall|k: int| 0 <= k < s.len() ==> (#[trigger] s[k]).0 != key,
    ensures
        with_key(s, key) == Seq::<RecordView>::empty(),
    decreases s.len(),
{
    reveal(Seq::filter);
    if s.len() > 0 {
        lemma_filter_none(s.drop_last(), key);
    }
}

/// `s` is the first record of `s` followed by the rest, as a multiset and
/// key by key.
pub proof fn lemma_split_first(s: Seq<RecordView>)
    requires
        s.len() > 0,
    ensures
        s.to_multiset() == s.drop_first().to_multiset().insert(s[0]),
        forall|key: i32|
            #[trigger] with_key(s, key) == if key == s[0].0 {
                seq![s[0]] + with_key(s.drop_first(), key)
            } else {
                with_key(s.drop_first(), key)
            },
{
    let rest = s.drop_first();
    assert(s =~= rest.insert(0, s[0]));
    vstd::seq_lib::to_multiset_insert(rest, 0, s[0]);
    assert forall|key: i32|
        #[trigger] with_key(s, key) == if key == s[0].0 {
            seq![s[0]] + with_key(rest, key)
        } else {
            with_key(rest, key)
        } by {
        let pred = |x: RecordView| x.0 == key;
        assert(s =~= seq![s[0]] + rest);
        Seq::filter_distributes_over_add(seq![s[0]], rest, pred);
        reveal(Seq::filter);
        assert(seq![s[0]].drop_last() =~= Seq::<RecordView>::empty());
        assert(Seq::<RecordView>::empty().filter(pred) =~= Seq::<RecordView>::empty());
        if key == s[0].0 {
            assert(seq![s[0]].filter(pred) =~= seq![s[0]]);
        } else {
            assert(seq![s[0]].filter(pred) =~= Seq::<RecordView>::empty());
            assert(Seq::<RecordView>::empty() + with_key(rest, key) =~= with_key(rest, key));
        }
    }
}

/// Sorting orders the keys, keeps every record as often as it occurs, and keeps
/// the records of each key in their order.
pub proof fn lemma_stable_sort(s: Seq<RecordView>)
    ensures
        stable_sort(s).len() == s.len(),
        sorted_by_key(stable_sort(s)),
        stable_sort(s).to_multiset() == s.to_multiset(),
        forall|key: i32| #[trigger] with_key(stable_sort(s), key) == with_key(s, key),
    decreases s.len(),
{
    if s.len() > 0 {
        let rest = s.drop_first();
        lemma_stable_sort(rest);
        lemma_insert_first(stable_sort(rest), s[0]);
        lemma_split_first(s);
        assert forall|key: i32| #[trigger] with_key(stable_sort(s), key) == with_key(s, key) by {
            assert(with_key(stable_sort(rest), key) == with_key(rest, key));
        }
    }
}

/// Sorting an ascending sequence changes nothing.
pub proof fn lemma_stable_sort_of_sorted(s: Seq<RecordView>)
    requires
        sorted_by_key(s),
    ensures
        stable_sort(s) == s,
    decreases s.len(),
{
    if s.len() > 0 {
        let rest = s.drop_first();
        assert forall|i: int, j: int| 0 <= i <= j < rest.len() implies rest[i].0 <= rest[j].0 by {
            assert(rest[i] == s[i + 1] && rest[j] == s[j + 1]);
        }
        lemma_stable_sort_of_sorted(rest);
        assert(rest.len() > 0 ==> rest[0] == s[1]);
        lemma_lower_bound_unique(rest, s[0].0, 0);
        assert(rest.insert(0, s[0]) =~= s);
    }
}

/// The decoded records of one page, resident in memory.
pub struct Page {
    pub id: usize,
    pub records: Vec<Record>,
    pub num_records: usize,
}

impl Page {
    /// An empty buffer.
    pub fn new() -> (page: Page)
        ensures
            page.id == 0,
            page.num_records == 0,
            page.records@ == Seq::<Record>::empty(),
    {
        Page { id: 0, records: Vec::new(), num_records: 0 }
    }

    /// Sorts the records by key, ascending. Records of equal key keep their
    /// order.
    pub fn sort(&mut self)
        ensures
            final(self).id == old(self).id,
            final(self).num_records == old(self).num_records,
            records_view(final(self).records@) == stable_sort(records_view(old(self).records@)),
            sorted_by_key(records_view(final(self).records@)),
            records_view(final(self).records@).to_multiset() == records_view(
                old(self).records@,
            ).to_multiset(),
            forall|key: i32|
                #[trigger] with_key(records_view(final(self).records@), key) == with_key(
                    records_view(old(self).records@),
                    key,
                ),
    {
        let ghost before = records_view(self.records@);
        let mut rest: Vec<Record> = Vec::new();
        core::mem::swap(&mut rest, &mut self.records);
        assert(before.subrange(before.len() as int, before.len() as int) =~= Seq::<
            RecordView,
        >::empty());
        assert(records_view(self.records@) =~= Seq::<RecordView>::empty());
        while rest.len() > 0
            invariant
                self.id == old(self).id,
                self.num_records == old(self).num_records,
                before == records_view(old(self).records@),
                rest@.len() <= before.len(),
                records_view(rest@) == before.subrange(0, rest@.len() as int),
                records_view(self.records@) == stable_sort(
                    before.subrange(rest@.len() as int, before.len() as int),
                ),
            decreases rest@.len(),
        {
            let ghost done = records_view(self.records@);
            let ghost n = rest@.len() as int;
            let ghost tail = before.subrange(n - 1, before.len() as int);
            let ghost pending = rest@;
            let record: Record = rest.pop().unwrap();
            proof {
                assert(record_view(record) == records_view(pending)[n - 1]);
                assert(record_view(record) == tail[0]);
                assert(tail.drop_first() =~= before.subrange(n, before.len() as int));
                assert(records_view(rest@) =~= before.subrange(0, n - 1));
            }
            let mut at: usize = 0;
            while at < self.records.len() && self.records[at].0 < record.0
                invariant
                    at <= self.records@.len(),
                    done == records_view(self.records@),
                    forall|k: int| 0 <= k < at ==> (#[trigger] done[k]).0 < record.0,
                decreases self.records@.len() - at,
            {
                at += 1;
            }
            proof {
                lemma_lower_bound_unique(done, record.0, at as int);
            }
            self.records.insert(at, record);
            assert(records_view(self.records@) =~= done.insert(at as int, record_view(record)));
        }
        assert(before.subrange(0, before.len() as int) =~= before);
        proof {
            lemma_stable_sort(before);
        }
    }

    /// Drops the records.
    pub fn clear(&mut self)
        ensures
            final(self).id == old(self).id,
            final(self).num_records == old(self).num_records,
            final(self).records@ == Seq::<Record>::empty(),
    {
        self.records.clear();
    }

    /// Appends `record`.
    pub fn push(&mut self, record: Record)
        ensures
            final(self).id == old(self).id,
            final(self).num_records == old(self).num_records,
            final(self).records@ == old(self).records@.push(record),
    {
        self.records.push(record);
    }

    /// The number of records held.
    pub fn len(&self) -> (n: usize)
        ensures
            n == self.records@.len(),
    {
        self.records.len()
    }
}

} // verus!
