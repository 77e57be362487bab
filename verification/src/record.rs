//! The release record value and time-ordered sequences of records.

use vstd::prelude::*;
use vstd::seq_lib::group_to_multiset_ensures;

verus! {

/// One published artifact: its tag, its creation time as whole seconds since
/// the Unix epoch (UTC), and the numeric handle the hosting platform assigned
/// to it when it was created. The creation time is the sole ordering key; the
/// handle is only used to address the remote entry for deletion.
#[derive(Debug, Clone, PartialEq)]
pub struct ReleaseRecord {
    pub tag_name: String,
    pub created_at: i64,
    pub release_id: u64,
}

/// The records of `s` stand in ascending creation-time order.
pub open spec fn sorted_by_time(s: Seq<ReleaseRecord>) -> bool {
    forall|i: int, j: int|
        0 <= i < j < s.len() ==> #[trigger] s[i].created_at <= #[trigger] s[j].created_at
}

/// Where a stable ascending sort places `x` in `s`: after every record whose
/// creation time is no later than `x`'s, and before all the rest.
pub open spec fn insert_by_time(s: Seq<ReleaseRecord>, x: ReleaseRecord) -> Seq<ReleaseRecord>
    decreases s.len(),
{
    if s.len() == 0 {
        seq![x]
    } else if s.last().created_at <= x.created_at {
        s.push(x)
    } else {
        insert_by_time(s.drop_last(), x).push(s.last())
    }
}

/// A stable sort of `s`, ascending by creation time: records that share a
/// creation time keep their input order.
pub open spec fn sort_by_time(s: Seq<ReleaseRecord>) -> Seq<ReleaseRecord>
    decreases s.len(),
{
    if s.len() == 0 {
        Seq::empty()
    } else {
        insert_by_time(sort_by_time(s.drop_last()), s.last())
    }
}

/// When everything of `s` from position `idx` on is strictly newer than `x`
/// and everything before is not, stable insertion splits `s` exactly at `idx`.
pub proof fn lemma_insert_by_time_at(s: Seq<ReleaseRecord>, x: ReleaseRecord, idx: int)
    requires
        0 <= idx <= s.len(),
        forall|k: int| idx <= k < s.len() ==> (#[trigger] s[k]).created_at > x.created_at,
        idx > 0 ==> s[idx - 1].created_at <= x.created_at,
    ensures
        insert_by_time(s, x) == s.subrange(0, idx) + seq![x] + s.subrange(idx, s.len() as int),
    decreases s.len() - idx,
{
    if idx == s.len() {
        if s.len() == 0 {
            assert(insert_by_time(s, x) =~= s.subrange(0, idx) + seq![x] + s.subrange(idx, idx));
        } else {
            assert(s[idx - 1] == s.last());
            assert(insert_by_time(s, x) =~= s.subrange(0, idx) + seq![x] + s.subrange(idx, idx));
        }
    } else {
        assert(s[s.len() - 1].created_at > x.created_at);
        let dl = s.drop_last();
        assert(forall|k: int| idx <= k < dl.len() ==> (#[trigger] dl[k]).created_at > x.created_at);
        lemma_insert_by_time_at(dl, x, idx);
        assert(insert_by_time(s, x) =~= s.subrange(0, idx) + seq![x] + s.subrange(
            idx,
            s.len() as int,
        ));
    }
}

/// Every record of a stable insertion is a record of the input or `x` itself,
/// so a creation-time bound on both carries over to the result.
pub proof fn lemma_insert_by_time_le(s: Seq<ReleaseRecord>, x: ReleaseRecord, b: int)
    requires
        forall|i: int| 0 <= i < s.len() ==> (#[trigger] s[i]).created_at <= b,
        x.created_at <= b,
    ensures
        forall|i: int|
            0 <= i < insert_by_time(s, x).len() ==> (#[trigger] insert_by_time(s, x)[i]).created_at
                <= b,
    decreases s.len(),
{
    let r = insert_by_time(s, x);
    if s.len() == 0 {
        assert(r[0] == x);
    } else if s.last().created_at <= x.created_at {
        assert forall|i: int| 0 <= i < r.len() implies (#[trigger] r[i]).created_at <= b by {
            if i < s.len() {
                assert(r[i] == s[i]);
            } else {
                assert(r[i] == x);
            }
        }
    } else {
        let dl = s.drop_last();
        assert forall|i: int| 0 <= i < dl.len() implies (#[trigger] dl[i]).created_at <= b by {
            assert(dl[i] == s[i]);
        }
        lemma_insert_by_time_le(dl, x, b);
        let q = insert_by_time(dl, x);
        assert forall|i: int| 0 <= i < r.len() implies (#[trigger] r[i]).created_at <= b by {
            if i < q.len() {
                assert(r[i] == q[i]);
            } else {
                assert(r[i] == s.last());
                assert(s[s.len() - 1].created_at <= b);
            }
        }
    }
}

/// Stable insertion adds exactly one record.
pub proof fn lemma_insert_by_time_len(s: Seq<ReleaseRecord>, x: ReleaseRecord)
    ensures
        insert_by_time(s, x).len() == s.len() + 1,
    decreases s.len(),
{
    if s.len() == 0 {
    } else if s.last().created_at <= x.created_at {
    } else {
        lemma_insert_by_time_len(s.drop_last(), x);
    }
}

/// Stable insertion keeps the sequence sorted.
pub proof fn lemma_insert_by_time_sorted(s: Seq<ReleaseRecord>, x: ReleaseRecord)
    requires
        sorted_by_time(s),
    ensures
        sorted_by_time(insert_by_time(s, x)),
    decreases s.len(),
{
    if s.len() == 0 {
    } else if s.last().created_at <= x.created_at {
        assert(forall|i: int|
            0 <= i < s.len() ==> (#[trigger] s[i]).created_at <= s.last().created_at);
    } else {
        let dl = s.drop_last();
        lemma_insert_by_time_sorted(dl, x);
        assert forall|i: int|
            0 <= i < dl.len() implies (#[trigger] dl[i]).created_at
            <= s.last().created_at as int by {
            assert(dl[i] == s[i]);
            assert(s[i].created_at <= s[s.len() - 1].created_at);
        }
        lemma_insert_by_time_le(dl, x, s.last().created_at as int);
        let q = insert_by_time(dl, x);
        let r = insert_by_time(s, x);
        assert forall|i: int, j: int|
            0 <= i < j < r.len() implies (#[trigger] r[i]).created_at
            <= (#[trigger] r[j]).created_at by {
            if j < q.len() {
                assert(r[i] == q[i] && r[j] == q[j]);
            } else {
                assert(r[i] == q[i] && r[j] == s.last());
            }
        }
    }
}

/// Stable insertion adds exactly `x` to the records.
pub proof fn lemma_insert_by_time_multiset(s: Seq<ReleaseRecord>, x: ReleaseRecord)
    ensures
        insert_by_time(s, x).to_multiset() == s.to_multiset().insert(x),
    decreases s.len(),
{
    broadcast use group_to_multiset_ensures;

    if s.len() == 0 {
        assert(seq![x] =~= Seq::<ReleaseRecord>::empty().push(x));
    } else if s.last().created_at <= x.created_at {
    } else {
        let dl = s.drop_last();
        lemma_insert_by_time_multiset(dl, x);
        assert(s =~= dl.push(s.last()));
        assert(dl.to_multiset().insert(x).insert(s.last()) =~= dl.to_multiset().insert(
            s.last(),
        ).insert(x));
    }
}

/// The inserted record is a member of the result.
pub proof fn lemma_insert_by_time_contains(s: Seq<ReleaseRecord>, x: ReleaseRecord)
    ensures
        insert_by_time(s, x).contains(x),
    decreases s.len(),
{
    if s.len() == 0 {
        assert(insert_by_time(s, x)[0] == x);
    } else if s.last().created_at <= x.created_at {
        assert(insert_by_time(s, x)[s.len() as int] == x);
    } else {
        let dl = s.drop_last();
        lemma_insert_by_time_contains(dl, x);
        let r = insert_by_time(dl, x);
        let i = choose|i: int| 0 <= i < r.len() && r[i] == x;
        assert(insert_by_time(s, x)[i] == x);
    }
}

/// The stable sort produces an ascending sequence.
pub proof fn lemma_sort_by_time_sorted(s: Seq<ReleaseRecord>)
    ensures
        sorted_by_time(sort_by_time(s)),
    decreases s.len(),
{
    if s.len() == 0 {
    } else {
        lemma_sort_by_time_sorted(s.drop_last());
        lemma_insert_by_time_sorted(sort_by_time(s.drop_last()), s.last());
    }
}

/// The stable sort neither drops nor duplicates a record.
pub proof fn lemma_sort_by_time_multiset(s: Seq<ReleaseRecord>)
    ensures
        sort_by_time(s).to_multiset() == s.to_multiset(),
    decreases s.len(),
{
    broadcast use group_to_multiset_ensures;

    if s.len() == 0 {
    } else {
        let dl = s.drop_last();
        lemma_sort_by_time_multiset(dl);
        lemma_insert_by_time_multiset(sort_by_time(dl), s.last());
        assert(s =~= dl.push(s.last()));
    }
}

/// Inserts `x` into the time-ordered vector `v` at its stable position.
pub fn insert_record(v: &mut Vec<ReleaseRecord>, x: ReleaseRecord)
    ensures
        final(v)@ == insert_by_time(old(v)@, x),
{
    let ghost v0 = v@;
    let mut idx: usize = v.len();
    while idx > 0 && v[idx - 1].created_at > x.created_at
        invariant
            idx <= v.len(),
            v@ == v0,
            forall|k: int| idx <= k < v@.len() ==> (#[trigger] v@[k]).created_at > x.created_at,
        decreases idx,
    {
        idx = idx - 1;
    }
    proof {
        lemma_insert_by_time_at(v@, x, idx as int);
    }
    v.insert(idx, x);
    proof {
        assert(v@ =~= v0.subrange(0, idx as int) + seq![x] + v0.subrange(
            idx as int,
            v0.len() as int,
        ));
    }
}

/// Sorts `v` ascending by creation time with a stable insertion sort.
pub fn sort_records(v: &mut Vec<ReleaseRecord>)
    ensures
        final(v)@ == sort_by_time(old(v)@),
{
    let ghost orig = v@;
    let mut out: Vec<ReleaseRecord> = Vec::new();
    let ghost mut i: int = 0;
    while v.len() > 0
        invariant
            0 <= i <= orig.len(),
            v@ == orig.skip(i),
            out@ == sort_by_time(orig.take(i)),
        decreases v@.len(),
    {
        let x = v.remove(0);
        proof {
            assert(x == orig[i]);
            assert(orig.skip(i).remove(0) =~= orig.skip(i + 1));
            assert(orig.take(i + 1).drop_last() =~= orig.take(i));
            assert(orig.take(i + 1).last() == orig[i]);
        }
        insert_record(&mut out, x);
        proof {
            i = i + 1;
        }
    }
    proof {
        assert(orig.take(i) =~= orig);
    }
    core::mem::swap(v, &mut out);
}

} // verus!
