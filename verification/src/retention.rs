//! The retention decision engine: a bounded, time-spaced keep/delete policy.

use vstd::prelude::*;
use vstd::seq_lib::group_to_multiset_ensures;
use vstd::seq_lib::lemma_multiset_commutative;
use crate::record::ReleaseRecord;
use crate::record::sorted_by_time;
use crate::record::insert_by_time;
use crate::record::sort_by_time;
use crate::record::insert_record;
use crate::record::sort_records;
use crate::record::lemma_insert_by_time_len;
use crate::record::lemma_insert_by_time_sorted;
use crate::record::lemma_insert_by_time_multiset;
use crate::record::lemma_insert_by_time_contains;
use crate::record::lemma_sort_by_time_sorted;
use crate::record::lemma_sort_by_time_multiset;

verus! {

/// The most records the engine ever keeps.
pub const MAX_RELEASES: usize = 7;

/// The least spacing between two consecutive kept records: seven days of
/// absolute elapsed time, counted in seconds.
pub const MIN_INTERVAL_SECONDS: i64 = 7 * 86400;

/// The survivors of the greedy interval filter over `s`, oldest first. The
/// first record anchors the chain unconditionally; each later record survives
/// exactly when it comes at least the minimum interval after the last
/// survivor — the anchor is always the most recent surviving record, not the
/// most recent seen one. A gap exactly equal to the minimum counts as enough.
pub open spec fn interval_kept(s: Seq<ReleaseRecord>) -> Seq<ReleaseRecord>
    decreases s.len(),
{
    if s.len() == 0 {
        Seq::empty()
    } else {
        let k = interval_kept(s.drop_last());
        if k.len() == 0 || s.last().created_at - k.last().created_at >= MIN_INTERVAL_SECONDS {
            k.push(s.last())
        } else {
            k
        }
    }
}

/// The records the greedy interval filter marks for deletion, oldest first.
pub open spec fn interval_deleted(s: Seq<ReleaseRecord>) -> Seq<ReleaseRecord>
    decreases s.len(),
{
    if s.len() == 0 {
        Seq::empty()
    } else {
        let k = interval_kept(s.drop_last());
        let d = interval_deleted(s.drop_last());
        if k.len() == 0 || s.last().created_at - k.last().created_at >= MIN_INTERVAL_SECONDS {
            d
        } else {
            d.push(s.last())
        }
    }
}

/// How many of the oldest survivors the cap evicts: enough to leave room for
/// the new record, so that the count after the append never exceeds the cap.
pub open spec fn cap_evict_count(n: int) -> int {
    if n >= MAX_RELEASES as int {
        n - (MAX_RELEASES as int - 1)
    } else {
        0
    }
}

/// The survivors that remain once the cap has evicted the oldest ones.
pub open spec fn cap_kept(k: Seq<ReleaseRecord>) -> Seq<ReleaseRecord> {
    k.skip(cap_evict_count(k.len() as int))
}

/// The oldest survivors the cap evicts, oldest first.
pub open spec fn cap_deleted(k: Seq<ReleaseRecord>) -> Seq<ReleaseRecord> {
    k.take(cap_evict_count(k.len() as int))
}

/// Everything a push keeps: the interval survivors of the existing records,
/// trimmed under the cap, with the new record inserted at its time-ordered
/// position. The new record is never weighed against the interval or the cap.
pub open spec fn retained(existing: Seq<ReleaseRecord>, nr: ReleaseRecord) -> Seq<ReleaseRecord> {
    insert_by_time(cap_kept(interval_kept(existing)), nr)
}

/// Everything a push deletes: the interval casualties, then the oldest
/// survivors the cap evicted.
pub open spec fn evicted(existing: Seq<ReleaseRecord>) -> Seq<ReleaseRecord> {
    interval_deleted(existing) + cap_deleted(interval_kept(existing))
}

/// Adjacent records of `s` are spaced at least the minimum interval apart.
pub open spec fn well_spaced(s: Seq<ReleaseRecord>) -> bool {
    forall|i: int|
        0 < i < s.len() ==> (#[trigger] s[i]).created_at - s[i - 1].created_at
            >= MIN_INTERVAL_SECONDS
}

/// The survivor chain is well spaced: consecutive survivors of the interval
/// filter lie at least the minimum interval apart.
pub proof fn lemma_interval_kept_spacing(s: Seq<ReleaseRecord>)
    ensures
        well_spaced(interval_kept(s)),
    decreases s.len(),
{
    if s.len() == 0 {
    } else {
        lemma_interval_kept_spacing(s.drop_last());
    }
}

/// A creation-time bound on the input bounds the survivors too.
pub proof fn lemma_interval_kept_le(s: Seq<ReleaseRecord>, b: int)
    requires
        forall|i: int| 0 <= i < s.len() ==> (#[trigger] s[i]).created_at <= b,
    ensures
        forall|i: int|
            0 <= i < interval_kept(s).len() ==> (#[trigger] interval_kept(s)[i]).created_at <= b,
    decreases s.len(),
{
    if s.len() == 0 {
    } else {
        let dl = s.drop_last();
        assert forall|i: int| 0 <= i < dl.len() implies (#[trigger] dl[i]).created_at <= b by {
            assert(dl[i] == s[i]);
        }
        lemma_interval_kept_le(dl, b);
        let k = interval_kept(dl);
        let r = interval_kept(s);
        assert forall|i: int| 0 <= i < r.len() implies (#[trigger] r[i]).created_at <= b by {
            if k.len() == 0 || s.last().created_at - k.last().created_at >= MIN_INTERVAL_SECONDS {
                if i < k.len() {
                    assert(r[i] == k[i]);
                } else {
                    assert(r[i] == s.last());
                    assert(s[s.len() - 1].created_at <= b);
                }
            } else {
                assert(r[i] == k[i]);
            }
        }
    }
}

/// Filtering a sorted history leaves the survivors sorted.
pub proof fn lemma_interval_kept_sorted(s: Seq<ReleaseRecord>)
    requires
        sorted_by_time(s),
    ensures
        sorted_by_time(interval_kept(s)),
    decreases s.len(),
{
    if s.len() == 0 {
    } else {
        let dl = s.drop_last();
        lemma_interval_kept_sorted(dl);
        lemma_interval_kept_le(dl, s.last().created_at as int);
    }
}

/// The interval filter partitions its input: every record goes to exactly one
/// of the kept and the deleted side, none is dropped or duplicated.
pub proof fn lemma_interval_partition(s: Seq<ReleaseRecord>)
    ensures
        interval_kept(s).to_multiset().add(interval_deleted(s).to_multiset())
            == s.to_multiset(),
        interval_kept(s).len() + interval_deleted(s).len() == s.len(),
    decreases s.len(),
{
    broadcast use group_to_multiset_ensures;
    broadcast use vstd::multiset::group_multiset_axioms;

    if s.len() == 0 {
    } else {
        let dl = s.drop_last();
        lemma_interval_partition(dl);
        assert(s =~= dl.push(s.last()));
        let k = interval_kept(dl);
        let d = interval_deleted(dl);
        if k.len() == 0 || s.last().created_at - k.last().created_at >= MIN_INTERVAL_SECONDS {
            assert(k.push(s.last()).to_multiset().add(d.to_multiset()) =~= k.to_multiset().add(
                d.to_multiset(),
            ).insert(s.last()));
        } else {
            assert(k.to_multiset().add(d.push(s.last()).to_multiset()) =~= k.to_multiset().add(
                d.to_multiset(),
            ).insert(s.last()));
        }
    }
}

/// The laws of a push over a sorted history: the kept side stays sorted,
/// never outgrows the cap, always contains the pushed record, and together
/// with the deleted side partitions the existing records plus the pushed one
/// exactly — nothing dropped, nothing duplicated, nothing on both sides.
pub proof fn lemma_push_laws(existing: Seq<ReleaseRecord>, nr: ReleaseRecord)
    requires
        sorted_by_time(existing),
    ensures
        sorted_by_time(retained(existing, nr)),
        retained(existing, nr).len() <= MAX_RELEASES as int,
        retained(existing, nr).contains(nr),
        retained(existing, nr).to_multiset().add(evicted(existing).to_multiset())
            == existing.to_multiset().insert(nr),
{
    broadcast use group_to_multiset_ensures;
    broadcast use vstd::multiset::group_multiset_axioms;

    let ik = interval_kept(existing);
    let id = interval_deleted(existing);
    let ck = cap_kept(ik);
    let cd = cap_deleted(ik);
    let c = cap_evict_count(ik.len() as int);
    lemma_interval_kept_sorted(existing);
    assert forall|i: int, j: int|
        0 <= i < j < ck.len() implies (#[trigger] ck[i]).created_at
        <= (#[trigger] ck[j]).created_at by {
        assert(ck[i] == ik[i + c]);
        assert(ck[j] == ik[j + c]);
    }
    lemma_insert_by_time_sorted(ck, nr);
    lemma_insert_by_time_contains(ck, nr);
    lemma_insert_by_time_multiset(ck, nr);
    lemma_insert_by_time_len(ck, nr);
    lemma_interval_partition(existing);
    assert(ik =~= cd + ck);
    lemma_multiset_commutative(cd, ck);
    lemma_multiset_commutative(id, cd);
    assert(retained(existing, nr).to_multiset().add(evicted(existing).to_multiset())
        =~= existing.to_multiset().insert(nr));
}

/// Spacing law: when the pushed record is at least as new as every existing
/// record, it lands last among the kept records, and every adjacent pair of
/// kept records other than the pair ending at the pushed record is spaced at
/// least the minimum interval apart. The pushed record itself is exempt from
/// the spacing rule by design. (A record pushed amid strictly newer ones
/// would also start an exempt pair, so the law is stated for a push of the
/// newest record.)
pub proof fn lemma_push_spacing(existing: Seq<ReleaseRecord>, nr: ReleaseRecord)
    requires
        forall|i: int|
            0 <= i < existing.len() ==> (#[trigger] existing[i]).created_at <= nr.created_at,
    ensures
        retained(existing, nr).last() == nr,
        forall|i: int|
            0 < i < retained(existing, nr).len() - 1 ==> (#[trigger] retained(
                existing,
                nr,
            )[i]).created_at - retained(existing, nr)[i - 1].created_at >= MIN_INTERVAL_SECONDS,
{
    let ik = interval_kept(existing);
    let ck = cap_kept(ik);
    let c = cap_evict_count(ik.len() as int);
    let r = retained(existing, nr);
    lemma_interval_kept_spacing(existing);
    lemma_interval_kept_le(existing, nr.created_at as int);
    if ck.len() == 0 {
        assert(r =~= seq![nr]);
    } else {
        assert(ck.last() == ik[ck.len() - 1 + c]);
        assert(ck.last().created_at <= nr.created_at);
        assert(r == ck.push(nr));
        assert forall|i: int|
            0 < i < r.len() - 1 implies (#[trigger] r[i]).created_at - r[i - 1].created_at
            >= MIN_INTERVAL_SECONDS by {
            assert(r[i] == ck[i]);
            assert(r[i - 1] == ck[i - 1]);
            assert(ck[i] == ik[i + c]);
            assert(ck[i - 1] == ik[i - 1 + c]);
            assert(ik[i + c].created_at - ik[i + c - 1].created_at >= MIN_INTERVAL_SECONDS);
        }
    }
}

/// Boundary law: a gap of exactly the minimum interval counts as sufficient
/// spacing — the later of two records spaced exactly that far apart is kept,
/// not deleted.
pub proof fn lemma_boundary_gap(a: ReleaseRecord, b: ReleaseRecord)
    requires
        b.created_at - a.created_at == MIN_INTERVAL_SECONDS,
    ensures
        interval_kept(seq![a, b]) == seq![a, b],
        interval_deleted(seq![a, b]) == Seq::<ReleaseRecord>::empty(),
{
    let s = seq![a, b];
    assert(s.drop_last() =~= seq![a]);
    assert(seq![a].drop_last() =~= Seq::<ReleaseRecord>::empty());
    assert(interval_kept(Seq::<ReleaseRecord>::empty()) == Seq::<ReleaseRecord>::empty());
    assert(interval_deleted(Seq::<ReleaseRecord>::empty()) == Seq::<ReleaseRecord>::empty());
    assert(interval_kept(seq![a]) =~= Seq::<ReleaseRecord>::empty().push(a));
    assert(interval_kept(seq![a]).last() == a);
    assert(s.last() == b);
    assert(interval_kept(s) =~= interval_kept(seq![a]).push(b));
    assert(interval_kept(s) =~= seq![a, b]);
    assert(interval_deleted(seq![a]) =~= Seq::<ReleaseRecord>::empty());
    assert(interval_deleted(s) =~= Seq::<ReleaseRecord>::empty());
}

/// Owns the chronologically ordered history of kept release records.
pub struct ReleaseManager {
    releases: Vec<ReleaseRecord>,
}

impl View for ReleaseManager {
    type V = Seq<ReleaseRecord>;

    closed spec fn view(&self) -> Seq<ReleaseRecord> {
        self.releases@
    }
}

impl ReleaseManager {
    /// The engine's records always stand in ascending creation-time order.
    pub open spec fn wf(&self) -> bool {
        sorted_by_time(self@)
    }

    /// Builds an engine from an unordered history: the records are stored
    /// sorted ascending by creation time, none dropped or added. Duplicate
    /// tags are accepted and ordered like any other record.
    pub fn new(releases: Vec<ReleaseRecord>) -> (m: ReleaseManager)
        ensures
            m.wf(),
            m@ == sort_by_time(releases@),
            m@.to_multiset() == releases@.to_multiset(),
    {
        let mut rs = releases;
        proof {
            lemma_sort_by_time_sorted(rs@);
            lemma_sort_by_time_multiset(rs@);
        }
        sort_records(&mut rs);
        ReleaseManager { releases: rs }
    }

    /// Read-only snapshot of the kept records, oldest first.
    pub fn get_releases(&self) -> (r: &[ReleaseRecord])
        ensures
            r@ == self@,
    {
        self.releases.as_slice()
    }

    /// Incorporates the newly published record and returns the records the
    /// retention policy gives up: first the interval casualties of the
    /// existing history, then the oldest survivors the cap evicted. The new
    /// record itself is always kept, the kept count never exceeds the cap,
    /// and every record lands on exactly one side.
    pub fn push_release(&mut self, new_release: ReleaseRecord) -> (deleted: Vec<ReleaseRecord>)
        requires
            old(self).wf(),
        ensures
            final(self).wf(),
            final(self)@ == retained(old(self)@, new_release),
            deleted@ == evicted(old(self)@),
            final(self)@.len() <= MAX_RELEASES,
            final(self)@.contains(new_release),
            final(self)@.to_multiset().add(deleted@.to_multiset()) == old(
                self,
            )@.to_multiset().insert(new_release),
    {
        let ghost existing = self@;
        let mut all: Vec<ReleaseRecord> = Vec::new();
        core::mem::swap(&mut self.releases, &mut all);
        let mut kept: Vec<ReleaseRecord> = Vec::new();
        let mut deleted: Vec<ReleaseRecord> = Vec::new();
        proof {
            assert(existing.skip(0) =~= existing);
            assert(existing.take(0) =~= Seq::<ReleaseRecord>::empty());
        }
        let ghost mut i: int = 0;
        while all.len() > 0
            invariant
                0 <= i <= existing.len(),
                all@ == existing.skip(i),
                kept@ == interval_kept(existing.take(i)),
                deleted@ == interval_deleted(existing.take(i)),
            decreases all@.len(),
        {
            let c = all.remove(0);
            proof {
                assert(c == existing[i]);
                assert(existing.skip(i).remove(0) =~= existing.skip(i + 1));
                assert(existing.take(i + 1).drop_last() =~= existing.take(i));
                assert(existing.take(i + 1).last() == existing[i]);
            }
            if kept.len() == 0 {
                kept.push(c);
            } else {
                let anchor = kept.len() - 1;
                let gap: i128 = c.created_at as i128 - kept[anchor].created_at as i128;
                if gap < MIN_INTERVAL_SECONDS as i128 {
                    deleted.push(c);
                } else {
                    kept.push(c);
                }
            }
            proof {
                i = i + 1;
            }
        }
        proof {
            assert(existing.take(i) =~= existing);
        }
        let ghost ik = interval_kept(existing);
        let ghost id = interval_deleted(existing);
        proof {
            assert(ik.skip(0) =~= ik);
            assert(id + ik.take(0) =~= id);
        }
        let ghost mut j: int = 0;
        while kept.len() >= MAX_RELEASES
            invariant
                0 <= j <= ik.len(),
                kept@ == ik.skip(j),
                deleted@ == id + ik.take(j),
                ik.len() < MAX_RELEASES as int ==> j == 0,
                j > 0 ==> ik.len() - j >= MAX_RELEASES as int - 1,
            decreases kept@.len(),
        {
            let oldest = kept.remove(0);
            deleted.push(oldest);
            proof {
                assert(oldest == ik[j]);
                assert(ik.skip(j).remove(0) =~= ik.skip(j + 1));
                assert((id + ik.take(j)).push(ik[j]) =~= id + ik.take(j + 1));
                j = j + 1;
            }
        }
        proof {
            assert(j == cap_evict_count(ik.len() as int));
            assert(kept@ == cap_kept(ik));
            assert(deleted@ == id + cap_deleted(ik));
        }
        insert_record(&mut kept, new_release);
        self.releases = kept;
        proof {
            assert(self@ == retained(existing, new_release));
            assert(deleted@ == evicted(existing));
            lemma_push_laws(existing, new_release);
        }
        deleted
    }
}

} // verus!

