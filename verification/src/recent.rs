//! Bounded, deduplicated, recency-ordered store of recently opened paths.
//!
//! The store holds at most [`CAPACITY`] entries, each a path with the
//! timestamp of its last opening. Entries are kept oldest first, most
//! recent last; recording a path removes any older entry with the same
//! path and, when the bound would be exceeded, evicts the oldest entry.

use vstd::prelude::*;

verus! {

/// Number of entries the store keeps at most.
pub const CAPACITY: usize = 5;

/// One recently opened path with the time it was last opened,
/// in milliseconds since the epoch.
pub struct RecentEntry {
    pub path: String,
    pub timestamp: u64,
}

impl View for RecentEntry {
    type V = (Seq<char>, u64);

    open spec fn view(&self) -> (Seq<char>, u64) {
        (self.path@, self.timestamp)
    }
}

/// The paths of a store's abstract contents are pairwise distinct.
pub open spec fn paths_unique(s: Seq<(Seq<char>, u64)>) -> bool {
    forall|i: int, j: int| 0 <= i < j < s.len() ==> s[i].0 != s[j].0
}

/// Well-formedness of the store's abstract contents: unique paths,
/// never more than [`CAPACITY`] entries.
pub open spec fn store_wf(s: Seq<(Seq<char>, u64)>) -> bool {
    paths_unique(s) && s.len() <= CAPACITY as nat
}

/// Timestamps are non-decreasing from oldest to most recent.
pub open spec fn ts_sorted(s: Seq<(Seq<char>, u64)>) -> bool {
    forall|i: int, j: int| 0 <= i <= j < s.len() ==> s[i].1 <= s[j].1
}

/// The sequence with every entry for path `p` removed, order kept.
pub open spec fn remove_path(s: Seq<(Seq<char>, u64)>, p: Seq<char>) -> Seq<(Seq<char>, u64)>
    decreases s.len(),
{
    if s.len() == 0 {
        Seq::empty()
    } else {
        let rest = remove_path(s.drop_last(), p);
        if s.last().0 == p {
            rest
        } else {
            rest.push(s.last())
        }
    }
}

/// Recording path `p` at time `t`: drop any entry for `p`, append
/// `(p, t)` at the most-recent end, evict the oldest entry if the
/// bound is now exceeded.
pub open spec fn spec_record(s: Seq<(Seq<char>, u64)>, p: Seq<char>, t: u64) -> Seq<
    (Seq<char>, u64),
> {
    let grown = remove_path(s, p).push((p, t));
    if grown.len() > CAPACITY as nat {
        grown.drop_first()
    } else {
        grown
    }
}

pub proof fn lemma_remove_path_len(s: Seq<(Seq<char>, u64)>, p: Seq<char>)
    ensures
        remove_path(s, p).len() <= s.len(),
    decreases s.len(),
{
    if s.len() > 0 {
        lemma_remove_path_len(s.drop_last(), p);
    }
}

pub proof fn lemma_remove_path_no_p(s: Seq<(Seq<char>, u64)>, p: Seq<char>)
    ensures
        forall|k: int| 0 <= k < remove_path(s, p).len() ==> remove_path(s, p)[k].0 != p,
    decreases s.len(),
{
    if s.len() > 0 {
        lemma_remove_path_no_p(s.drop_last(), p);
        let rest = remove_path(s.drop_last(), p);
        assert forall|k: int|
            0 <= k < remove_path(s, p).len() implies remove_path(s, p)[k].0 != p by {
            if s.last().0 == p || k < rest.len() {
                assert(remove_path(s, p)[k] == rest[k]);
            } else {
                assert(remove_path(s, p)[k] == s.last());
            }
        }
    }
}

/// Removing a path that does not occur leaves the sequence unchanged.
pub proof fn lemma_remove_path_id(s: Seq<(Seq<char>, u64)>, p: Seq<char>)
    requires
        forall|k: int| 0 <= k < s.len() ==> s[k].0 != p,
    ensures
        remove_path(s, p) == s,
    decreases s.len(),
{
    if s.len() > 0 {
        assert(forall|k: int| 0 <= k < s.drop_last().len() ==> s.drop_last()[k].0 != p);
        lemma_remove_path_id(s.drop_last(), p);
        assert(remove_path(s, p) =~= s);
    } else {
        assert(remove_path(s, p) =~= s);
    }
}

/// The path of every entry of the removal's result is a path of the original.
pub proof fn lemma_remove_path_path_in(s: Seq<(Seq<char>, u64)>, p: Seq<char>)
    ensures
        forall|k: int|
            0 <= k < remove_path(s, p).len() ==> exists|j: int|
                0 <= j < s.len() && s[j].0 == #[trigger] remove_path(s, p)[k].0,
    decreases s.len(),
{
    if s.len() > 0 {
        lemma_remove_path_path_in(s.drop_last(), p);
        let rest = remove_path(s.drop_last(), p);
        assert forall|k: int| 0 <= k < remove_path(s, p).len() implies exists|j: int|
            0 <= j < s.len() && s[j].0 == #[trigger] remove_path(s, p)[k].0 by {
            if k < rest.len() {
                let j = choose|j: int|
                    0 <= j < s.drop_last().len() && s.drop_last()[j].0 == rest[k].0;
                assert(s[j].0 == remove_path(s, p)[k].0);
            } else {
                assert(s[s.len() - 1].0 == remove_path(s, p)[k].0);
            }
        }
    }
}

pub proof fn lemma_remove_path_unique(s: Seq<(Seq<char>, u64)>, p: Seq<char>)
    requires
        paths_unique(s),
    ensures
        paths_unique(remove_path(s, p)),
    decreases s.len(),
{
    if s.len() > 0 {
        assert(paths_unique(s.drop_last()));
        lemma_remove_path_unique(s.drop_last(), p);
        if s.last().0 != p {
            let rest = remove_path(s.drop_last(), p);
            lemma_remove_path_path_in(s.drop_last(), p);
            assert forall|i: int, j: int|
                0 <= i < j < remove_path(s, p).len() implies remove_path(s, p)[i].0
                != remove_path(s, p)[j].0 by {
                if j == rest.len() {
                    let m = choose|m: int|
                        0 <= m < s.drop_last().len() && s.drop_last()[m].0 == rest[i].0;
                    assert(s[m].0 == rest[i].0);
                    assert(s[m].0 != s[s.len() - 1].0);
                }
            }
        }
    }
}

/// Abstraction of a sequence of entries to the pairs they hold.
pub open spec fn entries_view(es: Seq<RecentEntry>) -> Seq<(Seq<char>, u64)> {
    es.map_values(|e: RecentEntry| e@)
}

/// The store: an ordered vector of entries, oldest first, most recent last.
pub struct RecentStore {
    entries: Vec<RecentEntry>,
}

impl View for RecentStore {
    type V = Seq<(Seq<char>, u64)>;

    closed spec fn view(&self) -> Seq<(Seq<char>, u64)> {
        entries_view(self.entries@)
    }
}

/// Current wall-clock time in milliseconds since the epoch.
///
/// Relies on chrono::Utc::now; nothing is assumed of the returned value.
#[verifier::external_body]
fn now_millis() -> u64 {
    chrono::Utc::now().timestamp_millis() as u64
}

impl RecentStore {
    /// The empty store.
    pub fn new() -> (s: Self)
        ensures
            s@ == Seq::<(Seq<char>, u64)>::empty(),
            store_wf(s@),
    {
        let s = RecentStore { entries: Vec::new() };
        proof {
            assert(s@ =~= Seq::<(Seq<char>, u64)>::empty());
        }
        s
    }

    /// Wraps an already validated vector of entries.
    pub(crate) fn from_entries(entries: Vec<RecentEntry>) -> (s: Self)
        ensures
            s@ == entries_view(entries@),
    {
        RecentStore { entries }
    }

    /// Records `path` as opened at time `now_ms`: any earlier entry for
    /// the same path is dropped, the new entry goes to the most-recent
    /// end, and the oldest entry is evicted when the bound is exceeded.
    pub fn update_recent_files(&mut self, path: &str, now_ms: u64)
        requires
            store_wf(old(self)@),
        ensures
            final(self)@ == spec_record(old(self)@, path@, now_ms),
            store_wf(final(self)@),
    {
        proof {
            lemma_record_dedups(old(self)@, path@, now_ms);
        }
        let ghost s0: Seq<(Seq<char>, u64)> = self@;
        let p: String = path.to_owned();
        let mut kept: Vec<RecentEntry> = Vec::new();
        let n = self.entries.len();
        let mut i: usize = 0;
        while i < n
            invariant
                i <= n,
                n == self.entries.len(),
                self@ == s0,
                p@ == path@,
                entries_view(kept@) == remove_path(s0.take(i as int), path@),
            decreases n - i,
        {
            proof {
                assert(s0[i as int] == self.entries@[i as int]@);
                assert(s0.take(i as int + 1).drop_last() =~= s0.take(i as int));
                assert(s0.take(i as int + 1).last() == s0[i as int]);
            }
            let ghost kept_before = kept@;
            let e = &self.entries[i];
            if e.path == p {
                proof {
                    assert(entries_view(kept@) =~= remove_path(s0.take(i as int + 1), path@));
                }
            } else {
                kept.push(RecentEntry { path: e.path.clone(), timestamp: e.timestamp });
                proof {
                    assert(kept@.drop_last() == kept_before);
                    assert(entries_view(kept@) =~= remove_path(s0.take(i as int + 1), path@));
                }
            }
            i += 1;
        }
        proof {
            assert(s0.take(n as int) =~= s0);
        }
        let ghost kept_full = kept@;
        kept.push(RecentEntry { path: p, timestamp: now_ms });
        proof {
            assert(entries_view(kept@) =~= remove_path(s0, path@).push((path@, now_ms)));
        }
        if kept.len() > CAPACITY {
            let ghost before = kept@;
            kept.remove(0);
            proof {
                assert(kept@ =~= before.drop_first());
                assert(entries_view(kept@) =~= entries_view(before).drop_first());
            }
        }
        self.entries = kept;
        proof {
            assert(self@ =~= spec_record(s0, path@, now_ms));
        }
    }

    /// Records `path` as opened now, at the clock's current time.
    pub fn add_recent_file(&mut self, path: &str)
        requires
            store_wf(old(self)@),
        ensures
            store_wf(final(self)@),
            exists|t: u64| final(self)@ == spec_record(old(self)@, path@, t),
    {
        let t = now_millis();
        self.update_recent_files(path, t);
    }

    /// A snapshot copy of the current entries, recency order kept.
    pub fn get_recent_files(&self) -> (r: Vec<RecentEntry>)
        ensures
            entries_view(r@) == self@,
    {
        let mut r: Vec<RecentEntry> = Vec::new();
        let n = self.entries.len();
        let mut i: usize = 0;
        while i < n
            invariant
                i <= n,
                n == self.entries.len(),
                entries_view(r@) == self@.take(i as int),
            decreases n - i,
        {
            proof {
                assert(self@[i as int] == self.entries@[i as int]@);
            }
            let ghost r_before = r@;
            let e = &self.entries[i];
            let copy = RecentEntry { path: e.path.clone(), timestamp: e.timestamp };
            proof {
                assert(copy@ == self.entries@[i as int]@);
            }
            r.push(copy);
            proof {
                assert(entries_view(r_before).len() == r_before.len());
                assert(r_before.len() == i as int);
                assert(r@.drop_last() == r_before);
                assert(r@.last()@ == self@[i as int]);
                assert forall|j: int|
                    0 <= j < i as int + 1 implies entries_view(r@)[j] == self@.take(
                    i as int + 1,
                )[j] by {
                    if j < i as int {
                        assert(r@[j] == r_before[j]);
                        assert(entries_view(r_before)[j] == self@.take(i as int)[j]);
                    } else {
                        assert(r@[j] == r@.last());
                    }
                }
                assert(entries_view(r@) =~= self@.take(i as int + 1));
            }
            i += 1;
        }
        proof {
            assert(self@.take(n as int) =~= self@);
        }
        r
    }
}

/// Recording a path twice collapses to recording it once at the later
/// time: the earlier recording leaves no trace.
pub proof fn lemma_record_idempotent(s: Seq<(Seq<char>, u64)>, p: Seq<char>, t1: u64, t2: u64)
    requires
        store_wf(s),
    ensures
        spec_record(spec_record(s, p, t1), p, t2) == spec_record(s, p, t2),
{
    let rm = remove_path(s, p);
    lemma_remove_path_len(s, p);
    lemma_remove_path_no_p(s, p);
    let grown = rm.push((p, t1));
    if grown.len() > CAPACITY as nat {
        // the first recording evicted the oldest entry
        let r1 = grown.drop_first();
        assert(r1 =~= rm.drop_first().push((p, t1)));
        assert(forall|k: int| 0 <= k < rm.drop_first().len() ==> rm.drop_first()[k].0 != p);
        let x = rm.drop_first().push((p, t1));
        assert(x.drop_last() =~= rm.drop_first());
        assert(x.last() == (p, t1));
        assert(remove_path(x, p) == remove_path(rm.drop_first(), p));
        assert(remove_path(r1, p) == remove_path(rm.drop_first(), p));
        lemma_remove_path_id(rm.drop_first(), p);
        assert(spec_record(r1, p, t2) =~= rm.drop_first().push((p, t2)));
        assert(spec_record(s, p, t2) =~= rm.push((p, t2)).drop_first());
        assert(rm.push((p, t2)).drop_first() =~= rm.drop_first().push((p, t2)));
    } else {
        let r1 = grown;
        assert(r1.drop_last() =~= rm);
        assert(r1.last() == (p, t1));
        assert(remove_path(r1, p) == remove_path(rm, p));
        lemma_remove_path_id(rm, p);
        assert(spec_record(r1, p, t2) == spec_record(s, p, t2));
    }
}

/// Recording keeps the store within its bound.
pub proof fn lemma_record_bounded(s: Seq<(Seq<char>, u64)>, p: Seq<char>, t: u64)
    requires
        s.len() <= CAPACITY as nat,
    ensures
        spec_record(s, p, t).len() <= CAPACITY as nat,
{
    lemma_remove_path_len(s, p);
}

/// After recording, exactly the last entry carries the recorded path,
/// with the recorded time, and the result is well formed.
pub proof fn lemma_record_dedups(s: Seq<(Seq<char>, u64)>, p: Seq<char>, t: u64)
    requires
        store_wf(s),
    ensures
        spec_record(s, p, t).len() >= 1,
        spec_record(s, p, t).last() == (p, t),
        forall|k: int| 0 <= k < spec_record(s, p, t).len() - 1 ==> spec_record(s, p, t)[k].0 != p,
        store_wf(spec_record(s, p, t)),
{
    let rm = remove_path(s, p);
    lemma_remove_path_len(s, p);
    lemma_remove_path_no_p(s, p);
    lemma_remove_path_unique(s, p);
    let grown = rm.push((p, t));
    assert(paths_unique(grown));
    if grown.len() > CAPACITY as nat {
        assert(paths_unique(grown.drop_first())) by {
            assert(forall|i: int|
                0 <= i < grown.drop_first().len() ==> grown.drop_first()[i] == grown[i + 1]);
        }
        assert(grown.drop_first().last() == (p, t));
    }
}

/// When a new path is recorded into a full store, exactly the front
/// entry is evicted — under recency ordering the one carrying the
/// oldest timestamp — its path is absent afterwards, and the other
/// entries are retained in order.
pub proof fn lemma_eviction_drops_oldest(s: Seq<(Seq<char>, u64)>, p: Seq<char>, t: u64)
    requires
        store_wf(s),
        ts_sorted(s),
        s.len() == CAPACITY as nat,
        forall|k: int| 0 <= k < s.len() ==> s[k].0 != p,
    ensures
        spec_record(s, p, t) == s.drop_first().push((p, t)),
        forall|k: int| 0 <= k < s.len() ==> s[0].1 <= #[trigger] s[k].1,
        forall|k: int|
            0 <= k < spec_record(s, p, t).len() ==> #[trigger] spec_record(s, p, t)[k].0 != s[0].0,
        forall|k: int| 1 <= k < s.len() ==> spec_record(s, p, t)[k - 1] == #[trigger] s[k],
{
    lemma_remove_path_id(s, p);
    assert(spec_record(s, p, t) =~= s.drop_first().push((p, t)));
    let r = spec_record(s, p, t);
    assert forall|k: int| 0 <= k < r.len() implies #[trigger] r[k].0 != s[0].0 by {
        if k < s.len() - 1 {
            assert(r[k] == s[k + 1]);
        } else {
            assert(r[k] == (p, t));
        }
    }
}

/// Timestamp ordering survives removal of a path.
pub proof fn lemma_remove_path_sorted(s: Seq<(Seq<char>, u64)>, p: Seq<char>)
    requires
        ts_sorted(s),
    ensures
        ts_sorted(remove_path(s, p)),
    decreases s.len(),
{
    if s.len() > 0 {
        assert(ts_sorted(s.drop_last()));
        lemma_remove_path_sorted(s.drop_last(), p);
        if s.last().0 != p {
            lemma_remove_path_ts_bound(s.drop_last(), p, s.last().1);
        }
    }
}

pub proof fn lemma_remove_path_ts_bound(s: Seq<(Seq<char>, u64)>, p: Seq<char>, b: u64)
    requires
        forall|k: int| 0 <= k < s.len() ==> s[k].1 <= b,
    ensures
        forall|k: int| 0 <= k < remove_path(s, p).len() ==> remove_path(s, p)[k].1 <= b,
    decreases s.len(),
{
    if s.len() > 0 {
        assert(forall|k: int| 0 <= k < s.drop_last().len() ==> s.drop_last()[k].1 <= b);
        lemma_remove_path_ts_bound(s.drop_last(), p, b);
        let rest = remove_path(s.drop_last(), p);
        assert forall|k: int|
            0 <= k < remove_path(s, p).len() implies remove_path(s, p)[k].1 <= b by {
            if s.last().0 == p || k < rest.len() {
                assert(remove_path(s, p)[k] == rest[k]);
            } else {
                assert(remove_path(s, p)[k] == s.last());
            }
        }
    }
}

/// Recording at a time no earlier than every stored timestamp keeps
/// the store sorted by recency.
pub proof fn lemma_record_keeps_sorted(s: Seq<(Seq<char>, u64)>, p: Seq<char>, t: u64)
    requires
        ts_sorted(s),
        forall|k: int| 0 <= k < s.len() ==> s[k].1 <= t,
    ensures
        ts_sorted(spec_record(s, p, t)),
{
    lemma_remove_path_sorted(s, p);
    lemma_remove_path_ts_bound(s, p, t);
    let grown = remove_path(s, p).push((p, t));
    assert(ts_sorted(grown));
    if grown.len() > CAPACITY as nat {
        assert(forall|i: int|
            0 <= i < grown.drop_first().len() ==> grown.drop_first()[i] == grown[i + 1]);
    }
}

} // verus!
