//! Answer cache: maps (domain, record type) to the records of one
//! resolution, each entry bounded by an absolute expiry instant.
//!
//! The clock is a `u64` of seconds handed in by the caller; the cache never
//! reads time itself. A lookup never exposes an entry at or past its expiry;
//! an entry found stale is evicted by that same lookup. The store is a small
//! vector scanned linearly — the working set of a filtering proxy is small —
//! and its mathematical view is a `Map` from key to entry.

use vstd::prelude::*;

use crate::codec::{ResourceRecord, RecordModel, clone_records, clone_bytes};

verus! {

/// What one resolution is cached under: the queried domain (dotted text)
/// and the record type it was resolved for.
pub struct CacheKey {
    pub domain: Vec<u8>,
    pub rtype: u16,
}

/// Mathematical model of a `CacheKey`.
#[verifier::ext_equal]
pub struct KeyModel {
    pub domain: Seq<u8>,
    pub rtype: u16,
}

impl View for CacheKey {
    type V = KeyModel;

    open spec fn view(&self) -> KeyModel {
        KeyModel { domain: self.domain@, rtype: self.rtype }
    }
}

/// Copies a key.
pub fn clone_key(k: &CacheKey) -> (c: CacheKey)
    ensures
        c@ == k@,
{
    CacheKey { domain: clone_bytes(&k.domain), rtype: k.rtype }
}

/// Says whether two keys name the same (domain, record type) pair.
pub fn key_eq(a: &CacheKey, b: &CacheKey) -> (r: bool)
    ensures
        r == (a@ == b@),
{
    if a.rtype != b.rtype {
        return false;
    }
    let r = bytes_eq(a.domain.as_slice(), b.domain.as_slice());
    proof {
        if a.domain@ == b.domain@ {
            assert(a@ =~= b@);
        }
    }
    r
}

/// Says whether two byte strings are equal.
pub fn bytes_eq(x: &[u8], y: &[u8]) -> (r: bool)
    ensures
        r == (x@ == y@),
{
    if x.len() != y.len() {
        return false;
    }
    let mut j: usize = 0;
    while j < x.len()
        invariant
            x@.len() == y@.len(),
            j <= x@.len(),
            forall|m: int| 0 <= m < j ==> x@[m] == y@[m],
        decreases x@.len() - j,
    {
        if x[j] != y[j] {
            return false;
        }
        j = j + 1;
    }
    proof {
        assert(x@ =~= y@);
    }
    true
}

/// Mathematical model of one cache entry: the records of a resolution and
/// the instant (in the caller's seconds) past which they are stale.
#[verifier::ext_equal]
pub struct EntryModel {
    pub records: Seq<RecordModel>,
    pub expires_at: u64,
}

/// One stored entry.
struct CacheSlot {
    key: CacheKey,
    records: Vec<ResourceRecord>,
    expires_at: u64,
}

/// Model of the key a slot is stored under.
spec fn slot_key(s: CacheSlot) -> KeyModel {
    s.key@
}

/// Model of the entry a slot stores.
spec fn slot_entry(s: CacheSlot) -> EntryModel {
    EntryModel { records: s.records.deep_view(), expires_at: s.expires_at }
}

/// Some slot carries key `k`.
spec fn sv_contains(sv: Seq<CacheSlot>, k: KeyModel) -> bool {
    exists|i: int| 0 <= i < sv.len() && slot_key(#[trigger] sv[i]) == k
}

/// The index of the slot carrying key `k` (unique under `wf_seq`).
spec fn sv_at(sv: Seq<CacheSlot>, k: KeyModel) -> int {
    choose|i: int| 0 <= i < sv.len() && slot_key(#[trigger] sv[i]) == k
}

/// No two slots carry the same key.
spec fn wf_seq(sv: Seq<CacheSlot>) -> bool {
    forall|i: int, j: int|
        0 <= i < j < sv.len() ==> slot_key(#[trigger] sv[i]) != slot_key(#[trigger] sv[j])
}

/// The map a slot sequence stores: each key to its one entry.
spec fn map_of(sv: Seq<CacheSlot>) -> Map<KeyModel, EntryModel> {
    Map::new(|k: KeyModel| sv_contains(sv, k), |k: KeyModel| slot_entry(sv[sv_at(sv, k)]))
}

/// Under `wf_seq`, the map stores each slot under its own key.
proof fn lemma_map_of_index(sv: Seq<CacheSlot>, i: int)
    requires
        wf_seq(sv),
        0 <= i < sv.len(),
    ensures
        map_of(sv).contains_key(slot_key(sv[i])),
        map_of(sv)[slot_key(sv[i])] == slot_entry(sv[i]),
{
    let k = slot_key(sv[i]);
    assert(sv_contains(sv, k));
    let j = sv_at(sv, k);
    assert(0 <= j < sv.len() && slot_key(sv[j]) == k);
    if j < i {
        assert(slot_key(sv[j]) != slot_key(sv[i]));
    } else if i < j {
        assert(slot_key(sv[i]) != slot_key(sv[j]));
    }
}

/// Removing slot `i` removes exactly its key from the stored map.
proof fn lemma_map_of_remove(sv: Seq<CacheSlot>, i: int)
    requires
        wf_seq(sv),
        0 <= i < sv.len(),
    ensures
        wf_seq(sv.remove(i)),
        map_of(sv.remove(i)) =~= map_of(sv).remove(slot_key(sv[i])),
{
    sv.remove_ensures(i);
    let svr = sv.remove(i);
    let k0 = slot_key(sv[i]);
    assert forall|a: int, b: int| 0 <= a < b < svr.len() implies slot_key(#[trigger] svr[a])
        != slot_key(#[trigger] svr[b]) by {
        let a0: int = if a < i {
            a
        } else {
            a + 1
        };
        let b0: int = if b < i {
            b
        } else {
            b + 1
        };
        assert(svr[a] == sv[a0]);
        assert(svr[b] == sv[b0]);
    }
    assert forall|k: KeyModel| #[trigger] map_of(svr).contains_key(k) <==> (map_of(
        sv,
    ).contains_key(k) && k != k0) by {
        if sv_contains(svr, k) {
            let j = choose|j: int| 0 <= j < svr.len() && slot_key(#[trigger] svr[j]) == k;
            let j0: int = if j < i {
                j
            } else {
                j + 1
            };
            assert(svr[j] == sv[j0]);
            assert(sv_contains(sv, k));
            if j0 < i {
                assert(slot_key(sv[j0]) != slot_key(sv[i]));
            } else {
                assert(slot_key(sv[i]) != slot_key(sv[j0]));
            }
        }
        if sv_contains(sv, k) && k != k0 {
            let j0 = choose|j0: int| 0 <= j0 < sv.len() && slot_key(#[trigger] sv[j0]) == k;
            assert(j0 != i);
            let j: int = if j0 < i {
                j0
            } else {
                j0 - 1
            };
            assert(svr[j] == sv[j0]);
            assert(sv_contains(svr, k));
        }
    }
    assert forall|k: KeyModel|
        map_of(svr).contains_key(k) implies #[trigger] map_of(svr)[k] == map_of(sv).remove(k0)[k] by {
        let j = sv_at(svr, k);
        assert(0 <= j < svr.len() && slot_key(svr[j]) == k);
        let j0: int = if j < i {
            j
        } else {
            j + 1
        };
        assert(svr[j] == sv[j0]);
        lemma_map_of_index(sv, j0);
        let m = sv_at(sv, k);
        assert(0 <= m < sv.len() && slot_key(sv[m]) == k);
        if m < j0 {
            assert(slot_key(sv[m]) != slot_key(sv[j0]));
        } else if j0 < m {
            assert(slot_key(sv[j0]) != slot_key(sv[m]));
        }
    }
}

/// Appending a slot with a new key adds exactly that pair to the stored map.
proof fn lemma_map_of_push(sv: Seq<CacheSlot>, s: CacheSlot)
    requires
        wf_seq(sv),
        !sv_contains(sv, slot_key(s)),
    ensures
        wf_seq(sv.push(s)),
        map_of(sv.push(s)) =~= map_of(sv).insert(slot_key(s), slot_entry(s)),
{
    let svp = sv.push(s);
    let k0 = slot_key(s);
    assert forall|a: int, b: int| 0 <= a < b < svp.len() implies slot_key(#[trigger] svp[a])
        != slot_key(#[trigger] svp[b]) by {
        if b == sv.len() {
            assert(svp[a] == sv[a]);
            assert(svp[b] == s);
            assert(!(slot_key(sv[a]) == k0));
        } else {
            assert(svp[a] == sv[a]);
            assert(svp[b] == sv[b]);
        }
    }
    assert forall|k: KeyModel| #[trigger] sv_contains(svp, k) <==> (sv_contains(sv, k) || k
        == k0) by {
        if sv_contains(svp, k) {
            let j = choose|j: int| 0 <= j < svp.len() && slot_key(#[trigger] svp[j]) == k;
            if j < sv.len() {
                assert(svp[j] == sv[j]);
                assert(sv_contains(sv, k));
            } else {
                assert(svp[j] == s);
            }
        }
        if sv_contains(sv, k) {
            let j = choose|j: int| 0 <= j < sv.len() && slot_key(#[trigger] sv[j]) == k;
            assert(svp[j] == sv[j]);
            assert(sv_contains(svp, k));
        }
        if k == k0 {
            assert(svp[sv.len() as int] == s);
            assert(sv_contains(svp, k));
        }
    }
    assert forall|k: KeyModel| map_of(svp).contains_key(k) implies #[trigger] map_of(svp)[k]
        == map_of(sv).insert(k0, slot_entry(s))[k] by {
        let j = sv_at(svp, k);
        assert(0 <= j < svp.len() && slot_key(svp[j]) == k);
        if k == k0 {
            if j < sv.len() {
                assert(svp[j] == sv[j]);
                assert(sv_contains(sv, k0));
            }
            assert(svp[j] == s);
        } else {
            assert(j < sv.len());
            assert(svp[j] == sv[j]);
            lemma_map_of_index(sv, j);
            let m = sv_at(sv, k);
            if m < j {
                assert(slot_key(sv[m]) != slot_key(sv[j]));
            } else if j < m {
                assert(slot_key(sv[j]) != slot_key(sv[m]));
            }
        }
    }
}

/// What a lookup yields from map `m` under key `k` at instant `at`: the
/// records while the entry is strictly before its expiry, nothing otherwise.
pub open spec fn spec_lookup(
    m: Map<KeyModel, EntryModel>,
    k: KeyModel,
    at: u64,
) -> Option<Seq<RecordModel>> {
    if m.contains_key(k) && at < m[k].expires_at {
        Some(m[k].records)
    } else {
        None
    }
}

/// Seconds a record set may be served from cache: the least time to live
/// among its records, or `DEFAULT_TTL` for an empty set.
pub open spec fn spec_min_ttl(rs: Seq<RecordModel>) -> u32
    decreases rs.len(),
{
    if rs.len() == 0 {
        DEFAULT_TTL
    } else if rs.len() == 1 {
        rs[0].ttl
    } else {
        let m = spec_min_ttl(rs.drop_last());
        if rs.last().ttl < m {
            rs.last().ttl
        } else {
            m
        }
    }
}

/// Cache lifetime of a record set with no time to live of its own.
pub const DEFAULT_TTL: u32 = 60;

/// The least time to live among `rs`, as `spec_min_ttl` defines it.
pub fn min_ttl(rs: &Vec<ResourceRecord>) -> (t: u32)
    ensures
        t == spec_min_ttl(rs.deep_view()),
{
    let ghost dv = rs.deep_view();
    if rs.len() == 0 {
        return DEFAULT_TTL;
    }
    let mut acc: u32 = rs[0].ttl;
    let mut i: usize = 1;
    proof {
        assert(dv.subrange(0, 1) =~= seq![dv[0]]);
        assert(acc == spec_min_ttl(dv.subrange(0, 1)));
    }
    while i < rs.len()
        invariant
            1 <= i <= dv.len(),
            dv == rs.deep_view(),
            dv.len() == rs@.len(),
            acc == spec_min_ttl(dv.subrange(0, i as int)),
        decreases dv.len() - i,
    {
        let t = rs[i].ttl;
        proof {
            assert(dv.subrange(0, i + 1int).drop_last() =~= dv.subrange(0, i as int));
            assert(dv.subrange(0, i + 1int).last() == dv[i as int]);
            assert(dv[i as int].ttl == t);
        }
        if t < acc {
            acc = t;
        }
        i = i + 1;
    }
    proof {
        assert(dv.subrange(0, dv.len() as int) =~= dv);
    }
    acc
}

/// The instant an entry stored now with time to live `ttl` goes stale:
/// `now + ttl`, held at the top of the clock's range.
pub open spec fn spec_expiry(now: u64, ttl: u32) -> u64 {
    if now + ttl > u64::MAX {
        u64::MAX
    } else {
        (now + ttl) as u64
    }
}

/// Computes `spec_expiry(now, ttl)`.
pub fn expiry(now: u64, ttl: u32) -> (e: u64)
    ensures
        e == spec_expiry(now, ttl),
{
    if now > u64::MAX - (ttl as u64) {
        u64::MAX
    } else {
        now + (ttl as u64)
    }
}

/// The answer cache. Its view is the map of stored entries; `wf()` says no
/// key is stored twice, which every operation here preserves.
pub struct AnswerCache {
    slots: Vec<CacheSlot>,
}

impl View for AnswerCache {
    type V = Map<KeyModel, EntryModel>;

    closed spec fn view(&self) -> Map<KeyModel, EntryModel> {
        map_of(self.slots@)
    }
}

impl AnswerCache {
    /// Each key stored at most once.
    pub closed spec fn wf(&self) -> bool {
        wf_seq(self.slots@)
    }

    /// An empty cache.
    pub fn new() -> (c: Self)
        ensures
            c.wf(),
            c@ =~= Map::<KeyModel, EntryModel>::empty(),
    {
        let c = AnswerCache { slots: Vec::new() };
        proof {
            assert forall|k: KeyModel| !(#[trigger] c@.contains_key(k)) by {
                assert(!sv_contains(c.slots@, k));
            }
        }
        c
    }

    /// Takes the slot stored under `key` out, if one is.
    fn take_slot(&mut self, key: &CacheKey) -> (r: Option<CacheSlot>)
        requires
            old(self).wf(),
        ensures
            final(self).wf(),
            (match r {
                Some(s) => {
                    &&& old(self)@.contains_key(key@)
                    &&& slot_key(s) == key@
                    &&& slot_entry(s) == old(self)@[key@]
                    &&& final(self)@ =~= old(self)@.remove(key@)
                },
                None => {
                    &&& !old(self)@.contains_key(key@)
                    &&& final(self)@ == old(self)@
                },
            }),
    {
        let ghost sv0 = self.slots@;
        let mut i: usize = 0;
        while i < self.slots.len()
            invariant
                i <= self.slots@.len(),
                self.slots@ == sv0,
                old(self).slots@ == sv0,
                wf_seq(sv0),
                forall|j: int| 0 <= j < i ==> slot_key(#[trigger] sv0[j]) != key@,
            decreases self.slots@.len() - i,
        {
            if key_eq(&self.slots[i].key, key) {
                proof {
                    lemma_map_of_index(sv0, i as int);
                    lemma_map_of_remove(sv0, i as int);
                }
                let s = self.slots.remove(i);
                return Some(s);
            }
            i = i + 1;
        }
        proof {
            assert(!sv_contains(sv0, key@));
        }
        None
    }

    /// Looks `key` up at instant `now`. A fresh entry's records come back
    /// and the cache is untouched; an entry at or past its expiry is evicted
    /// and nothing comes back; an absent key leaves the cache as it is.
    pub fn get(&mut self, key: &CacheKey, now: u64) -> (r: Option<Vec<ResourceRecord>>)
        requires
            old(self).wf(),
        ensures
            final(self).wf(),
            (match r {
                Some(rs) => spec_lookup(old(self)@, key@, now) == Some(rs.deep_view()),
                None => spec_lookup(old(self)@, key@, now) is None,
            }),
            final(self)@ =~= (if old(self)@.contains_key(key@) && now >= old(
                self,
            )@[key@].expires_at {
                old(self)@.remove(key@)
            } else {
                old(self)@
            }),
    {
        let ghost m0 = self@;
        match self.take_slot(key) {
            None => None,
            Some(slot) => {
                if now < slot.expires_at {
                    let r = clone_records(&slot.records);
                    let ghost sv1 = self.slots@;
                    proof {
                        assert(!self@.contains_key(key@));
                        assert(!sv_contains(sv1, slot_key(slot)));
                        lemma_map_of_push(sv1, slot);
                    }
                    self.slots.push(slot);
                    proof {
                        assert(self@ =~= m0.remove(key@).insert(key@, m0[key@]));
                        assert(self@ =~= m0);
                    }
                    Some(r)
                } else {
                    None
                }
            },
        }
    }

    /// Stores `records` under `key` with expiry `now + ttl`, replacing
    /// whatever the key held.
    pub fn put(&mut self, key: CacheKey, records: Vec<ResourceRecord>, ttl: u32, now: u64)
        requires
            old(self).wf(),
        ensures
            final(self).wf(),
            final(self)@ =~= old(self)@.insert(
                key@,
                (EntryModel { records: records.deep_view(), expires_at: spec_expiry(now, ttl) }),
            ),
    {
        let ghost m0 = self@;
        let _ = self.take_slot(&key);
        let expires_at = expiry(now, ttl);
        let slot = CacheSlot { key, records, expires_at };
        let ghost sv1 = self.slots@;
        proof {
            assert(!self@.contains_key(slot_key(slot)));
            assert(!sv_contains(sv1, slot_key(slot)));
            lemma_map_of_push(sv1, slot);
        }
        self.slots.push(slot);
        proof {
            assert(self@ =~= m0.insert(slot_key(slot), slot_entry(slot)));
        }
    }
}

/// Cache law: an entry stored at `now` with time to live `ttl` answers
/// every lookup strictly before `now + ttl` with its records unchanged, and
/// answers nothing from then on — the caller goes back to resolution.
pub proof fn lemma_cache_freshness(
    m: Map<KeyModel, EntryModel>,
    k: KeyModel,
    records: Seq<RecordModel>,
    ttl: u32,
    now: u64,
    later: u64,
)
    ensures
        later < spec_expiry(now, ttl) ==> spec_lookup(
            m.insert(k, (EntryModel { records, expires_at: spec_expiry(now, ttl) })),
            k,
            later,
        ) == Some(records),
        later >= spec_expiry(now, ttl) ==> spec_lookup(
            m.insert(k, (EntryModel { records, expires_at: spec_expiry(now, ttl) })),
            k,
            later,
        ) is None,
{
}

} // verus!
