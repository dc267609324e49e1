//! The request handler: what the proxy does with one decoded query, and
//! what the leader does when its upstream resolution comes back.
//!
//! The handler is a state machine over plain data. The caller owns the
//! sockets and the clock: it decodes a datagram, asks `handle_query` what to
//! do, and either sends the response, forwards upstream as the leader, or
//! waits for a leader's outcome. The leader hands the outcome to
//! `complete_forward`; every waiter maps the same outcome through
//! `follower_response`. Per query the order is fixed: blocklist first — a
//! block never needs the upstream — then cache, then the claim.

use vstd::prelude::*;

use crate::blocklist::{BlockedSet, spec_is_blocked};
use crate::cache::{
    AnswerCache, CacheKey, KeyModel, EntryModel, spec_lookup, spec_min_ttl, spec_expiry, min_ttl,
};
use crate::codec::{ResourceRecord, RecordModel, RespCode, clone_records, clone_bytes};
use crate::pending::{PendingSet, spec_claim};
use crate::normalize_qtype;
use crate::spec_normalize_qtype;

verus! {

/// The key a query for `domain` with raw record type `qtype` resolves
/// under: the type is normalized first.
pub open spec fn query_key(domain: Seq<u8>, qtype: u16) -> KeyModel {
    KeyModel { domain, rtype: spec_normalize_qtype(qtype) }
}

/// What the caller does next with one query: send a finished response,
/// resolve upstream as the leader for its key, or wait for the outcome of
/// the resolution already in flight.
pub enum Action {
    Respond(RespCode, Vec<ResourceRecord>),
    Forward,
    Wait,
}

/// Response code an outcome earns: resolved records answer cleanly, a
/// failed resolution is a server failure.
pub open spec fn outcome_code(o: Option<Seq<RecordModel>>) -> RespCode {
    if o is Some {
        RespCode::NoError
    } else {
        RespCode::ServFail
    }
}

/// Records an outcome hands the client: the resolved records, or none.
pub open spec fn outcome_answers(o: Option<Seq<RecordModel>>) -> Seq<RecordModel> {
    match o {
        Some(rs) => rs,
        None => Seq::empty(),
    }
}

/// One proxy: the blocklist snapshot, the answer cache, and the set of keys
/// with a resolution in flight. Built once at startup and driven by the
/// caller's listener.
pub struct DnsBlocker {
    blocked: BlockedSet,
    cache: AnswerCache,
    pending: PendingSet,
}

impl DnsBlocker {
    /// The blocklist snapshot.
    pub closed spec fn blocked_view(&self) -> Seq<Seq<u8>> {
        self.blocked@
    }

    /// The cached entries, by key.
    pub closed spec fn cache_view(&self) -> Map<KeyModel, EntryModel> {
        self.cache@
    }

    /// The keys with a resolution in flight.
    pub closed spec fn pending_view(&self) -> Set<KeyModel> {
        self.pending@
    }

    /// The cache and the pending set each hold a key at most once.
    pub closed spec fn wf(&self) -> bool {
        &&& self.cache.wf()
        &&& self.pending.wf()
    }

    /// A fresh proxy over the given blocklist snapshot: empty cache, no
    /// resolution in flight.
    pub fn new(blocked: Vec<Vec<u8>>) -> (p: Self)
        ensures
            p.wf(),
            p.blocked_view() =~= blocked.deep_view(),
            p.cache_view() =~= Map::<KeyModel, EntryModel>::empty(),
            p.pending_view() =~= Set::<KeyModel>::empty(),
    {
        DnsBlocker {
            blocked: BlockedSet::new(blocked),
            cache: AnswerCache::new(),
            pending: PendingSet::new(),
        }
    }

    /// Says whether `domain` is blocked: whether it ends with some entry of
    /// the blocklist snapshot.
    pub fn is_blocked(&self, domain: &[u8]) -> (b: bool)
        ensures
            b == spec_is_blocked(self.blocked_view(), domain@),
    {
        self.blocked.is_blocked(domain)
    }

    /// Handles one decoded query at instant `now`.
    ///
    /// A blocked domain is refused at once as `NXDomain` with no answers,
    /// touching nothing. Otherwise a fresh cached answer is served
    /// unchanged as `NoError`, touching nothing. Otherwise the query missed:
    /// a stale entry for its key is evicted, and the claim decides — the
    /// first claimant forwards upstream as leader, everyone later waits for
    /// that leader's outcome.
    pub fn handle_query(&mut self, domain: &Vec<u8>, qtype: u16, now: u64) -> (a: Action)
        requires
            old(self).wf(),
        ensures
            final(self).wf(),
            final(self).blocked_view() == old(self).blocked_view(),
            // A blocked domain is refused at once, with nothing else touched.
            spec_is_blocked(old(self).blocked_view(), domain@) ==> {
                &&& (a matches Action::Respond(code, rs) && code == RespCode::NxDomain
                    && rs@.len() == 0)
                &&& final(self).cache_view() == old(self).cache_view()
                &&& final(self).pending_view() == old(self).pending_view()
            },
            // A fresh cached answer is served unchanged, with nothing touched.
            (!spec_is_blocked(old(self).blocked_view(), domain@) && spec_lookup(
                old(self).cache_view(),
                query_key(domain@, qtype),
                now,
            ) is Some) ==> {
                &&& (a matches Action::Respond(code, rs) && code == RespCode::NoError
                    && Some(rs.deep_view()) == spec_lookup(
                    old(self).cache_view(),
                    query_key(domain@, qtype),
                    now,
                ))
                &&& final(self).cache_view() == old(self).cache_view()
                &&& final(self).pending_view() == old(self).pending_view()
            },
            // A miss evicts the stale entry, if one sat there, and the claim
            // names one leader per key: the first claimant forwards, later
            // ones wait.
            (!spec_is_blocked(old(self).blocked_view(), domain@) && spec_lookup(
                old(self).cache_view(),
                query_key(domain@, qtype),
                now,
            ) is None) ==> {
                let k = query_key(domain@, qtype);
                &&& final(self).cache_view() =~= (if old(self).cache_view().contains_key(k)
                    && now >= old(self).cache_view()[k].expires_at {
                    old(self).cache_view().remove(k)
                } else {
                    old(self).cache_view()
                })
                &&& (a is Forward) == spec_claim(old(self).pending_view(), k).0
                &&& (a is Wait) == !spec_claim(old(self).pending_view(), k).0
                &&& final(self).pending_view() =~= spec_claim(old(self).pending_view(), k).1
            },
    {
        if self.blocked.is_blocked(domain.as_slice()) {
            return Action::Respond(RespCode::NxDomain, Vec::new());
        }
        let key = CacheKey { domain: clone_bytes(domain), rtype: normalize_qtype(qtype) };
        proof {
            assert(key@ =~= query_key(domain@, qtype));
        }
        match self.cache.get(&key, now) {
            Some(records) => Action::Respond(RespCode::NoError, records),
            None => {
                if self.pending.claim(&key) {
                    Action::Forward
                } else {
                    Action::Wait
                }
            },
        }
    }

    /// Takes the leader's outcome for `(domain, qtype)` at instant `now`:
    /// resolved records are cached under their least time to live and
    /// answered as `NoError`; a failed resolution caches nothing and is
    /// answered as `ServFail`. Either way the key's claim is released, so
    /// the next query for it may resolve afresh.
    pub fn complete_forward(
        &mut self,
        domain: &Vec<u8>,
        qtype: u16,
        outcome: Option<Vec<ResourceRecord>>,
        now: u64,
    ) -> (resp: (RespCode, Vec<ResourceRecord>))
        requires
            old(self).wf(),
        ensures
            final(self).wf(),
            final(self).blocked_view() == old(self).blocked_view(),
            final(self).pending_view() =~= old(self).pending_view().remove(
                query_key(domain@, qtype),
            ),
            resp.0 == outcome_code(outcome.deep_view()),
            resp.1.deep_view() =~= outcome_answers(outcome.deep_view()),
            (outcome matches Some(rs) ==> final(self).cache_view() =~= old(
                self,
            ).cache_view().insert(
                query_key(domain@, qtype),
                (EntryModel {
                    records: rs.deep_view(),
                    expires_at: spec_expiry(now, spec_min_ttl(rs.deep_view())),
                }),
            )),
            (outcome is None ==> final(self).cache_view() == old(self).cache_view()),
    {
        let key = CacheKey { domain: clone_bytes(domain), rtype: normalize_qtype(qtype) };
        proof {
            assert(key@ =~= query_key(domain@, qtype));
        }
        self.pending.release(&key);
        match outcome {
            Some(records) => {
                let ttl = min_ttl(&records);
                let out = clone_records(&records);
                self.cache.put(key, records, ttl, now);
                (RespCode::NoError, out)
            },
            None => (RespCode::ServFail, Vec::new()),
        }
    }
}

/// Builds a waiter's response from the outcome its leader delivered — the
/// same code and records `complete_forward` gives the leader, so all
/// callers of one resolution answer alike.
pub fn follower_response(outcome: Option<Vec<ResourceRecord>>) -> (resp: (
    RespCode,
    Vec<ResourceRecord>,
))
    ensures
        resp.0 == outcome_code(outcome.deep_view()),
        resp.1.deep_view() =~= outcome_answers(outcome.deep_view()),
{
    match outcome {
        Some(records) => (RespCode::NoError, records),
        None => (RespCode::ServFail, Vec::new()),
    }
}

/// Stampede law: claiming a key not in flight makes exactly one leader and
/// bars the key; any claim while it stands claimed waits and changes
/// nothing; once released, a fresh claim leads again. All callers of one
/// resolution are answered from its one outcome: `complete_forward` and
/// `follower_response` both build their response as
/// `(outcome_code, outcome_answers)` of that outcome.
pub proof fn lemma_single_flight(p: Set<KeyModel>, k: KeyModel)
    ensures
        !p.contains(k) ==> spec_claim(p, k).0,
        spec_claim(p, k).1.contains(k),
        !spec_claim(spec_claim(p, k).1, k).0,
        spec_claim(spec_claim(p, k).1, k).1 == spec_claim(p, k).1,
        spec_claim(spec_claim(p, k).1.remove(k), k).0,
{
}

} // verus!
