//! Core of a DNS filtering proxy: wire codec, blocklist suffix filter,
//! TTL-bounded answer cache, and the leader/follower coordination that keeps
//! at most one upstream resolution in flight per (domain, record type) key.
//!
//! All state is plain data; the clock is passed in as a value and the network
//! stays with the caller, so every function here is verified.

pub mod blocklist;
pub mod cache;
pub mod codec;
pub mod handler;
pub mod name;
pub mod pending;

use vstd::prelude::*;

verus! {

/// Record type code for A records.
pub const RTYPE_A: u16 = 1;

/// Record type code for HTTPS records, which this proxy folds into A lookups.
pub const RTYPE_HTTPS: u16 = 65;

/// Record type under which a query is resolved and cached: HTTPS queries are
/// folded into A lookups, every other type stands for itself.
pub open spec fn spec_normalize_qtype(qtype: u16) -> u16 {
    if qtype == RTYPE_HTTPS {
        RTYPE_A
    } else {
        qtype
    }
}

/// Maps a query's record type to the one used for resolution and caching.
pub fn normalize_qtype(qtype: u16) -> (r: u16)
    ensures
        r == spec_normalize_qtype(qtype),
{
    if qtype == RTYPE_HTTPS {
        RTYPE_A
    } else {
        qtype
    }
}

} // verus!
