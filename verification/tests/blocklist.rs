//! Tests of the blocklist filter and its byte-wise suffix policy.

use rust_hole::blocklist::{bytes_ends_with, BlockedSet};
use rust_hole::handler::DnsBlocker;

#[test]
fn ends_with_is_bytewise() {
    assert!(bytes_ends_with(b"ads.example.com", b"ads.example.com"));
    assert!(bytes_ends_with(b"sub.ads.example.com", b"ads.example.com"));
    assert!(bytes_ends_with(b"notads.example.com", b"ads.example.com"));
    assert!(bytes_ends_with(b"anything", b""));
    assert!(!bytes_ends_with(b"com", b"ads.example.com"));
    assert!(!bytes_ends_with(b"ads.example.org", b"ads.example.com"));
}

#[test]
fn blocked_set_scans_every_entry() {
    let set = BlockedSet::new(vec![
        b"ads.example.com".to_vec(),
        b"tracker.net".to_vec(),
    ]);
    assert_eq!(set.len(), 2);
    assert!(set.is_blocked(b"ads.example.com"));
    assert!(set.is_blocked(b"cdn.tracker.net"));
    assert!(!set.is_blocked(b"example.com"));
    assert!(!set.is_blocked(b"tracker.org"));
}

#[test]
fn handler_exposes_the_same_policy() {
    let p = DnsBlocker::new(vec![b"ads.example.com".to_vec()]);
    assert!(p.is_blocked(b"ads.example.com"));
    assert!(p.is_blocked(b"a.ads.example.com"));
    assert!(!p.is_blocked(b"example.com"));
}
