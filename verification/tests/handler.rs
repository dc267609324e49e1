//! Tests of the proxy's behaviour: blocking, caching, and the
//! leader/follower coordination around upstream resolution.

use rust_hole::cache::{expiry, min_ttl, AnswerCache, CacheKey};
use rust_hole::codec::{encode_response, Query, ResourceRecord, RespCode};
use rust_hole::handler::{follower_response, Action, DnsBlocker};
use rust_hole::normalize_qtype;

fn record(name: &[u8], ttl: u32, rdata: &[u8]) -> ResourceRecord {
    ResourceRecord { name: name.to_vec(), rtype: 1, rclass: 1, ttl, rdata: rdata.to_vec() }
}

fn proxy_with(entries: &[&[u8]]) -> DnsBlocker {
    DnsBlocker::new(entries.iter().map(|e| e.to_vec()).collect())
}

#[test]
fn blocked_domain_gets_nxdomain() {
    // Blocklist {"ads.example.com"}; a type A query for it yields NXDomain
    // with zero answers.
    let mut p = proxy_with(&[b"ads.example.com"]);
    match p.handle_query(&b"ads.example.com".to_vec(), 1, 0) {
        Action::Respond(code, answers) => {
            assert_eq!(code, RespCode::NxDomain);
            assert_eq!(answers.len(), 0);
        }
        _ => panic!("a blocked domain must be answered at once"),
    }
}

#[test]
fn blocking_covers_every_record_type() {
    let mut p = proxy_with(&[b"ads.example.com"]);
    for qtype in [1u16, 28, 16, 65, 255] {
        match p.handle_query(&b"ads.example.com".to_vec(), qtype, 0) {
            Action::Respond(code, answers) => {
                assert_eq!(code, RespCode::NxDomain);
                assert_eq!(answers.len(), 0);
            }
            _ => panic!("a blocked domain must be answered at once"),
        }
    }
}

#[test]
fn suffix_match_blocks_subdomains() {
    let mut p = proxy_with(&[b"ads.example.com"]);
    match p.handle_query(&b"tracker.ads.example.com".to_vec(), 1, 0) {
        Action::Respond(code, _) => assert_eq!(code, RespCode::NxDomain),
        _ => panic!("a subdomain of an entry must be blocked"),
    }
}

#[test]
fn suffix_match_has_no_label_boundary() {
    // The match is byte-wise: "notads.example.com" ends with the entry
    // "ads.example.com" and is blocked with it. That is the chosen policy.
    let mut p = proxy_with(&[b"ads.example.com"]);
    match p.handle_query(&b"notads.example.com".to_vec(), 1, 0) {
        Action::Respond(code, _) => assert_eq!(code, RespCode::NxDomain),
        _ => panic!("the byte-wise suffix policy blocks this name"),
    }
}

#[test]
fn unrelated_domain_is_not_blocked() {
    let mut p = proxy_with(&[b"ads.example.com"]);
    match p.handle_query(&b"example.com".to_vec(), 1, 0) {
        Action::Forward => {}
        _ => panic!("a shorter name must not match a longer entry"),
    }
}

#[test]
fn miss_then_cache_hit_then_expiry() {
    // Upstream returns one A record with ttl 30: the first query forwards
    // and caches; a second 10 s later is served from cache with the same
    // record; a third at 35 s forwards again.
    let mut p = proxy_with(&[]);
    let domain = b"example.com".to_vec();
    match p.handle_query(&domain, 1, 0) {
        Action::Forward => {}
        _ => panic!("the first query must forward"),
    }
    let rr = record(b"example.com", 30, &[93, 184, 216, 34]);
    let (code, answers) = p.complete_forward(&domain, 1, Some(vec![rr]), 0);
    assert_eq!(code, RespCode::NoError);
    assert_eq!(answers.len(), 1);
    assert_eq!(answers[0].ttl, 30);

    match p.handle_query(&domain, 1, 10) {
        Action::Respond(code, answers) => {
            assert_eq!(code, RespCode::NoError);
            assert_eq!(answers.len(), 1);
            assert_eq!(answers[0].rdata, vec![93, 184, 216, 34]);
        }
        _ => panic!("the second query must be served from cache"),
    }

    match p.handle_query(&domain, 1, 35) {
        Action::Forward => {}
        _ => panic!("the third query must forward afresh"),
    }
}

#[test]
fn upstream_failure_leaves_key_eligible() {
    // Upstream times out: the query earns ServFail with zero answers, and
    // the key may be resolved afresh by the very next query.
    let mut p = proxy_with(&[]);
    let domain = b"slow.example.com".to_vec();
    match p.handle_query(&domain, 1, 0) {
        Action::Forward => {}
        _ => panic!("the first query must forward"),
    }
    let (code, answers) = p.complete_forward(&domain, 1, None, 0);
    assert_eq!(code, RespCode::ServFail);
    assert_eq!(answers.len(), 0);

    match p.handle_query(&domain, 1, 0) {
        Action::Forward => {}
        _ => panic!("a failed key must be claimable at once"),
    }
}

#[test]
fn concurrent_queries_share_one_flight() {
    // While a resolution is in flight, every further query for the key
    // waits; an unrelated key is independent.
    let mut p = proxy_with(&[]);
    let domain = b"example.com".to_vec();
    assert!(matches!(p.handle_query(&domain, 1, 0), Action::Forward));
    assert!(matches!(p.handle_query(&domain, 1, 0), Action::Wait));
    assert!(matches!(p.handle_query(&domain, 1, 0), Action::Wait));
    assert!(matches!(p.handle_query(&b"other.org".to_vec(), 1, 0), Action::Forward));
    assert!(matches!(p.handle_query(&domain, 28, 0), Action::Forward));
}

#[test]
fn followers_see_the_leaders_outcome() {
    // The leader's response and every follower's response come from the one
    // outcome: same code, same records, on success and failure alike.
    let mut p = proxy_with(&[]);
    let domain = b"example.com".to_vec();
    assert!(matches!(p.handle_query(&domain, 1, 0), Action::Forward));
    let rr = record(b"example.com", 60, &[1, 2, 3, 4]);
    let (lead_code, lead_answers) = p.complete_forward(&domain, 1, Some(vec![rr]), 0);
    let rr_again = record(b"example.com", 60, &[1, 2, 3, 4]);
    let (follow_code, follow_answers) = follower_response(Some(vec![rr_again]));
    assert_eq!(lead_code, follow_code);
    assert_eq!(lead_answers.len(), follow_answers.len());
    assert_eq!(lead_answers[0].rdata, follow_answers[0].rdata);

    let (f_code, f_answers) = follower_response(None);
    assert_eq!(f_code, RespCode::ServFail);
    assert_eq!(f_answers.len(), 0);
}

#[test]
fn https_queries_share_the_a_key() {
    // HTTPS queries are folded into A lookups: both share one key.
    assert_eq!(normalize_qtype(65), 1);
    assert_eq!(normalize_qtype(1), 1);
    assert_eq!(normalize_qtype(28), 28);
    let mut p = proxy_with(&[]);
    let domain = b"example.com".to_vec();
    assert!(matches!(p.handle_query(&domain, 65, 0), Action::Forward));
    assert!(matches!(p.handle_query(&domain, 1, 0), Action::Wait));
}

#[test]
fn cache_hit_keeps_the_clients_own_id() {
    // A response built for a second query is stamped with that query's id,
    // also when its records were cached by a request with another id.
    let mut p = proxy_with(&[]);
    let domain = b"example.com".to_vec();
    assert!(matches!(p.handle_query(&domain, 1, 0), Action::Forward));
    let rr = record(b"example.com", 30, &[9, 9, 9, 9]);
    let _ = p.complete_forward(&domain, 1, Some(vec![rr]), 0);

    let answers = match p.handle_query(&domain, 1, 5) {
        Action::Respond(code, answers) => {
            assert_eq!(code, RespCode::NoError);
            answers
        }
        _ => panic!("must be a cache hit"),
    };
    let q2 = Query { id: 0x2222, rd: true, name: domain.clone(), qtype: 1, qclass: 1 };
    let bytes = encode_response(&q2, RespCode::NoError, &answers).unwrap();
    assert_eq!(bytes[0], 0x22);
    assert_eq!(bytes[1], 0x22);
}

#[test]
fn cache_returns_fresh_and_evicts_stale() {
    let mut c = AnswerCache::new();
    let key = CacheKey { domain: b"example.com".to_vec(), rtype: 1 };
    let rr = record(b"example.com", 0, &[1, 2, 3, 4]);
    c.put(CacheKey { domain: b"example.com".to_vec(), rtype: 1 }, vec![rr], 5, 100);
    let hit = c.get(&key, 104).expect("fresh at 104");
    assert_eq!(hit.len(), 1);
    assert_eq!(hit[0].rdata, vec![1, 2, 3, 4]);
    assert!(c.get(&key, 105).is_none()); // stale at exactly now + ttl
    assert!(c.get(&key, 104).is_none()); // and evicted by that lookup
}

#[test]
fn cache_distinguishes_record_types() {
    let mut c = AnswerCache::new();
    c.put(CacheKey { domain: b"example.com".to_vec(), rtype: 1 }, Vec::new(), 60, 0);
    let other = CacheKey { domain: b"example.com".to_vec(), rtype: 28 };
    assert!(c.get(&other, 0).is_none());
}

#[test]
fn min_ttl_takes_the_least() {
    let rs = vec![
        record(b"a.example", 300, &[1]),
        record(b"a.example", 60, &[2]),
        record(b"a.example", 120, &[3]),
    ];
    assert_eq!(min_ttl(&rs), 60);
    assert_eq!(min_ttl(&Vec::new()), 60); // the default for an empty set
    assert_eq!(min_ttl(&vec![record(b"a", 7, &[1])]), 7);
}

#[test]
fn expiry_saturates_at_the_clocks_top() {
    assert_eq!(expiry(100, 30), 130);
    assert_eq!(expiry(u64::MAX - 5, 10), u64::MAX);
    assert_eq!(expiry(u64::MAX, 1), u64::MAX);
}

#[test]
fn empty_blocklist_blocks_nothing() {
    let mut p = proxy_with(&[]);
    assert!(matches!(p.handle_query(&b"anything.at.all".to_vec(), 1, 0), Action::Forward));
}

#[test]
fn empty_entry_blocks_everything() {
    // An empty suffix is a suffix of every name: the policy, stated plainly.
    let mut p = proxy_with(&[b""]);
    assert!(matches!(
        p.handle_query(&b"example.com".to_vec(), 1, 0),
        Action::Respond(RespCode::NxDomain, _)
    ));
}
