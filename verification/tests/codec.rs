//! Tests of the wire codec: decoding, encoding, and the round trip.

use rust_hole::codec::{decode_query, encode_query, encode_response, DecodeError, Query,
    ResourceRecord, RespCode};
use rust_hole::name::check_name;

/// A well-formed query for `example.com`, type A, class IN, id 0x1234,
/// recursion desired.
fn sample_query_bytes() -> Vec<u8> {
    let mut b = vec![
        0x12, 0x34, // id
        0x01, 0x00, // flags: RD
        0x00, 0x01, // qdcount = 1
        0x00, 0x00, 0x00, 0x00, 0x00, 0x00, // other counts
    ];
    b.extend_from_slice(&[7]);
    b.extend_from_slice(b"example");
    b.extend_from_slice(&[3]);
    b.extend_from_slice(b"com");
    b.extend_from_slice(&[0]);
    b.extend_from_slice(&[0x00, 0x01, 0x00, 0x01]); // qtype A, qclass IN
    b
}

#[test]
fn decodes_a_query() {
    let b = sample_query_bytes();
    let q = decode_query(&b).unwrap();
    assert_eq!(q.id, 0x1234);
    assert!(q.rd);
    assert_eq!(q.name, b"example.com".to_vec());
    assert_eq!(q.qtype, 1);
    assert_eq!(q.qclass, 1);
}

#[test]
fn decodes_root_name() {
    let b = vec![
        0x00, 0x07, 0x00, 0x00, 0x00, 0x01, 0x00, 0x00, 0x00, 0x00, 0x00, 0x00, //
        0x00, // root name
        0x00, 0x10, 0x00, 0x01,
    ];
    let q = decode_query(&b).unwrap();
    assert_eq!(q.id, 7);
    assert!(!q.rd);
    assert_eq!(q.name, Vec::<u8>::new());
    assert_eq!(q.qtype, 16);
}

#[test]
fn rejects_short_datagram() {
    assert!(matches!(decode_query(&[0x12, 0x34, 0x00]), Err(DecodeError::Truncated)));
    assert!(matches!(decode_query(&[]), Err(DecodeError::Truncated)));
}

#[test]
fn rejects_response_bit() {
    let mut b = sample_query_bytes();
    b[2] |= 0x80;
    assert!(matches!(decode_query(&b), Err(DecodeError::Header)));
}

#[test]
fn rejects_bad_opcode() {
    let mut b = sample_query_bytes();
    b[2] = 0x28; // opcode 5
    assert!(matches!(decode_query(&b), Err(DecodeError::Header)));
}

#[test]
fn rejects_wrong_question_count() {
    let mut b = sample_query_bytes();
    b[5] = 0;
    assert!(matches!(decode_query(&b), Err(DecodeError::QuestionCount)));
    b[5] = 2;
    assert!(matches!(decode_query(&b), Err(DecodeError::QuestionCount)));
}

#[test]
fn rejects_compression_pointer_in_question() {
    let mut b = sample_query_bytes();
    b[12] = 0xC0; // pointer where a label length should stand
    assert!(matches!(decode_query(&b), Err(DecodeError::Name)));
}

#[test]
fn rejects_name_past_end() {
    let b = vec![
        0x12, 0x34, 0x00, 0x00, 0x00, 0x01, 0x00, 0x00, 0x00, 0x00, 0x00, 0x00, //
        0x09, b'e', b'x', // label claims 9 bytes, datagram ends
    ];
    assert!(matches!(decode_query(&b), Err(DecodeError::Name)));
}

#[test]
fn rejects_truncated_question_tail() {
    let mut b = sample_query_bytes();
    b.truncate(b.len() - 2); // qclass missing
    assert!(matches!(decode_query(&b), Err(DecodeError::Truncated)));
}

#[test]
fn malformed_inputs_never_panic() {
    // Every prefix of a valid query, and some mangled bytes: decoding
    // always returns, with an error or a query, and never panics.
    let good = sample_query_bytes();
    for n in 0..good.len() {
        let _ = decode_query(&good[..n]);
    }
    for i in 0..good.len() {
        let mut b = good.clone();
        b[i] ^= 0xFF;
        let _ = decode_query(&b);
    }
}

#[test]
fn query_round_trip() {
    let b = encode_query(0xBEEF, true, b"www.example.org", 28, 1).unwrap();
    let q = decode_query(&b).unwrap();
    assert_eq!(q.id, 0xBEEF);
    assert!(q.rd);
    assert_eq!(q.name, b"www.example.org".to_vec());
    assert_eq!(q.qtype, 28);
    assert_eq!(q.qclass, 1);

    // Re-encoding a response preserves id and question bytes bit for bit.
    let r = encode_response(&q, RespCode::NoError, &Vec::new()).unwrap();
    assert_eq!(r[0..2], b[0..2]);
    let qlen = b.len() - 12; // name wire plus qtype and qclass
    assert_eq!(r[12..12 + qlen], b[12..12 + qlen]);
}

#[test]
fn encode_query_rejects_invalid_names() {
    assert!(encode_query(1, true, b".example.com", 1, 1).is_none());
    assert!(encode_query(1, true, b"example..com", 1, 1).is_none());
    assert!(encode_query(1, true, b"example.com.", 1, 1).is_none());
    assert!(encode_query(1, true, &[b'a'; 64], 1, 1).is_none());
    assert!(encode_query(1, true, b"example.com", 1, 1).is_some());
}

#[test]
fn check_name_policy() {
    assert!(check_name(b""));
    assert!(check_name(b"com"));
    assert!(check_name(b"ads.example.com"));
    assert!(check_name(&[b'a'; 63]));
    assert!(!check_name(&[b'a'; 64]));
    assert!(!check_name(b"."));
    assert!(!check_name(b"a..b"));
    assert!(!check_name(b"a.b."));
    assert!(!check_name(b".a"));
}

#[test]
fn encodes_nxdomain_response() {
    let q = Query { id: 0xABCD, rd: true, name: b"ads.example.com".to_vec(), qtype: 1, qclass: 1 };
    let r = encode_response(&q, RespCode::NxDomain, &Vec::new()).unwrap();
    assert_eq!(r[0], 0xAB);
    assert_eq!(r[1], 0xCD);
    assert_eq!(r[2], 0x81); // response, recursion desired echoed
    assert_eq!(r[3], 0x83); // recursion available, rcode NXDomain
    assert_eq!(&r[4..12], &[0, 1, 0, 0, 0, 0, 0, 0]); // one question, no answers
    let mut expect_q = vec![3u8];
    expect_q.extend_from_slice(b"ads");
    expect_q.push(7);
    expect_q.extend_from_slice(b"example");
    expect_q.push(3);
    expect_q.extend_from_slice(b"com");
    expect_q.push(0);
    expect_q.extend_from_slice(&[0, 1, 0, 1]);
    assert_eq!(&r[12..], &expect_q[..]);
}

#[test]
fn encodes_answer_records() {
    let q = Query { id: 1, rd: false, name: b"example.com".to_vec(), qtype: 1, qclass: 1 };
    let rr = ResourceRecord {
        name: b"example.com".to_vec(),
        rtype: 1,
        rclass: 1,
        ttl: 30,
        rdata: vec![93, 184, 216, 34],
    };
    let answers = vec![rr];
    let r = encode_response(&q, RespCode::NoError, &answers).unwrap();
    assert_eq!(r[2], 0x80); // response, no recursion desired
    assert_eq!(r[3], 0x80); // recursion available, rcode NoError
    assert_eq!(&r[4..12], &[0, 1, 0, 1, 0, 0, 0, 0]); // one question, one answer
    let name_wire_len = 1 + 7 + 1 + 3 + 1; // example com
    let answer_at = 12 + name_wire_len + 4;
    let expect_rr: Vec<u8> = {
        let mut v = vec![7u8];
        v.extend_from_slice(b"example");
        v.push(3);
        v.extend_from_slice(b"com");
        v.push(0);
        v.extend_from_slice(&[0, 1, 0, 1]); // type, class
        v.extend_from_slice(&[0, 0, 0, 30]); // ttl
        v.extend_from_slice(&[0, 4]); // rdata length
        v.extend_from_slice(&[93, 184, 216, 34]);
        v
    };
    assert_eq!(&r[answer_at..], &expect_rr[..]);
}

#[test]
fn encode_response_refuses_oversized_rdata() {
    let q = Query { id: 1, rd: false, name: b"example.com".to_vec(), qtype: 1, qclass: 1 };
    let rr = ResourceRecord {
        name: b"example.com".to_vec(),
        rtype: 16,
        rclass: 1,
        ttl: 1,
        rdata: vec![0u8; 0x10000],
    };
    assert!(encode_response(&q, RespCode::NoError, &vec![rr]).is_none());
}

#[test]
fn encode_response_refuses_invalid_query_name() {
    let q = Query { id: 1, rd: false, name: b"bad..name".to_vec(), qtype: 1, qclass: 1 };
    assert!(encode_response(&q, RespCode::NoError, &Vec::new()).is_none());
}
