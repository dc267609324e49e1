//! Wire codec for DNS-over-UDP messages.
//!
//! A request is a 12-byte header followed by one question; a response is the
//! same header with the response bit and response code set, the question
//! echoed, and the answer records appended. Decoding rejects, and never
//! panics on, malformed datagrams; encoding refuses a name or record set the
//! wire form cannot carry. `spec_decode` and the `spec_encode_*` functions
//! say byte for byte what the executable functions do.

use vstd::prelude::*;

use crate::name::{
    valid_name, name_wire, parse_name_from, read_name, push_name_wire, check_name,
    lemma_parse_name_from_ok, lemma_name_wire_len, lemma_parse_of_wire, lemma_parse_name_from_wire,
};

verus! {

/// Response code of an outbound message: the query resolved, the server
/// failed to resolve it, or the name does not exist (how this proxy answers
/// for a blocked domain).
#[derive(Clone, Copy, PartialEq, Eq, Structural, Debug)]
pub enum RespCode {
    NoError,
    ServFail,
    NxDomain,
}

/// The four-bit code a response carries for each `RespCode`.
pub open spec fn spec_rcode_value(code: RespCode) -> u8 {
    match code {
        RespCode::NoError => 0,
        RespCode::ServFail => 2,
        RespCode::NxDomain => 3,
    }
}

/// Maps a response code to the four-bit code its wire form carries.
pub fn rcode_value(code: RespCode) -> (v: u8)
    ensures
        v == spec_rcode_value(code),
{
    match code {
        RespCode::NoError => 0,
        RespCode::ServFail => 2,
        RespCode::NxDomain => 3,
    }
}

/// Why a datagram was rejected. The caller drops the datagram and sends
/// nothing back.
#[derive(Clone, Copy, PartialEq, Eq, Structural, Debug)]
pub enum DecodeError {
    /// Shorter than the 12-byte header, or the question's type and class run
    /// past the end.
    Truncated,
    /// The response bit is set or the opcode is not a standard query.
    Header,
    /// The question count is not exactly one.
    QuestionCount,
    /// The question's name does not parse (bad length byte, a compression
    /// pointer, a dot inside a label, or a name past the end).
    Name,
}

/// A decoded query: transaction id, the recursion-desired flag, and the one
/// question's name (dotted text, no trailing dot), type and class.
pub struct Query {
    pub id: u16,
    pub rd: bool,
    pub name: Vec<u8>,
    pub qtype: u16,
    pub qclass: u16,
}

/// Mathematical model of a `Query`.
#[verifier::ext_equal]
pub struct QueryModel {
    pub id: u16,
    pub rd: bool,
    pub name: Seq<u8>,
    pub qtype: u16,
    pub qclass: u16,
}

impl View for Query {
    type V = QueryModel;

    open spec fn view(&self) -> QueryModel {
        QueryModel {
            id: self.id,
            rd: self.rd,
            name: self.name@,
            qtype: self.qtype,
            qclass: self.qclass,
        }
    }
}

/// One answer record: owner name (dotted text), type, class, time to live in
/// seconds, and the raw record data.
pub struct ResourceRecord {
    pub name: Vec<u8>,
    pub rtype: u16,
    pub rclass: u16,
    pub ttl: u32,
    pub rdata: Vec<u8>,
}

/// Mathematical model of a `ResourceRecord`.
#[verifier::ext_equal]
pub struct RecordModel {
    pub name: Seq<u8>,
    pub rtype: u16,
    pub rclass: u16,
    pub ttl: u32,
    pub rdata: Seq<u8>,
}

impl View for ResourceRecord {
    type V = RecordModel;

    open spec fn view(&self) -> RecordModel {
        RecordModel {
            name: self.name@,
            rtype: self.rtype,
            rclass: self.rclass,
            ttl: self.ttl,
            rdata: self.rdata@,
        }
    }
}

impl DeepView for ResourceRecord {
    type V = RecordModel;

    open spec fn deep_view(&self) -> RecordModel {
        self.view()
    }
}

/// A record the wire form can carry: a valid owner name and record data
/// whose length fits the two-byte length field.
pub open spec fn record_wf(r: RecordModel) -> bool {
    &&& valid_name(r.name)
    &&& r.rdata.len() <= 0xFFFF
}

/// Says whether the wire form can carry this record, as `record_wf` defines.
pub fn check_record(r: &ResourceRecord) -> (b: bool)
    ensures
        b == record_wf(r@),
{
    check_name(r.name.as_slice()) && r.rdata.len() <= 0xFFFF
}

/// Copies one record.
pub fn clone_record(r: &ResourceRecord) -> (c: ResourceRecord)
    ensures
        c@ == r@,
{
    ResourceRecord {
        name: clone_bytes(&r.name),
        rtype: r.rtype,
        rclass: r.rclass,
        ttl: r.ttl,
        rdata: clone_bytes(&r.rdata),
    }
}

/// Copies a record list; the copy models the same record sequence.
pub fn clone_records(rs: &Vec<ResourceRecord>) -> (c: Vec<ResourceRecord>)
    ensures
        c.deep_view() =~= rs.deep_view(),
{
    let mut out: Vec<ResourceRecord> = Vec::new();
    let mut i: usize = 0;
    while i < rs.len()
        invariant
            i <= rs@.len(),
            out.deep_view() =~= rs.deep_view().subrange(0, i as int),
        decreases rs@.len() - i,
    {
        let ghost prev = out.deep_view();
        out.push(clone_record(&rs[i]));
        proof {
            assert(out.deep_view() =~= prev.push(rs.deep_view()[i as int]));
            assert(prev.push(rs.deep_view()[i as int]) =~= rs.deep_view().subrange(0, i + 1int));
        }
        i = i + 1;
    }
    out
}

/// Copies a byte vector.
pub fn clone_bytes(v: &Vec<u8>) -> (c: Vec<u8>)
    ensures
        c@ =~= v@,
{
    let mut out: Vec<u8> = Vec::new();
    let mut i: usize = 0;
    while i < v.len()
        invariant
            i <= v@.len(),
            out@ =~= v@.subrange(0, i as int),
        decreases v@.len() - i,
    {
        out.push(v[i]);
        i = i + 1;
    }
    out
}

/// The 16-bit value two big-endian bytes spell.
pub open spec fn be16_val(hi: u8, lo: u8) -> u16 {
    (hi as int * 256 + lo as int) as u16
}

/// Big-endian bytes of a 16-bit value.
pub open spec fn be16(x: u16) -> Seq<u8> {
    seq![(x / 256) as u8, (x % 256) as u8]
}

/// Big-endian bytes of a 32-bit value.
pub open spec fn be32(x: u32) -> Seq<u8> {
    seq![
        (x / 0x1000000) as u8,
        ((x / 0x10000) % 256) as u8,
        ((x / 256) % 256) as u8,
        (x % 256) as u8,
    ]
}

/// Appends the two big-endian bytes of `x` to `out`.
fn push_be16(out: &mut Vec<u8>, x: u16)
    ensures
        final(out)@ =~= old(out)@ + be16(x),
{
    out.push((x / 256) as u8);
    out.push((x % 256) as u8);
}

/// Appends the four big-endian bytes of `x` to `out`.
fn push_be32(out: &mut Vec<u8>, x: u32)
    ensures
        final(out)@ =~= old(out)@ + be32(x),
{
    out.push((x / 0x1000000) as u8);
    out.push(((x / 0x10000) % 256) as u8);
    out.push(((x / 256) % 256) as u8);
    out.push((x % 256) as u8);
}

/// Reads the 16-bit value at positions `i`, `i + 1` of `b`.
fn read_be16(b: &[u8], i: usize) -> (x: u16)
    requires
        i + 1 < b@.len(),
    ensures
        x == be16_val(b@[i as int], b@[i as int + 1]),
{
    (b[i] as u16) * 256 + (b[i + 1] as u16)
}

/// What decoding a datagram yields, byte for byte: the checks on the header,
/// then the one question. Flag bits are read arithmetically: the response
/// bit is the top bit of the third byte, the opcode its next four bits, and
/// recursion-desired its lowest bit.
pub open spec fn spec_decode(b: Seq<u8>) -> Result<QueryModel, DecodeError> {
    if b.len() < 12 {
        Err(DecodeError::Truncated)
    } else if b[2] / 128 != 0 || (b[2] / 8) % 16 != 0 {
        Err(DecodeError::Header)
    } else if !(b[4] == 0 && b[5] == 1) {
        Err(DecodeError::QuestionCount)
    } else {
        match parse_name_from(b, 12) {
            None => Err(DecodeError::Name),
            Some(p) => if p.end + 4 > b.len() {
                Err(DecodeError::Truncated)
            } else {
                Ok(
                    (QueryModel {
                        id: be16_val(b[0], b[1]),
                        rd: b[2] % 2 == 1,
                        name: p.name,
                        qtype: be16_val(b[p.end], b[p.end + 1]),
                        qclass: be16_val(b[p.end + 2], b[p.end + 3]),
                    }),
                )
            },
        }
    }
}

/// Decodes one inbound datagram, exactly as `spec_decode` says. On any
/// malformed input it returns the error and touches nothing; a decoded
/// query always carries a valid name.
pub fn decode_query(b: &[u8]) -> (r: Result<Query, DecodeError>)
    ensures
        (match r {
            Ok(q) => spec_decode(b@) == Ok::<QueryModel, DecodeError>(q@) && valid_name(q@.name),
            Err(e) => spec_decode(b@) == Err::<QueryModel, DecodeError>(e),
        }),
{
    if b.len() < 12 {
        return Err(DecodeError::Truncated);
    }
    let flags_hi = b[2];
    if flags_hi / 128 != 0 || (flags_hi / 8) % 16 != 0 {
        return Err(DecodeError::Header);
    }
    if !(b[4] == 0 && b[5] == 1) {
        return Err(DecodeError::QuestionCount);
    }
    match read_name(b, 12) {
        None => Err(DecodeError::Name),
        Some((nm, end)) => {
            if b.len() - end < 4 {
                return Err(DecodeError::Truncated);
            }
            proof {
                lemma_parse_name_from_ok(b@, 12);
            }
            let id = read_be16(b, 0);
            let qtype = read_be16(b, end);
            let qclass = read_be16(b, end + 2);
            Ok(Query { id, rd: flags_hi % 2 == 1, name: nm, qtype, qclass })
        },
    }
}

/// The bytes of an outbound query for `(name, qtype, qclass)` under
/// transaction id `id`: a header with the recursion-desired flag and one
/// question, then the question itself.
pub open spec fn spec_encode_query(
    id: u16,
    rd: bool,
    name: Seq<u8>,
    qtype: u16,
    qclass: u16,
) -> Seq<u8> {
    be16(id) + seq![if rd { 1u8 } else { 0u8 }, 0u8, 0u8, 1u8, 0u8, 0u8, 0u8, 0u8, 0u8, 0u8]
        + name_wire(name) + be16(qtype) + be16(qclass)
}

/// Encodes a query, exactly as `spec_encode_query` says. It returns a value
/// if and only if the name is valid text for a domain name.
pub fn encode_query(id: u16, rd: bool, name: &[u8], qtype: u16, qclass: u16) -> (r: Option<
    Vec<u8>,
>)
    ensures
        r is Some <==> valid_name(name@),
        (r matches Some(out) ==> out@ =~= spec_encode_query(id, rd, name@, qtype, qclass)),
{
    if !check_name(name) {
        return None;
    }
    let mut out: Vec<u8> = Vec::new();
    push_be16(&mut out, id);
    out.push(if rd { 1 } else { 0 });
    out.push(0);
    out.push(0);
    out.push(1);
    out.push(0);
    out.push(0);
    out.push(0);
    out.push(0);
    out.push(0);
    out.push(0);
    push_name_wire(&mut out, name);
    push_be16(&mut out, qtype);
    push_be16(&mut out, qclass);
    Some(out)
}

/// Wire form of one answer record.
pub open spec fn record_wire(r: RecordModel) -> Seq<u8> {
    name_wire(r.name) + be16(r.rtype) + be16(r.rclass) + be32(r.ttl) + be16(r.rdata.len() as u16)
        + r.rdata
}

/// Wire form of an answer section: the records one after the other.
pub open spec fn answers_wire(rs: Seq<RecordModel>) -> Seq<u8>
    decreases rs.len(),
{
    if rs.len() == 0 {
        Seq::empty()
    } else {
        answers_wire(rs.drop_last()) + record_wire(rs.last())
    }
}

/// A response the wire form can carry: the question's name is valid, every
/// record is well formed, and the answer count fits its two-byte field.
pub open spec fn spec_encodable(q: QueryModel, answers: Seq<RecordModel>) -> bool {
    &&& valid_name(q.name)
    &&& answers.len() <= 0xFFFF
    &&& forall|i: int| 0 <= i < answers.len() ==> record_wf(#[trigger] answers[i])
}

/// The bytes of a response to query `q` with the given code and answers: the
/// query's own transaction id, the response bit, its recursion-desired flag
/// echoed, the recursion-available bit, the question echoed, the answers
/// appended.
pub open spec fn spec_encode_response(
    q: QueryModel,
    code: RespCode,
    answers: Seq<RecordModel>,
) -> Seq<u8> {
    be16(q.id) + seq![if q.rd { 129u8 } else { 128u8 }, (128 + spec_rcode_value(code)) as u8]
        + seq![0u8, 1u8] + be16(answers.len() as u16) + seq![0u8, 0u8, 0u8, 0u8]
        + name_wire(q.name) + be16(q.qtype) + be16(q.qclass) + answers_wire(answers)
}

/// Appends the wire form of one answer record to `out`.
fn push_record(out: &mut Vec<u8>, r: &ResourceRecord)
    requires
        record_wf(r@),
    ensures
        final(out)@ =~= old(out)@ + record_wire(r@),
{
    push_name_wire(out, r.name.as_slice());
    push_be16(out, r.rtype);
    push_be16(out, r.rclass);
    push_be32(out, r.ttl);
    push_be16(out, r.rdata.len() as u16);
    let mut i: usize = 0;
    let ghost before = out@;
    while i < r.rdata.len()
        invariant
            i <= r.rdata@.len(),
            out@ =~= before + r.rdata@.subrange(0, i as int),
        decreases r.rdata@.len() - i,
    {
        out.push(r.rdata[i]);
        i = i + 1;
    }
}

/// Encodes a response, exactly as `spec_encode_response` says. It returns a
/// value if and only if the wire form can carry the question and the
/// answers; on refusal the caller drops this one response.
pub fn encode_response(q: &Query, code: RespCode, answers: &Vec<ResourceRecord>) -> (r: Option<
    Vec<u8>,
>)
    ensures
        r is Some <==> spec_encodable(q@, answers.deep_view()),
        (r matches Some(out) ==> out@ =~= spec_encode_response(q@, code, answers.deep_view())),
{
    if !check_name(q.name.as_slice()) {
        return None;
    }
    if answers.len() > 0xFFFF {
        return None;
    }
    let mut i: usize = 0;
    while i < answers.len()
        invariant
            i <= answers@.len(),
            forall|j: int| 0 <= j < i ==> record_wf(#[trigger] answers.deep_view()[j]),
        decreases answers@.len() - i,
    {
        if !check_record(&answers[i]) {
            proof {
                assert(!record_wf(answers.deep_view()[i as int]));
            }
            return None;
        }
        i = i + 1;
    }
    let mut out: Vec<u8> = Vec::new();
    push_be16(&mut out, q.id);
    out.push(if q.rd { 129 } else { 128 });
    out.push(128 + rcode_value(code));
    out.push(0);
    out.push(1);
    push_be16(&mut out, answers.len() as u16);
    out.push(0);
    out.push(0);
    out.push(0);
    out.push(0);
    push_name_wire(&mut out, q.name.as_slice());
    push_be16(&mut out, q.qtype);
    push_be16(&mut out, q.qclass);
    let ghost head = out@;
    let mut k: usize = 0;
    while k < answers.len()
        invariant
            k <= answers@.len(),
            forall|j: int| 0 <= j < answers@.len() ==> record_wf(#[trigger] answers.deep_view()[j]),
            out@ =~= head + answers_wire(answers.deep_view().subrange(0, k as int)),
        decreases answers@.len() - k,
    {
        proof {
            assert(record_wf(answers.deep_view()[k as int]));
            assert(answers.deep_view()[k as int] == answers@[k as int]@);
        }
        push_record(&mut out, &answers[k]);
        proof {
            let dv = answers.deep_view();
            assert(dv.subrange(0, k + 1int).drop_last() =~= dv.subrange(0, k as int));
            assert(dv.subrange(0, k + 1int).last() == dv[k as int]);
        }
        k = k + 1;
    }
    proof {
        assert(answers.deep_view().subrange(0, answers@.len() as int) =~= answers.deep_view());
    }
    Some(out)
}

/// Decode-side round trip: any datagram that decodes successfully carries
/// its question section exactly as the decoder models it, so a response
/// built for the decoded query echoes the inbound transaction id and the
/// whole question section byte for byte.
pub proof fn lemma_decode_round_trip(b: Seq<u8>, code: RespCode, answers: Seq<RecordModel>)
    requires
        spec_decode(b) is Ok,
    ensures
        ({
            let m = spec_decode(b)->Ok_0;
            let rb = spec_encode_response(m, code, answers);
            let qlen = name_wire(m.name).len() + 4;
            &&& 12 + qlen <= b.len()
            &&& rb.subrange(0, 2) =~= b.subrange(0, 2)
            &&& rb.subrange(12, 12 + qlen as int) =~= b.subrange(12, 12 + qlen as int)
        }),
{
    let m = spec_decode(b)->Ok_0;
    let rb = spec_encode_response(m, code, answers);
    let p = parse_name_from(b, 12)->Some_0;
    lemma_parse_name_from_ok(b, 12);
    lemma_parse_name_from_wire(b, 12);
    let w = name_wire(m.name);
    assert(p.end == 12 + w.len());
    // The id bytes encode back to themselves.
    assert(m.id == be16_val(b[0], b[1]));
    lemma_be16_of_val(b[0], b[1]);
    assert(rb[0] == b[0] && rb[1] == b[1]);
    // The question's name is spelled by the very bytes that were parsed.
    assert(rb.subrange(12, 12 + w.len() as int) =~= w);
    // The type and class bytes encode back to themselves.
    lemma_be16_of_val(b[p.end], b[p.end + 1]);
    lemma_be16_of_val(b[p.end + 2], b[p.end + 3]);
    assert(rb[12 + w.len() as int] == b[p.end]);
    assert(rb[12 + w.len() as int + 1] == b[p.end + 1]);
    assert(rb[12 + w.len() as int + 2] == b[p.end + 2]);
    assert(rb[12 + w.len() as int + 3] == b[p.end + 3]);
    assert(rb.subrange(12, 12 + (w.len() + 4) as int) =~= b.subrange(
        12,
        12 + (w.len() + 4) as int,
    ));
}

/// Two big-endian bytes spell the value they spell: encoding `be16_val`
/// gives the bytes back.
proof fn lemma_be16_of_val(hi: u8, lo: u8)
    ensures
        be16(be16_val(hi, lo)) =~= seq![hi, lo],
{
    let x = be16_val(hi, lo);
    assert(x == hi as int * 256 + lo as int);
    assert(x / 256 == hi as int) by {
        assert((hi as int * 256 + lo as int) / 256 == hi as int) by (nonlinear_arith)
            requires
                0 <= lo < 256,
                0 <= hi,
        ;
    }
    assert(x % 256 == lo as int) by {
        assert((hi as int * 256 + lo as int) % 256 == lo as int) by (nonlinear_arith)
            requires
                0 <= lo < 256,
                0 <= hi,
        ;
    }
}

/// Transaction-id law: a response carries the id of the query it answers —
/// also when its records came from the cache, stored there by a request
/// with a different id, the encoder stamps the answering query's own id.
pub proof fn lemma_response_id(q: QueryModel, code: RespCode, answers: Seq<RecordModel>)
    ensures
        ({
            let rb = spec_encode_response(q, code, answers);
            &&& rb.len() >= 2
            &&& be16_val(rb[0], rb[1]) == q.id
        }),
{
    let rb = spec_encode_response(q, code, answers);
    assert(rb[0] == (q.id / 256) as u8);
    assert(rb[1] == (q.id % 256) as u8);
    assert(q.id / 256 <= 255);
    assert(q.id as int / 256 * 256 + q.id as int % 256 == q.id as int);
}

/// Round-trip law: decoding a validly encoded query yields exactly that
/// query back, and any response then built for it carries the query's
/// transaction id and its whole question section byte for byte.
pub proof fn lemma_round_trip(
    id: u16,
    rd: bool,
    name: Seq<u8>,
    qtype: u16,
    qclass: u16,
    code: RespCode,
    answers: Seq<RecordModel>,
)
    requires
        valid_name(name),
    ensures
        spec_decode(spec_encode_query(id, rd, name, qtype, qclass)) == Ok::<
            QueryModel,
            DecodeError,
        >((QueryModel { id, rd, name, qtype, qclass })),
        ({
            let qb = spec_encode_query(id, rd, name, qtype, qclass);
            let rb = spec_encode_response((QueryModel { id, rd, name, qtype, qclass }), code, answers);
            &&& rb.len() >= 16 + name_wire(name).len()
            &&& rb.subrange(0, 2) =~= qb.subrange(0, 2)
            &&& rb.subrange(12, 16 + name_wire(name).len() as int) =~= qb.subrange(
                12,
                16 + name_wire(name).len() as int,
            )
        }),
{
    let w = name_wire(name);
    lemma_name_wire_len(name, 0);
    let qb = spec_encode_query(id, rd, name, qtype, qclass);
    assert(qb.len() == 12 + w.len() + 4);
    assert(qb.subrange(12, 12 + w.len() as int) =~= w);
    lemma_parse_of_wire(qb, 12, name);
    let p = parse_name_from(qb, 12)->Some_0;
    assert(p.end == 12 + w.len());
    assert(qb[0] == (id / 256) as u8);
    assert(qb[1] == (id % 256) as u8);
    assert(be16_val(qb[0], qb[1]) == id) by {
        assert(id / 256 <= 255);
        assert((id / 256) as u8 as int == id as int / 256);
        assert((id % 256) as u8 as int == id as int % 256);
        assert(id as int / 256 * 256 + id as int % 256 == id as int);
    }
    assert(qb[2] == if rd { 1u8 } else { 0u8 });
    assert(qb[2] / 128 == 0 && (qb[2] / 8) % 16 == 0);
    assert((qb[2] % 2 == 1) == rd);
    assert(qb[4] == 0u8 && qb[5] == 1u8);
    let e = p.end;
    assert(qb[e] == (qtype / 256) as u8);
    assert(qb[e + 1] == (qtype % 256) as u8);
    assert(qb[e + 2] == (qclass / 256) as u8);
    assert(qb[e + 3] == (qclass % 256) as u8);
    assert(be16_val(qb[e], qb[e + 1]) == qtype) by {
        assert(qtype / 256 <= 255);
        assert(qtype as int / 256 * 256 + qtype as int % 256 == qtype as int);
    }
    assert(be16_val(qb[e + 2], qb[e + 3]) == qclass) by {
        assert(qclass / 256 <= 255);
        assert(qclass as int / 256 * 256 + qclass as int % 256 == qclass as int);
    }
    assert(spec_decode(qb) == Ok::<QueryModel, DecodeError>(
        (QueryModel { id, rd, name, qtype, qclass }),
    ));
    let rb = spec_encode_response((QueryModel { id, rd, name, qtype, qclass }), code, answers);
    assert(rb.len() == 12 + w.len() + 4 + answers_wire(answers).len());
    assert(rb.subrange(0, 2) =~= qb.subrange(0, 2));
    assert(rb.subrange(12, 16 + w.len() as int) =~= qb.subrange(12, 16 + w.len() as int));
}

} // verus!
