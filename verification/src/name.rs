//! Textual domain names and their wire form.
//!
//! A domain name is kept as the bytes of its dotted text, with no trailing
//! dot: `b"ads.example.com"`. On the wire each label is preceded by its
//! length and the name ends with a zero byte. A textual name is valid when
//! every label (maximal dot-free run) has 1 to 63 bytes; the empty name is
//! the root. Compressed names (pointer bytes) are not accepted: a question
//! section has nothing earlier to point at.

use vstd::prelude::*;

verus! {

/// The byte that separates labels in the textual form of a name.
pub const DOT: u8 = 46;

/// Longest label the wire form can carry: the two top bits of a length byte
/// are reserved, so a length is at most 63.
pub const MAX_LABEL: usize = 63;

/// Number of bytes of the label that starts at position `i` of `name`:
/// the bytes before the next dot or the end of the name.
pub open spec fn label_len_from(name: Seq<u8>, i: int) -> int
    decreases name.len() - i,
{
    if i < 0 || i >= name.len() || name[i] == DOT {
        0
    } else {
        1 + label_len_from(name, i + 1)
    }
}

/// The label starting at `i` runs to the next dot: its bytes are dot-free,
/// it stays inside the name, and it is followed by a dot or the end.
pub proof fn lemma_label_len_from(name: Seq<u8>, i: int)
    requires
        0 <= i <= name.len(),
    ensures
        0 <= label_len_from(name, i),
        i + label_len_from(name, i) <= name.len(),
        forall|j: int| i <= j < i + label_len_from(name, i) ==> name[j] != DOT,
        i + label_len_from(name, i) < name.len() ==> name[i + label_len_from(name, i)] == DOT,
    decreases name.len() - i,
{
    if i < name.len() && name[i] != DOT {
        lemma_label_len_from(name, i + 1);
    }
}

/// A stretch of dot-free bytes ending at a dot or at the end of the name is
/// exactly the label: `label_len_from` equals its length.
pub proof fn lemma_label_len_from_exact(name: Seq<u8>, i: int, j: int)
    requires
        0 <= i <= j <= name.len(),
        forall|m: int| i <= m < j ==> name[m] != DOT,
        j == name.len() || name[j] == DOT,
    ensures
        label_len_from(name, i) == j - i,
    decreases j - i,
{
    if i < j {
        lemma_label_len_from_exact(name, i + 1, j);
    }
}

/// A textual name is valid from position `i` on when each of its labels has
/// 1 to 63 bytes and no dot begins or ends the name or doubles up.
/// `valid_name_from(name, name.len())` is the root name.
pub open spec fn valid_name_from(name: Seq<u8>, i: int) -> bool
    decreases name.len() - i,
{
    if i >= name.len() {
        true
    } else {
        let k = label_len_from(name, i);
        &&& 1 <= k <= MAX_LABEL
        &&& (i + k == name.len() || (i + k + 1 < name.len() && valid_name_from(name, i + k + 1)))
    }
}

/// A whole textual name is valid: empty (the root), or dotted labels of
/// 1 to 63 bytes each.
pub open spec fn valid_name(name: Seq<u8>) -> bool {
    valid_name_from(name, 0)
}

/// Wire form of the part of `name` that starts at position `i`: each label
/// preceded by its length, closed by a zero byte.
pub open spec fn name_wire_from(name: Seq<u8>, i: int) -> Seq<u8>
    decreases name.len() - i,
    via name_wire_from_decreases
{
    if i < 0 || i >= name.len() {
        seq![0u8]
    } else {
        let k = label_len_from(name, i);
        if i + k == name.len() {
            seq![k as u8] + name.subrange(i, i + k) + seq![0u8]
        } else {
            seq![k as u8] + name.subrange(i, i + k) + name_wire_from(name, i + k + 1)
        }
    }
}

#[via_fn]
proof fn name_wire_from_decreases(name: Seq<u8>, i: int) {
    if 0 <= i && i < name.len() {
        lemma_label_len_from(name, i);
    }
}

/// Wire form of a whole textual name.
pub open spec fn name_wire(name: Seq<u8>) -> Seq<u8> {
    name_wire_from(name, 0)
}

/// Length of the wire form of a valid name: one byte for the root, else the
/// text plus a leading length byte and the closing zero.
pub proof fn lemma_name_wire_len(name: Seq<u8>, i: int)
    requires
        0 <= i <= name.len(),
        valid_name_from(name, i),
    ensures
        name_wire_from(name, i).len() == if i == name.len() {
            1int
        } else {
            name.len() - i + 2
        },
    decreases name.len() - i,
{
    if i < name.len() {
        let k = label_len_from(name, i);
        lemma_label_len_from(name, i);
        if i + k < name.len() {
            lemma_name_wire_len(name, i + k + 1);
        }
    }
}

/// Everything a successful name parse yields: the textual name and the
/// position just past the closing zero byte.
#[verifier::ext_equal]
pub struct ParsedName {
    pub name: Seq<u8>,
    pub end: int,
}

/// Parses the wire form of a name found at position `i` of `b`: labels are
/// read until a zero byte. Fails on a length byte above 63 (reserved bits or
/// a compression pointer), on a label holding a dot (its text could not be
/// told from two labels), and on a name that runs past the end of `b`.
pub open spec fn parse_name_from(b: Seq<u8>, i: int) -> Option<ParsedName>
    decreases b.len() - i,
{
    if i < 0 || i >= b.len() {
        None
    } else {
        let l = b[i] as int;
        if l == 0 {
            Some((ParsedName { name: Seq::empty(), end: i + 1 }))
        } else if l > MAX_LABEL || i + 1 + l > b.len() {
            None
        } else {
            let label = b.subrange(i + 1, i + 1 + l);
            if label.contains(DOT) {
                None
            } else {
                match parse_name_from(b, i + 1 + l) {
                    None => None,
                    Some(rest) => Some(
                        (ParsedName {
                            name: if rest.name.len() == 0 {
                                label
                            } else {
                                label + seq![DOT] + rest.name
                            },
                            end: rest.end,
                        }),
                    ),
                }
            }
        }
    }
}

/// A parsed name is valid text and ends inside the buffer.
pub proof fn lemma_parse_name_from_ok(b: Seq<u8>, i: int)
    requires
        parse_name_from(b, i) is Some,
    ensures
        0 <= i < parse_name_from(b, i)->Some_0.end <= b.len(),
        valid_name(parse_name_from(b, i)->Some_0.name),
    decreases b.len() - i,
{
    let l = b[i] as int;
    if l != 0 {
        let label = b.subrange(i + 1, i + 1 + l);
        let rest = parse_name_from(b, i + 1 + l)->Some_0;
        lemma_parse_name_from_ok(b, i + 1 + l);
        let name = parse_name_from(b, i)->Some_0.name;
        assert forall|m: int| 0 <= m < l implies name[m] != DOT by {
            assert(label[m] == name[m]);
            assert(!label.contains(DOT));
        }
        if rest.name.len() == 0 {
            lemma_label_len_from_exact(name, 0, l);
        } else {
            assert(name[l] == DOT);
            lemma_label_len_from_exact(name, 0, l);
            assert(name.subrange(l + 1, name.len() as int) =~= rest.name);
            lemma_valid_name_shift(rest.name, name, l + 1);
        }
    }
}

/// Validity of a name is validity of its text wherever that text stands:
/// if `whole` carries `tail` from position `d` on, the positions correspond.
proof fn lemma_valid_name_shift(tail: Seq<u8>, whole: Seq<u8>, d: int)
    requires
        0 <= d <= whole.len(),
        tail =~= whole.subrange(d, whole.len() as int),
        valid_name(tail),
    ensures
        valid_name_from(whole, d),
    decreases whole.len() - d,
{
    lemma_valid_name_shift_from(tail, whole, d, 0);
}

/// As `lemma_valid_name_shift`, from position `j` of the tail on.
proof fn lemma_valid_name_shift_from(tail: Seq<u8>, whole: Seq<u8>, d: int, j: int)
    requires
        0 <= d <= whole.len(),
        0 <= j <= tail.len(),
        tail =~= whole.subrange(d, whole.len() as int),
        valid_name_from(tail, j),
    ensures
        valid_name_from(whole, d + j),
    decreases tail.len() - j,
{
    if j < tail.len() {
        let k = label_len_from(tail, j);
        lemma_label_len_from(tail, j);
        assert forall|m: int| d + j <= m < d + j + k implies whole[m] != DOT by {
            assert(tail[m - d] != DOT);
        }
        if j + k < tail.len() {
            assert(whole[d + j + k] == tail[j + k]);
            lemma_label_len_from_exact(whole, d + j, d + j + k);
            lemma_valid_name_shift_from(tail, whole, d, j + k + 1);
        } else {
            lemma_label_len_from_exact(whole, d + j, d + j + k);
        }
    }
}

/// A label's length is a fact of the text alone: it reads the same wherever
/// the text stands in a longer sequence.
proof fn lemma_label_len_shift(tail: Seq<u8>, whole: Seq<u8>, d: int, j: int)
    requires
        0 <= d,
        d + tail.len() == whole.len(),
        tail =~= whole.subrange(d, whole.len() as int),
        0 <= j <= tail.len(),
    ensures
        label_len_from(whole, d + j) == label_len_from(tail, j),
{
    let k = label_len_from(tail, j);
    lemma_label_len_from(tail, j);
    assert forall|m: int| d + j <= m < d + j + k implies whole[m] != DOT by {
        assert(tail[m - d] != DOT);
    }
    if j + k < tail.len() {
        assert(whole[d + j + k] == tail[j + k]);
    }
    lemma_label_len_from_exact(whole, d + j, d + j + k);
}

/// A name's wire form is a fact of the text alone: it reads the same
/// wherever the text stands in a longer sequence.
proof fn lemma_wire_shift(tail: Seq<u8>, whole: Seq<u8>, d: int, j: int)
    requires
        0 <= d,
        d + tail.len() == whole.len(),
        tail =~= whole.subrange(d, whole.len() as int),
        0 <= j <= tail.len(),
    ensures
        name_wire_from(whole, d + j) == name_wire_from(tail, j),
    decreases tail.len() - j,
{
    lemma_label_len_shift(tail, whole, d, j);
    if j < tail.len() {
        let k = label_len_from(tail, j);
        lemma_label_len_from(tail, j);
        assert(whole.subrange(d + j, d + j + k) =~= tail.subrange(j, j + k)) by {
            assert forall|m: int| 0 <= m < k implies #[trigger] whole.subrange(d + j, d + j + k)[m]
                == tail.subrange(j, j + k)[m] by {
                assert(whole[d + j + m] == tail[j + m]);
            }
        }
        if j + k < tail.len() {
            lemma_wire_shift(tail, whole, d, j + k + 1);
        }
    }
}

/// A parsed name occupies exactly its own wire form: the bytes from `i` to
/// where the parse stopped spell `name_wire` of the name it yielded.
pub proof fn lemma_parse_name_from_wire(b: Seq<u8>, i: int)
    requires
        parse_name_from(b, i) is Some,
    ensures
        ({
            let p = parse_name_from(b, i)->Some_0;
            &&& name_wire(p.name).len() == p.end - i
            &&& b.subrange(i, p.end) =~= name_wire(p.name)
        }),
    decreases b.len() - i,
{
    let p = parse_name_from(b, i)->Some_0;
    let l = b[i] as int;
    if l == 0 {
        assert(name_wire(p.name) =~= seq![0u8]);
        assert(b.subrange(i, i + 1) =~= seq![0u8]);
    } else {
        let label = b.subrange(i + 1, i + 1 + l);
        let rest = parse_name_from(b, i + 1 + l)->Some_0;
        lemma_parse_name_from_ok(b, i + 1 + l);
        lemma_parse_name_from_wire(b, i + 1 + l);
        let name = p.name;
        assert forall|m: int| 0 <= m < l implies name[m] != DOT by {
            assert(label[m] == name[m]);
            assert(!label.contains(DOT));
        }
        if rest.name.len() == 0 {
            // The wire closes right after this label.
            lemma_label_len_from_exact(name, 0, l);
            assert(name_wire(rest.name) =~= seq![0u8]);
            assert(b[i + 1 + l] == 0) by {
                assert(b.subrange(i + 1 + l, rest.end)[0] == name_wire(rest.name)[0]);
            }
            assert(name.subrange(0, l) =~= label);
            assert(name_wire(name) =~= seq![l as u8] + name.subrange(0, l) + seq![0u8]);
            assert(b.subrange(i, rest.end) =~= seq![l as u8] + label + seq![0u8]);
        } else {
            // A dot joins this label to the parsed rest of the name.
            assert(name[l] == DOT);
            lemma_label_len_from_exact(name, 0, l);
            assert(name.subrange(0, l) =~= label);
            assert(rest.name =~= name.subrange(l + 1, name.len() as int));
            lemma_wire_shift(rest.name, name, l + 1, 0);
            assert(name_wire_from(name, l + 1) == name_wire(rest.name));
            assert(name_wire(name) == seq![l as u8] + name.subrange(0, l) + name_wire_from(
                name,
                l + 1,
            ));
            assert(b.subrange(i, rest.end) =~= seq![l as u8] + label + b.subrange(
                i + 1 + l,
                rest.end,
            ));
            assert(b.subrange(i + 1 + l, rest.end) =~= name_wire(rest.name));
        }
    }
}

/// Parsing reads back what the wire form spells: wherever the wire form of a
/// valid name stands in a buffer, the parse succeeds, yields that name, and
/// stops just past its closing zero byte.
pub proof fn lemma_parse_of_wire(b: Seq<u8>, i: int, name: Seq<u8>)
    requires
        valid_name(name),
        0 <= i,
        i + name_wire(name).len() <= b.len(),
        b.subrange(i, i + name_wire(name).len()) =~= name_wire(name),
    ensures
        parse_name_from(b, i) == Some((ParsedName { name, end: i + name_wire(name).len() })),
{
    lemma_parse_of_wire_from(b, i, name, 0);
    assert(name.subrange(0, name.len() as int) =~= name);
}

/// As `lemma_parse_of_wire`, for the part of the name from position `j` on.
proof fn lemma_parse_of_wire_from(b: Seq<u8>, i: int, name: Seq<u8>, j: int)
    requires
        0 <= j <= name.len(),
        valid_name_from(name, j),
        0 <= i,
        i + name_wire_from(name, j).len() <= b.len(),
        b.subrange(i, i + name_wire_from(name, j).len()) =~= name_wire_from(name, j),
    ensures
        parse_name_from(b, i) == Some(
            (ParsedName {
                name: name.subrange(j, name.len() as int),
                end: i + name_wire_from(name, j).len(),
            }),
        ),
    decreases name.len() - j,
{
    let w = name_wire_from(name, j);
    if j == name.len() {
        assert(b[i] == w[0]);
        assert(name.subrange(j, name.len() as int) =~= Seq::<u8>::empty());
    } else {
        let k = label_len_from(name, j);
        lemma_label_len_from(name, j);
        lemma_name_wire_len(name, j);
        assert(b[i] == w[0]);
        assert(w[0] == k as u8);
        let l = b[i] as int;
        assert(l == k);
        let label = b.subrange(i + 1, i + 1 + l);
        assert(label =~= name.subrange(j, j + k)) by {
            assert forall|m: int| 0 <= m < k implies label[m] == name[j + m] by {
                assert(label[m] == b[i + 1 + m]);
                assert(b[i + 1 + m] == w[1 + m]);
                assert(w[1 + m] == name.subrange(j, j + k)[m]);
            }
        }
        assert(!label.contains(DOT)) by {
            assert forall|m: int| 0 <= m < label.len() implies label[m] != DOT by {
                assert(label[m] == name[j + m]);
            }
        }
        if j + k == name.len() {
            // The label is the last: the wire closes with the zero byte.
            assert(b[i + 1 + l] == w[1 + k]);
            assert(w[1 + k] == 0);
            assert(parse_name_from(b, i + 1 + l) == Some(
                (ParsedName { name: Seq::<u8>::empty(), end: i + 1 + l + 1 }),
            ));
            assert(name.subrange(j, name.len() as int) =~= label);
        } else {
            // A dot follows: the rest of the name parses by induction.
            let tail = name_wire_from(name, j + k + 1);
            lemma_name_wire_len(name, j + k + 1);
            assert(b.subrange(i + 1 + k, i + 1 + k + tail.len()) =~= tail) by {
                assert forall|m: int| 0 <= m < tail.len() implies
                    b.subrange(i + 1 + k, i + 1 + k + tail.len())[m] == tail[m] by {
                    assert(b[i + 1 + k + m] == w[1 + k + m]);
                    assert(w[1 + k + m] == tail[m]);
                }
            }
            lemma_parse_of_wire_from(b, i + 1 + k, name, j + k + 1);
            let rest = parse_name_from(b, i + 1 + l)->Some_0;
            assert(rest.name.len() == name.len() - (j + k + 1));
            assert(rest.name.len() > 0);
            assert(label + seq![DOT] + rest.name =~= name.subrange(j, name.len() as int)) by {
                assert(name[j + k] == DOT);
                assert forall|m: int| 0 <= m < name.len() - j implies
                    (label + seq![DOT] + rest.name)[m] == name[j + m] by {
                    if m < k {
                        assert(label[m] == name[j + m]);
                    } else if m > k {
                        assert(rest.name[m - k - 1] == name.subrange(j + k + 1, name.len() as int)[m - k - 1]);
                    }
                }
            }
            assert(i + 1 + k + tail.len() == i + w.len());
        }
    }
}

/// Reads the wire form of a name at position `i` of `b`, as
/// `parse_name_from` describes, and hands back the textual name with the
/// position just past its closing zero byte.
pub fn read_name(b: &[u8], i: usize) -> (r: Option<(Vec<u8>, usize)>)
    ensures
        (match r {
            Some(p) => {
                &&& parse_name_from(b@, i as int) == Some(
                    (ParsedName { name: p.0@, end: p.1 as int }),
                )
                &&& i < p.1 <= b@.len()
            },
            None => parse_name_from(b@, i as int) is None,
        }),
    decreases b@.len() - i,
{
    if i >= b.len() {
        return None;
    }
    let l = b[i];
    if l == 0 {
        let name: Vec<u8> = Vec::new();
        assert(name@ =~= Seq::<u8>::empty());
        return Some((name, i + 1));
    }
    if l as usize > MAX_LABEL || b.len() - i - 1 < l as usize {
        return None;
    }
    let lab_end: usize = i + 1 + l as usize;
    let mut label: Vec<u8> = Vec::new();
    let mut m: usize = i + 1;
    while m < lab_end
        invariant
            i + 1 <= m <= lab_end <= b@.len(),
            lab_end == i + 1 + b@[i as int] as int,
            label@ =~= b@.subrange(i + 1, m as int),
            !label@.contains(DOT),
        decreases lab_end - m,
    {
        if b[m] == DOT {
            proof {
                let full = b@.subrange(i + 1, lab_end as int);
                assert(full[m - i - 1] == DOT);
                assert(full.contains(DOT));
            }
            return None;
        }
        label.push(b[m]);
        proof {
            assert(label@ =~= b@.subrange(i + 1, m + 1int));
            assert forall|x: int| 0 <= x < label@.len() implies label@[x] != DOT by {
                if x < m - i - 1 {
                    assert(b@.subrange(i + 1, m as int)[x] != DOT);
                }
            }
        }
        m = m + 1;
    }
    assert(label@ =~= b@.subrange(i + 1, i + 1 + l as int));
    let ghost glabel = label@;
    match read_name(b, lab_end) {
        None => None,
        Some((rest, end)) => {
            let mut name = label;
            let mut rest_v = rest;
            let ghost grest = rest_v@;
            if rest_v.len() == 0 {
                proof {
                    assert(parse_name_from(b@, i as int) == Some(
                        (ParsedName { name: glabel, end: end as int }),
                    ));
                }
                Some((name, end))
            } else {
                name.push(DOT);
                name.append(&mut rest_v);
                proof {
                    assert(name@ =~= glabel + seq![DOT] + grest);
                    assert(parse_name_from(b@, i as int) == Some(
                        (ParsedName { name: glabel + seq![DOT] + grest, end: end as int }),
                    ));
                }
                Some((name, end))
            }
        },
    }
}

/// Appends the wire form of the valid name `name`, from position `i` on,
/// to `out`.
fn push_name_wire_from(out: &mut Vec<u8>, name: &[u8], i: usize)
    requires
        i <= name@.len(),
        valid_name_from(name@, i as int),
    ensures
        final(out)@ =~= old(out)@ + name_wire_from(name@, i as int),
    decreases name@.len() - i,
{
    if i >= name.len() {
        out.push(0);
        return;
    }
    proof {
        lemma_label_len_from(name@, i as int);
    }
    let ghost k = label_len_from(name@, i as int);
    // Find the end of the label that starts at `i`.
    let mut j: usize = i;
    while j < name.len() && name[j] != DOT
        invariant
            i <= j <= name@.len(),
            forall|m: int| i <= m < j ==> name@[m] != DOT,
        decreases name@.len() - j,
    {
        j = j + 1;
    }
    proof {
        lemma_label_len_from_exact(name@, i as int, j as int);
        assert(j - i == k);
    }
    out.push((j - i) as u8);
    let mut m: usize = i;
    while m < j
        invariant
            i <= m <= j <= name@.len(),
            out@ =~= old(out)@ + seq![k as u8] + name@.subrange(i as int, m as int),
        decreases j - m,
    {
        out.push(name[m]);
        m = m + 1;
    }
    if j == name.len() {
        out.push(0);
        assert(out@ =~= old(out)@ + name_wire_from(name@, i as int));
    } else {
        push_name_wire_from(out, name, j + 1);
        assert(out@ =~= old(out)@ + name_wire_from(name@, i as int));
    }
}

/// Appends the wire form of the valid name `name` to `out`.
pub fn push_name_wire(out: &mut Vec<u8>, name: &[u8])
    requires
        valid_name(name@),
    ensures
        final(out)@ =~= old(out)@ + name_wire(name@),
{
    push_name_wire_from(out, name, 0);
}

/// Says whether `name` is valid text for a domain name, as `valid_name`
/// defines it.
pub fn check_name(name: &[u8]) -> (r: bool)
    ensures
        r == valid_name(name@),
{
    check_name_from(name, 0)
}

/// Says whether `name` is valid from position `i` on.
fn check_name_from(name: &[u8], i: usize) -> (r: bool)
    requires
        i <= name@.len(),
    ensures
        r == valid_name_from(name@, i as int),
    decreases name@.len() - i,
{
    if i >= name.len() {
        return true;
    }
    let mut j: usize = i;
    while j < name.len() && name[j] != DOT
        invariant
            i <= j <= name@.len(),
            forall|m: int| i <= m < j ==> name@[m] != DOT,
        decreases name@.len() - j,
    {
        j = j + 1;
    }
    proof {
        lemma_label_len_from_exact(name@, i as int, j as int);
    }
    if j == i || j - i > MAX_LABEL {
        return false;
    }
    if j == name.len() {
        true
    } else if j + 1 < name.len() {
        check_name_from(name, j + 1)
    } else {
        false
    }
}

} // verus!
