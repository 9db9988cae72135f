//! The name codec: a domain string becomes length-prefixed labels ending in a
//! zero byte, and a label sequence read from a packet becomes a dotted string.
//! A 2-byte field whose top two bits are set is a compression pointer instead,
//! holding a 14-bit offset back into the packet.

use vstd::prelude::*;
use vstd::string::StrSliceExecFns;
use vstd::string::StringExecFns;
use vstd::utf8::is_ascii_chars;
use crate::DnsError;

verus! {

/// Index right after the label that starts at `i`: the first `'.'` at or
/// after `i`, or the end of the name.
pub open spec fn label_end(s: Seq<char>, i: int) -> int
    decreases s.len() - i,
{
    if i < 0 || i >= s.len() {
        s.len() as int
    } else if s[i] == '.' {
        i
    } else {
        label_end(s, i + 1)
    }
}

/// `label_end` stays within the name and stops at the first dot.
pub proof fn lemma_label_end(s: Seq<char>, i: int)
    requires
        0 <= i <= s.len(),
    ensures
        i <= label_end(s, i) <= s.len(),
        forall|j: int| i <= j < label_end(s, i) ==> s[j] != '.',
        label_end(s, i) < s.len() ==> s[label_end(s, i)] == '.',
    decreases s.len() - i,
{
    if i < s.len() && s[i] != '.' {
        lemma_label_end(s, i + 1);
    }
}

/// A stretch with no dot that ends at a dot or at the end of the name is
/// exactly what `label_end` finds.
pub proof fn lemma_label_end_unique(s: Seq<char>, i: int, e: int)
    requires
        0 <= i <= e <= s.len(),
        forall|j: int| i <= j < e ==> s[j] != '.',
        e < s.len() ==> s[e] == '.',
    ensures
        label_end(s, i) == e,
    decreases e - i,
{
    if i < e {
        assert(s[i] != '.');
        lemma_label_end_unique(s, i + 1, e);
    }
}

/// The non-empty labels of a name, reading from position `i`; empty labels
/// (doubled, leading or trailing dots) are passed over.
pub open spec fn labels_from(s: Seq<char>, i: int) -> Seq<Seq<char>>
    decreases s.len() - i,
{
    if i < 0 || i >= s.len() {
        Seq::empty()
    } else {
        let e = label_end(s, i);
        proof {
            lemma_label_end(s, i);
        }
        let lab = s.subrange(i, e);
        let rest = if e >= s.len() {
            Seq::<Seq<char>>::empty()
        } else {
            labels_from(s, e + 1)
        };
        if lab.len() == 0 {
            rest
        } else {
            seq![lab] + rest
        }
    }
}

/// Every label in the list fits in a length byte capped at 63.
pub open spec fn labels_ok(ls: Seq<Seq<char>>) -> bool {
    forall|k: int| 0 <= k < ls.len() ==> (#[trigger] ls[k]).len() <= 63
}

/// A name the encoder accepts: non-empty, ASCII, and no label over 63 bytes.
pub open spec fn valid_name(s: Seq<char>) -> bool {
    &&& s.len() > 0
    &&& is_ascii_chars(s)
    &&& labels_ok(labels_from(s, 0))
}

/// The wire bytes of one label: its length byte, then its characters as
/// single bytes.
pub open spec fn label_bytes(l: Seq<char>) -> Seq<u8> {
    seq![l.len() as u8] + l.map_values(|c: char| c as u8)
}

/// The wire bytes of a label list, without the terminating zero byte.
pub open spec fn labels_bytes(ls: Seq<Seq<char>>) -> Seq<u8>
    decreases ls.len(),
{
    if ls.len() == 0 {
        Seq::empty()
    } else {
        label_bytes(ls[0]) + labels_bytes(ls.drop_first())
    }
}

/// The full wire encoding of a name: its labels, then a zero byte.
pub open spec fn spec_encode_name(s: Seq<char>) -> Seq<u8> {
    labels_bytes(labels_from(s, 0)) + seq![0u8]
}

/// Encode a domain string into length-prefixed labels with a terminating
/// zero byte. The empty string, a label over 63 bytes, and non-ASCII text
/// are rejected; empty labels are passed over, so the lone dot of the root
/// name encodes to the single zero byte.
pub fn encode_name(name: &str) -> (r: Result<Vec<u8>, DnsError>)
    ensures
        valid_name(name@) ==> (r matches Ok(v) && v@ == spec_encode_name(name@)),
        !valid_name(name@) ==> r == Err::<Vec<u8>, DnsError>(DnsError::InvalidDomain),
{
    let len = name.unicode_len();
    if len == 0 {
        return Err(DnsError::InvalidDomain);
    }
    if !name.is_ascii() {
        return Err(DnsError::InvalidDomain);
    }
    let mut out: Vec<u8> = Vec::new();
    let mut i: usize = 0;
    while i < len
        invariant
            name@.len() == len,
            is_ascii_chars(name@),
            0 <= i <= len,
            labels_bytes(labels_from(name@, 0)) == out@ + labels_bytes(labels_from(name@, i as int)),
            labels_ok(labels_from(name@, 0)) <==> labels_ok(labels_from(name@, i as int)),
        decreases len - i,
    {
        let ghost s = name@;
        let mut e: usize = i;
        while e < len && name.get_ascii(e) != 46
            invariant
                name@ == s,
                name@.len() == len,
                is_ascii_chars(name@),
                i <= e <= len,
                forall|j: int| i <= j < e ==> s[j] != '.',
            decreases len - e,
        {
            assert(s[e as int] != '.');
            e = e + 1;
        }
        proof {
            if e < len {
                assert(s[e as int] as u8 == 46);
                assert(s[e as int] == '.');
            }
            lemma_label_end_unique(s, i as int, e as int);
        }
        let ghost lab = s.subrange(i as int, e as int);
        let ghost rest = if e >= len {
            Seq::<Seq<char>>::empty()
        } else {
            labels_from(s, e + 1)
        };
        if e - i > 63 {
            proof {
                assert(labels_from(s, i as int)[0] == lab);
                assert(!labels_ok(labels_from(s, i as int)));
            }
            return Err(DnsError::InvalidDomain);
        }
        if e - i > 0 {
            let ghost out0 = out@;
            out.push((e - i) as u8);
            let mut j: usize = i;
            while j < e
                invariant
                    name@ == s,
                    name@.len() == len,
                    is_ascii_chars(name@),
                    i <= j <= e <= len,
                    out@ == out0 + seq![(e - i) as u8] + s.subrange(i as int, j as int).map_values(
                        |c: char| c as u8,
                    ),
                decreases e - j,
            {
                let b = name.get_ascii(j);
                out.push(b);
                proof {
                    assert(out@ =~= out0 + seq![(e - i) as u8] + s.subrange(
                        i as int,
                        j + 1,
                    ).map_values(|c: char| c as u8));
                }
                j = j + 1;
            }
            proof {
                assert(out@ =~= out0 + label_bytes(lab));
                assert(labels_from(s, i as int) =~= seq![lab] + rest);
                assert((seq![lab] + rest).drop_first() =~= rest);
                assert(labels_bytes(labels_from(s, i as int)) == label_bytes(lab) + labels_bytes(
                    rest,
                ));
                assert(out0 + label_bytes(lab) + labels_bytes(rest) =~= out0 + (label_bytes(lab)
                    + labels_bytes(rest)));
                if labels_ok(labels_from(s, i as int)) {
                    assert forall|k: int| 0 <= k < rest.len() implies (#[trigger] rest[k]).len()
                        <= 63 by {
                        assert(labels_from(s, i as int)[k + 1] == rest[k]);
                    }
                }
                if labels_ok(rest) {
                    assert forall|k: int| 0 <= k < labels_from(s, i as int).len() implies (
                    #[trigger] labels_from(s, i as int)[k]).len() <= 63 by {
                        if k == 0 {
                            assert(labels_from(s, i as int)[0] == lab);
                        } else {
                            assert(labels_from(s, i as int)[k] == rest[k - 1]);
                        }
                    }
                }
                assert(labels_ok(labels_from(s, i as int)) <==> labels_ok(rest));
            }
        } else {
            proof {
                assert(labels_from(s, i as int) =~= rest);
            }
        }
        if e < len {
            i = e + 1;
        } else {
            i = len;
            proof {
                assert(labels_from(s, i as int) =~= Seq::<Seq<char>>::empty());
            }
        }
    }
    proof {
        assert(labels_bytes(labels_from(name@, i as int)) =~= Seq::<u8>::empty());
        assert(labels_bytes(labels_from(name@, 0)) =~= out@);
    }
    out.push(0);
    proof {
        assert(out@ =~= spec_encode_name(name@));
    }
    Ok(out)
}

/// The labels read from `buf` at `pos`, joined with dots, together with the
/// position right after the terminating zero byte. Reading past the end of
/// the buffer, from a length byte or from a missing terminator, is the
/// malformed-name error.
pub open spec fn spec_decode_name(buf: Seq<u8>, pos: int) -> Result<(Seq<char>, int), DnsError>
    decreases buf.len() - pos,
{
    if pos < 0 || pos >= buf.len() {
        Err(DnsError::MalformedName)
    } else if buf[pos] == 0 {
        Ok((Seq::<char>::empty(), pos + 1))
    } else {
        let n = buf[pos] as int;
        if pos + 1 + n > buf.len() {
            Err(DnsError::MalformedName)
        } else {
            match spec_decode_name(buf, pos + 1 + n) {
                Err(e) => Err(e),
                Ok((rest, end)) => {
                    let lab = buf.subrange(pos + 1, pos + 1 + n).map_values(|b: u8| b as char);
                    if rest.len() == 0 {
                        Ok((lab, end))
                    } else {
                        Ok((lab + seq!['.'] + rest, end))
                    }
                },
            }
        }
    }
}

/// A successful literal decode always ends inside the buffer, past where
/// it started.
pub proof fn lemma_decode_name_bounds(buf: Seq<u8>, pos: int)
    requires
        spec_decode_name(buf, pos) is Ok,
    ensures
        pos < spec_decode_name(buf, pos)->Ok_0.1 <= buf.len(),
    decreases buf.len() - pos,
{
    if 0 <= pos < buf.len() && buf[pos] != 0 {
        let n = buf[pos] as int;
        if pos + 1 + n <= buf.len() {
            lemma_decode_name_bounds(buf, pos + 1 + n);
        }
    }
}

/// Relies on String::push: it appends exactly the given character.
#[verifier::external_body]
fn push_char(s: &mut String, c: char)
    ensures
        final(s)@ == old(s)@.push(c),
{
    s.push(c)
}

/// Read a label sequence from `buf` starting at `pos`: length-prefixed
/// labels joined with dots until a zero length byte. Compression pointers
/// are not followed here; a length byte whose run leaves the buffer, or a
/// missing terminator, is the malformed-name error.
pub fn decode_name_rdr(buf: &[u8], pos: usize) -> (r: Result<(String, usize), DnsError>)
    ensures
        match spec_decode_name(buf@, pos as int) {
            Ok(p) => r matches Ok(q) && q.0@ == p.0 && q.1 == p.1,
            Err(e) => r == Err::<(String, usize), DnsError>(e),
        },
    decreases buf@.len() - pos,
{
    if pos >= buf.len() {
        return Err(DnsError::MalformedName);
    }
    let n = buf[pos];
    if n == 0 {
        return Ok((String::new(), pos + 1));
    }
    let n_us = n as usize;
    if n_us > buf.len() - pos - 1 {
        return Err(DnsError::MalformedName);
    }
    let body = pos + 1;
    let lab_end = body + n_us;
    match decode_name_rdr(buf, lab_end) {
        Err(e) => Err(e),
        Ok((rest, end)) => {
            let ghost lab = buf@.subrange(body as int, body + n_us).map_values(
                |b: u8| b as char,
            );
            let mut name = String::new();
            let mut j: usize = body;
            while j < lab_end
                invariant
                    lab_end == body + n_us,
                    lab_end <= buf@.len(),
                    body <= j <= lab_end,
                    name@ == buf@.subrange(body as int, j as int).map_values(|b: u8| b as char),
                decreases lab_end - j,
            {
                push_char(&mut name, buf[j] as char);
                proof {
                    assert(name@ =~= buf@.subrange(body as int, j + 1).map_values(
                        |b: u8| b as char,
                    ));
                }
                j = j + 1;
            }
            assert(name@ == lab);
            if !rest.as_str().is_empty() {
                push_char(&mut name, '.');
                name.append(rest.as_str());
                assert(name@ =~= lab + seq!['.'] + rest@);
            }
            Ok((name, end))
        },
    }
}

/// No character of the label is a dot.
pub open spec fn label_chars_ok(l: Seq<char>) -> bool {
    forall|m: int| 0 <= m < l.len() ==> l[m] != '.'
}

/// Every label that splitting yields is non-empty, free of dots, and made
/// of the name's own characters, so ASCII when the name is.
proof fn lemma_labels_from_props(s: Seq<char>, i: int)
    requires
        0 <= i <= s.len(),
    ensures
        forall|k: int| 0 <= k < labels_from(s, i).len() ==> (#[trigger] labels_from(s, i)[k]).len()
            >= 1,
        forall|k: int| 0 <= k < labels_from(s, i).len() ==> label_chars_ok(
            #[trigger] labels_from(s, i)[k],
        ),
        is_ascii_chars(s) ==> forall|k: int| 0 <= k < labels_from(s, i).len() ==> is_ascii_chars(
            #[trigger] labels_from(s, i)[k],
        ),
    decreases s.len() - i,
{
    if 0 <= i < s.len() {
        let e = label_end(s, i);
        lemma_label_end(s, i);
        let lab = s.subrange(i, e);
        assert(label_chars_ok(lab));
        if e < s.len() {
            lemma_labels_from_props(s, e + 1);
        }
        let rest = if e >= s.len() {
            Seq::<Seq<char>>::empty()
        } else {
            labels_from(s, e + 1)
        };
        if lab.len() > 0 {
            assert(labels_from(s, i) == seq![lab] + rest);
            assert(forall|k: int| 1 <= k < labels_from(s, i).len() ==> labels_from(s, i)[k]
                == rest[k - 1]);
        }
    }
}

/// The labels joined back with dots: what a decode of their encoding
/// reads.
pub open spec fn join_labels(ls: Seq<Seq<char>>) -> Seq<char>
    decreases ls.len(),
{
    if ls.len() == 0 {
        Seq::empty()
    } else if ls.len() == 1 {
        ls[0]
    } else {
        ls[0] + seq!['.'] + join_labels(ls.drop_first())
    }
}

/// Decoding the wire bytes of a label list, whatever buffer holds them,
/// reads back exactly the joined labels and stops right after the
/// terminating zero byte.
proof fn lemma_decode_encoded_labels(buf: Seq<u8>, pos: int, ls: Seq<Seq<char>>)
    requires
        0 <= pos <= buf.len(),
        buf.subrange(pos, buf.len() as int) == labels_bytes(ls) + seq![0u8],
        forall|k: int| 0 <= k < ls.len() ==> 1 <= (#[trigger] ls[k]).len() <= 63,
        forall|k: int| 0 <= k < ls.len() ==> is_ascii_chars(#[trigger] ls[k]),
    ensures
        spec_decode_name(buf, pos) == Ok::<(Seq<char>, int), DnsError>(
            (join_labels(ls), buf.len() as int),
        ),
        ls.len() > 0 ==> join_labels(ls).len() >= 1,
    decreases ls.len(),
{
    let suffix = buf.subrange(pos, buf.len() as int);
    if ls.len() == 0 {
        assert(suffix =~= seq![0u8]);
        assert(buf[pos] == suffix[0]);
        assert(buf.len() - pos == 1);
    } else {
        let l0 = ls[0];
        let tail = ls.drop_first();
        assert(labels_bytes(ls) == label_bytes(l0) + labels_bytes(tail));
        assert(label_bytes(l0).len() == 1 + l0.len());
        assert(suffix.len() == labels_bytes(ls).len() + 1);
        assert(suffix.len() == buf.len() - pos);
        assert(pos < buf.len());
        assert(buf[pos] == suffix[0]);
        assert(suffix[0] == label_bytes(l0)[0] == l0.len() as u8);
        assert(buf[pos] != 0 && buf[pos] as int == l0.len());
        let n = buf[pos] as int;
        assert(pos + 1 + n <= buf.len());
        assert(buf.subrange(pos + 1, pos + 1 + n) =~= l0.map_values(|c: char| c as u8)) by {
            assert forall|m: int| 0 <= m < n implies buf.subrange(pos + 1, pos + 1 + n)[m] == l0[m]
                as u8 by {
                assert(buf.subrange(pos + 1, pos + 1 + n)[m] == suffix[1 + m]);
                assert(suffix[1 + m] == label_bytes(l0)[1 + m]);
            }
        }
        assert(buf.subrange(pos + 1, pos + 1 + n).map_values(|b: u8| b as char) =~= l0) by {
            assert(is_ascii_chars(l0));
            assert forall|m: int| 0 <= m < n implies (l0[m] as u8) as char == l0[m] by {
                assert('\0' <= l0[m] <= '\u{7f}');
            }
        }
        assert(buf.subrange(pos + 1 + n, buf.len() as int) =~= labels_bytes(tail) + seq![0u8]) by {
            assert forall|m: int| 0 <= m < buf.len() - pos - 1 - n implies buf.subrange(
                pos + 1 + n,
                buf.len() as int,
            )[m] == (labels_bytes(tail) + seq![0u8])[m] by {
                assert(buf.subrange(pos + 1 + n, buf.len() as int)[m] == suffix[1 + n + m]);
                assert(suffix[1 + n + m] == (label_bytes(l0) + (labels_bytes(tail) + seq![0u8]))[1
                    + n + m]);
            }
        }
        assert(forall|k: int| 0 <= k < tail.len() ==> tail[k] == ls[k + 1]);
        lemma_decode_encoded_labels(buf, pos + 1 + n, tail);
        if tail.len() == 0 {
            assert(join_labels(ls) == l0);
        } else {
            assert(join_labels(tail).len() >= 1);
            assert(join_labels(ls) == l0 + seq!['.'] + join_labels(tail));
        }
    }
}

/// A name whose dots all separate two non-empty labels: no leading,
/// trailing or doubled dot.
pub open spec fn no_empty_labels(s: Seq<char>) -> bool {
    &&& s.len() > 0 ==> s[0] != '.'
    &&& s.len() > 0 ==> s[s.len() - 1] != '.'
    &&& forall|j: int| 0 < j < s.len() ==> !(s[j - 1] == '.' && #[trigger] s[j] == '.')
}

/// Splitting a name into labels and joining them back with dots is the
/// identity from any label start, when no label is empty.
proof fn lemma_join_labels_from(s: Seq<char>, i: int)
    requires
        0 <= i <= s.len(),
        i < s.len() ==> s[i] != '.',
        i < s.len() ==> s[s.len() - 1] != '.',
        forall|j: int| i < j < s.len() ==> !(s[j - 1] == '.' && #[trigger] s[j] == '.'),
    ensures
        join_labels(labels_from(s, i)) == s.subrange(i, s.len() as int),
    decreases s.len() - i,
{
    if i == s.len() {
        assert(join_labels(labels_from(s, i)) =~= s.subrange(i, s.len() as int));
    } else {
        let e = label_end(s, i);
        lemma_label_end(s, i);
        assert(e > i);
        let lab = s.subrange(i, e);
        if e == s.len() {
            assert(labels_from(s, i) =~= seq![lab]);
            assert(join_labels(seq![lab]) == lab);
        } else {
            assert(s[e] == '.');
            assert(e + 1 < s.len()) by {
                assert(s[s.len() - 1] != '.');
            }
            assert(s[e + 1] != '.') by {
                assert(!(s[e] == '.' && s[e + 1] == '.'));
            }
            lemma_join_labels_from(s, e + 1);
            let tl = labels_from(s, e + 1);
            assert(join_labels(tl) == s.subrange(e + 1, s.len() as int));
            assert(tl.len() >= 1) by {
                if tl.len() == 0 {
                    assert(join_labels(tl).len() == 0);
                    assert(s.subrange(e + 1, s.len() as int).len() > 0);
                }
            }
            assert(labels_from(s, i) == seq![lab] + tl);
            assert((seq![lab] + tl).drop_first() =~= tl);
            assert(join_labels(seq![lab] + tl) == lab + seq!['.'] + join_labels(tl));
            assert(lab + seq!['.'] + s.subrange(e + 1, s.len() as int) =~= s.subrange(
                i,
                s.len() as int,
            ));
        }
    }
}

/// Decoding an encoded name reads the name back unchanged: for every
/// non-empty ASCII name whose labels are non-empty and at most 63 bytes,
/// the decoder returns exactly the original characters and consumes
/// exactly the encoded bytes.
pub proof fn lemma_name_round_trip(s: Seq<char>)
    requires
        valid_name(s),
        no_empty_labels(s),
    ensures
        spec_decode_name(spec_encode_name(s), 0) == Ok::<(Seq<char>, int), DnsError>(
            (s, spec_encode_name(s).len() as int),
        ),
{
    let ls = labels_from(s, 0);
    let buf = spec_encode_name(s);
    lemma_labels_from_props(s, 0);
    assert(buf.subrange(0, buf.len() as int) =~= labels_bytes(ls) + seq![0u8]);
    lemma_decode_encoded_labels(buf, 0, ls);
    lemma_join_labels_from(s, 0);
    assert(s.subrange(0, s.len() as int) =~= s);
}

/// The root name, an empty label list, encodes to the single zero byte,
/// and that byte decodes back to the empty name.
pub proof fn lemma_root_round_trip()
    ensures
        labels_bytes(Seq::<Seq<char>>::empty()) + seq![0u8] == seq![0u8],
        spec_decode_name(seq![0u8], 0) == Ok::<(Seq<char>, int), DnsError>(
            (Seq::<char>::empty(), 1),
        ),
{
    assert(labels_bytes(Seq::<Seq<char>>::empty()) + seq![0u8] =~= seq![0u8]);
    assert(seq![0u8][0] == 0);
}

/// One name field of a packet: either a literal label sequence, decoded and
/// remembered with the packet offset it started at, or a compression
/// pointer to an offset earlier in the packet.
#[derive(Debug)]
pub enum NameRef {
    Name(String, u16),
    Offset(u16),
}

/// The mathematical shape of a `NameRef`: the decoded characters stand in
/// for the literal's string.
pub enum SpecNameRef {
    Name(Seq<char>, u16),
    Offset(u16),
}

impl View for NameRef {
    type V = SpecNameRef;

    open spec fn view(&self) -> SpecNameRef {
        match self {
            NameRef::Name(s, off) => SpecNameRef::Name(s@, *off),
            NameRef::Offset(t) => SpecNameRef::Offset(*t),
        }
    }
}

/// The name field read from `buf` at `pos`: a 16-bit lookahead whose top
/// two bits are set is a pointer holding the remaining 14 bits; anything
/// else is a literal label sequence read in place. Fewer than two bytes is
/// the truncation error.
pub open spec fn spec_parse_name_ref(buf: Seq<u8>, pos: int) -> Result<
    (SpecNameRef, int),
    DnsError,
> {
    if pos < 0 || pos + 2 > buf.len() {
        Err(DnsError::Truncated)
    } else if (buf[pos] & 0xc0) == 0xc0 {
        Ok((SpecNameRef::Offset(crate::bytes::be16((buf[pos] & 0x3f) as u8, buf[pos + 1])), pos + 2))
    } else {
        match spec_decode_name(buf, pos) {
            Err(e) => Err(e),
            Ok((name, end)) => Ok((SpecNameRef::Name(name, pos as u16), end)),
        }
    }
}

/// The name that the field at offset `off` ultimately denotes: a literal is
/// the answer; a pointer is followed only strictly backwards, so a chain
/// that revisits an offset, points at itself or points forward fails as a
/// malformed name instead of looping.
pub open spec fn spec_resolve_name(buf: Seq<u8>, off: int) -> Result<Seq<char>, DnsError>
    decreases off,
{
    match spec_parse_name_ref(buf, off) {
        Err(e) => Err(e),
        Ok((nr, _end)) => match nr {
            SpecNameRef::Name(s, _) => Ok(s),
            SpecNameRef::Offset(t) => if t < off {
                spec_resolve_name(buf, t as int)
            } else {
                Err(DnsError::MalformedName)
            },
        },
    }
}

/// A successful name-field read always ends inside the buffer, past where
/// it started.
pub proof fn lemma_parse_name_ref_bounds(buf: Seq<u8>, pos: int)
    requires
        spec_parse_name_ref(buf, pos) is Ok,
    ensures
        0 <= pos < spec_parse_name_ref(buf, pos)->Ok_0.1 <= buf.len(),
{
    if 0 <= pos && pos + 2 <= buf.len() && (buf[pos] & 0xc0) != 0xc0 {
        lemma_decode_name_bounds(buf, pos);
    }
}

/// The guard that bounds pointer chasing: a pointer that does not reach
/// strictly back into the packet fails as a malformed name. Every accepted
/// hop strictly decreases the offset, so a chain can never revisit an
/// offset and resolution always ends.
pub proof fn lemma_pointer_guard(buf: Seq<u8>, off: int, t: u16)
    requires
        spec_parse_name_ref(buf, off) matches Ok(p) && p.0 == SpecNameRef::Offset(t),
        t >= off,
    ensures
        spec_resolve_name(buf, off) == Err::<Seq<char>, DnsError>(DnsError::MalformedName),
{
}

impl NameRef {
    /// Classify and read the name field at `pos`: a pointer is returned
    /// without consuming a name body, a literal is decoded in place.
    pub fn parse_reader(buf: &[u8], pos: usize) -> (r: Result<(NameRef, usize), DnsError>)
        requires
            buf@.len() <= 0xffff,
        ensures
            match spec_parse_name_ref(buf@, pos as int) {
                Ok(p) => r matches Ok(q) && q.0@ == p.0 && q.1 == p.1,
                Err(e) => r == Err::<(NameRef, usize), DnsError>(e),
            },
    {
        if pos >= buf.len() || buf.len() - pos < 2 {
            return Err(DnsError::Truncated);
        }
        let b0 = buf[pos];
        if b0 & 0xc0 == 0xc0 {
            let b1 = buf[pos + 1];
            assert(b0 & 0x3f < 64) by (bit_vector);
            let target = (b0 & 0x3f) as u16 * 256 + b1 as u16;
            Ok((NameRef::Offset(target), pos + 2))
        } else {
            match decode_name_rdr(buf, pos) {
                Err(e) => Err(e),
                Ok((name, end)) => Ok((NameRef::Name(name, pos as u16), end)),
            }
        }
    }

    /// The full name this reference denotes within its packet.
    pub fn resolve(&self, buf: &[u8]) -> (r: Result<String, DnsError>)
        requires
            buf@.len() <= 0xffff,
        ensures
            match self@ {
                SpecNameRef::Name(s, _) => r matches Ok(q) && q@ == s,
                SpecNameRef::Offset(t) => match spec_resolve_name(buf@, t as int) {
                    Ok(s) => r matches Ok(q) && q@ == s,
                    Err(e) => r == Err::<String, DnsError>(e),
                },
            },
    {
        match self {
            NameRef::Name(s, _) => Ok(s.clone()),
            NameRef::Offset(t) => resolve_at(buf, *t),
        }
    }
}

/// Resolve the name field at offset `off`, following pointer hops only
/// strictly backwards.
pub fn resolve_at(buf: &[u8], off: u16) -> (r: Result<String, DnsError>)
    requires
        buf@.len() <= 0xffff,
    ensures
        match spec_resolve_name(buf@, off as int) {
            Ok(s) => r matches Ok(q) && q@ == s,
            Err(e) => r == Err::<String, DnsError>(e),
        },
    decreases off,
{
    match NameRef::parse_reader(buf, off as usize) {
        Err(e) => Err(e),
        Ok((nr, _end)) => match nr {
            NameRef::Name(s, _) => Ok(s),
            NameRef::Offset(t) => if t < off {
                resolve_at(buf, t)
            } else {
                Err(DnsError::MalformedName)
            },
        },
    }
}

} // verus!
