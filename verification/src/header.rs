//! The fixed 12-byte transaction header: six big-endian 16-bit fields in a
//! fixed order.

use vstd::prelude::*;
use crate::DnsError;
use crate::bytes::{be16, u16_bytes, lemma_be16_round_trip, read_u16_be, push_u16_be};

verus! {

/// The six counters of a DNS message, in wire order.
#[derive(Clone, Copy, Debug, PartialEq, Eq, Structural)]
pub struct DnsHeader {
    pub transaction_id: u16,
    pub flags: u16,
    pub question_rr_count: u16,
    pub answer_rr_count: u16,
    pub authority_rr_count: u16,
    pub additional_rr_count: u16,
}

/// The twelve wire bytes of a header.
pub open spec fn spec_header_bytes(h: DnsHeader) -> Seq<u8> {
    u16_bytes(h.transaction_id) + u16_bytes(h.flags) + u16_bytes(h.question_rr_count) + u16_bytes(
        h.answer_rr_count,
    ) + u16_bytes(h.authority_rr_count) + u16_bytes(h.additional_rr_count)
}

/// The header read from `buf` at `pos`, and the position right after it;
/// fewer than twelve bytes is the truncation error.
pub open spec fn spec_parse_header(buf: Seq<u8>, pos: int) -> Result<(DnsHeader, int), DnsError> {
    if pos < 0 || pos + 12 > buf.len() {
        Err(DnsError::Truncated)
    } else {
        Ok(
            (
                DnsHeader {
                    transaction_id: be16(buf[pos], buf[pos + 1]),
                    flags: be16(buf[pos + 2], buf[pos + 3]),
                    question_rr_count: be16(buf[pos + 4], buf[pos + 5]),
                    answer_rr_count: be16(buf[pos + 6], buf[pos + 7]),
                    authority_rr_count: be16(buf[pos + 8], buf[pos + 9]),
                    additional_rr_count: be16(buf[pos + 10], buf[pos + 11]),
                },
                pos + 12,
            ),
        )
    }
}

impl DnsHeader {
    /// Read the six fields at `pos` in wire order.
    pub fn parse(buf: &[u8], pos: usize) -> (r: Result<(DnsHeader, usize), DnsError>)
        ensures
            match spec_parse_header(buf@, pos as int) {
                Ok(p) => r matches Ok(q) && q.0 == p.0 && q.1 == p.1,
                Err(e) => r == Err::<(DnsHeader, usize), DnsError>(e),
            },
    {
        if pos >= buf.len() || buf.len() - pos < 12 {
            return Err(DnsError::Truncated);
        }
        Ok(
            (
                DnsHeader {
                    transaction_id: read_u16_be(buf, pos),
                    flags: read_u16_be(buf, pos + 2),
                    question_rr_count: read_u16_be(buf, pos + 4),
                    answer_rr_count: read_u16_be(buf, pos + 6),
                    authority_rr_count: read_u16_be(buf, pos + 8),
                    additional_rr_count: read_u16_be(buf, pos + 10),
                },
                pos + 12,
            ),
        )
    }

    /// Append the six fields to `buffer` in wire order.
    pub fn encode(&self, buffer: &mut Vec<u8>)
        ensures
            final(buffer)@ == old(buffer)@ + spec_header_bytes(*self),
    {
        push_u16_be(buffer, self.transaction_id);
        push_u16_be(buffer, self.flags);
        push_u16_be(buffer, self.question_rr_count);
        push_u16_be(buffer, self.answer_rr_count);
        push_u16_be(buffer, self.authority_rr_count);
        push_u16_be(buffer, self.additional_rr_count);
        assert(buffer@ =~= old(buffer)@ + spec_header_bytes(*self));
    }
}

/// Encoding a header and parsing the bytes back yields the identical
/// fields, whatever their values, and consumes exactly twelve bytes.
pub proof fn lemma_header_round_trip(h: DnsHeader)
    ensures
        spec_parse_header(spec_header_bytes(h), 0) == Ok::<(DnsHeader, int), DnsError>((h, 12)),
{
    let b = spec_header_bytes(h);
    assert(b.len() == 12);
    lemma_be16_round_trip(h.transaction_id, 0, 0);
    lemma_be16_round_trip(h.flags, 0, 0);
    lemma_be16_round_trip(h.question_rr_count, 0, 0);
    lemma_be16_round_trip(h.answer_rr_count, 0, 0);
    lemma_be16_round_trip(h.authority_rr_count, 0, 0);
    lemma_be16_round_trip(h.additional_rr_count, 0, 0);
}

} // verus!
