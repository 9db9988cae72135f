//! Questions, resource records, and the two whole-message assemblers: the
//! outbound query built from a domain string, and the inbound response
//! decoded count-by-count from one received datagram.

use vstd::prelude::*;
use crate::DnsError;
use crate::bytes::{be16, be32, u16_bytes, read_u16_be, read_u32_be, push_u16_be};
use crate::header::{DnsHeader, spec_header_bytes, spec_parse_header};
use crate::name::{
    NameRef, SpecNameRef, spec_parse_name_ref, spec_resolve_name, spec_encode_name, valid_name,
    encode_name, resolve_at,
};

verus! {

/// An outbound question: a domain string still to be encoded, with its
/// query type and class.
#[derive(Debug)]
pub struct QueryQuestion {
    pub name: String,
    pub qtype: u16,
    pub qclass: u16,
}

/// The mathematical shape of an outbound question.
#[verifier::ext_equal]
pub struct SpecQueryQuestion {
    pub name: Seq<char>,
    pub qtype: u16,
    pub qclass: u16,
}

impl View for QueryQuestion {
    type V = SpecQueryQuestion;

    open spec fn view(&self) -> SpecQueryQuestion {
        SpecQueryQuestion { name: self.name@, qtype: self.qtype, qclass: self.qclass }
    }
}

/// An inbound question: a name reference read from the packet, with its
/// query type and class.
#[derive(Debug)]
pub struct ResponseQuestion {
    pub name: NameRef,
    pub qtype: u16,
    pub qclass: u16,
}

/// The mathematical shape of an inbound question.
#[verifier::ext_equal]
pub struct SpecResponseQuestion {
    pub name: SpecNameRef,
    pub qtype: u16,
    pub qclass: u16,
}

impl View for ResponseQuestion {
    type V = SpecResponseQuestion;

    open spec fn view(&self) -> SpecResponseQuestion {
        SpecResponseQuestion { name: self.name@, qtype: self.qtype, qclass: self.qclass }
    }
}

/// The fixed part of a resource record: name, type, class, ttl, and the
/// declared payload length.
#[derive(Debug)]
pub struct RecordHeader {
    pub name: NameRef,
    pub rr_type: u16,
    pub rr_class: u16,
    pub ttl: u32,
    pub length: u16,
}

/// The mathematical shape of a record header.
#[verifier::ext_equal]
pub struct SpecRecordHeader {
    pub name: SpecNameRef,
    pub rr_type: u16,
    pub rr_class: u16,
    pub ttl: u32,
    pub length: u16,
}

impl View for RecordHeader {
    type V = SpecRecordHeader;

    open spec fn view(&self) -> SpecRecordHeader {
        SpecRecordHeader {
            name: self.name@,
            rr_type: self.rr_type,
            rr_class: self.rr_class,
            ttl: self.ttl,
            length: self.length,
        }
    }
}

/// A record's typed payload, chosen by the record type alone: type 1 is a
/// 4-byte address, type 28 a 16-byte address, and everything else passes
/// through as opaque bytes of the declared length.
#[derive(Debug)]
pub enum RecordPayload {
    A(u32),
    AAAA(Vec<u8>),
    Other(Vec<u8>),
}

/// The mathematical shape of a record payload.
#[verifier::ext_equal]
pub enum SpecRecordPayload {
    A(u32),
    AAAA(Seq<u8>),
    Other(Seq<u8>),
}

impl View for RecordPayload {
    type V = SpecRecordPayload;

    open spec fn view(&self) -> SpecRecordPayload {
        match self {
            RecordPayload::A(addr) => SpecRecordPayload::A(*addr),
            RecordPayload::AAAA(bytes) => SpecRecordPayload::AAAA(bytes@),
            RecordPayload::Other(bytes) => SpecRecordPayload::Other(bytes@),
        }
    }
}

/// One answer entry of a response.
#[derive(Debug)]
pub struct ResourceRecord {
    pub header: RecordHeader,
    pub payload: RecordPayload,
}

/// The mathematical shape of a resource record.
#[verifier::ext_equal]
pub struct SpecResourceRecord {
    pub header: SpecRecordHeader,
    pub payload: SpecRecordPayload,
}

impl View for ResourceRecord {
    type V = SpecResourceRecord;

    open spec fn view(&self) -> SpecResourceRecord {
        SpecResourceRecord { header: self.header@, payload: self.payload@ }
    }
}

/// The question read from `buf` at `pos`: a name reference whose pointer,
/// if it is one, must resolve strictly backwards, then type and class.
pub open spec fn spec_parse_question(buf: Seq<u8>, pos: int) -> Result<
    (SpecResponseQuestion, int),
    DnsError,
> {
    match spec_parse_name_ref(buf, pos) {
        Err(e) => Err(e),
        Ok((nr, p)) => match spec_resolve_name(buf, pos) {
            Err(e) => Err(e),
            Ok(_full) => if p + 4 > buf.len() {
                Err(DnsError::Truncated)
            } else {
                Ok(
                    (
                        SpecResponseQuestion {
                            name: nr,
                            qtype: be16(buf[p], buf[p + 1]),
                            qclass: be16(buf[p + 2], buf[p + 3]),
                        },
                        p + 4,
                    ),
                )
            },
        },
    }
}

/// The record read from `buf` at `pos`: a name reference resolved as for a
/// question, the five fixed fields, then the payload branch that the type
/// selects. A known type whose declared rdata length differs from the
/// fixed size it consumes is a malformed record, so every record read back
/// keeps the invariant that its length field equals the bytes its payload
/// holds; each branch fails with the truncation error when fewer bytes
/// remain than it requires.
pub open spec fn spec_parse_record(buf: Seq<u8>, pos: int) -> Result<
    (SpecResourceRecord, int),
    DnsError,
> {
    match spec_parse_name_ref(buf, pos) {
        Err(e) => Err(e),
        Ok((nr, p)) => match spec_resolve_name(buf, pos) {
            Err(e) => Err(e),
            Ok(_full) => if p + 10 > buf.len() {
                Err(DnsError::Truncated)
            } else {
                let hdr = SpecRecordHeader {
                    name: nr,
                    rr_type: be16(buf[p], buf[p + 1]),
                    rr_class: be16(buf[p + 2], buf[p + 3]),
                    ttl: be32(buf[p + 4], buf[p + 5], buf[p + 6], buf[p + 7]),
                    length: be16(buf[p + 8], buf[p + 9]),
                };
                let q = p + 10;
                if hdr.rr_type == 1 {
                    if hdr.length != 4 {
                        Err(DnsError::MalformedRecord)
                    } else if q + 4 > buf.len() {
                        Err(DnsError::Truncated)
                    } else {
                        Ok(
                            (
                                SpecResourceRecord {
                                    header: hdr,
                                    payload: SpecRecordPayload::A(
                                        be32(buf[q], buf[q + 1], buf[q + 2], buf[q + 3]),
                                    ),
                                },
                                q + 4,
                            ),
                        )
                    }
                } else if hdr.rr_type == 28 {
                    if hdr.length != 16 {
                        Err(DnsError::MalformedRecord)
                    } else if q + 16 > buf.len() {
                        Err(DnsError::Truncated)
                    } else {
                        Ok(
                            (
                                SpecResourceRecord {
                                    header: hdr,
                                    payload: SpecRecordPayload::AAAA(buf.subrange(q, q + 16)),
                                },
                                q + 16,
                            ),
                        )
                    }
                } else {
                    if q + hdr.length > buf.len() {
                        Err(DnsError::Truncated)
                    } else {
                        Ok(
                            (
                                SpecResourceRecord {
                                    header: hdr,
                                    payload: SpecRecordPayload::Other(
                                        buf.subrange(q, q + hdr.length),
                                    ),
                                },
                                q + hdr.length,
                            ),
                        )
                    }
                }
            },
        },
    }
}

/// Every record the parser accepts keeps the data-model invariant: its
/// declared rdata length equals the number of bytes its payload consumed —
/// 4 for a type 1 address, 16 for a type 28 address, and the opaque
/// payload's own length for every other type.
pub proof fn lemma_record_length_invariant(buf: Seq<u8>, pos: int)
    requires
        spec_parse_record(buf, pos) is Ok,
    ensures
        ({
            let rec = spec_parse_record(buf, pos)->Ok_0.0;
            match rec.payload {
                SpecRecordPayload::A(_) => rec.header.rr_type == 1 && rec.header.length == 4,
                SpecRecordPayload::AAAA(b) => rec.header.rr_type == 28 && rec.header.length == 16
                    && b.len() == 16,
                SpecRecordPayload::Other(b) => rec.header.length == b.len(),
            }
        }),
{
    match spec_parse_name_ref(buf, pos) {
        Err(_) => {},
        Ok((nr, p)) => {
            crate::name::lemma_parse_name_ref_bounds(buf, pos);
            if spec_resolve_name(buf, pos) is Ok && p + 10 <= buf.len() {
                let hdr = SpecRecordHeader {
                    name: nr,
                    rr_type: be16(buf[p], buf[p + 1]),
                    rr_class: be16(buf[p + 2], buf[p + 3]),
                    ttl: be32(buf[p + 4], buf[p + 5], buf[p + 6], buf[p + 7]),
                    length: be16(buf[p + 8], buf[p + 9]),
                };
                if hdr.rr_type != 1 && hdr.rr_type != 28 && p + 10 + hdr.length <= buf.len() {
                    assert(buf.subrange(p + 10, p + 10 + hdr.length).len() == hdr.length);
                }
            }
        },
    }
}

/// Copy `count` bytes of `buf` starting at `start`.
fn read_bytes(buf: &[u8], start: usize, count: usize) -> (r: Vec<u8>)
    requires
        start + count <= buf@.len(),
    ensures
        r@ == buf@.subrange(start as int, start + count),
{
    let blen = buf.len();
    let mut out: Vec<u8> = Vec::new();
    let mut j: usize = 0;
    while j < count
        invariant
            start + count <= buf@.len(),
            buf@.len() == blen,
            j <= count,
            out@ == buf@.subrange(start as int, start + j),
        decreases count - j,
    {
        out.push(buf[start + j]);
        proof {
            assert(out@ =~= buf@.subrange(start as int, start + j + 1));
        }
        j = j + 1;
    }
    out
}

/// Check that the name reference just read at `pos` resolves, following
/// pointer hops only strictly backwards; a literal already carries its
/// name.
fn check_name_resolves(buf: &[u8], pos: usize, name: &NameRef) -> (r: Result<(), DnsError>)
    requires
        buf@.len() <= 0xffff,
        spec_parse_name_ref(buf@, pos as int) matches Ok(p) && p.0 == name@,
    ensures
        match spec_resolve_name(buf@, pos as int) {
            Ok(_) => r matches Ok(_),
            Err(e) => r == Err::<(), DnsError>(e),
        },
{
    match name {
        NameRef::Name(_, _) => Ok(()),
        NameRef::Offset(t) => {
            if (*t as usize) < pos {
                match resolve_at(buf, *t) {
                    Ok(_) => Ok(()),
                    Err(e) => Err(e),
                }
            } else {
                Err(DnsError::MalformedName)
            }
        },
    }
}

impl ResponseQuestion {
    /// Read one inbound question at `pos`.
    pub fn parse(buf: &[u8], pos: usize) -> (r: Result<(ResponseQuestion, usize), DnsError>)
        requires
            buf@.len() <= 0xffff,
        ensures
            match spec_parse_question(buf@, pos as int) {
                Ok(p) => r matches Ok(q) && q.0@ == p.0 && q.1 == p.1,
                Err(e) => r == Err::<(ResponseQuestion, usize), DnsError>(e),
            },
    {
        let (name, p) = match NameRef::parse_reader(buf, pos) {
            Err(e) => {
                return Err(e);
            },
            Ok(x) => x,
        };
        match check_name_resolves(buf, pos, &name) {
            Err(e) => {
                return Err(e);
            },
            Ok(_) => {},
        }
        if p >= buf.len() || buf.len() - p < 4 {
            return Err(DnsError::Truncated);
        }
        let qtype = read_u16_be(buf, p);
        let qclass = read_u16_be(buf, p + 2);
        Ok((ResponseQuestion { name, qtype, qclass }, p + 4))
    }
}

impl ResourceRecord {
    /// Read one resource record at `pos`, including its typed payload.
    pub fn parse(buf: &[u8], pos: usize) -> (r: Result<(ResourceRecord, usize), DnsError>)
        requires
            buf@.len() <= 0xffff,
        ensures
            match spec_parse_record(buf@, pos as int) {
                Ok(p) => r matches Ok(q) && q.0@ == p.0 && q.1 == p.1,
                Err(e) => r == Err::<(ResourceRecord, usize), DnsError>(e),
            },
    {
        let (name, p) = match NameRef::parse_reader(buf, pos) {
            Err(e) => {
                return Err(e);
            },
            Ok(x) => x,
        };
        match check_name_resolves(buf, pos, &name) {
            Err(e) => {
                return Err(e);
            },
            Ok(_) => {},
        }
        if p >= buf.len() || buf.len() - p < 10 {
            return Err(DnsError::Truncated);
        }
        let header = RecordHeader {
            name,
            rr_type: read_u16_be(buf, p),
            rr_class: read_u16_be(buf, p + 2),
            ttl: read_u32_be(buf, p + 4),
            length: read_u16_be(buf, p + 8),
        };
        let q = p + 10;
        if header.rr_type == 1 {
            if header.length != 4 {
                return Err(DnsError::MalformedRecord);
            }
            if buf.len() - q < 4 {
                return Err(DnsError::Truncated);
            }
            let addr = read_u32_be(buf, q);
            Ok((ResourceRecord { header, payload: RecordPayload::A(addr) }, q + 4))
        } else if header.rr_type == 28 {
            if header.length != 16 {
                return Err(DnsError::MalformedRecord);
            }
            if buf.len() - q < 16 {
                return Err(DnsError::Truncated);
            }
            let bytes = read_bytes(buf, q, 16);
            Ok((ResourceRecord { header, payload: RecordPayload::AAAA(bytes) }, q + 16))
        } else {
            let n = header.length as usize;
            if buf.len() - q < n {
                return Err(DnsError::Truncated);
            }
            let bytes = read_bytes(buf, q, n);
            Ok((ResourceRecord { header, payload: RecordPayload::Other(bytes) }, q + n))
        }
    }
}

/// An outbound query: a header and its questions, built fresh per lookup.
#[derive(Debug)]
pub struct DnsQuery {
    pub header: DnsHeader,
    pub questions: Vec<QueryQuestion>,
}

/// The mathematical shape of an outbound query.
#[verifier::ext_equal]
pub struct SpecDnsQuery {
    pub header: DnsHeader,
    pub questions: Seq<SpecQueryQuestion>,
}

impl View for DnsQuery {
    type V = SpecDnsQuery;

    open spec fn view(&self) -> SpecDnsQuery {
        SpecDnsQuery {
            header: self.header,
            questions: self.questions@.map_values(|q: QueryQuestion| q@),
        }
    }
}

/// A decoded inbound message: header, the questions it echoes, and its
/// answer records.
#[derive(Debug)]
pub struct DnsResponse {
    pub header: DnsHeader,
    pub questions: Vec<ResponseQuestion>,
    pub records: Vec<ResourceRecord>,
}

/// The mathematical shape of an inbound message.
#[verifier::ext_equal]
pub struct SpecDnsResponse {
    pub header: DnsHeader,
    pub questions: Seq<SpecResponseQuestion>,
    pub records: Seq<SpecResourceRecord>,
}

impl View for DnsResponse {
    type V = SpecDnsResponse;

    open spec fn view(&self) -> SpecDnsResponse {
        SpecDnsResponse {
            header: self.header,
            questions: self.questions@.map_values(|q: ResponseQuestion| q@),
            records: self.records@.map_values(|r: ResourceRecord| r@),
        }
    }
}

/// The wire bytes of one outbound question: the encoded name, then type
/// and class.
pub open spec fn spec_question_bytes(q: SpecQueryQuestion) -> Seq<u8> {
    spec_encode_name(q.name) + u16_bytes(q.qtype) + u16_bytes(q.qclass)
}

/// The wire bytes of a question list, in order.
pub open spec fn spec_questions_bytes(qs: Seq<SpecQueryQuestion>) -> Seq<u8>
    decreases qs.len(),
{
    if qs.len() == 0 {
        Seq::empty()
    } else {
        spec_question_bytes(qs[0]) + spec_questions_bytes(qs.drop_first())
    }
}

/// Appending one question appends its bytes.
proof fn lemma_questions_bytes_push(qs: Seq<SpecQueryQuestion>, q: SpecQueryQuestion)
    ensures
        spec_questions_bytes(qs.push(q)) == spec_questions_bytes(qs) + spec_question_bytes(q),
    decreases qs.len(),
{
    if qs.len() == 0 {
        assert(qs.push(q).drop_first() =~= Seq::<SpecQueryQuestion>::empty());
        assert(qs.push(q)[0] == q);
        assert(spec_questions_bytes(qs.push(q)) == spec_question_bytes(q) + spec_questions_bytes(
            Seq::<SpecQueryQuestion>::empty(),
        ));
        assert(spec_question_bytes(q) + Seq::<u8>::empty() =~= spec_question_bytes(q));
        assert(spec_questions_bytes(qs) + spec_question_bytes(q) =~= spec_question_bytes(q));
    } else {
        assert(qs.push(q).drop_first() =~= qs.drop_first().push(q));
        lemma_questions_bytes_push(qs.drop_first(), q);
        assert(spec_questions_bytes(qs.push(q)) == spec_question_bytes(qs[0]) + (
        spec_questions_bytes(qs.drop_first()) + spec_question_bytes(q)));
        assert(spec_question_bytes(qs[0]) + (spec_questions_bytes(qs.drop_first())
            + spec_question_bytes(q)) =~= spec_questions_bytes(qs) + spec_question_bytes(q));
    }
}

/// The full wire bytes of an outbound query: its header, then each
/// question in order.
pub open spec fn spec_query_bytes(q: SpecDnsQuery) -> Seq<u8> {
    spec_header_bytes(q.header) + spec_questions_bytes(q.questions)
}

/// Every question of the list carries a name the encoder accepts.
pub open spec fn all_questions_valid(qs: Seq<SpecQueryQuestion>) -> bool {
    forall|k: int| 0 <= k < qs.len() ==> valid_name((#[trigger] qs[k]).name)
}

/// Relies on rand::random: a fresh transaction id drawn from the thread's
/// generator; nothing is assumed of its value.
#[verifier::external_body]
fn random_u16() -> u16 {
    rand::random::<u16>()
}

impl QueryQuestion {
    /// Append this question's wire bytes: the encoded name, then type and
    /// class. An invalid name leaves the buffer untouched.
    pub fn encode(&self, buffer: &mut Vec<u8>) -> (r: Result<(), DnsError>)
        ensures
            valid_name(self.name@) ==> (r matches Ok(_) && final(buffer)@ == old(buffer)@
                + spec_question_bytes(self@)),
            !valid_name(self.name@) ==> r == Err::<(), DnsError>(DnsError::InvalidDomain)
                && final(buffer)@ == old(buffer)@,
    {
        let mut encoded = match encode_name(self.name.as_str()) {
            Err(e) => {
                return Err(e);
            },
            Ok(v) => v,
        };
        buffer.append(&mut encoded);
        push_u16_be(buffer, self.qtype);
        push_u16_be(buffer, self.qclass);
        proof {
            assert(buffer@ =~= old(buffer)@ + spec_question_bytes(self@));
        }
        Ok(())
    }
}

impl DnsQuery {
    /// Build the query for one address lookup: a random transaction id,
    /// the recursion-desired flag, and a single question for `domain`
    /// asking for any record type in the Internet class.
    pub fn addr_query(domain: String) -> (r: DnsQuery)
        ensures
            r@.header.flags == 0x0100,
            r@.header.question_rr_count == 1,
            r@.header.answer_rr_count == 0,
            r@.header.authority_rr_count == 0,
            r@.header.additional_rr_count == 0,
            r@.questions.len() == 1,
            r@.questions[0].name == domain@,
            r@.questions[0].qtype == 255,
            r@.questions[0].qclass == 1,
    {
        let transaction_id = random_u16();
        let q = DnsQuery {
            header: DnsHeader {
                transaction_id,
                flags: 0x0100,
                question_rr_count: 1,
                answer_rr_count: 0,
                authority_rr_count: 0,
                additional_rr_count: 0,
            },
            questions: vec![QueryQuestion { name: domain, qtype: 255, qclass: 1 }],
        };
        proof {
            assert(q@.questions =~= seq![q.questions@[0]@]);
        }
        q
    }

    /// Serialize the query: header bytes, then each question's bytes in
    /// order. The first invalid question name fails the whole encode.
    pub fn encode_packet(&self) -> (r: Result<Vec<u8>, DnsError>)
        ensures
            all_questions_valid(self@.questions) ==> (r matches Ok(v) && v@ == spec_query_bytes(
                self@,
            )),
            !all_questions_valid(self@.questions) ==> r == Err::<Vec<u8>, DnsError>(
                DnsError::InvalidDomain,
            ),
    {
        let mut buffer: Vec<u8> = Vec::new();
        self.header.encode(&mut buffer);
        let n = self.questions.len();
        let mut k: usize = 0;
        while k < n
            invariant
                n == self.questions.len(),
                0 <= k <= n,
                buffer@ == spec_header_bytes(self.header) + spec_questions_bytes(
                    self@.questions.take(k as int),
                ),
                forall|j: int| 0 <= j < k ==> valid_name((#[trigger] self@.questions[j]).name),
            decreases n - k,
        {
            let ghost done = self@.questions.take(k as int);
            match self.questions[k].encode(&mut buffer) {
                Err(e) => {
                    proof {
                        assert(!valid_name(self@.questions[k as int].name));
                    }
                    return Err(e);
                },
                Ok(_) => {},
            }
            proof {
                lemma_questions_bytes_push(done, self@.questions[k as int]);
                assert(done.push(self@.questions[k as int]) =~= self@.questions.take(k + 1));
                assert(buffer@ =~= spec_header_bytes(self.header) + spec_questions_bytes(
                    self@.questions.take(k + 1),
                ));
            }
            k = k + 1;
        }
        proof {
            assert(self@.questions.take(n as int) =~= self@.questions);
        }
        Ok(buffer)
    }
}

/// Exactly `n` questions read in sequence from `pos`; the first failing
/// question fails the whole list.
pub open spec fn spec_parse_questions(buf: Seq<u8>, pos: int, n: int) -> Result<
    (Seq<SpecResponseQuestion>, int),
    DnsError,
>
    decreases n,
{
    if n <= 0 {
        Ok((Seq::<SpecResponseQuestion>::empty(), pos))
    } else {
        match spec_parse_question(buf, pos) {
            Err(e) => Err(e),
            Ok((q, p)) => match spec_parse_questions(buf, p, n - 1) {
                Err(e) => Err(e),
                Ok((qs, end)) => Ok((seq![q] + qs, end)),
            },
        }
    }
}

/// Exactly `n` records read in sequence from `pos`; the first failing
/// record fails the whole list.
pub open spec fn spec_parse_records(buf: Seq<u8>, pos: int, n: int) -> Result<
    (Seq<SpecResourceRecord>, int),
    DnsError,
>
    decreases n,
{
    if n <= 0 {
        Ok((Seq::<SpecResourceRecord>::empty(), pos))
    } else {
        match spec_parse_record(buf, pos) {
            Err(e) => Err(e),
            Ok((r, p)) => match spec_parse_records(buf, p, n - 1) {
                Err(e) => Err(e),
                Ok((rs, end)) => Ok((seq![r] + rs, end)),
            },
        }
    }
}

/// The whole inbound message: the header first, then exactly as many
/// questions and answer records as its counts declare, whatever bytes may
/// follow. Authority and additional entries are never read.
pub open spec fn spec_parse_response(buf: Seq<u8>) -> Result<SpecDnsResponse, DnsError> {
    match spec_parse_header(buf, 0) {
        Err(e) => Err(e),
        Ok((h, p)) => match spec_parse_questions(buf, p, h.question_rr_count as int) {
            Err(e) => Err(e),
            Ok((qs, p2)) => match spec_parse_records(buf, p2, h.answer_rr_count as int) {
                Err(e) => Err(e),
                Ok((rs, _end)) => Ok(SpecDnsResponse { header: h, questions: qs, records: rs }),
            },
        },
    }
}

impl DnsResponse {
    /// Decode one received datagram: the header's counts drive how many
    /// questions and answer records are read; the first per-item error
    /// fails the whole parse, and declared entries missing from the buffer
    /// fail rather than truncate silently.
    #[verifier::loop_isolation(false)]
    pub fn decode_packet(buf: &[u8]) -> (r: Result<DnsResponse, DnsError>)
        requires
            buf@.len() <= 0xffff,
        ensures
            match spec_parse_response(buf@) {
                Ok(sv) => r matches Ok(resp) && resp@ == sv,
                Err(e) => r == Err::<DnsResponse, DnsError>(e),
            },
    {
        let (header, after_header) = match DnsHeader::parse(buf, 0) {
            Err(e) => {
                return Err(e);
            },
            Ok(x) => x,
        };
        let nq = header.question_rr_count as usize;
        let mut questions: Vec<ResponseQuestion> = Vec::new();
        let mut p: usize = after_header;
        let mut i: usize = 0;
        while i < nq
            invariant
                buf@.len() <= 0xffff,
                0 <= i <= nq,
                spec_parse_questions(buf@, after_header as int, nq as int) == (match
                    spec_parse_questions(buf@, p as int, nq - i) {
                    Err(e) => Err(e),
                    Ok((qs, end)) => Ok(
                        (questions@.map_values(|q: ResponseQuestion| q@) + qs, end),
                    ),
                }),
            decreases nq - i,
        {
            let ghost done = questions@.map_values(|q: ResponseQuestion| q@);
            let (q, p2) = match ResponseQuestion::parse(buf, p) {
                Err(e) => {
                    return Err(e);
                },
                Ok(x) => x,
            };
            questions.push(q);
            proof {
                let rest = spec_parse_questions(buf@, p2 as int, nq - i - 1);
                assert(questions@.map_values(|q: ResponseQuestion| q@) =~= done + seq![
                    q@,
                ]);
                if rest is Ok {
                    let (qs, end) = rest->Ok_0;
                    assert((done + seq![q@]) + qs =~= done + (seq![q@] + qs));
                }
            }
            p = p2;
            i = i + 1;
        }
        proof {
            assert(questions@.map_values(|q: ResponseQuestion| q@) + Seq::<
                SpecResponseQuestion,
            >::empty() =~= questions@.map_values(|q: ResponseQuestion| q@));
        }
        let ghost after_questions = p as int;
        let na = header.answer_rr_count as usize;
        let mut records: Vec<ResourceRecord> = Vec::new();
        let mut j: usize = 0;
        while j < na
            invariant
                buf@.len() <= 0xffff,
                0 <= j <= na,
                spec_parse_records(buf@, after_questions, na as int) == (match spec_parse_records(
                    buf@,
                    p as int,
                    na - j,
                ) {
                    Err(e) => Err(e),
                    Ok((rs, end)) => Ok((records@.map_values(|r: ResourceRecord| r@) + rs, end)),
                }),
            decreases na - j,
        {
            let ghost done = records@.map_values(|r: ResourceRecord| r@);
            let (rec, p2) = match ResourceRecord::parse(buf, p) {
                Err(e) => {
                    return Err(e);
                },
                Ok(x) => x,
            };
            records.push(rec);
            proof {
                let rest = spec_parse_records(buf@, p2 as int, na - j - 1);
                assert(records@.map_values(|r: ResourceRecord| r@) =~= done + seq![rec@]);
                if rest is Ok {
                    let (rs, end) = rest->Ok_0;
                    assert((done + seq![rec@]) + rs =~= done + (seq![rec@] + rs));
                }
            }
            p = p2;
            j = j + 1;
        }
        proof {
            assert(records@.map_values(|r: ResourceRecord| r@) + Seq::<
                SpecResourceRecord,
            >::empty() =~= records@.map_values(|r: ResourceRecord| r@));
        }
        Ok(DnsResponse { header, questions, records })
    }
}

} // verus!
