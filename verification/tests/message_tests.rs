use nslookup::header::DnsHeader;
use nslookup::message::{
    DnsQuery, DnsResponse, QueryQuestion, RecordPayload, ResourceRecord,
};
use nslookup::name::{encode_name, NameRef};
use nslookup::DnsError;

fn push_u16(buf: &mut Vec<u8>, x: u16) {
    buf.push((x >> 8) as u8);
    buf.push((x & 0xff) as u8);
}

fn push_u32(buf: &mut Vec<u8>, x: u32) {
    buf.push((x >> 24) as u8);
    buf.push((x >> 16) as u8);
    buf.push((x >> 8) as u8);
    buf.push(x as u8);
}

fn response_header(id: u16, qdcount: u16, ancount: u16) -> Vec<u8> {
    let mut buf = Vec::new();
    push_u16(&mut buf, id);
    push_u16(&mut buf, 0x8180);
    push_u16(&mut buf, qdcount);
    push_u16(&mut buf, ancount);
    push_u16(&mut buf, 0);
    push_u16(&mut buf, 0);
    buf
}

fn push_question(buf: &mut Vec<u8>, name: &str, qtype: u16, qclass: u16) {
    buf.extend(encode_name(name).unwrap());
    push_u16(buf, qtype);
    push_u16(buf, qclass);
}

#[test]
fn header_round_trips_through_bytes() {
    let header = DnsHeader {
        transaction_id: 0xbeef,
        flags: 0x8180,
        question_rr_count: 1,
        answer_rr_count: 0xffff,
        authority_rr_count: 0,
        additional_rr_count: 7,
    };
    let mut buf = Vec::new();
    header.encode(&mut buf);
    assert_eq!(12, buf.len());
    let (parsed, end) = DnsHeader::parse(&buf, 0).unwrap();
    assert_eq!(header, parsed);
    assert_eq!(12, end);
}

#[test]
fn header_parse_rejects_short_buffer() {
    let buf: Vec<u8> = vec![0; 11];
    assert!(matches!(DnsHeader::parse(&buf, 0), Err(DnsError::Truncated)));
}

#[test]
fn addr_query_sets_fields() {
    let query = DnsQuery::addr_query(String::from("example.com"));
    assert_eq!(0x0100, query.header.flags);
    assert_eq!(1, query.header.question_rr_count);
    assert_eq!(0, query.header.answer_rr_count);
    assert_eq!(0, query.header.authority_rr_count);
    assert_eq!(0, query.header.additional_rr_count);
    assert_eq!(1, query.questions.len());
    assert_eq!("example.com", query.questions[0].name);
    assert_eq!(255, query.questions[0].qtype);
    assert_eq!(1, query.questions[0].qclass);
}

#[test]
fn encode_packet_writes_header_and_question() {
    let query = DnsQuery {
        header: DnsHeader {
            transaction_id: 0x1234,
            flags: 0x0100,
            question_rr_count: 1,
            answer_rr_count: 0,
            authority_rr_count: 0,
            additional_rr_count: 0,
        },
        questions: vec![QueryQuestion {
            name: String::from("ab.c"),
            qtype: 255,
            qclass: 1,
        }],
    };
    let packet = query.encode_packet().unwrap();
    let mut expected = Vec::new();
    push_u16(&mut expected, 0x1234);
    push_u16(&mut expected, 0x0100);
    push_u16(&mut expected, 1);
    push_u16(&mut expected, 0);
    push_u16(&mut expected, 0);
    push_u16(&mut expected, 0);
    expected.extend(vec![2, 'a' as u8, 'b' as u8, 1, 'c' as u8, 0]);
    push_u16(&mut expected, 255);
    push_u16(&mut expected, 1);
    assert_eq!(expected, packet);
}

#[test]
fn encode_packet_rejects_invalid_question() {
    let query = DnsQuery {
        header: DnsHeader {
            transaction_id: 0,
            flags: 0x0100,
            question_rr_count: 1,
            answer_rr_count: 0,
            authority_rr_count: 0,
            additional_rr_count: 0,
        },
        questions: vec![QueryQuestion {
            name: String::new(),
            qtype: 255,
            qclass: 1,
        }],
    };
    assert!(matches!(query.encode_packet(), Err(DnsError::InvalidDomain)));
}

#[test]
fn a_record_decodes_to_address() {
    let mut buf = response_header(1, 0, 1);
    buf.extend(encode_name("dns.example").unwrap());
    push_u16(&mut buf, 1); // type A
    push_u16(&mut buf, 1); // class IN
    push_u32(&mut buf, 300); // ttl
    push_u16(&mut buf, 4); // rdlength
    buf.extend(vec![8, 8, 8, 8]);
    let response = DnsResponse::decode_packet(&buf).unwrap();
    assert_eq!(1, response.records.len());
    let record = &response.records[0];
    assert_eq!(1, record.header.rr_type);
    assert_eq!(300, record.header.ttl);
    assert_eq!(4, record.header.length);
    match &record.payload {
        // 0x08080808 is the network-order reading of the address 8.8.8.8.
        RecordPayload::A(addr) => assert_eq!(0x08080808, *addr),
        _ => panic!("a type 1 record must decode to a 4-byte address"),
    }
}

#[test]
fn aaaa_record_decodes_to_sixteen_bytes() {
    let rdata: Vec<u8> = vec![
        0x20, 0x01, 0x0d, 0xb8, 0, 0, 0, 0, 0, 0, 0, 0, 0, 0, 0, 0x42,
    ];
    let mut buf = response_header(2, 0, 1);
    buf.extend(encode_name("dns.example").unwrap());
    push_u16(&mut buf, 28); // type AAAA
    push_u16(&mut buf, 1);
    push_u32(&mut buf, 60);
    push_u16(&mut buf, 16);
    buf.extend(rdata.clone());
    let response = DnsResponse::decode_packet(&buf).unwrap();
    assert_eq!(1, response.records.len());
    match &response.records[0].payload {
        // These sixteen bytes spell the address 2001:db8::42.
        RecordPayload::AAAA(bytes) => assert_eq!(&rdata, bytes),
        _ => panic!("a type 28 record must decode to a 16-byte address"),
    }
}

#[test]
fn a_record_with_wrong_rdlength_fails() {
    // A type 1 record must declare exactly the 4 bytes its payload holds.
    let mut buf = response_header(8, 0, 1);
    buf.extend(encode_name("dns.example").unwrap());
    push_u16(&mut buf, 1);
    push_u16(&mut buf, 1);
    push_u32(&mut buf, 300);
    push_u16(&mut buf, 9);
    buf.extend(vec![8, 8, 8, 8, 0, 0, 0, 0, 0]);
    assert_eq!(
        Err(DnsError::MalformedRecord),
        DnsResponse::decode_packet(&buf).map(|_| ())
    );
}

#[test]
fn aaaa_record_with_wrong_rdlength_fails() {
    // A type 28 record must declare exactly the 16 bytes its payload holds.
    let mut buf = response_header(10, 0, 1);
    buf.extend(encode_name("dns.example").unwrap());
    push_u16(&mut buf, 28);
    push_u16(&mut buf, 1);
    push_u32(&mut buf, 300);
    push_u16(&mut buf, 4);
    buf.extend(vec![1, 2, 3, 4]);
    assert_eq!(
        Err(DnsError::MalformedRecord),
        DnsResponse::decode_packet(&buf).map(|_| ())
    );
}

#[test]
fn cname_record_decodes_to_opaque_payload() {
    let rdata: Vec<u8> = vec![0xde, 0xad, 0xbe, 0xef, 0x99];
    let mut buf = response_header(3, 0, 1);
    buf.extend(encode_name("dns.example").unwrap());
    push_u16(&mut buf, 5); // type CNAME
    push_u16(&mut buf, 1);
    push_u32(&mut buf, 60);
    push_u16(&mut buf, rdata.len() as u16);
    buf.extend(rdata.clone());
    let response = DnsResponse::decode_packet(&buf).unwrap();
    match &response.records[0].payload {
        RecordPayload::Other(bytes) => assert_eq!(&rdata, bytes),
        _ => panic!("an unknown type must decode to its declared opaque bytes"),
    }
}

fn two_answer_response() -> Vec<u8> {
    let mut buf = response_header(7, 1, 2);
    push_question(&mut buf, "ab.c", 255, 1);
    // First answer: a compression pointer to the question name at offset 12.
    buf.extend(vec![0xc0, 0x0c]);
    push_u16(&mut buf, 1);
    push_u16(&mut buf, 1);
    push_u32(&mut buf, 300);
    push_u16(&mut buf, 4);
    buf.extend(vec![1, 2, 3, 4]);
    // Second answer: a literal name.
    buf.extend(encode_name("ab.c").unwrap());
    push_u16(&mut buf, 1);
    push_u16(&mut buf, 1);
    push_u32(&mut buf, 300);
    push_u16(&mut buf, 4);
    buf.extend(vec![5, 6, 7, 8]);
    buf
}

#[test]
fn response_with_two_answers_decodes_both() {
    let buf = two_answer_response();
    let response = DnsResponse::decode_packet(&buf).unwrap();
    assert_eq!(1, response.questions.len());
    assert_eq!(2, response.records.len());
    match &response.questions[0].name {
        NameRef::Name(name, offset) => {
            assert_eq!("ab.c", name);
            assert_eq!(12, *offset);
        }
        NameRef::Offset(_) => panic!("the question carries a literal name"),
    }
    match &response.records[0].header.name {
        NameRef::Offset(target) => {
            assert_eq!(12, *target);
            assert_eq!(
                "ab.c",
                response.records[0].header.name.resolve(&buf).unwrap()
            );
        }
        NameRef::Name(_, _) => panic!("the first answer name is a pointer"),
    }
    assert!(matches!(response.records[0].payload, RecordPayload::A(0x01020304)));
    assert!(matches!(response.records[1].payload, RecordPayload::A(0x05060708)));
}

#[test]
fn count_driven_parse_ignores_trailing_bytes() {
    // Exactly two answers are read even though more bytes follow them.
    let mut buf = two_answer_response();
    buf.extend(vec![0xaa; 40]);
    let response = DnsResponse::decode_packet(&buf).unwrap();
    assert_eq!(2, response.records.len());
}

#[test]
fn count_driven_parse_fails_on_missing_answer() {
    // The header declares two answers but the second is cut off.
    let full = two_answer_response();
    let cut = &full[..full.len() - 10];
    assert!(DnsResponse::decode_packet(&cut.to_vec()).is_err());
}

#[test]
fn response_question_with_forward_pointer_fails() {
    // The question name points at its own offset.
    let mut buf = response_header(9, 1, 0);
    buf.extend(vec![0xc0, 0x0c]);
    push_u16(&mut buf, 255);
    push_u16(&mut buf, 1);
    assert_eq!(
        Err(DnsError::MalformedName),
        DnsResponse::decode_packet(&buf).map(|_| ())
    );
}

#[test]
fn truncated_record_payload_fails() {
    // An A record whose four address bytes are missing.
    let mut buf = response_header(4, 0, 1);
    buf.extend(encode_name("ab.c").unwrap());
    push_u16(&mut buf, 1);
    push_u16(&mut buf, 1);
    push_u32(&mut buf, 300);
    push_u16(&mut buf, 4);
    assert_eq!(
        Err(DnsError::Truncated),
        DnsResponse::decode_packet(&buf).map(|_| ())
    );
}

#[test]
fn question_round_trips_through_record_parse() {
    // A question encoded by the library is read back by the inbound parser.
    let mut buf = Vec::new();
    push_question(&mut buf, "site.example.com", 255, 1);
    let (question, end) = nslookup::message::ResponseQuestion::parse(&buf, 0).unwrap();
    assert_eq!(buf.len(), end);
    assert_eq!(255, question.qtype);
    assert_eq!(1, question.qclass);
    match question.name {
        NameRef::Name(name, 0) => assert_eq!("site.example.com", name),
        _ => panic!("the question name is a literal at offset zero"),
    }
}

#[test]
fn encoded_query_decodes_back() {
    // A serialized query is itself a well-formed message: reading it back
    // recovers the header and the single question.
    let header = DnsHeader {
        transaction_id: 0x7777,
        flags: 0x0100,
        question_rr_count: 1,
        answer_rr_count: 0,
        authority_rr_count: 0,
        additional_rr_count: 0,
    };
    let query = DnsQuery {
        header,
        questions: vec![QueryQuestion {
            name: String::from("site.example.com"),
            qtype: 255,
            qclass: 1,
        }],
    };
    let packet = query.encode_packet().unwrap();
    let parsed = DnsResponse::decode_packet(&packet).unwrap();
    assert_eq!(header, parsed.header);
    assert_eq!(1, parsed.questions.len());
    assert_eq!(0, parsed.records.len());
    match &parsed.questions[0].name {
        NameRef::Name(name, 12) => assert_eq!("site.example.com", name),
        _ => panic!("the question name is a literal right after the header"),
    }
}

#[test]
fn question_with_missing_fields_fails_as_truncated() {
    // The question name ends the buffer; its type and class are missing.
    let mut buf = response_header(6, 1, 0);
    buf.extend(encode_name("ab.c").unwrap());
    assert_eq!(
        Err(DnsError::Truncated),
        DnsResponse::decode_packet(&buf).map(|_| ())
    );
}

#[test]
fn record_parse_reports_position_after_payload() {
    let mut buf = response_header(5, 0, 1);
    let record_start = buf.len();
    buf.extend(encode_name("ab.c").unwrap());
    push_u16(&mut buf, 5);
    push_u16(&mut buf, 1);
    push_u32(&mut buf, 0);
    push_u16(&mut buf, 3);
    buf.extend(vec![9, 9, 9]);
    let (record, end) = ResourceRecord::parse(&buf, record_start).unwrap();
    assert_eq!(buf.len(), end);
    assert_eq!(3, record.header.length);
}
