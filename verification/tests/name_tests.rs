use nslookup::name::{decode_name_rdr, encode_name, resolve_at, NameRef};
use nslookup::DnsError;

#[test]
fn encode_name_encodes() {
    let simple_domain = "ab.c";
    let encoded = encode_name(simple_domain).unwrap();
    let expected: Vec<u8> = vec![2, 'a' as u8, 'b' as u8, 1, 'c' as u8, 0];
    assert_eq!(expected, encoded);
}

#[test]
fn decode_name_decodes() {
    let simple_domain = "example.com";
    let buf = encode_name(simple_domain).unwrap();
    let decoded = decode_name_rdr(&buf, 0).unwrap().0;
    assert_eq!(simple_domain, decoded);

    let domain_with_sub = "site.example.com";
    let buf = encode_name(domain_with_sub).unwrap();
    let decoded = decode_name_rdr(&buf, 0).unwrap().0;
    assert_eq!(domain_with_sub, decoded);
}

#[test]
fn decode_name_rdr_decodes() {
    let simple_domain = "example.com";
    let buf = encode_name(simple_domain).unwrap();
    let decoded = decode_name_rdr(&buf, 0).unwrap().0;
    assert_eq!(simple_domain, decoded);

    let domain_with_sub = "site.example.com";
    let buf = encode_name(domain_with_sub).unwrap();
    let decoded = decode_name_rdr(&buf, 0).unwrap().0;
    assert_eq!(domain_with_sub, decoded);
}

#[test]
fn decode_name_literal_bytes() {
    let buf: Vec<u8> = vec![
        7, 'e' as u8, 'x' as u8, 'a' as u8, 'm' as u8, 'p' as u8, 'l' as u8, 'e' as u8, 3,
        'c' as u8, 'o' as u8, 'm' as u8, 0,
    ];
    let (name, end) = decode_name_rdr(&buf, 0).unwrap();
    assert_eq!("example.com", name);
    assert_eq!(13, end);
}

#[test]
fn root_name_encodes_to_zero_byte() {
    let encoded = encode_name(".").unwrap();
    assert_eq!(vec![0u8], encoded);
}

#[test]
fn zero_byte_decodes_to_empty_name() {
    let buf: Vec<u8> = vec![0];
    let (name, end) = decode_name_rdr(&buf, 0).unwrap();
    assert_eq!("", name);
    assert_eq!(1, end);
}

#[test]
fn encode_rejects_empty_name() {
    assert_eq!(Err(DnsError::InvalidDomain), encode_name(""));
}

#[test]
fn encode_rejects_long_label() {
    let long_label: String = std::iter::repeat('a').take(64).collect();
    assert_eq!(Err(DnsError::InvalidDomain), encode_name(&long_label));
    let just_fits: String = std::iter::repeat('a').take(63).collect();
    let encoded = encode_name(&just_fits).unwrap();
    assert_eq!(65, encoded.len());
    assert_eq!(63, encoded[0]);
}

#[test]
fn encode_rejects_non_ascii() {
    assert_eq!(Err(DnsError::InvalidDomain), encode_name("h\u{e9}llo.com"));
}

#[test]
fn decode_rejects_missing_terminator() {
    // One label of length 3 and its bytes, but no closing zero byte.
    let buf: Vec<u8> = vec![3, 'a' as u8, 'b' as u8, 'c' as u8];
    assert_eq!(Err(DnsError::MalformedName), decode_name_rdr(&buf, 0));
}

#[test]
fn decode_rejects_label_past_end() {
    // The length byte promises five bytes; only two remain.
    let buf: Vec<u8> = vec![5, 'a' as u8, 'b' as u8];
    assert_eq!(Err(DnsError::MalformedName), decode_name_rdr(&buf, 0));
}

#[test]
fn pointer_field_is_classified_as_pointer() {
    let buf: Vec<u8> = vec![0xc0, 0x0c];
    let (name_ref, end) = NameRef::parse_reader(&buf, 0).unwrap();
    assert_eq!(2, end);
    match name_ref {
        NameRef::Offset(target) => assert_eq!(0x000c, target),
        NameRef::Name(_, _) => panic!("a pointer field must never be read as a literal"),
    }
}

#[test]
fn literal_field_keeps_its_offset() {
    let mut buf: Vec<u8> = vec![0xff];
    buf.extend(encode_name("ab.c").unwrap());
    let (name_ref, end) = NameRef::parse_reader(&buf, 1).unwrap();
    assert_eq!(7, end);
    match name_ref {
        NameRef::Name(name, offset) => {
            assert_eq!("ab.c", name);
            assert_eq!(1, offset);
        }
        NameRef::Offset(_) => panic!("a literal must not be read as a pointer"),
    }
}

#[test]
fn self_pointer_fails_as_malformed() {
    // A pointer at offset zero that references itself.
    let buf: Vec<u8> = vec![0xc0, 0x00];
    assert_eq!(Err(DnsError::MalformedName), resolve_at(&buf, 0));
}

#[test]
fn pointer_cycle_fails_as_malformed() {
    // Offset 0 points at offset 2, which points back at offset 0.
    let buf: Vec<u8> = vec![0xc0, 0x02, 0xc0, 0x00];
    assert_eq!(Err(DnsError::MalformedName), resolve_at(&buf, 2));
    assert_eq!(Err(DnsError::MalformedName), resolve_at(&buf, 0));
}

#[test]
fn backward_pointer_chain_resolves() {
    // A literal at offset 0, a pointer to it at offset 6, and a pointer to
    // that pointer at offset 8.
    let mut buf: Vec<u8> = encode_name("ab.c").unwrap();
    buf.extend(vec![0xc0, 0x00, 0xc0, 0x06]);
    assert_eq!("ab.c", resolve_at(&buf, 6).unwrap());
    assert_eq!("ab.c", resolve_at(&buf, 8).unwrap());
    let (name_ref, _) = NameRef::parse_reader(&buf, 6).unwrap();
    assert_eq!("ab.c", name_ref.resolve(&buf).unwrap());
}

#[test]
fn truncated_lookahead_fails() {
    // A single byte cannot hold the 16-bit lookahead.
    let buf: Vec<u8> = vec![0];
    assert_eq!(
        Err(DnsError::Truncated),
        NameRef::parse_reader(&buf, 0).map(|(_, e)| e)
    );
}
