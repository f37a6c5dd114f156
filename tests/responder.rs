use dns_codec::error::DnsError;
use dns_codec::header::Header;
use dns_codec::name::Name;
use dns_codec::responder::{build_response, respond};

fn query_bytes() -> Vec<u8> {
    let mut b = vec![0x12, 0x34, 0x01, 0x00, 0, 1, 0, 0, 0, 0, 0, 0];
    b.push(12);
    b.extend_from_slice(b"codecrafters");
    b.push(2);
    b.extend_from_slice(b"io");
    b.push(0);
    b.extend_from_slice(&[0, 1, 0, 1]);
    b
}

#[test]
fn respond_to_a_query_end_to_end() {
    let query = query_bytes();
    let response = respond(&query, [127, 0, 0, 1]).unwrap();
    let (h, n) = Header::decode(&response, 0).unwrap();
    assert_eq!(n, query.len());
    assert!(h.qr);
    assert_eq!(h.ancount, 1);
    assert_eq!(h.qdcount, 1);
    assert_eq!(h.id, 1234);
    assert!(h.rd);
    assert_eq!(h.opcode, 0);
    assert_eq!(h.question.query_type, 1);
    assert_eq!(h.question.query_class, 1);
    let (qname, _) = Name::decode(&query, 12).unwrap();
    let (aname, m) = Name::decode(&response, n).unwrap();
    assert_eq!(aname, qname);
    assert_eq!(aname.to_text(), "codecrafters.io");
    let rest = &response[n + m..];
    assert_eq!(rest, &[0, 1, 0, 1, 0, 0, 0, 60, 0, 4, 127, 0, 0, 1]);
}

#[test]
fn respond_overwrites_type_and_class() {
    let mut query = query_bytes();
    let len = query.len();
    query[len - 3] = 28;
    query[len - 1] = 3;
    let response = respond(&query, [10, 0, 0, 7]).unwrap();
    let (h, _) = Header::decode(&response, 0).unwrap();
    assert_eq!(h.question.query_type, 1);
    assert_eq!(h.question.query_class, 1);
    assert_eq!(&response[response.len() - 4..], &[10, 0, 0, 7]);
}

#[test]
fn respond_refuses_what_does_not_decode() {
    assert_eq!(respond(&[0u8; 5], [127, 0, 0, 1]), Err(DnsError::TruncatedInput));
    let query = query_bytes();
    assert_eq!(respond(&query[..query.len() - 2], [127, 0, 0, 1]), Err(DnsError::TruncatedInput));
    let mut pointer = query[..12].to_vec();
    pointer.extend_from_slice(&[0xC0, 0x0C, 0, 1, 0, 1]);
    assert_eq!(respond(&pointer, [127, 0, 0, 1]), Err(DnsError::UnsupportedNameEncoding));
}

#[test]
fn build_response_copies_the_question_name() {
    let (query, _) = Header::decode(&query_bytes(), 0).unwrap();
    let qname = query.question.name.clone();
    let message = build_response(query, [127, 0, 0, 1]);
    assert_eq!(message.answer.name, qname);
    assert_eq!(message.header.question.name, qname);
    assert_eq!(message.answer.ttl, 60);
    assert_eq!(message.answer.data_length, 4);
    assert_eq!(message.answer.data, [127, 0, 0, 1]);
}
