use dns_codec::error::DnsError;
use dns_codec::header::{Flag, Header};
use dns_codec::message::{Answer, Message};
use dns_codec::label::Label;
use dns_codec::name::Name;
use dns_codec::question::Question;

fn name_of(parts: &[&[u8]]) -> Name {
    Name::from_labels(parts.iter().map(|p| p.to_vec()).collect()).unwrap()
}

fn example_name_bytes() -> Vec<u8> {
    let mut b = vec![7u8];
    b.extend_from_slice(b"example");
    b.push(3);
    b.extend_from_slice(b"com");
    b.push(0);
    b
}

fn sample_header() -> Header {
    Header {
        id: 0x1234,
        qr: false,
        opcode: 0,
        aa: false,
        tc: false,
        rd: true,
        ra: false,
        z: 0,
        rcode: 0,
        qdcount: 1,
        ancount: 0,
        nscount: 0,
        arcount: 0,
        question: Question {
            name: name_of(&[b"codecrafters", b"io", b""]),
            query_type: 1,
            query_class: 1,
        },
    }
}

#[test]
fn label_decode_reads_length_and_data() {
    let (l, n) = Label::decode(&[3, b'a', b'b', b'c', 9], 0).unwrap();
    assert_eq!(l.length, 3);
    assert_eq!(l.data, b"abc".to_vec());
    assert_eq!(n, 4);
}

#[test]
fn label_decode_at_offset_and_terminator() {
    let (l, n) = Label::decode(&[9, 9, 0], 2).unwrap();
    assert_eq!(l.length, 0);
    assert!(l.data.is_empty());
    assert_eq!(n, 1);
}

#[test]
fn label_shorter_than_declared_is_truncated() {
    let bytes = [5u8, b'a', b'b', b'c'];
    assert_eq!(Label::decode(&bytes, 0), Err(DnsError::TruncatedInput));
    assert_eq!(Name::decode(&bytes, 0), Err(DnsError::TruncatedInput));
    assert_eq!(Label::decode(&bytes, 4), Err(DnsError::TruncatedInput));
    assert_eq!(Label::decode(&[], 0), Err(DnsError::TruncatedInput));
}

#[test]
fn label_encode_is_length_then_data() {
    let l = Label::new(b"abc".to_vec()).unwrap();
    assert_eq!(l.length, 3);
    assert_eq!(l.encode(), vec![3, b'a', b'b', b'c']);
    assert_eq!(Label::terminator().encode(), vec![0]);
}

#[test]
fn label_new_refuses_overlong_data() {
    assert_eq!(Label::new(vec![1u8; 256]), Err(DnsError::EncodingOverflow));
    assert_eq!(Label::new(vec![1u8; 255]).unwrap().length, 255);
}

#[test]
fn label_text_is_lossy_utf8() {
    assert_eq!(Label::new(b"io".to_vec()).unwrap().to_text(), "io");
    assert_eq!(Label::new(vec![b'a', 0xFF]).unwrap().to_text(), "a\u{FFFD}");
}

#[test]
fn name_decode_reads_up_to_terminator() {
    let mut bytes = example_name_bytes();
    bytes.extend_from_slice(&[0, 1, 0, 1]);
    let (name, n) = Name::decode(&bytes, 0).unwrap();
    assert_eq!(n, 13);
    assert_eq!(name.labels.len(), 3);
    assert_eq!(name.labels[0].data, b"example".to_vec());
    assert_eq!(name.labels[1].data, b"com".to_vec());
    assert_eq!(name.labels[2].length, 0);
}

#[test]
fn name_decode_then_encode_gives_the_bytes_back() {
    let bytes = example_name_bytes();
    let (name, n) = Name::decode(&bytes, 0).unwrap();
    assert_eq!(n, bytes.len());
    assert_eq!(name.encode(), bytes);
}

#[test]
fn name_encode_then_decode_gives_the_name_back() {
    let name = name_of(&[b"a", b"bb", b"ccc", b""]);
    let mut bytes = vec![0xEE];
    bytes.extend(name.encode());
    bytes.push(0xEE);
    let (back, n) = Name::decode(&bytes, 1).unwrap();
    assert_eq!(back, name);
    assert_eq!(n, 2 + 3 + 4 + 1);
}

#[test]
fn name_root_is_just_the_terminator() {
    let (name, n) = Name::decode(&[0], 0).unwrap();
    assert_eq!(n, 1);
    assert_eq!(name.labels.len(), 1);
    assert_eq!(name.to_text(), "");
}

#[test]
fn name_compression_pointer_is_unsupported() {
    assert_eq!(Name::decode(&[0xC0, 0x0C], 0), Err(DnsError::UnsupportedNameEncoding));
    assert_eq!(Name::decode(&[1, b'a', 0xFF, 0], 0), Err(DnsError::UnsupportedNameEncoding));
}

#[test]
fn name_label_over_63_bytes_is_malformed() {
    let mut bytes = vec![64u8];
    bytes.extend(vec![b'x'; 64]);
    bytes.push(0);
    assert_eq!(Name::decode(&bytes, 0), Err(DnsError::MalformedName));
}

#[test]
fn name_over_255_bytes_is_malformed() {
    let mut bytes = Vec::new();
    for _ in 0..5 {
        bytes.push(63u8);
        bytes.extend(vec![b'x'; 63]);
    }
    bytes.push(0);
    assert_eq!(Name::decode(&bytes, 0), Err(DnsError::MalformedName));
    // four labels of 63 and a terminator take exactly 257 bytes: refused too
    let mut four = Vec::new();
    for _ in 0..4 {
        four.push(63u8);
        four.extend(vec![b'x'; 63]);
    }
    four.push(0);
    assert_eq!(Name::decode(&four, 0), Err(DnsError::MalformedName));
    // three of 63, one of 61 and the terminator take 255: accepted
    let mut longest = Vec::new();
    for _ in 0..3 {
        longest.push(63u8);
        longest.extend(vec![b'x'; 63]);
    }
    longest.push(61);
    longest.extend(vec![b'y'; 61]);
    longest.push(0);
    assert_eq!(longest.len(), 255);
    let (name, n) = Name::decode(&longest, 0).unwrap();
    assert_eq!(n, 255);
    assert_eq!(name.encode(), longest);
}

#[test]
fn name_without_terminator_is_truncated() {
    assert_eq!(Name::decode(&[3, b'a', b'b', b'c'], 0), Err(DnsError::TruncatedInput));
    assert_eq!(Name::decode(&[], 0), Err(DnsError::TruncatedInput));
}

#[test]
fn name_renders_labels_joined_with_dots() {
    let name = name_of(&[b"example", b"com", b""]);
    assert_eq!(name.to_text(), "example.com");
}

#[test]
fn name_from_labels_checks_the_shape() {
    let parts = |ps: &[&[u8]]| ps.iter().map(|p| p.to_vec()).collect::<Vec<Vec<u8>>>();
    assert_eq!(Name::from_labels(parts(&[b"com"])), Err(DnsError::MalformedName));
    assert_eq!(Name::from_labels(parts(&[b"a", b"", b""])), Err(DnsError::MalformedName));
    assert_eq!(Name::from_labels(Vec::new()), Err(DnsError::MalformedName));
    assert_eq!(Name::from_labels(vec![vec![b'x'; 64], vec![]]), Err(DnsError::MalformedName));
    let ok = Name::from_labels(parts(&[b"a", b""])).unwrap();
    assert_eq!(ok.labels[0].length, 1);
    assert_eq!(ok.encode(), vec![1, b'a', 0]);
}

#[test]
fn name_duplicate_is_equal() {
    let name = name_of(&[b"example", b"com", b""]);
    assert_eq!(name.duplicate(), name);
}

#[test]
fn question_decode_and_encode() {
    let mut bytes = example_name_bytes();
    bytes.extend_from_slice(&[0x00, 0x1C, 0x00, 0x01]);
    let (q, n) = Question::decode(&bytes, 0).unwrap();
    assert_eq!(n, 17);
    assert_eq!(q.query_type, 28);
    assert_eq!(q.query_class, 1);
    assert_eq!(q.name.to_text(), "example.com");
    assert_eq!(q.encode(), bytes);
    assert_eq!(Question::decode(&bytes[..16], 0), Err(DnsError::TruncatedInput));
}

#[test]
fn header_decode_unpacks_every_field() {
    let mut bytes = vec![0xAB, 0xCD, 0b1_0110_1_0_1, 0b1_101_0110, 0, 1, 0, 2, 0, 3, 1, 4];
    bytes.extend(example_name_bytes());
    bytes.extend_from_slice(&[0, 1, 0, 1]);
    let (h, n) = Header::decode(&bytes, 0).unwrap();
    assert_eq!(n, bytes.len());
    assert_eq!(h.id, 0xABCD);
    assert!(h.qr);
    assert_eq!(h.opcode, 0b0110);
    assert!(h.aa);
    assert!(!h.tc);
    assert!(h.rd);
    assert!(h.ra);
    assert_eq!(h.z, 0b101);
    assert_eq!(h.rcode, 0b0110);
    assert_eq!((h.qdcount, h.ancount, h.nscount, h.arcount), (1, 2, 3, 260));
    assert_eq!(h.question.name.to_text(), "example.com");
    assert_eq!(h.encode(), bytes);
}

#[test]
fn header_round_trip_is_byte_exact() {
    for hi in [0u8, 0xFF, 0x5A, 0xA5] {
        for lo in [0u8, 0xFF, 0x3C, 0xC3] {
            let mut bytes = vec![0x12, 0x34, hi, lo, 0, 1, 0, 0, 0, 0, 0, 0];
            bytes.extend(example_name_bytes());
            bytes.extend_from_slice(&[0, 1, 0, 1]);
            let (h, _) = Header::decode(&bytes, 0).unwrap();
            assert_eq!(h.encode(), bytes);
        }
    }
}

#[test]
fn header_shorter_than_twelve_bytes_is_truncated() {
    assert_eq!(Header::decode(&[0u8; 11], 0), Err(DnsError::TruncatedInput));
    assert_eq!(Header::decode(&[0u8; 12], 0), Err(DnsError::TruncatedInput));
    let mut bytes = vec![0u8; 12];
    bytes.push(0xC0);
    bytes.push(0x0C);
    assert_eq!(Header::decode(&bytes, 0), Err(DnsError::UnsupportedNameEncoding));
}

#[test]
fn header_flags_each_set_exactly_one_bit() {
    let base = sample_header();
    let mut clear = Header { rd: false, ..base };
    let zero = clear.encode();
    for (flag, byte, mask) in [
        (Flag::Qr, 2usize, 0x80u8),
        (Flag::Aa, 2, 0x04),
        (Flag::Tc, 2, 0x02),
        (Flag::Rd, 2, 0x01),
        (Flag::Ra, 3, 0x80),
    ] {
        clear.set_flag(flag, true);
        assert!(clear.get_flag(flag));
        let set = clear.encode();
        assert_eq!(set.len(), zero.len());
        for i in 0..zero.len() {
            if i == byte {
                assert_eq!(set[i], zero[i] ^ mask);
            } else {
                assert_eq!(set[i], zero[i]);
            }
        }
        clear.set_flag(flag, false);
        assert_eq!(clear.encode(), zero);
    }
}

#[test]
fn header_multi_bit_fields_keep_their_low_bits() {
    let h = Header { opcode: 0x1F, z: 0x0F, rcode: 0x13, ..sample_header() };
    let bytes = h.encode();
    assert_eq!(bytes[2], 0b0_1111_0_0_1);
    assert_eq!(bytes[3], 0b0_111_0011);
    assert_eq!(h.check_field_widths(), Err(DnsError::EncodingOverflow));
    assert_eq!(sample_header().check_field_widths(), Ok(()));
    let z_only = Header { z: 8, ..sample_header() };
    assert_eq!(z_only.check_field_widths(), Err(DnsError::EncodingOverflow));
}

#[test]
fn header_encoding_twice_gives_the_same_bytes() {
    let h = sample_header();
    let first = h.encode();
    let second = h.encode();
    assert_eq!(first, second);
    assert_eq!(&first[..12], &[0x12, 0x34, 0x01, 0x00, 0, 1, 0, 0, 0, 0, 0, 0]);
}

#[test]
fn answer_encodes_every_field() {
    let answer = Answer::a_record(name_of(&[b"io", b""]), [127, 0, 0, 1]);
    assert_eq!(
        answer.encode(),
        vec![2, b'i', b'o', 0, 0, 1, 0, 1, 0, 0, 0, 60, 0, 4, 127, 0, 0, 1]
    );
    let other = Answer { ttl: 0x01020304, data: [10, 1, 2, 3], ..answer.clone() };
    assert_eq!(&other.encode()[8..12], &[1, 2, 3, 4]);
    assert_eq!(&other.encode()[14..], &[10, 1, 2, 3]);
}

#[test]
fn message_is_header_then_answer() {
    let header = sample_header();
    let answer = Answer::a_record(name_of(&[b"io", b""]), [1, 2, 3, 4]);
    let mut expected = header.encode();
    expected.extend(answer.encode());
    let message = Message { header, answer };
    assert_eq!(message.encode(), expected);
}

#[test]
fn header_encode_then_decode_gives_the_header_back() {
    let h = Header { opcode: 2, aa: true, z: 5, rcode: 3, nscount: 7, ..sample_header() };
    let mut bytes = h.encode();
    let len = bytes.len();
    bytes.extend_from_slice(&[0xDE, 0xAD]);
    let (back, n) = Header::decode(&bytes, 0).unwrap();
    assert_eq!(n, len);
    assert_eq!(back, h);
}
