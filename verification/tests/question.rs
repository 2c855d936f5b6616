use dns_codec::DecodeError;
use dns_codec::DnsQuestion;
use dns_codec::DomainName;
use dns_codec::EncodeError;
use dns_codec::PacketReader;
use dns_codec::QClass;
use dns_codec::QType;

const EXAMPLE_A_IN: [u8; 17] =
    [7, b'e', b'x', b'a', b'm', b'p', b'l', b'e', 3, b'c', b'o', b'm', 0, 0, 1, 0, 1];

fn example(qtype: QType) -> DnsQuestion {
    DnsQuestion { qname: DomainName::from_text(b"example.com"), qtype, qclass: QClass::In }
}

#[test]
fn qtype_numbers() {
    let named = [
        (QType::A, 1u16),
        (QType::NS, 2),
        (QType::CNAME, 5),
        (QType::SOA, 6),
        (QType::PTR, 12),
        (QType::MX, 15),
        (QType::TXT, 16),
        (QType::AAAA, 28),
        (QType::SRV, 33),
        (QType::DS, 43),
        (QType::RRSIG, 46),
        (QType::NSEC, 47),
        (QType::DNSKEY, 48),
    ];
    for (qtype, code) in named {
        assert_eq!(qtype.code(), code);
        assert_eq!(QType::from(code), qtype);
    }
}

#[test]
fn qtype_keeps_an_unknown_code() {
    assert_eq!(QType::from(0), QType::Unknown(0));
    assert_eq!(QType::from(3), QType::Unknown(3));
    assert_eq!(QType::from(255), QType::Unknown(255));
    assert_eq!(QType::from(65535), QType::Unknown(65535));
    assert_eq!(QType::Unknown(999).code(), 999);
    for code in 0..=u16::MAX {
        assert_eq!(QType::from(code).code(), code);
    }
}

#[test]
fn qclass_numbers() {
    assert_eq!(QClass::In.code(), 1);
    assert_eq!(QClass::from(1), QClass::In);
    assert_eq!(QClass::from(3), QClass::Unknown(3));
    assert_eq!(QClass::from(255), QClass::Unknown(255));
    assert_eq!(QClass::Unknown(4).code(), 4);
    for code in 0..=u16::MAX {
        assert_eq!(QClass::from(code).code(), code);
    }
}

#[test]
fn question_decodes_name_type_and_class() {
    let mut reader = PacketReader::new(&EXAMPLE_A_IN);
    let question = DnsQuestion::parse(&mut reader).unwrap();
    assert_eq!(question.qname.to_text(), b"example.com".to_vec());
    assert_eq!(question.qtype, QType::A);
    assert_eq!(question.qclass, QClass::In);
    assert_eq!(reader.offset(), 17);
}

#[test]
fn question_encodes_name_type_and_class() {
    assert_eq!(example(QType::A).into_bytes(), Ok(EXAMPLE_A_IN.to_vec()));
    let mut aaaa = EXAMPLE_A_IN.to_vec();
    aaaa[14] = 28;
    assert_eq!(example(QType::AAAA).to_bytes(), Ok(aaaa));
}

#[test]
fn question_round_trip() {
    let questions = [
        example(QType::A),
        example(QType::MX),
        example(QType::Unknown(0x1234)),
        DnsQuestion { qname: DomainName::root(), qtype: QType::NS, qclass: QClass::Unknown(255) },
    ];
    for question in questions {
        let bytes = question.to_bytes().unwrap();
        let mut reader = PacketReader::new(&bytes);
        assert_eq!(DnsQuestion::parse(&mut reader), Ok(question));
        assert_eq!(reader.offset(), bytes.len());
    }
}

#[test]
fn question_with_unknown_type_and_class_is_decoded() {
    let bytes = [1, b'x', 0, 0x12, 0x34, 0, 4];
    let mut reader = PacketReader::new(&bytes);
    let question = DnsQuestion::parse(&mut reader).unwrap();
    assert_eq!(question.qtype, QType::Unknown(0x1234));
    assert_eq!(question.qclass, QClass::Unknown(4));
    assert_eq!(question.into_bytes(), Ok(bytes.to_vec()));
}

#[test]
fn question_cut_short_is_truncated() {
    for cut in 0..EXAMPLE_A_IN.len() {
        let mut reader = PacketReader::new(&EXAMPLE_A_IN[..cut]);
        assert_eq!(DnsQuestion::parse(&mut reader), Err(DecodeError::Truncated));
        assert_eq!(reader.offset(), 0);
    }
}

#[test]
fn question_with_a_compression_pointer_is_refused() {
    let bytes = [0xC0, 0x0C, 0, 1, 0, 1];
    let mut reader = PacketReader::new(&bytes);
    assert_eq!(DnsQuestion::parse(&mut reader), Err(DecodeError::UnsupportedCompression));
    assert_eq!(reader.offset(), 0);
}

#[test]
fn question_with_a_long_label_is_not_encoded() {
    let question = DnsQuestion {
        qname: DomainName { labels: vec![vec![b'x'; 256]] },
        qtype: QType::A,
        qclass: QClass::In,
    };
    assert_eq!(question.to_bytes(), Err(EncodeError::LabelTooLong));
    let question = DnsQuestion {
        qname: DomainName { labels: vec![vec![b'x'; 100], vec![b'y'; 100], vec![b'z'; 100]] },
        qtype: QType::A,
        qclass: QClass::In,
    };
    assert_eq!(question.into_bytes(), Err(EncodeError::NameTooLong));
}

#[test]
fn questions_in_a_row() {
    let mut bytes = EXAMPLE_A_IN.to_vec();
    bytes.extend_from_slice(&[3, b'o', b'r', b'g', 0, 0, 15, 0, 1]);
    let mut reader = PacketReader::new(&bytes);
    let questions = DnsQuestion::parse_many(&mut reader, 2).unwrap();
    assert_eq!(questions.len(), 2);
    assert_eq!(questions[0], example(QType::A));
    assert_eq!(questions[1].qname.to_text(), b"org".to_vec());
    assert_eq!(questions[1].qtype, QType::MX);
    assert_eq!(reader.offset(), bytes.len());
    assert_eq!(DnsQuestion::many_to_bytes(&questions), Ok(bytes.clone()));
    assert_eq!(DnsQuestion::clone_many(&questions), questions);

    let mut reader = PacketReader::new(&bytes);
    assert_eq!(DnsQuestion::parse_many(&mut reader, 3), Err(DecodeError::Truncated));
    assert_eq!(reader.offset(), 0);
    assert_eq!(DnsQuestion::parse_many(&mut reader, 0), Ok(vec![]));
    assert_eq!(reader.offset(), 0);
    assert_eq!(DnsQuestion::many_to_bytes(&vec![]), Ok(vec![]));
}

#[test]
fn the_first_question_that_fails_decides() {
    let long_label = DnsQuestion {
        qname: DomainName { labels: vec![vec![b'x'; 256]] },
        qtype: QType::A,
        qclass: QClass::In,
    };
    let long_name = DnsQuestion {
        qname: DomainName { labels: vec![vec![b'x'; 200], vec![b'y'; 200]] },
        qtype: QType::A,
        qclass: QClass::In,
    };
    assert_eq!(
        DnsQuestion::many_to_bytes(&vec![example(QType::A), long_name.clone(), long_label.clone()]),
        Err(EncodeError::NameTooLong)
    );
    assert_eq!(
        DnsQuestion::many_to_bytes(&vec![long_label, long_name, example(QType::A)]),
        Err(EncodeError::LabelTooLong)
    );
}
