use dns_codec::DecodeError;
use dns_codec::DnsQuestion;
use dns_codec::DnsResource;
use dns_codec::DomainName;
use dns_codec::EncodeError;
use dns_codec::PacketReader;
use dns_codec::QClass;
use dns_codec::QType;
use dns_codec::RData;

const NAME: [u8; 13] = [7, b'e', b'x', b'a', b'm', b'p', b'l', b'e', 3, b'c', b'o', b'm', 0];

fn example(qtype: QType) -> DnsQuestion {
    DnsQuestion { qname: DomainName::from_text(b"example.com"), qtype, qclass: QClass::In }
}

fn record(typ: QType, rdata: RData) -> DnsResource {
    DnsResource {
        name: DomainName::from_text(b"example.com"),
        typ,
        class: QClass::In,
        ttl: 0x01020304,
        rdata,
    }
}

fn wire(fixed_and_data: &[u8]) -> Vec<u8> {
    let mut bytes = NAME.to_vec();
    bytes.extend_from_slice(fixed_and_data);
    bytes
}

#[test]
fn new_record_copies_the_question() {
    let question = example(QType::A);
    let record = DnsResource::new(&question, RData::A([127, 0, 0, 1]));
    assert_eq!(record.name, question.qname);
    assert_eq!(record.typ, QType::A);
    assert_eq!(record.class, QClass::In);
    assert_eq!(record.ttl, 600);
    assert_eq!(record.rdata, RData::A([127, 0, 0, 1]));
    assert_eq!(record.rd_length(), 4);
}

#[test]
fn new_record_takes_the_type_of_the_question() {
    let question = DnsQuestion {
        qname: DomainName::from_text(b"mail.example.com"),
        qtype: QType::MX,
        qclass: QClass::Unknown(3),
    };
    let record = DnsResource::new(&question, RData::Opaque(vec![0, 10, 0]));
    assert_eq!(record.typ, QType::MX);
    assert_eq!(record.class, QClass::Unknown(3));
    assert_eq!(record.rd_length(), 3);
}

#[test]
fn record_with_a_lifetime_of_its_own() {
    let record = DnsResource::with_ttl(&example(QType::AAAA), RData::AAAA([0; 8]), 86400);
    assert_eq!(record.ttl, 86400);
    assert_eq!(record.typ, QType::AAAA);
    assert_eq!(record.rd_length(), 16);
}

#[test]
fn a_record_encodes_four_bytes() {
    let record = DnsResource::new(&example(QType::A), RData::A([127, 0, 0, 1]));
    assert_eq!(
        record.into_bytes(),
        Ok(wire(&[0, 1, 0, 1, 0, 0, 2, 88, 0, 4, 127, 0, 0, 1]))
    );
}

#[test]
fn aaaa_record_encodes_eight_groups() {
    let groups = [0x2001, 0x0db8, 0, 0, 0, 0, 0xff00, 0x0042];
    let record = record(QType::AAAA, RData::AAAA(groups));
    assert_eq!(
        record.to_bytes(),
        Ok(wire(&[
            0, 28, 0, 1, 1, 2, 3, 4, 0, 16, 0x20, 0x01, 0x0d, 0xb8, 0, 0, 0, 0, 0, 0, 0, 0, 0xff,
            0x00, 0x00, 0x42,
        ]))
    );
}

#[test]
fn rdata_bytes() {
    assert_eq!(RData::A([1, 2, 3, 4]).into_bytes(), vec![1, 2, 3, 4]);
    assert_eq!(RData::A([1, 2, 3, 4]).byte_len(), 4);
    let groups = [0x0102, 0x0304, 0x0506, 0x0708, 0x090a, 0x0b0c, 0x0d0e, 0x0f10];
    assert_eq!(RData::AAAA(groups).to_bytes(), (1..=16).collect::<Vec<u8>>());
    assert_eq!(RData::AAAA(groups).byte_len(), 16);
    assert_eq!(RData::Opaque(vec![9, 8, 7]).into_bytes(), vec![9, 8, 7]);
    assert_eq!(RData::Opaque(vec![9, 8, 7]).byte_len(), 3);
    assert_eq!(RData::Opaque(vec![]).to_bytes(), Vec::<u8>::new());
    assert_eq!(RData::Opaque(vec![5]).clone(), RData::Opaque(vec![5]));
}

#[test]
fn rdata_is_read_as_its_type_asks() {
    let bytes: Vec<u8> = (1..=20).collect();
    let mut reader = PacketReader::new(&bytes);
    assert_eq!(RData::parse(QType::A, 4, &mut reader), Ok(RData::A([1, 2, 3, 4])));
    assert_eq!(reader.offset(), 4);
    assert_eq!(RData::parse(QType::TXT, 3, &mut reader), Ok(RData::Opaque(vec![5, 6, 7])));
    assert_eq!(reader.offset(), 7);
    assert_eq!(RData::parse(QType::AAAA, 16, &mut reader), Err(DecodeError::Truncated));
    assert_eq!(reader.offset(), 7);
    assert_eq!(RData::parse(QType::Unknown(77), 14, &mut reader), Err(DecodeError::Truncated));
    assert_eq!(reader.offset(), 7);
    assert_eq!(RData::parse(QType::NS, 0, &mut reader), Ok(RData::Opaque(vec![])));
    let _ = reader.seek(4);
    assert_eq!(
        RData::parse(QType::AAAA, 16, &mut reader),
        Ok(RData::AAAA([0x0506, 0x0708, 0x090a, 0x0b0c, 0x0d0e, 0x0f10, 0x1112, 0x1314]))
    );
    assert_eq!(reader.offset(), 20);
}

#[test]
fn address_records_take_their_own_length_whatever_the_field_says() {
    let bytes = wire(&[0, 1, 0, 1, 0, 0, 0, 60, 0, 9, 10, 0, 0, 1, 0xEE]);
    let mut reader = PacketReader::new(&bytes);
    let record = DnsResource::parse(&mut reader).unwrap();
    assert_eq!(record.rdata, RData::A([10, 0, 0, 1]));
    assert_eq!(reader.offset(), bytes.len() - 1);
    assert_eq!(record.rd_length(), 4);
    assert_eq!(record.into_bytes(), Ok(wire(&[0, 1, 0, 1, 0, 0, 0, 60, 0, 4, 10, 0, 0, 1])));
}

#[test]
fn record_round_trip() {
    let records = [
        record(QType::A, RData::A([192, 0, 2, 1])),
        record(QType::AAAA, RData::AAAA([0x2001, 0xdb8, 1, 2, 3, 4, 5, 0xffff])),
        record(QType::TXT, RData::Opaque(b"\x05hello".to_vec())),
        record(QType::Unknown(4321), RData::Opaque(vec![])),
        DnsResource {
            name: DomainName::root(),
            typ: QType::NS,
            class: QClass::Unknown(0),
            ttl: u32::MAX,
            rdata: RData::Opaque(vec![0xAB; 300]),
        },
    ];
    for record in records {
        let bytes = record.to_bytes().unwrap();
        let mut reader = PacketReader::new(&bytes);
        assert_eq!(DnsResource::parse(&mut reader), Ok(record));
        assert_eq!(reader.offset(), bytes.len());
    }
}

#[test]
fn unknown_type_passes_through() {
    let bytes = wire(&[0x12, 0x34, 0, 1, 0, 0, 0, 5, 0, 6, 0xDE, 0xAD, 0xBE, 0xEF, 0x00, 0xFF]);
    let mut reader = PacketReader::new(&bytes);
    let record = DnsResource::parse(&mut reader).unwrap();
    assert_eq!(reader.offset(), bytes.len());
    assert_eq!(record.typ, QType::Unknown(0x1234));
    assert_eq!(record.ttl, 5);
    assert_eq!(record.rdata, RData::Opaque(vec![0xDE, 0xAD, 0xBE, 0xEF, 0x00, 0xFF]));
    assert_eq!(record.rd_length(), 6);
    let again = record.into_bytes().unwrap();
    assert_eq!(again[again.len() - 6..], bytes[bytes.len() - 6..]);
    assert_eq!(again, bytes);
}

#[test]
fn named_types_without_a_form_of_their_own_pass_through() {
    let bytes = wire(&[0, 15, 0, 1, 0, 0, 14, 16, 0, 4, 0, 10, 1, b'm']);
    let mut reader = PacketReader::new(&bytes);
    let record = DnsResource::parse(&mut reader).unwrap();
    assert_eq!(record.typ, QType::MX);
    assert_eq!(record.rdata, RData::Opaque(vec![0, 10, 1, b'm']));
    assert_eq!(record.into_bytes(), Ok(bytes));
}

#[test]
fn record_cut_short_is_truncated() {
    let whole = wire(&[0, 1, 0, 1, 0, 0, 2, 88, 0, 4, 127, 0, 0, 1]);
    for cut in 0..whole.len() {
        let mut reader = PacketReader::new(&whole[..cut]);
        assert_eq!(DnsResource::parse(&mut reader), Err(DecodeError::Truncated));
        assert_eq!(reader.offset(), 0);
    }
    let whole = wire(&[0, 99, 0, 1, 0, 0, 2, 88, 0, 3, 1, 2, 3]);
    for cut in 0..whole.len() {
        let mut reader = PacketReader::new(&whole[..cut]);
        assert_eq!(DnsResource::parse(&mut reader), Err(DecodeError::Truncated));
        assert_eq!(reader.offset(), 0);
    }
}

#[test]
fn length_field_counts_the_data() {
    let datas = [
        RData::A([1, 2, 3, 4]),
        RData::AAAA([1, 2, 3, 4, 5, 6, 7, 8]),
        RData::Opaque(vec![]),
        RData::Opaque(vec![7; 1000]),
        RData::Opaque(vec![7; 65535]),
    ];
    for rdata in datas {
        let len = rdata.byte_len();
        let bytes = record(QType::TXT, rdata).into_bytes().unwrap();
        let field = NAME.len() + 8;
        assert_eq!(bytes[field] as usize * 256 + bytes[field + 1] as usize, len);
        assert_eq!(bytes.len(), NAME.len() + 10 + len);
    }
}

#[test]
fn data_of_65536_bytes_is_too_long() {
    let record = record(QType::TXT, RData::Opaque(vec![0; 65536]));
    assert_eq!(record.rd_length(), 65536);
    assert_eq!(record.into_bytes(), Err(EncodeError::RdataTooLong));
}

#[test]
fn a_name_that_fails_is_told_before_data_that_is_too_long() {
    let record = DnsResource {
        name: DomainName { labels: vec![vec![b'x'; 256]] },
        typ: QType::TXT,
        class: QClass::In,
        ttl: 0,
        rdata: RData::Opaque(vec![0; 65536]),
    };
    assert_eq!(record.to_bytes(), Err(EncodeError::LabelTooLong));
    let record = DnsResource {
        name: DomainName { labels: vec![vec![b'x'; 255]] },
        typ: QType::TXT,
        class: QClass::In,
        ttl: 0,
        rdata: RData::Opaque(vec![0; 65536]),
    };
    assert_eq!(record.into_bytes(), Err(EncodeError::NameTooLong));
}

#[test]
fn records_in_a_row() {
    let first = record(QType::A, RData::A([1, 1, 1, 1]));
    let second = record(QType::SOA, RData::Opaque(vec![1, 2]));
    let records = vec![first.clone(), second.clone()];
    let bytes = DnsResource::many_to_bytes(&records).unwrap();
    let mut expected = first.to_bytes().unwrap();
    expected.extend(second.to_bytes().unwrap());
    assert_eq!(bytes, expected);
    let mut reader = PacketReader::new(&bytes);
    assert_eq!(DnsResource::parse_many(&mut reader, 2), Ok(records));
    assert_eq!(reader.offset(), bytes.len());
    let mut reader = PacketReader::new(&bytes);
    assert_eq!(DnsResource::parse_many(&mut reader, 3), Err(DecodeError::Truncated));
    assert_eq!(reader.offset(), 0);
    assert_eq!(DnsResource::parse_many(&mut reader, 1), Ok(vec![first]));
}

#[test]
fn loopback_data() {
    assert_eq!(RData::loopback(QType::A), Some(RData::A([127, 0, 0, 1])));
    assert_eq!(RData::loopback(QType::AAAA), Some(RData::AAAA([0, 0, 0, 0, 0, 0, 0, 1])));
    assert_eq!(RData::loopback(QType::MX), None);
    assert_eq!(RData::loopback(QType::Unknown(1)), None);
}
