use dns_codec::DecodeError;
use dns_codec::DnsHeader;
use dns_codec::OpCode;
use dns_codec::PacketReader;
use dns_codec::ResponseCode;

fn plain_header() -> DnsHeader {
    DnsHeader {
        id: 0x1234,
        qr: false,
        opcode: OpCode::Query,
        authoritative_answer: false,
        truncated_flag: false,
        recursion_desired: true,
        recursion_avaliable: false,
        rcode: ResponseCode::NoError,
        question_count: 1,
        answer_record_count: 0,
        name_server_count: 0,
        additional_record_count: 0,
    }
}

#[test]
fn header_decodes_a_plain_query() {
    let bytes = [0x12, 0x34, 0x01, 0x00, 0, 1, 0, 0, 0, 0, 0, 0];
    let mut reader = PacketReader::new(&bytes);
    assert_eq!(DnsHeader::parse(&mut reader), Ok(plain_header()));
    assert_eq!(reader.offset(), 12);
}

#[test]
fn header_encodes_a_plain_query() {
    assert_eq!(
        plain_header().into_bytes(),
        vec![0x12, 0x34, 0x01, 0x00, 0, 1, 0, 0, 0, 0, 0, 0]
    );
}

#[test]
fn header_packs_every_field_in_its_place() {
    let header = DnsHeader {
        id: 0xBEEF,
        qr: true,
        opcode: OpCode::Update,
        authoritative_answer: true,
        truncated_flag: false,
        recursion_desired: true,
        recursion_avaliable: true,
        rcode: ResponseCode::Refused,
        question_count: 0x0102,
        answer_record_count: 0x0304,
        name_server_count: 0x0506,
        additional_record_count: 0x0708,
    };
    // 1 0101 1 0 1 | 1 000 0101
    assert_eq!(
        header.into_bytes(),
        vec![0xBE, 0xEF, 0xAD, 0x85, 1, 2, 3, 4, 5, 6, 7, 8]
    );
    let bytes = header.into_bytes();
    let mut reader = PacketReader::new(&bytes);
    assert_eq!(DnsHeader::parse(&mut reader), Ok(header));
}

#[test]
fn header_reads_the_response_code_from_the_low_four_bits() {
    let bytes = [0, 0, 0x80, 0x04, 0, 0, 0, 0, 0, 0, 0, 0];
    let mut reader = PacketReader::new(&bytes);
    let header = DnsHeader::parse(&mut reader).unwrap();
    assert_eq!(header.rcode, ResponseCode::NotImpl);
    assert!(header.qr);
    assert!(!header.recursion_avaliable);
    let bytes = [0, 0, 0x00, 0x83, 0, 0, 0, 0, 0, 0, 0, 0];
    let mut reader = PacketReader::new(&bytes);
    let header = DnsHeader::parse(&mut reader).unwrap();
    assert_eq!(header.rcode, ResponseCode::NxDomain);
    assert!(header.recursion_avaliable);
    assert!(!header.qr);
}

#[test]
fn header_ignores_the_reserved_bits() {
    let bytes = [0, 1, 0x01, 0x70, 0, 1, 0, 0, 0, 0, 0, 0];
    let mut reader = PacketReader::new(&bytes);
    let header = DnsHeader::parse(&mut reader).unwrap();
    assert_eq!(header.rcode, ResponseCode::NoError);
    assert!(!header.recursion_avaliable);
    assert!(header.recursion_desired);
    assert_eq!(header.into_bytes(), vec![0, 1, 0x01, 0x00, 0, 1, 0, 0, 0, 0, 0, 0]);
}

#[test]
fn header_of_two_bytes_is_truncated() {
    let mut reader = PacketReader::new(&[0x12, 0x34]);
    assert_eq!(DnsHeader::parse(&mut reader), Err(DecodeError::Truncated));
    assert_eq!(reader.offset(), 0);
}

#[test]
fn header_cut_short_is_truncated() {
    let whole = plain_header().into_bytes();
    for cut in 0..whole.len() {
        let mut reader = PacketReader::new(&whole[..cut]);
        assert_eq!(DnsHeader::parse(&mut reader), Err(DecodeError::Truncated));
        assert_eq!(reader.offset(), 0);
    }
}

#[test]
fn header_cut_short_is_truncated_before_its_fields_are_judged() {
    // invalid opcode, but only eleven bytes
    let bytes = [0, 0, 0x78, 0x0F, 0, 0, 0, 0, 0, 0, 0];
    let mut reader = PacketReader::new(&bytes);
    assert_eq!(DnsHeader::parse(&mut reader), Err(DecodeError::Truncated));
}

#[test]
fn header_refuses_an_unknown_opcode() {
    for opcode in [3u8, 4, 6, 7, 8, 9, 10, 11, 12, 13, 14, 15] {
        let bytes = [0, 0, opcode << 3, 0, 0, 0, 0, 0, 0, 0, 0, 0];
        let mut reader = PacketReader::new(&bytes);
        assert_eq!(DnsHeader::parse(&mut reader), Err(DecodeError::InvalidOpcode));
        assert_eq!(reader.offset(), 0);
    }
}

#[test]
fn header_refuses_an_unknown_response_code() {
    for rcode in 6u8..16 {
        let bytes = [0, 0, 0, rcode, 0, 0, 0, 0, 0, 0, 0, 0];
        let mut reader = PacketReader::new(&bytes);
        assert_eq!(DnsHeader::parse(&mut reader), Err(DecodeError::InvalidResponseCode));
        assert_eq!(reader.offset(), 0);
    }
}

#[test]
fn header_judges_the_opcode_before_the_response_code() {
    let bytes = [0, 0, 0x78, 0x0F, 0, 0, 0, 0, 0, 0, 0, 0];
    let mut reader = PacketReader::new(&bytes);
    assert_eq!(DnsHeader::parse(&mut reader), Err(DecodeError::InvalidOpcode));
}

#[test]
fn header_round_trips_every_combination_of_flags() {
    for bits in 0u8..32 {
        let header = DnsHeader {
            qr: bits & 1 != 0,
            authoritative_answer: bits & 2 != 0,
            truncated_flag: bits & 4 != 0,
            recursion_desired: bits & 8 != 0,
            recursion_avaliable: bits & 16 != 0,
            ..plain_header()
        };
        let bytes = header.into_bytes();
        assert_eq!(bytes.len(), 12);
        let mut reader = PacketReader::new(&bytes);
        assert_eq!(DnsHeader::parse(&mut reader), Ok(header));
    }
}

#[test]
fn header_flags_each_have_a_bit_of_their_own() {
    let base = plain_header().into_bytes();
    let flip = |header: DnsHeader| -> (u8, u8) {
        let bytes = header.into_bytes();
        (bytes[2] ^ base[2], bytes[3] ^ base[3])
    };
    assert_eq!(flip(DnsHeader { qr: true, ..plain_header() }), (0x80, 0));
    assert_eq!(flip(DnsHeader { authoritative_answer: true, ..plain_header() }), (0x04, 0));
    assert_eq!(flip(DnsHeader { truncated_flag: true, ..plain_header() }), (0x02, 0));
    assert_eq!(flip(DnsHeader { recursion_desired: false, ..plain_header() }), (0x01, 0));
    assert_eq!(flip(DnsHeader { recursion_avaliable: true, ..plain_header() }), (0, 0x80));
}

#[test]
fn header_round_trips_every_opcode_and_response_code() {
    let opcodes = [OpCode::Query, OpCode::IQuery, OpCode::Status, OpCode::Update];
    let rcodes = [
        ResponseCode::NoError,
        ResponseCode::FormErr,
        ResponseCode::ServFail,
        ResponseCode::NxDomain,
        ResponseCode::NotImpl,
        ResponseCode::Refused,
    ];
    for opcode in opcodes {
        for rcode in rcodes {
            let header = DnsHeader { opcode, rcode, ..plain_header() };
            let bytes = header.into_bytes();
            let mut reader = PacketReader::new(&bytes);
            assert_eq!(DnsHeader::parse(&mut reader), Ok(header));
        }
    }
}

#[test]
fn opcode_numbers() {
    assert_eq!(OpCode::Query.code(), 0);
    assert_eq!(OpCode::IQuery.code(), 1);
    assert_eq!(OpCode::Status.code(), 2);
    assert_eq!(OpCode::Update.code(), 5);
    assert_eq!(OpCode::try_from(0), Ok(OpCode::Query));
    assert_eq!(OpCode::try_from(1), Ok(OpCode::IQuery));
    assert_eq!(OpCode::try_from(2), Ok(OpCode::Status));
    assert_eq!(OpCode::try_from(5), Ok(OpCode::Update));
    assert_eq!(OpCode::try_from(3), Err(DecodeError::InvalidOpcode));
    assert_eq!(OpCode::try_from(4), Err(DecodeError::InvalidOpcode));
    assert_eq!(OpCode::try_from(255), Err(DecodeError::InvalidOpcode));
}

#[test]
fn response_code_numbers() {
    assert_eq!(ResponseCode::NoError.code(), 0);
    assert_eq!(ResponseCode::FormErr.code(), 1);
    assert_eq!(ResponseCode::ServFail.code(), 2);
    assert_eq!(ResponseCode::NxDomain.code(), 3);
    assert_eq!(ResponseCode::NotImpl.code(), 4);
    assert_eq!(ResponseCode::Refused.code(), 5);
    for value in 0u8..6 {
        assert_eq!(ResponseCode::try_from(value).unwrap().code(), value);
    }
    assert_eq!(ResponseCode::try_from(6), Err(DecodeError::InvalidResponseCode));
    assert_eq!(ResponseCode::try_from(255), Err(DecodeError::InvalidResponseCode));
}
