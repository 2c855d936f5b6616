//! The fixed twelve-byte header that opens every message.

use vstd::prelude::*;
use crate::error::DecodeError;
use crate::reader::PacketReader;
use crate::wire::cut;
use crate::wire::has_bytes;
use crate::wire::lemma_cut_keeps;
use crate::wire::lemma_u16_read_of_bytes;
use crate::wire::push_u16;
use crate::wire::u16_at;
use crate::wire::u16_bytes;
use crate::wire::Decoded;

verus! {

/// The outcome that a response reports.
#[derive(Copy, Clone, Debug, PartialEq, Eq, Structural)]
pub enum ResponseCode {
    NoError,
    FormErr,
    ServFail,
    NxDomain,
    NotImpl,
    Refused,
}

impl ResponseCode {
    /// The number that stands for this outcome on the wire.
    pub open spec fn wire_code(self) -> u8 {
        match self {
            ResponseCode::NoError => 0,
            ResponseCode::FormErr => 1,
            ResponseCode::ServFail => 2,
            ResponseCode::NxDomain => 3,
            ResponseCode::NotImpl => 4,
            ResponseCode::Refused => 5,
        }
    }

    /// The outcome that `value` stands for, if it stands for one.
    pub open spec fn of_code(value: u8) -> Option<ResponseCode> {
        if value == 0 {
            Some(ResponseCode::NoError)
        } else if value == 1 {
            Some(ResponseCode::FormErr)
        } else if value == 2 {
            Some(ResponseCode::ServFail)
        } else if value == 3 {
            Some(ResponseCode::NxDomain)
        } else if value == 4 {
            Some(ResponseCode::NotImpl)
        } else if value == 5 {
            Some(ResponseCode::Refused)
        } else {
            None
        }
    }

    /// The number that stands for this outcome on the wire.
    pub fn code(self) -> (r: u8)
        ensures
            r == self.wire_code(),
    {
        match self {
            ResponseCode::NoError => 0,
            ResponseCode::FormErr => 1,
            ResponseCode::ServFail => 2,
            ResponseCode::NxDomain => 3,
            ResponseCode::NotImpl => 4,
            ResponseCode::Refused => 5,
        }
    }
}

impl TryFrom<u8> for ResponseCode {
    type Error = DecodeError;

    /// The outcome that `value` stands for; a value that stands for none is
    /// an error.
    fn try_from(value: u8) -> (r: Result<ResponseCode, DecodeError>) {
        match value {
            0 => Ok(ResponseCode::NoError),
            1 => Ok(ResponseCode::FormErr),
            2 => Ok(ResponseCode::ServFail),
            3 => Ok(ResponseCode::NxDomain),
            4 => Ok(ResponseCode::NotImpl),
            5 => Ok(ResponseCode::Refused),
            _ => Err(DecodeError::InvalidResponseCode),
        }
    }
}

impl vstd::std_specs::convert::TryFromSpecImpl<u8> for ResponseCode {
    open spec fn obeys_try_from_spec() -> bool {
        true
    }

    open spec fn try_from_spec(value: u8) -> Result<ResponseCode, DecodeError> {
        match ResponseCode::of_code(value) {
            Some(code) => Ok(code),
            None => Err(DecodeError::InvalidResponseCode),
        }
    }
}

/// The operation that a query asks for.
#[derive(Copy, Clone, Debug, PartialEq, Eq, Structural)]
pub enum OpCode {
    Query,
    IQuery,
    Status,
    Update,
}

impl OpCode {
    /// The number that stands for this operation on the wire.
    pub open spec fn wire_code(self) -> u8 {
        match self {
            OpCode::Query => 0,
            OpCode::IQuery => 1,
            OpCode::Status => 2,
            OpCode::Update => 5,
        }
    }

    /// The operation that `value` stands for, if it stands for one.
    pub open spec fn of_code(value: u8) -> Option<OpCode> {
        if value == 0 {
            Some(OpCode::Query)
        } else if value == 1 {
            Some(OpCode::IQuery)
        } else if value == 2 {
            Some(OpCode::Status)
        } else if value == 5 {
            Some(OpCode::Update)
        } else {
            None
        }
    }

    /// The number that stands for this operation on the wire.
    pub fn code(self) -> (r: u8)
        ensures
            r == self.wire_code(),
    {
        match self {
            OpCode::Query => 0,
            OpCode::IQuery => 1,
            OpCode::Status => 2,
            OpCode::Update => 5,
        }
    }
}

impl TryFrom<u8> for OpCode {
    type Error = DecodeError;

    /// The operation that `value` stands for; a value that stands for none
    /// is an error.
    fn try_from(value: u8) -> (r: Result<OpCode, DecodeError>) {
        match value {
            0 => Ok(OpCode::Query),
            1 => Ok(OpCode::IQuery),
            2 => Ok(OpCode::Status),
            5 => Ok(OpCode::Update),
            _ => Err(DecodeError::InvalidOpcode),
        }
    }
}

impl vstd::std_specs::convert::TryFromSpecImpl<u8> for OpCode {
    open spec fn obeys_try_from_spec() -> bool {
        true
    }

    open spec fn try_from_spec(value: u8) -> Result<OpCode, DecodeError> {
        match OpCode::of_code(value) {
            Some(code) => Ok(code),
            None => Err(DecodeError::InvalidOpcode),
        }
    }
}

/// The header of a message.
#[derive(Copy, Clone, Debug, PartialEq, Eq, Structural)]
pub struct DnsHeader {
    /// The transaction identifier, echoed in the response.
    pub id: u16,
    /// Whether the message is a response.
    pub qr: bool,
    pub opcode: OpCode,
    pub authoritative_answer: bool,
    pub truncated_flag: bool,
    pub recursion_desired: bool,
    pub recursion_avaliable: bool,
    pub rcode: ResponseCode,
    pub question_count: u16,
    pub answer_record_count: u16,
    pub name_server_count: u16,
    pub additional_record_count: u16,
}

/// The number of bytes that a header takes.
pub const HEADER_LEN: usize = 12;

/// Bit positions in the flags word, counted from the least significant bit.
pub const QR_SHIFT: u16 = 15;

pub const OPCODE_SHIFT: u16 = 11;

pub const AA_SHIFT: u16 = 10;

pub const TC_SHIFT: u16 = 9;

pub const RD_SHIFT: u16 = 8;

pub const RA_SHIFT: u16 = 7;

/// The width of the opcode and response-code fields.
pub const NIBBLE: u16 = 0xF;

/// One if `b` holds, else zero.
pub open spec fn bit(b: bool) -> u16 {
    if b {
        1
    } else {
        0
    }
}

/// Whether the bit of `flags` at position `shift` is set.
pub open spec fn flag_at(flags: u16, shift: u16) -> bool {
    (flags >> shift) & 1 == 1
}

/// The four opcode bits of `flags`.
pub open spec fn opcode_bits(flags: u16) -> u8 {
    ((flags >> OPCODE_SHIFT) & NIBBLE) as u8
}

/// The four response-code bits of `flags`, its lowest.
pub open spec fn rcode_bits(flags: u16) -> u8 {
    (flags & NIBBLE) as u8
}

/// The flags word of `h`: from the top, one bit for `qr`, four for the
/// opcode, one each for the four flags, three zero bits and four for the
/// response code.
pub open spec fn pack_flags(h: DnsHeader) -> u16 {
    bit(h.qr) << QR_SHIFT | (h.opcode.wire_code() as u16) << OPCODE_SHIFT | bit(
        h.authoritative_answer,
    ) << AA_SHIFT | bit(h.truncated_flag) << TC_SHIFT | bit(h.recursion_desired) << RD_SHIFT | bit(
        h.recursion_avaliable,
    ) << RA_SHIFT | (h.rcode.wire_code() as u16)
}

/// The twelve bytes of `h`: identifier, flags and the four counts, each as
/// two bytes with the high byte first.
pub open spec fn encode_header(h: DnsHeader) -> Seq<u8> {
    u16_bytes(h.id) + u16_bytes(pack_flags(h)) + u16_bytes(h.question_count) + u16_bytes(
        h.answer_record_count,
    ) + u16_bytes(h.name_server_count) + u16_bytes(h.additional_record_count)
}

/// The header that stands in `data` at offset `pos`.
///
/// Fewer than twelve bytes are truncated. Of twelve bytes, the opcode bits
/// and then the response-code bits must name a known value. The three
/// reserved bits are not looked at.
pub open spec fn decode_header(data: Seq<u8>, pos: int) -> Decoded<DnsHeader> {
    if !has_bytes(data, pos, HEADER_LEN as int) {
        Err(DecodeError::Truncated)
    } else {
        let flags = u16_at(data, pos + 2);
        match OpCode::of_code(opcode_bits(flags)) {
            None => Err(DecodeError::InvalidOpcode),
            Some(opcode) => match ResponseCode::of_code(rcode_bits(flags)) {
                None => Err(DecodeError::InvalidResponseCode),
                Some(rcode) => Ok(
                    (
                        DnsHeader {
                            id: u16_at(data, pos),
                            qr: flag_at(flags, QR_SHIFT),
                            opcode,
                            authoritative_answer: flag_at(flags, AA_SHIFT),
                            truncated_flag: flag_at(flags, TC_SHIFT),
                            recursion_desired: flag_at(flags, RD_SHIFT),
                            recursion_avaliable: flag_at(flags, RA_SHIFT),
                            rcode,
                            question_count: u16_at(data, pos + 4),
                            answer_record_count: u16_at(data, pos + 6),
                            name_server_count: u16_at(data, pos + 8),
                            additional_record_count: u16_at(data, pos + 10),
                        },
                        pos + HEADER_LEN as int,
                    ),
                ),
            },
        }
    }
}

/// Unpacking the flags word of `h` gives each field of `h` back.
pub proof fn lemma_unpack_flags(h: DnsHeader)
    ensures
        flag_at(pack_flags(h), QR_SHIFT) == h.qr,
        flag_at(pack_flags(h), AA_SHIFT) == h.authoritative_answer,
        flag_at(pack_flags(h), TC_SHIFT) == h.truncated_flag,
        flag_at(pack_flags(h), RD_SHIFT) == h.recursion_desired,
        flag_at(pack_flags(h), RA_SHIFT) == h.recursion_avaliable,
        opcode_bits(pack_flags(h)) == h.opcode.wire_code(),
        rcode_bits(pack_flags(h)) == h.rcode.wire_code(),
{
    let q: u16 = bit(h.qr);
    let o: u16 = h.opcode.wire_code() as u16;
    let a: u16 = bit(h.authoritative_answer);
    let t: u16 = bit(h.truncated_flag);
    let d: u16 = bit(h.recursion_desired);
    let v: u16 = bit(h.recursion_avaliable);
    let c: u16 = h.rcode.wire_code() as u16;
    let f: u16 = pack_flags(h);
    assert(f == q << 15 | o << 11 | a << 10 | t << 9 | d << 8 | v << 7 | c);
    assert((f >> 15) & 1 == q && (f >> 10) & 1 == a && (f >> 9) & 1 == t && (f >> 8) & 1 == d && (f
        >> 7) & 1 == v && (f >> 11) & 0xF == o && f & 0xF == c) by (bit_vector)
        requires
            f == q << 15 | o << 11 | a << 10 | t << 9 | d << 8 | v << 7 | c,
            q <= 1,
            a <= 1,
            t <= 1,
            d <= 1,
            v <= 1,
            o <= 15,
            c <= 15,
    ;
}

/// Decoding the twelve bytes written for a header gives the header back,
/// whatever stands before and behind them.
pub proof fn lemma_header_round_trip(h: DnsHeader, before: Seq<u8>, after: Seq<u8>)
    ensures
        encode_header(h).len() == HEADER_LEN,
        decode_header(before + encode_header(h) + after, before.len() as int) == Ok::<
            (DnsHeader, int),
            DecodeError,
        >((h, before.len() as int + HEADER_LEN)),
{
    lemma_unpack_flags(h);
    let data = before + encode_header(h) + after;
    let pos = before.len() as int;
    let bytes = encode_header(h);
    assert(bytes.len() == 12);
    assert(data.subrange(pos, pos + 12) =~= bytes);
    assert(data.subrange(pos, pos + 2) =~= u16_bytes(h.id));
    assert(data.subrange(pos + 2, pos + 4) =~= u16_bytes(pack_flags(h)));
    assert(data.subrange(pos + 4, pos + 6) =~= u16_bytes(h.question_count));
    assert(data.subrange(pos + 6, pos + 8) =~= u16_bytes(h.answer_record_count));
    assert(data.subrange(pos + 8, pos + 10) =~= u16_bytes(h.name_server_count));
    assert(data.subrange(pos + 10, pos + 12) =~= u16_bytes(h.additional_record_count));
    lemma_u16_read_of_bytes(data, pos, h.id);
    lemma_u16_read_of_bytes(data, pos + 2, pack_flags(h));
    lemma_u16_read_of_bytes(data, pos + 4, h.question_count);
    lemma_u16_read_of_bytes(data, pos + 6, h.answer_record_count);
    lemma_u16_read_of_bytes(data, pos + 8, h.name_server_count);
    lemma_u16_read_of_bytes(data, pos + 10, h.additional_record_count);
}

/// A header that was decoded is decoded alike from every buffer that is cut
/// off behind it, and a buffer that is cut off within it is truncated.
pub proof fn lemma_header_cut_short(data: Seq<u8>, pos: int, k: int)
    requires
        decode_header(data, pos).is_ok(),
        0 <= k <= data.len(),
    ensures
        decode_header(cut(data, k), pos) == if k >= pos + HEADER_LEN {
            decode_header(data, pos)
        } else {
            Err(DecodeError::Truncated)
        },
{
    if k >= pos + HEADER_LEN {
        lemma_cut_keeps(data, k, pos, 12);
        lemma_cut_keeps(data, k, pos + 2, 2);
        lemma_cut_keeps(data, k, pos + 4, 2);
        lemma_cut_keeps(data, k, pos + 6, 2);
        lemma_cut_keeps(data, k, pos + 8, 2);
        lemma_cut_keeps(data, k, pos + 10, 2);
    }
}

/// Each of the five flags travels in a bit of its own: what comes back for
/// one flag after encoding and decoding depends on that flag alone, so two
/// headers agree on it afterwards exactly if they agreed on it before.
pub proof fn lemma_flags_are_isolated(a: DnsHeader, b: DnsHeader)
    ensures
        decode_header(encode_header(a), 0).is_ok(),
        decode_header(encode_header(b), 0).is_ok(),
        ({
            let x = decode_header(encode_header(a), 0).unwrap().0;
            let y = decode_header(encode_header(b), 0).unwrap().0;
            &&& x.qr == y.qr <==> a.qr == b.qr
            &&& x.authoritative_answer == y.authoritative_answer <==> a.authoritative_answer
                == b.authoritative_answer
            &&& x.truncated_flag == y.truncated_flag <==> a.truncated_flag == b.truncated_flag
            &&& x.recursion_desired == y.recursion_desired <==> a.recursion_desired
                == b.recursion_desired
            &&& x.recursion_avaliable == y.recursion_avaliable <==> a.recursion_avaliable
                == b.recursion_avaliable
        }),
{
    lemma_header_round_trip(a, Seq::empty(), Seq::empty());
    lemma_header_round_trip(b, Seq::empty(), Seq::empty());
    assert(Seq::<u8>::empty() + encode_header(a) + Seq::<u8>::empty() =~= encode_header(a));
    assert(Seq::<u8>::empty() + encode_header(b) + Seq::<u8>::empty() =~= encode_header(b));
}

/// One if `b` holds, else zero.
fn bit_of(b: bool) -> (r: u16)
    ensures
        r == bit(b),
{
    if b {
        1
    } else {
        0
    }
}

impl DnsHeader {
    /// Reads a header and steps past its twelve bytes; on an error the
    /// reader stays where it was.
    pub fn parse(reader: &mut PacketReader) -> (r: Result<DnsHeader, DecodeError>)
        ensures
            final(reader).bytes() == old(reader).bytes(),
            match decode_header(old(reader).bytes(), old(reader).position()) {
                Ok((header, end)) => {
                    &&& r == Ok::<DnsHeader, DecodeError>(header)
                    &&& final(reader).position() == end
                },
                Err(e) => {
                    &&& r == Err::<DnsHeader, DecodeError>(e)
                    &&& final(reader).position() == old(reader).position()
                },
            },
    {
        let start: usize = reader.offset();
        let r = DnsHeader::parse_fields(reader);
        if r.is_err() {
            let _ = reader.seek(start);
        }
        r
    }

    /// Reads the twelve bytes of a header and then judges opcode and
    /// response code; stops at the first step that fails, wherever the
    /// reader then stands.
    fn parse_fields(reader: &mut PacketReader) -> (r: Result<DnsHeader, DecodeError>)
        ensures
            final(reader).bytes() == old(reader).bytes(),
            match decode_header(old(reader).bytes(), old(reader).position()) {
                Ok((header, end)) => {
                    &&& r == Ok::<DnsHeader, DecodeError>(header)
                    &&& final(reader).position() == end
                },
                Err(e) => r == Err::<DnsHeader, DecodeError>(e),
            },
    {
        let id: u16 = reader.read_u16()?;
        let flags: u16 = reader.read_u16()?;
        let counts: Vec<u16> = reader.read_u16s(4)?;
        let opcode = OpCode::try_from(((flags >> OPCODE_SHIFT) & NIBBLE) as u8)?;
        let rcode = ResponseCode::try_from((flags & NIBBLE) as u8)?;
        Ok(
            DnsHeader {
                id,
                qr: (flags >> QR_SHIFT) & 1 == 1,
                opcode,
                authoritative_answer: (flags >> AA_SHIFT) & 1 == 1,
                truncated_flag: (flags >> TC_SHIFT) & 1 == 1,
                recursion_desired: (flags >> RD_SHIFT) & 1 == 1,
                recursion_avaliable: (flags >> RA_SHIFT) & 1 == 1,
                rcode,
                question_count: counts[0],
                answer_record_count: counts[1],
                name_server_count: counts[2],
                additional_record_count: counts[3],
            },
        )
    }

    /// The twelve bytes of the header.
    pub fn into_bytes(self) -> (r: Vec<u8>)
        ensures
            r@ == encode_header(self),
    {
        let mut v: Vec<u8> = Vec::new();
        push_u16(&mut v, self.id);
        let flags: u16 = bit_of(self.qr) << QR_SHIFT | (self.opcode.code() as u16) << OPCODE_SHIFT
            | bit_of(self.authoritative_answer) << AA_SHIFT | bit_of(self.truncated_flag)
            << TC_SHIFT | bit_of(self.recursion_desired) << RD_SHIFT | bit_of(
            self.recursion_avaliable,
        ) << RA_SHIFT | (self.rcode.code() as u16);
        push_u16(&mut v, flags);
        push_u16(&mut v, self.question_count);
        push_u16(&mut v, self.answer_record_count);
        push_u16(&mut v, self.name_server_count);
        push_u16(&mut v, self.additional_record_count);
        v
    }
}

} // verus!
