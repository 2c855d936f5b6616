//! The question of a query: a name, a record type and a class.

use vstd::prelude::*;
use crate::error::DecodeError;
use crate::error::EncodeError;
use crate::name::decode_name;
use crate::name::encode_name;
use crate::name::lemma_decode_name_wire;
use crate::name::lemma_decoded_name_is_wire;
use crate::name::lemma_name_cut_short;
use crate::name::name_wire;
use crate::name::valid_name;
use crate::name::DomainName;
use crate::reader::PacketReader;
use crate::wire::cut;
use crate::wire::has_bytes;
use crate::wire::lemma_cut_keeps;
use crate::wire::lemma_regroup;
use crate::wire::lemma_u16_read_of_bytes;
use crate::wire::prepend;
use crate::wire::prepend_bytes;
use crate::wire::push_all;
use crate::wire::push_u16;
use crate::wire::u16_at;
use crate::wire::u16_bytes;
use crate::wire::Decoded;

verus! {

/// The type of record that a question asks for or a record holds.
#[allow(clippy::upper_case_acronyms)]
#[derive(Copy, Clone, Debug, PartialEq, Eq, Structural)]
pub enum QType {
    A,
    NS,
    CNAME,
    SOA,
    PTR,
    MX,
    TXT,
    AAAA,
    SRV,
    DS,
    RRSIG,
    NSEC,
    DNSKEY,
    /// A type code that this codec gives no name.
    Unknown(u16),
}

impl QType {
    /// The number that stands for this type on the wire.
    pub open spec fn wire_code(self) -> u16 {
        match self {
            QType::A => 1,
            QType::NS => 2,
            QType::CNAME => 5,
            QType::SOA => 6,
            QType::PTR => 12,
            QType::MX => 15,
            QType::TXT => 16,
            QType::AAAA => 28,
            QType::SRV => 33,
            QType::DS => 43,
            QType::RRSIG => 46,
            QType::NSEC => 47,
            QType::DNSKEY => 48,
            QType::Unknown(code) => code,
        }
    }

    /// The type that `value` stands for: the named type with that code, or
    /// `Unknown` holding `value` if none has it.
    pub open spec fn of_code(value: u16) -> QType {
        if value == 1 {
            QType::A
        } else if value == 2 {
            QType::NS
        } else if value == 5 {
            QType::CNAME
        } else if value == 6 {
            QType::SOA
        } else if value == 12 {
            QType::PTR
        } else if value == 15 {
            QType::MX
        } else if value == 16 {
            QType::TXT
        } else if value == 28 {
            QType::AAAA
        } else if value == 33 {
            QType::SRV
        } else if value == 43 {
            QType::DS
        } else if value == 46 {
            QType::RRSIG
        } else if value == 47 {
            QType::NSEC
        } else if value == 48 {
            QType::DNSKEY
        } else {
            QType::Unknown(value)
        }
    }

    /// Whether this is the value that decoding its own code gives: a named
    /// type, or `Unknown` with a code that no named type has.
    pub open spec fn is_canonical(self) -> bool {
        QType::of_code(self.wire_code()) == self
    }

    /// The number that stands for this type on the wire.
    pub fn code(self) -> (r: u16)
        ensures
            r == self.wire_code(),
    {
        match self {
            QType::A => 1,
            QType::NS => 2,
            QType::CNAME => 5,
            QType::SOA => 6,
            QType::PTR => 12,
            QType::MX => 15,
            QType::TXT => 16,
            QType::AAAA => 28,
            QType::SRV => 33,
            QType::DS => 43,
            QType::RRSIG => 46,
            QType::NSEC => 47,
            QType::DNSKEY => 48,
            QType::Unknown(code) => code,
        }
    }
}

impl From<u16> for QType {
    /// The type that `value` stands for; a code without a name is kept as
    /// `Unknown`.
    fn from(value: u16) -> (r: QType) {
        match value {
            1 => QType::A,
            2 => QType::NS,
            5 => QType::CNAME,
            6 => QType::SOA,
            12 => QType::PTR,
            15 => QType::MX,
            16 => QType::TXT,
            28 => QType::AAAA,
            33 => QType::SRV,
            43 => QType::DS,
            46 => QType::RRSIG,
            47 => QType::NSEC,
            48 => QType::DNSKEY,
            _ => QType::Unknown(value),
        }
    }
}

impl vstd::std_specs::convert::FromSpecImpl<u16> for QType {
    open spec fn obeys_from_spec() -> bool {
        true
    }

    open spec fn from_spec(value: u16) -> QType {
        QType::of_code(value)
    }
}

/// The class of a question or a record.
#[derive(Copy, Clone, Debug, PartialEq, Eq, Structural)]
pub enum QClass {
    /// The Internet.
    In,
    /// A class code that this codec gives no name.
    Unknown(u16),
}

impl QClass {
    /// The number that stands for this class on the wire.
    pub open spec fn wire_code(self) -> u16 {
        match self {
            QClass::In => 1,
            QClass::Unknown(code) => code,
        }
    }

    /// The class that `value` stands for: `In` for 1, else `Unknown` holding
    /// `value`.
    pub open spec fn of_code(value: u16) -> QClass {
        if value == 1 {
            QClass::In
        } else {
            QClass::Unknown(value)
        }
    }

    /// Whether this is the value that decoding its own code gives.
    pub open spec fn is_canonical(self) -> bool {
        QClass::of_code(self.wire_code()) == self
    }

    /// The number that stands for this class on the wire.
    pub fn code(self) -> (r: u16)
        ensures
            r == self.wire_code(),
    {
        match self {
            QClass::In => 1,
            QClass::Unknown(code) => code,
        }
    }
}

impl From<u16> for QClass {
    /// The class that `value` stands for; a code without a name is kept as
    /// `Unknown`.
    fn from(value: u16) -> (r: QClass) {
        match value {
            1 => QClass::In,
            _ => QClass::Unknown(value),
        }
    }
}

impl vstd::std_specs::convert::FromSpecImpl<u16> for QClass {
    open spec fn obeys_from_spec() -> bool {
        true
    }

    open spec fn from_spec(value: u16) -> QClass {
        QClass::of_code(value)
    }
}

/// One question of a message.
#[derive(Debug, PartialEq, Eq)]
pub struct DnsQuestion {
    pub qname: DomainName,
    pub qtype: QType,
    pub qclass: QClass,
}

/// A question as a mathematical value.
pub struct QuestionView {
    pub qname: Seq<Seq<u8>>,
    pub qtype: QType,
    pub qclass: QClass,
}

impl View for DnsQuestion {
    type V = QuestionView;

    open spec fn view(&self) -> QuestionView {
        QuestionView { qname: self.qname@, qtype: self.qtype, qclass: self.qclass }
    }
}

impl QuestionView {
    /// Whether the question can travel and come back as it is: its name is
    /// valid, and type and class are what their codes decode to.
    pub open spec fn valid(self) -> bool {
        &&& valid_name(self.qname)
        &&& self.qtype.is_canonical()
        &&& self.qclass.is_canonical()
    }
}

/// The question that stands in `data` at offset `pos`: a name, then type
/// and class as two bytes each.
pub open spec fn decode_question(data: Seq<u8>, pos: int) -> Decoded<QuestionView> {
    match decode_name(data, pos) {
        Err(e) => Err(e),
        Ok((qname, next)) => if !has_bytes(data, next, 4) {
            Err(DecodeError::Truncated)
        } else {
            Ok(
                (
                    QuestionView {
                        qname,
                        qtype: QType::of_code(u16_at(data, next)),
                        qclass: QClass::of_code(u16_at(data, next + 2)),
                    },
                    next + 4,
                ),
            )
        },
    }
}

/// The bytes of a question: the wire form of its name, then the codes of
/// its type and class; or the reason why the name has no wire form.
pub open spec fn encode_question(q: QuestionView) -> Result<Seq<u8>, EncodeError> {
    match encode_name(q.qname) {
        Err(e) => Err(e),
        Ok(name) => Ok(name + u16_bytes(q.qtype.wire_code()) + u16_bytes(q.qclass.wire_code())),
    }
}

/// The `count` questions that stand one behind the other in `data` from
/// offset `pos` on. The first that cannot be decoded decides the error.
pub open spec fn decode_questions(data: Seq<u8>, pos: int, count: nat) -> Decoded<
    Seq<QuestionView>,
>
    decreases count,
{
    if count == 0 {
        Ok((Seq::empty(), pos))
    } else {
        match decode_question(data, pos) {
            Err(e) => Err(e),
            Ok((q, next)) => prepend(seq![q], decode_questions(data, next, (count - 1) as nat)),
        }
    }
}

/// The bytes of questions in a row. The first that cannot be encoded decides
/// the error.
pub open spec fn encode_questions(questions: Seq<QuestionView>) -> Result<Seq<u8>, EncodeError>
    decreases questions.len(),
{
    if questions.len() == 0 {
        Ok(Seq::empty())
    } else {
        match encode_question(questions.first()) {
            Err(e) => Err(e),
            Ok(bytes) => prepend_bytes(bytes, encode_questions(questions.drop_first())),
        }
    }
}

/// The questions of a vector as mathematical values.
pub open spec fn questions_view(questions: Seq<DnsQuestion>) -> Seq<QuestionView> {
    questions.map_values(|q: DnsQuestion| q@)
}

/// A question that was decoded is decoded alike from every buffer that is
/// cut off behind it, and a buffer that is cut off within it is truncated.
pub proof fn lemma_question_cut_short(data: Seq<u8>, pos: int, k: int)
    requires
        decode_question(data, pos).is_ok(),
        0 <= k <= data.len(),
    ensures
        pos < decode_question(data, pos).unwrap().1 <= data.len(),
        decode_question(cut(data, k), pos) == if k >= decode_question(data, pos).unwrap().1 {
            decode_question(data, pos)
        } else {
            Err(DecodeError::Truncated)
        },
{
    let next = decode_name(data, pos).unwrap().1;
    lemma_decoded_name_is_wire(data, pos);
    lemma_name_cut_short(data, pos, k);
    if k >= next + 4 {
        lemma_cut_keeps(data, k, next, 4);
        lemma_cut_keeps(data, k, next + 2, 2);
    }
}

/// Questions that were decoded are decoded alike from every buffer that is
/// cut off behind them, and a buffer that is cut off within them is
/// truncated.
pub proof fn lemma_questions_cut_short(data: Seq<u8>, pos: int, count: nat, k: int)
    requires
        decode_questions(data, pos, count).is_ok(),
        0 <= pos <= k <= data.len(),
    ensures
        pos <= decode_questions(data, pos, count).unwrap().1 <= data.len(),
        decode_questions(cut(data, k), pos, count) == if k >= decode_questions(
            data,
            pos,
            count,
        ).unwrap().1 {
            decode_questions(data, pos, count)
        } else {
            Err(DecodeError::Truncated)
        },
    decreases count,
{
    if count > 0 {
        let next = decode_question(data, pos).unwrap().1;
        lemma_question_cut_short(data, pos, k);
        lemma_questions_cut_short(data, next, (count - 1) as nat, if k >= next {
            k
        } else {
            next
        });
    }
}

/// A valid question is encoded, and decoding those bytes gives the question
/// back, whatever stands before and behind them.
pub proof fn lemma_question_round_trip(q: QuestionView, before: Seq<u8>, after: Seq<u8>)
    requires
        q.valid(),
    ensures
        encode_question(q).is_ok(),
        decode_question(before + encode_question(q).unwrap() + after, before.len() as int) == Ok::<
            (QuestionView, int),
            DecodeError,
        >((q, before.len() as int + encode_question(q).unwrap().len())),
{
    let name = name_wire(q.qname);
    let tail = u16_bytes(q.qtype.wire_code()) + u16_bytes(q.qclass.wire_code());
    let bytes = encode_question(q).unwrap();
    let data = before + bytes + after;
    assert(bytes == name + u16_bytes(q.qtype.wire_code()) + u16_bytes(q.qclass.wire_code()));
    assert(data =~= before + name + (tail + after));
    lemma_decode_name_wire(q.qname, before, tail + after);
    let next = before.len() as int + name.len();
    assert(data.subrange(next, next + 2) =~= u16_bytes(q.qtype.wire_code()));
    assert(data.subrange(next + 2, next + 4) =~= u16_bytes(q.qclass.wire_code()));
    lemma_u16_read_of_bytes(data, next, q.qtype.wire_code());
    lemma_u16_read_of_bytes(data, next + 2, q.qclass.wire_code());
}

/// Decoding `count` questions gives `count` questions.
pub proof fn lemma_decoded_questions_len(data: Seq<u8>, pos: int, count: nat)
    requires
        decode_questions(data, pos, count).is_ok(),
    ensures
        decode_questions(data, pos, count).unwrap().0.len() == count,
    decreases count,
{
    if count > 0 {
        let next = decode_question(data, pos).unwrap().1;
        lemma_decoded_questions_len(data, next, (count - 1) as nat);
    }
}

/// Valid questions in a row are encoded, and decoding those bytes gives the
/// questions back, whatever stands before and behind them.
pub proof fn lemma_questions_round_trip(
    questions: Seq<QuestionView>,
    before: Seq<u8>,
    after: Seq<u8>,
)
    requires
        forall|i: int| 0 <= i < questions.len() ==> (#[trigger] questions[i]).valid(),
    ensures
        encode_questions(questions).is_ok(),
        decode_questions(
            before + encode_questions(questions).unwrap() + after,
            before.len() as int,
            questions.len(),
        ) == Ok::<(Seq<QuestionView>, int), DecodeError>(
            (questions, before.len() as int + encode_questions(questions).unwrap().len()),
        ),
    decreases questions.len(),
{
    if questions.len() == 0 {
        assert(questions =~= Seq::empty());
    } else {
        let first = questions.first();
        let rest = questions.drop_first();
        let head = encode_question(first).unwrap();
        assert(first.valid()) by {
            assert(first == questions[0]);
        }
        assert forall|i: int| 0 <= i < rest.len() implies (#[trigger] rest[i]).valid() by {
            assert(rest[i] == questions[i + 1]);
        }
        lemma_questions_round_trip(rest, before + head, after);
        let tail = encode_questions(rest).unwrap();
        lemma_question_round_trip(first, before, tail + after);
        lemma_questions_join(first, rest, before, after);
        assert(seq![first] + rest =~= questions);
    }
}

/// Decoding a first item and then the rest of a row is decoding the row.
proof fn lemma_questions_join(
    first: QuestionView,
    rest: Seq<QuestionView>,
    before: Seq<u8>,
    after: Seq<u8>,
)
    requires
        encode_question(first).is_ok(),
        encode_questions(rest).is_ok(),
        decode_question(
            before + encode_question(first).unwrap() + (encode_questions(rest).unwrap() + after),
            before.len() as int,
        ) == Ok::<(QuestionView, int), DecodeError>(
            (first, before.len() as int + encode_question(first).unwrap().len()),
        ),
        decode_questions(
            before + encode_question(first).unwrap() + encode_questions(rest).unwrap() + after,
            (before + encode_question(first).unwrap()).len() as int,
            rest.len(),
        ) == Ok::<(Seq<QuestionView>, int), DecodeError>(
            (
                rest,
                (before + encode_question(first).unwrap()).len() as int + encode_questions(
                    rest,
                ).unwrap().len(),
            ),
        ),
    ensures
        encode_questions(seq![first] + rest).is_ok(),
        decode_questions(
            before + encode_questions(seq![first] + rest).unwrap() + after,
            before.len() as int,
            rest.len() + 1,
        ) == Ok::<(Seq<QuestionView>, int), DecodeError>(
            (
                seq![first] + rest,
                before.len() as int + encode_questions(seq![first] + rest).unwrap().len(),
            ),
        ),
{
    let all = seq![first] + rest;
    let head = encode_question(first).unwrap();
    let tail = encode_questions(rest).unwrap();
    assert(all.first() == first);
    assert(all.drop_first() =~= rest);
    assert(encode_questions(all) == Ok::<Seq<u8>, EncodeError>(head + tail));
    lemma_regroup(before, head, tail, after);
    assert((rest.len() + 1 - 1) as nat == rest.len());
}

impl DnsQuestion {
    /// Reads a question and steps past it; on an error the reader stays
    /// where it was.
    pub fn parse(reader: &mut PacketReader) -> (r: Result<DnsQuestion, DecodeError>)
        ensures
            final(reader).bytes() == old(reader).bytes(),
            match decode_question(old(reader).bytes(), old(reader).position()) {
                Ok((question, end)) => {
                    &&& r.is_ok()
                    &&& r.unwrap()@ == question
                    &&& final(reader).position() == end
                },
                Err(e) => {
                    &&& r == Err::<DnsQuestion, DecodeError>(e)
                    &&& final(reader).position() == old(reader).position()
                },
            },
    {
        let start: usize = reader.offset();
        let r = DnsQuestion::parse_fields(reader);
        if r.is_err() {
            let _ = reader.seek(start);
        }
        r
    }

    /// Reads name, type and class one after the other and stops at the first
    /// that fails, wherever the reader then stands.
    fn parse_fields(reader: &mut PacketReader) -> (r: Result<DnsQuestion, DecodeError>)
        ensures
            final(reader).bytes() == old(reader).bytes(),
            match decode_question(old(reader).bytes(), old(reader).position()) {
                Ok((question, end)) => {
                    &&& r.is_ok()
                    &&& r.unwrap()@ == question
                    &&& final(reader).position() == end
                },
                Err(e) => r == Err::<DnsQuestion, DecodeError>(e),
            },
    {
        let qname = reader.read_name()?;
        let qtype = QType::from(reader.read_u16()?);
        let qclass = QClass::from(reader.read_u16()?);
        Ok(DnsQuestion { qname, qtype, qclass })
    }

    /// Reads `count` questions that stand one behind the other; on an error
    /// the reader stays where it was.
    pub fn parse_many(reader: &mut PacketReader, count: u16) -> (r: Result<
        Vec<DnsQuestion>,
        DecodeError,
    >)
        ensures
            final(reader).bytes() == old(reader).bytes(),
            match decode_questions(old(reader).bytes(), old(reader).position(), count as nat) {
                Ok((questions, end)) => {
                    &&& r.is_ok()
                    &&& questions_view(r.unwrap()@) == questions
                    &&& final(reader).position() == end
                },
                Err(e) => {
                    &&& r == Err::<Vec<DnsQuestion>, DecodeError>(e)
                    &&& final(reader).position() == old(reader).position()
                },
            },
    {
        let start: usize = reader.offset();
        let mut questions: Vec<DnsQuestion> = Vec::new();
        let mut i: u16 = 0;
        while i < count
            invariant
                i <= count,
                reader.bytes() == old(reader).bytes(),
                start == old(reader).position(),
                start <= reader.bytes().len(),
                decode_questions(reader.bytes(), start as int, count as nat) == prepend(
                    questions_view(questions@),
                    decode_questions(reader.bytes(), reader.position(), (count - i) as nat),
                ),
            decreases count - i,
        {
            match DnsQuestion::parse(reader) {
                Ok(q) => {
                    proof {
                        let found = questions_view(questions@);
                        let rest = decode_questions(
                            reader.bytes(),
                            reader.position(),
                            (count - i - 1) as nat,
                        );
                        assert(questions_view(questions@.push(q)) =~= found + seq![q@]);
                        if rest.is_ok() {
                            assert(found + (seq![q@] + rest.unwrap().0) =~= found + seq![q@]
                                + rest.unwrap().0);
                        }
                    }
                    questions.push(q);
                },
                Err(e) => {
                    let _ = reader.seek(start);
                    return Err(e);
                },
            }
            i += 1;
        }
        assert(questions_view(questions@) + Seq::<QuestionView>::empty() =~= questions_view(
            questions@,
        ));
        Ok(questions)
    }

    /// Copies of the questions of a vector, in their order.
    pub fn clone_many(questions: &Vec<DnsQuestion>) -> (r: Vec<DnsQuestion>)
        ensures
            questions_view(r@) == questions_view(questions@),
    {
        let mut copies: Vec<DnsQuestion> = Vec::new();
        let mut i: usize = 0;
        while i < questions.len()
            invariant
                i <= questions@.len(),
                copies@.len() == i,
                forall|k: int| 0 <= k < i ==> (#[trigger] copies@[k])@ == questions@[k]@,
            decreases questions@.len() - i,
        {
            copies.push(questions[i].clone());
            i += 1;
        }
        assert(questions_view(copies@) =~= questions_view(questions@));
        copies
    }

    /// The bytes of questions in a row; the first that cannot be encoded is
    /// the error.
    pub fn many_to_bytes(questions: &Vec<DnsQuestion>) -> (r: Result<Vec<u8>, EncodeError>)
        ensures
            match encode_questions(questions_view(questions@)) {
                Ok(bytes) => r.is_ok() && r.unwrap()@ == bytes,
                Err(e) => r == Err::<Vec<u8>, EncodeError>(e),
            },
    {
        let ghost all = questions_view(questions@);
        let mut v: Vec<u8> = Vec::new();
        let mut i: usize = 0;
        assert(all.skip(0) =~= all);
        assert(Seq::<u8>::empty() + encode_questions(all).unwrap() =~= encode_questions(
            all,
        ).unwrap());
        while i < questions.len()
            invariant
                i <= questions@.len(),
                all == questions_view(questions@),
                encode_questions(all) == prepend_bytes(v@, encode_questions(all.skip(i as int))),
            decreases questions@.len() - i,
        {
            let ghost before = v@;
            let ghost rest = encode_questions(all.skip(i + 1));
            proof {
                assert(all.skip(i as int).first() == questions@[i as int]@);
                assert(all.skip(i as int).drop_first() =~= all.skip(i + 1));
            }
            let bytes: Vec<u8> = questions[i].to_bytes()?;
            push_all(&mut v, bytes.as_slice());
            proof {
                if rest.is_ok() {
                    assert(before + (bytes@ + rest.unwrap()) =~= v@ + rest.unwrap());
                }
            }
            i += 1;
        }
        assert(all.skip(i as int) =~= Seq::<QuestionView>::empty());
        assert(v@ + Seq::<u8>::empty() =~= v@);
        Ok(v)
    }

    /// The bytes of the question; a name that has no wire form is an error.
    pub fn to_bytes(&self) -> (r: Result<Vec<u8>, EncodeError>)
        ensures
            match encode_question(self@) {
                Ok(bytes) => r.is_ok() && r.unwrap()@ == bytes,
                Err(e) => r == Err::<Vec<u8>, EncodeError>(e),
            },
    {
        let mut v: Vec<u8> = self.qname.to_bytes()?;
        push_u16(&mut v, self.qtype.code());
        push_u16(&mut v, self.qclass.code());
        Ok(v)
    }

    /// The bytes of the question, as `to_bytes` gives them.
    pub fn into_bytes(self) -> (r: Result<Vec<u8>, EncodeError>)
        ensures
            match encode_question(self@) {
                Ok(bytes) => r.is_ok() && r.unwrap()@ == bytes,
                Err(e) => r == Err::<Vec<u8>, EncodeError>(e),
            },
    {
        self.to_bytes()
    }
}

impl Clone for DnsQuestion {
    /// A question with the same name, type and class.
    fn clone(&self) -> (r: DnsQuestion)
        ensures
            r@ == self@,
    {
        DnsQuestion { qname: self.qname.clone(), qtype: self.qtype, qclass: self.qclass }
    }
}

} // verus!
