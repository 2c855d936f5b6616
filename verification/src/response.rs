//! A response: the header, the questions and the answer records.

use vstd::prelude::*;
use crate::error::DecodeError;
use crate::error::EncodeError;
use crate::header::decode_header;
use crate::header::encode_header;
use crate::header::lemma_header_cut_short;
use crate::header::lemma_header_round_trip;
use crate::header::DnsHeader;
use crate::header::OpCode;
use crate::header::ResponseCode;
use crate::question::decode_questions;
use crate::question::encode_questions;
use crate::question::lemma_decoded_questions_len;
use crate::question::lemma_questions_cut_short;
use crate::question::lemma_questions_round_trip;
use crate::question::questions_view;
use crate::question::DnsQuestion;
use crate::question::QuestionView;
use crate::reader::PacketReader;
use crate::resource::decode_resources;
use crate::resource::encode_resources;
use crate::resource::lemma_decoded_resources_len;
use crate::resource::lemma_resources_cut_short;
use crate::resource::lemma_resources_round_trip;
use crate::resource::resources_view;
use crate::resource::DnsResource;
use crate::resource::ResourceView;
use crate::wire::cut;
use crate::wire::prepend_bytes;
use crate::wire::push_all;
use crate::wire::u16_at;
use crate::wire::Decoded;

verus! {

/// A response: the header, the questions that it repeats and the records
/// that answer them.
#[derive(Debug, PartialEq, Eq)]
pub struct DnsResponse {
    pub header: DnsHeader,
    pub questions: Vec<DnsQuestion>,
    pub answers: Vec<DnsResource>,
}

/// A response as a mathematical value.
pub struct ResponseView {
    pub header: DnsHeader,
    pub questions: Seq<QuestionView>,
    pub answers: Seq<ResourceView>,
}

impl View for DnsResponse {
    type V = ResponseView;

    open spec fn view(&self) -> ResponseView {
        ResponseView {
            header: self.header,
            questions: questions_view(self.questions@),
            answers: resources_view(self.answers@),
        }
    }
}

impl ResponseView {
    /// Whether the response can travel and come back as it is: the header
    /// counts the questions and the answer records that the response holds,
    /// and each of them is valid.
    pub open spec fn valid(self) -> bool {
        &&& self.header.question_count == self.questions.len()
        &&& self.header.answer_record_count == self.answers.len()
        &&& forall|i: int| 0 <= i < self.questions.len() ==> (#[trigger] self.questions[i]).valid()
        &&& forall|i: int| 0 <= i < self.answers.len() ==> (#[trigger] self.answers[i]).valid()
    }
}

/// The header of a response that reports a format error to the sender of
/// the message with identifier `id`: a response to a plain query, without
/// flags and without records.
pub open spec fn format_error_header(id: u16) -> DnsHeader {
    DnsHeader {
        id,
        qr: true,
        opcode: OpCode::Query,
        authoritative_answer: false,
        truncated_flag: false,
        recursion_desired: false,
        recursion_avaliable: false,
        rcode: ResponseCode::FormErr,
        question_count: 0,
        answer_record_count: 0,
        name_server_count: 0,
        additional_record_count: 0,
    }
}

/// The response that stands at the start of `data`: a header, then as many
/// questions and after them as many answer records as the header counts.
/// What follows them is not looked at.
pub open spec fn decode_response(data: Seq<u8>) -> Decoded<ResponseView> {
    match decode_header(data, 0) {
        Err(e) => Err(e),
        Ok((header, next)) => match decode_questions(data, next, header.question_count as nat) {
            Err(e) => Err(e),
            Ok((questions, then)) => match decode_resources(
                data,
                then,
                header.answer_record_count as nat,
            ) {
                Err(e) => Err(e),
                Ok((answers, end)) => Ok((ResponseView { header, questions, answers }, end)),
            },
        },
    }
}

/// The bytes of a response: header, questions and answer records, in that
/// order. The first question that cannot be encoded decides the error, and
/// after the questions the first answer record that cannot.
pub open spec fn encode_response(response: ResponseView) -> Result<Seq<u8>, EncodeError> {
    match encode_questions(response.questions) {
        Err(e) => Err(e),
        Ok(questions) => prepend_bytes(
            encode_header(response.header) + questions,
            encode_resources(response.answers),
        ),
    }
}

/// A response that was decoded holds as many questions and as many answer
/// records as its header counts.
pub proof fn lemma_decoded_response_counts(data: Seq<u8>)
    requires
        decode_response(data).is_ok(),
    ensures
        ({
            let response = decode_response(data).unwrap().0;
            &&& response.header.question_count == response.questions.len()
            &&& response.header.answer_record_count == response.answers.len()
        }),
{
    let (header, next) = decode_header(data, 0).unwrap();
    let then = decode_questions(data, next, header.question_count as nat).unwrap().1;
    lemma_decoded_questions_len(data, next, header.question_count as nat);
    lemma_decoded_resources_len(data, then, header.answer_record_count as nat);
}

/// A valid response is encoded, and decoding those bytes gives the response
/// back and reads them to the end.
pub proof fn lemma_response_round_trip(response: ResponseView)
    requires
        response.valid(),
    ensures
        encode_response(response).is_ok(),
        decode_response(encode_response(response).unwrap()) == Ok::<
            (ResponseView, int),
            DecodeError,
        >((response, encode_response(response).unwrap().len() as int)),
{
    let header = encode_header(response.header);
    lemma_questions_round_trip(response.questions, header, Seq::empty());
    let questions = encode_questions(response.questions).unwrap();
    lemma_resources_round_trip(response.answers, header + questions, Seq::empty());
    let answers = encode_resources(response.answers).unwrap();
    let data = encode_response(response).unwrap();
    assert(data == header + questions + answers);
    lemma_header_round_trip(response.header, Seq::empty(), questions + answers);
    assert(data =~= Seq::<u8>::empty() + header + (questions + answers));
    lemma_questions_round_trip(response.questions, header, answers);
    assert(data =~= header + questions + answers + Seq::<u8>::empty());
}

/// Truncation is safe: a response that was decoded is decoded alike from
/// every buffer that is cut off behind its last answer record, and every
/// buffer that is cut off before that is truncated.
pub proof fn lemma_response_cut_short(data: Seq<u8>, k: int)
    requires
        decode_response(data).is_ok(),
        0 <= k <= data.len(),
    ensures
        decode_response(cut(data, k)) == if k >= decode_response(data).unwrap().1 {
            decode_response(data)
        } else {
            Err(DecodeError::Truncated)
        },
{
    let (header, next) = decode_header(data, 0).unwrap();
    let then = decode_questions(data, next, header.question_count as nat).unwrap().1;
    lemma_header_cut_short(data, 0, k);
    if k >= next {
        lemma_questions_cut_short(data, next, header.question_count as nat, k);
    } else {
        lemma_questions_cut_short(data, next, header.question_count as nat, next);
    }
    if k >= then {
        lemma_resources_cut_short(data, then, header.answer_record_count as nat, k);
    } else {
        lemma_resources_cut_short(data, then, header.answer_record_count as nat, then);
    }
}

impl DnsResponse {
    /// Decodes a response: the header, then as many questions and as many
    /// answer records as it counts.
    pub fn parse(data: &[u8]) -> (r: Result<DnsResponse, DecodeError>)
        ensures
            match decode_response(data@) {
                Ok((response, end)) => r.is_ok() && r.unwrap()@ == response,
                Err(e) => r == Err::<DnsResponse, DecodeError>(e),
            },
    {
        let mut reader = PacketReader::new(data);
        let header = DnsHeader::parse(&mut reader)?;
        let questions = DnsQuestion::parse_many(&mut reader, header.question_count)?;
        let answers = DnsResource::parse_many(&mut reader, header.answer_record_count)?;
        Ok(DnsResponse { header, questions, answers })
    }

    /// The response that tells the sender of `data` that its message could
    /// not be read: the identifier of the message, the response bit, the
    /// response code for a format error, and nothing else. A message of
    /// fewer than two bytes holds no identifier and gets no response.
    pub fn format_error(data: &[u8]) -> (r: Option<DnsResponse>)
        ensures
            data@.len() < 2 ==> r.is_none(),
            data@.len() >= 2 ==> r.is_some() && r.unwrap()@ == (ResponseView {
                header: format_error_header(u16_at(data@, 0)),
                questions: Seq::empty(),
                answers: Seq::empty(),
            }),
    {
        if data.len() < 2 {
            return None;
        }
        let id: u16 = data[0] as u16 * 256 + data[1] as u16;
        let r = DnsResponse {
            header: DnsHeader {
                id,
                qr: true,
                opcode: OpCode::Query,
                authoritative_answer: false,
                truncated_flag: false,
                recursion_desired: false,
                recursion_avaliable: false,
                rcode: ResponseCode::FormErr,
                question_count: 0,
                answer_record_count: 0,
                name_server_count: 0,
                additional_record_count: 0,
            },
            questions: Vec::new(),
            answers: Vec::new(),
        };
        assert(r@.questions =~= Seq::<QuestionView>::empty());
        assert(r@.answers =~= Seq::<ResourceView>::empty());
        Some(r)
    }

    /// The bytes of the response: header, questions and answer records, in
    /// that order. The first part that cannot be encoded is the error.
    pub fn to_bytes(&self) -> (r: Result<Vec<u8>, EncodeError>)
        ensures
            match encode_response(self@) {
                Ok(bytes) => r.is_ok() && r.unwrap()@ == bytes,
                Err(e) => r == Err::<Vec<u8>, EncodeError>(e),
            },
    {
        let mut v: Vec<u8> = self.header.into_bytes();
        let questions: Vec<u8> = DnsQuestion::many_to_bytes(&self.questions)?;
        let answers: Vec<u8> = DnsResource::many_to_bytes(&self.answers)?;
        push_all(&mut v, questions.as_slice());
        push_all(&mut v, answers.as_slice());
        Ok(v)
    }

    /// The bytes of the response, as `to_bytes` gives them.
    pub fn into_bytes(self) -> (r: Result<Vec<u8>, EncodeError>)
        ensures
            match encode_response(self@) {
                Ok(bytes) => r.is_ok() && r.unwrap()@ == bytes,
                Err(e) => r == Err::<Vec<u8>, EncodeError>(e),
            },
    {
        self.to_bytes()
    }
}

impl Clone for DnsResponse {
    /// A response with the same header, questions and answer records.
    fn clone(&self) -> (r: DnsResponse)
        ensures
            r@ == self@,
    {
        DnsResponse {
            header: self.header,
            questions: DnsQuestion::clone_many(&self.questions),
            answers: DnsResource::clone_many(&self.answers),
        }
    }
}

} // verus!
