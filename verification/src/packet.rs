//! A decoded query, and the response that is built for it.

use vstd::prelude::*;
use crate::error::DecodeError;
use crate::header::decode_header;
use crate::header::lemma_header_cut_short;
use crate::header::DnsHeader;
use crate::header::ResponseCode;
use crate::question::decode_questions;
use crate::question::lemma_decoded_questions_len;
use crate::question::lemma_questions_cut_short;
use crate::question::questions_view;
use crate::question::DnsQuestion;
use crate::question::QuestionView;
use crate::reader::PacketReader;
use crate::resource::loopback_data;
use crate::resource::resolution_view;
use crate::resource::resources_view;
use crate::resource::DEFAULT_TTL;
use crate::resource::DnsResource;
use crate::resource::RData;
use crate::resource::RDataView;
use crate::resource::ResourceView;
use crate::response::DnsResponse;
use crate::response::ResponseView;
use crate::wire::cut;
use crate::wire::Decoded;

verus! {

/// A query as it came in: the header and the questions that it counts.
#[derive(Debug, PartialEq, Eq)]
pub struct DnsPacket {
    pub header: DnsHeader,
    pub questions: Vec<DnsQuestion>,
}

/// A query as a mathematical value.
pub struct PacketView {
    pub header: DnsHeader,
    pub questions: Seq<QuestionView>,
}

impl View for DnsPacket {
    type V = PacketView;

    open spec fn view(&self) -> PacketView {
        PacketView { header: self.header, questions: questions_view(self.questions@) }
    }
}

/// The query that stands at the start of `data`: a header, then as many
/// questions as the header counts. What follows them is not looked at.
pub open spec fn decode_packet(data: Seq<u8>) -> Decoded<PacketView> {
    match decode_header(data, 0) {
        Err(e) => Err(e),
        Ok((header, next)) => match decode_questions(data, next, header.question_count as nat) {
            Err(e) => Err(e),
            Ok((questions, end)) => Ok((PacketView { header, questions }, end)),
        },
    }
}

/// A query that was decoded holds as many questions as its header counts.
pub proof fn lemma_decoded_packet_counts(data: Seq<u8>)
    requires
        decode_packet(data).is_ok(),
    ensures
        decode_packet(data).unwrap().0.header.question_count == decode_packet(
            data,
        ).unwrap().0.questions.len(),
{
    let (header, next) = decode_header(data, 0).unwrap();
    lemma_decoded_questions_len(data, next, header.question_count as nat);
}

/// Truncation is safe: a query that was decoded is decoded alike from every
/// buffer that is cut off behind its last question, and every buffer that
/// is cut off before that is truncated.
pub proof fn lemma_packet_cut_short(data: Seq<u8>, k: int)
    requires
        decode_packet(data).is_ok(),
        0 <= k <= data.len(),
    ensures
        decode_packet(cut(data, k)) == if k >= decode_packet(data).unwrap().1 {
            decode_packet(data)
        } else {
            Err(DecodeError::Truncated)
        },
{
    let (header, next) = decode_header(data, 0).unwrap();
    lemma_header_cut_short(data, 0, k);
    if k >= next {
        lemma_questions_cut_short(data, next, header.question_count as nat, k);
    } else {
        lemma_questions_cut_short(data, next, header.question_count as nat, next);
    }
}

/// What a resolver said of each question, as mathematical values.
pub open spec fn resolutions_view(resolved: Seq<Option<RData>>) -> Seq<Option<RDataView>> {
    resolved.map_values(|o: Option<RData>| resolution_view(o))
}

/// Whether every one of `count` questions has data to answer it with: the
/// question at place `i` is answered by `resolved[i]`, and a question
/// without an entry has none.
pub open spec fn all_resolved(count: nat, resolved: Seq<Option<RDataView>>) -> bool {
    &&& count <= resolved.len()
    &&& forall|i: int| 0 <= i < count ==> (#[trigger] resolved[i]) is Some
}

/// One record for each question, built from the question and its data.
pub open spec fn answers_to(
    questions: Seq<QuestionView>,
    resolved: Seq<Option<RDataView>>,
) -> Seq<ResourceView> {
    Seq::new(
        questions.len(),
        |i: int| ResourceView::answering(questions[i], resolved[i].unwrap(), DEFAULT_TTL),
    )
}

/// The response to `packet`, given what a resolver said of each question.
///
/// The header is that of the query with the response bit set, and the
/// questions are those of the query. If every question has data, one record
/// for each is appended and the answer count grows by their number.
/// Otherwise no record is appended and the response code says that the
/// query is not implemented.
pub open spec fn response_to(packet: PacketView, resolved: Seq<Option<RDataView>>) -> ResponseView {
    if all_resolved(packet.questions.len(), resolved) {
        ResponseView {
            header: DnsHeader {
                qr: true,
                answer_record_count: (packet.header.answer_record_count
                    + packet.questions.len()) as u16,
                ..packet.header
            },
            questions: packet.questions,
            answers: answers_to(packet.questions, resolved),
        }
    } else {
        ResponseView {
            header: DnsHeader { qr: true, rcode: ResponseCode::NotImpl, ..packet.header },
            questions: packet.questions,
            answers: Seq::empty(),
        }
    }
}

/// Whether the answer count of `packet` can grow by the records that the
/// response to it holds.
pub open spec fn has_room(packet: PacketView, resolved: Seq<Option<RDataView>>) -> bool {
    all_resolved(packet.questions.len(), resolved) ==> packet.header.answer_record_count
        + packet.questions.len() <= u16::MAX
}

/// The response to a query whose header counts no answers counts exactly
/// the answer records that it holds.
pub proof fn lemma_answer_count_is_number_of_answers(
    packet: PacketView,
    resolved: Seq<Option<RDataView>>,
)
    requires
        packet.header.answer_record_count == 0,
        has_room(packet, resolved),
    ensures
        response_to(packet, resolved).header.answer_record_count == response_to(
            packet,
            resolved,
        ).answers.len(),
{
}

/// The response to a query that counts its questions and no answers is
/// valid, so that it travels and comes back as it is, if the questions are
/// valid and the data for each is of the form that its type asks for.
pub proof fn lemma_response_is_valid(packet: PacketView, resolved: Seq<Option<RDataView>>)
    requires
        packet.header.question_count == packet.questions.len(),
        packet.header.answer_record_count == 0,
        forall|i: int| 0 <= i < packet.questions.len() ==> (#[trigger] packet.questions[i]).valid(),
        forall|i: int|
            0 <= i < packet.questions.len() && i < resolved.len() && (
            #[trigger] resolved[i]) is Some ==> resolved[i].unwrap().fits(
                packet.questions[i].qtype,
            ),
    ensures
        response_to(packet, resolved).valid(),
{
    let response = response_to(packet, resolved);
    assert forall|i: int| 0 <= i < response.answers.len() implies (
    #[trigger] response.answers[i]).valid() by {
        assert(packet.questions[i].valid());
        assert(resolved[i] is Some);
    }
}

impl DnsPacket {
    /// Decodes a query: the header, then as many questions as it counts.
    pub fn parse(data: &[u8]) -> (r: Result<DnsPacket, DecodeError>)
        ensures
            match decode_packet(data@) {
                Ok((packet, end)) => r.is_ok() && r.unwrap()@ == packet,
                Err(e) => r == Err::<DnsPacket, DecodeError>(e),
            },
    {
        let mut reader = PacketReader::new(data);
        let header = DnsHeader::parse(&mut reader)?;
        let questions = DnsQuestion::parse_many(&mut reader, header.question_count)?;
        Ok(DnsPacket { header, questions })
    }

    /// What a server that knows only its own host says of each question of
    /// the query: the loopback address of the asked family for a question
    /// of type `A` or `AAAA`, and nothing for every other question.
    pub fn resolve_loopback(&self) -> (r: Vec<Option<RData>>)
        ensures
            resolutions_view(r@) == Seq::new(
                self@.questions.len(),
                |i: int| loopback_data(self@.questions[i].qtype),
            ),
    {
        let mut resolved: Vec<Option<RData>> = Vec::new();
        let mut i: usize = 0;
        while i < self.questions.len()
            invariant
                i <= self.questions@.len(),
                resolved@.len() == i,
                forall|k: int|
                    0 <= k < i ==> resolution_view(#[trigger] resolved@[k]) == loopback_data(
                        self.questions@[k].qtype,
                    ),
            decreases self.questions@.len() - i,
        {
            resolved.push(RData::loopback(self.questions[i].qtype));
            i += 1;
        }
        assert(resolutions_view(resolved@) =~= Seq::new(
            self@.questions.len(),
            |i: int| loopback_data(self@.questions[i].qtype),
        ));
        resolved
    }

    /// One record for each question, built from the question and the data
    /// that `resolved` holds for it; nothing if some question has no data.
    pub fn answers(&self, resolved: &[Option<RData>]) -> (r: Option<Vec<DnsResource>>)
        ensures
            match r {
                Some(answers) => {
                    &&& all_resolved(self@.questions.len(), resolutions_view(resolved@))
                    &&& resources_view(answers@) == answers_to(
                        self@.questions,
                        resolutions_view(resolved@),
                    )
                },
                None => !all_resolved(self@.questions.len(), resolutions_view(resolved@)),
            },
    {
        let ghost said = resolutions_view(resolved@);
        let ghost want = answers_to(self@.questions, said);
        let mut answers: Vec<DnsResource> = Vec::new();
        let mut i: usize = 0;
        while i < self.questions.len()
            invariant
                i <= self.questions@.len(),
                said == resolutions_view(resolved@),
                want == answers_to(self@.questions, said),
                i <= resolved@.len(),
                forall|k: int| 0 <= k < i ==> (#[trigger] said[k]) is Some,
                answers@.len() == i,
                forall|k: int| 0 <= k < i ==> (#[trigger] answers@[k])@ == want[k],
            decreases self.questions@.len() - i,
        {
            if i >= resolved.len() {
                return None;
            }
            match &resolved[i] {
                None => {
                    assert(said[i as int] is None);
                    return None;
                },
                Some(rdata) => {
                    let record = DnsResource::new(&self.questions[i], rdata.clone());
                    assert(said[i as int] == Some(rdata@));
                    assert(self@.questions[i as int] == self.questions@[i as int]@);
                    answers.push(record);
                },
            }
            i += 1;
        }
        assert(resources_view(answers@) =~= want);
        Some(answers)
    }

    /// Puts a response together: the header of the query with the response
    /// bit set, its questions, and the answer records, by whose number the
    /// answer count grows; or, without answer records, the response code
    /// that says that the query is not implemented.
    fn assemble(&self, answers: Option<Vec<DnsResource>>) -> (r: DnsResponse)
        requires
            answers matches Some(records) ==> self.header.answer_record_count + records@.len()
                <= u16::MAX,
        ensures
            r@.questions == self@.questions,
            match answers {
                Some(records) => {
                    &&& r@.answers == resources_view(records@)
                    &&& r@.header == DnsHeader {
                        qr: true,
                        answer_record_count: (self.header.answer_record_count
                            + records@.len()) as u16,
                        ..self.header
                    }
                },
                None => {
                    &&& r@.answers == Seq::<ResourceView>::empty()
                    &&& r@.header == DnsHeader {
                        qr: true,
                        rcode: ResponseCode::NotImpl,
                        ..self.header
                    }
                },
            },
    {
        let questions = DnsQuestion::clone_many(&self.questions);
        let mut header = self.header;
        header.qr = true;
        match answers {
            Some(answers) => {
                header.answer_record_count = header.answer_record_count + answers.len() as u16;
                DnsResponse { header, questions, answers }
            },
            None => {
                header.rcode = ResponseCode::NotImpl;
                let r = DnsResponse { header, questions, answers: Vec::new() };
                assert(r@.answers =~= Seq::<ResourceView>::empty());
                r
            },
        }
    }

    /// Builds the response to the query from what a resolver said of each
    /// question: `resolved[i]` is the data that answers the question at
    /// place `i`, or `None` if the resolver does not answer such questions.
    /// A question without an entry counts as not answered.
    ///
    /// The header is that of the query with the response bit set, and the
    /// questions are those of the query. If every question has data, one
    /// record for each is appended and the answer count grows by their
    /// number, for which it must have room. Otherwise no record is appended
    /// and the response code says that the query is not implemented.
    pub fn gen_response(&self, resolved: &[Option<RData>]) -> (r: DnsResponse)
        requires
            has_room(self@, resolutions_view(resolved@)),
        ensures
            r@ == response_to(self@, resolutions_view(resolved@)),
            r@.questions == self@.questions,
            r@.header.question_count == self.header.question_count,
            r@.header.qr,
            r@.header.answer_record_count == self.header.answer_record_count + r@.answers.len(),
    {
        let answers = self.answers(resolved);
        proof {
            if answers is Some {
                assert(resources_view(answers.unwrap()@).len() == answers.unwrap()@.len());
            }
        }
        self.assemble(answers)
    }

    /// Builds the response as `gen_response` does, if the answer count has
    /// room for the records of the response, and nothing if it has not.
    pub fn try_gen_response(&self, resolved: &[Option<RData>]) -> (r: Option<DnsResponse>)
        ensures
            match r {
                Some(response) => {
                    &&& has_room(self@, resolutions_view(resolved@))
                    &&& response@ == response_to(self@, resolutions_view(resolved@))
                },
                None => !has_room(self@, resolutions_view(resolved@)),
            },
    {
        let answers = self.answers(resolved);
        proof {
            if answers is Some {
                assert(resources_view(answers.unwrap()@).len() == answers.unwrap()@.len());
            }
        }
        let room: usize = (u16::MAX - self.header.answer_record_count) as usize;
        match &answers {
            Some(records) => {
                if records.len() > room {
                    return None;
                }
            },
            None => {},
        }
        Some(self.assemble(answers))
    }
}

impl Clone for DnsPacket {
    /// A query with the same header and questions.
    fn clone(&self) -> (r: DnsPacket)
        ensures
            r@ == self@,
    {
        DnsPacket { header: self.header, questions: DnsQuestion::clone_many(&self.questions) }
    }
}

} // verus!
