//! DNS messages.
use vstd::prelude::*;
use crate::dns::name::DomainName;
use crate::dns::record::{record_models, RecordModel, ResourceRecord};
use crate::types::RecordType;

verus! {

/// A question.
#[derive(Debug)]
pub struct Question {
    pub qname: DomainName,
    pub qtype: RecordType,
    pub qclass: u16,
}

/// What a question asks.
#[verifier::ext_equal]
pub ghost struct QuestionModel {
    pub qname: Seq<Seq<u8>>,
    pub qtype: RecordType,
    pub qclass: u16,
}

impl View for Question {
    type V = QuestionModel;

    open spec fn view(&self) -> QuestionModel {
        QuestionModel { qname: self.qname@, qtype: self.qtype, qclass: self.qclass }
    }
}

impl Clone for Question {
    fn clone(&self) -> (r: Self)
        ensures
            r@ == self@,
    {
        Question { qname: self.qname.clone(), qtype: self.qtype, qclass: self.qclass }
    }
}

/// What the questions of a list ask.
pub open spec fn question_models(questions: Seq<Question>) -> Seq<QuestionModel> {
    questions.map_values(|q: Question| q@)
}

/// The header flags of a message.
#[derive(Debug, Clone, Copy, PartialEq, Eq, Structural)]
pub struct HeaderFlags {
    /// The message is a response.
    pub response: bool,
    pub opcode: u8,
    /// The answer is authoritative.
    pub authoritative: bool,
    /// Recursion is desired.
    pub rd: bool,
    pub rcode: u8,
}

/// A DNS message.
#[derive(Debug)]
pub struct DnsMessage {
    pub id: u16,
    pub flags: HeaderFlags,
    pub questions: Vec<Question>,
    pub answers: Vec<ResourceRecord>,
    pub authority: Vec<ResourceRecord>,
}

/// What a message says.
#[verifier::ext_equal]
pub ghost struct MessageModel {
    pub id: u16,
    pub flags: HeaderFlags,
    pub questions: Seq<QuestionModel>,
    pub answers: Seq<RecordModel>,
    pub authority: Seq<RecordModel>,
}

impl View for DnsMessage {
    type V = MessageModel;

    open spec fn view(&self) -> MessageModel {
        MessageModel {
            id: self.id,
            flags: self.flags,
            questions: question_models(self.questions@),
            answers: record_models(self.answers@),
            authority: record_models(self.authority@),
        }
    }
}

/// A message with an identifier and nothing else.
pub open spec fn empty_message(id: u16) -> MessageModel {
    MessageModel {
        id,
        flags: HeaderFlags { response: false, opcode: 0, authoritative: false, rd: false, rcode: 0 },
        questions: Seq::empty(),
        answers: Seq::empty(),
        authority: Seq::empty(),
    }
}

impl DnsMessage {
    /// A message with an identifier and nothing else.
    pub fn new(id: u16) -> (r: Self)
        ensures
            r@ == empty_message(id),
    {
        let r = DnsMessage {
            id,
            flags: HeaderFlags {
                response: false,
                opcode: 0,
                authoritative: false,
                rd: false,
                rcode: 0,
            },
            questions: Vec::new(),
            answers: Vec::new(),
            authority: Vec::new(),
        };
        assert(r@ =~= empty_message(id));
        r
    }

    /// True for a response.
    pub fn is_response(&self) -> (r: bool)
        ensures
            r == self.flags.response,
    {
        self.flags.response
    }

    /// Appends a question.
    pub fn add_question(&mut self, question: Question)
        ensures
            final(self)@ == (MessageModel {
                questions: old(self)@.questions.push(question@),
                ..old(self)@
            }),
    {
        self.questions.push(question);
        assert(self@.questions =~= old(self)@.questions.push(question@));
    }

    /// Appends an answer.
    pub fn add_answer(&mut self, record: ResourceRecord)
        ensures
            final(self)@ == (MessageModel {
                answers: old(self)@.answers.push(record@),
                ..old(self)@
            }),
    {
        self.answers.push(record);
        assert(self@.answers =~= old(self)@.answers.push(record@));
    }

    /// Appends a record to the authority section.
    pub fn add_authority(&mut self, record: ResourceRecord)
        ensures
            final(self)@ == (MessageModel {
                authority: old(self)@.authority.push(record@),
                ..old(self)@
            }),
    {
        self.authority.push(record);
        assert(self@.authority =~= old(self)@.authority.push(record@));
    }
}

} // verus!
