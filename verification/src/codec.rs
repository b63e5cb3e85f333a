//! The wire codec: what the resolver has from the `domain` crate.
//!
//! Messages cross this boundary as octets, names as their uncompressed wire
//! format, addresses as four octets. What the codec reads out of a message
//! is named here and not spelled out: the contracts of the library speak of
//! those names.

use vstd::prelude::*;
use domain::base::iana::{Class, Rcode, Rtype};
use domain::base::name::{ParsedDname, ToDname};
use domain::base::octets::Compose;
use domain::base::{Dname, Message, MessageBuilder};
use domain::rdata::{AllRecordData, Ns, A};
use crate::message::be16_octets;
use crate::name::parse_name;

verus! {

/// The questions that the question section of a message holds, in order,
/// each as the wire format of its name, its type and its class. A question
/// that cannot be read stands as `None` and ends the sequence.
pub uninterp spec fn wire_questions(octets: Seq<u8>) -> Seq<Option<(Seq<u8>, u16, u16)>>;

/// The name-server records of the authority section, in order, each as the
/// wire formats of its owner and of the name server it names; `None` in
/// place of a record whose data cannot be read. `None` for the whole when
/// the sections of the message cannot be told apart.
pub uninterp spec fn wire_name_servers(octets: Seq<u8>) -> Option<Seq<Option<(Seq<u8>, Seq<u8>)>>>;

/// The answer section, by its place among the record sections.
pub const ANSWER: usize = 0;

/// The authority section, by its place among the record sections.
pub const AUTHORITY: usize = 1;

/// The additional section, by its place among the record sections.
pub const ADDITIONAL: usize = 2;

/// The IPv4 address records of a record section, in order, each as the wire
/// format of its owner and the four octets of its address; `None` in place
/// of a record whose data cannot be read. `None` for the whole when the
/// sections of the message cannot be told apart.
pub uninterp spec fn wire_addresses(octets: Seq<u8>, section: usize) -> Option<
    Seq<Option<(Seq<u8>, Seq<u8>)>>,
>;

/// The records of class IN in a record section, in order, each composed
/// anew with its names uncompressed; `None` in place of a record whose data
/// cannot be read. `None` for the whole when the sections of the message
/// cannot be told apart.
pub uninterp spec fn wire_records(octets: Seq<u8>, section: usize) -> Option<
    Seq<Option<Seq<u8>>>,
>;

/// Reads the question section with `Message::question` of `domain`. Each
/// question comes out with its name uncompressed.
#[verifier::external_body]
pub(crate) fn parse_questions(octets: &Vec<u8>) -> (r: Vec<Option<(Vec<u8>, u16, u16)>>)
    requires
        octets@.len() >= 12,
    ensures
        r.deep_view() == wire_questions(octets@),
{
    let message = Message::from_octets(octets).unwrap();
    message.question().map(|q| {
        q.ok().map(|q| (q.qname().to_vec().into_octets(), q.qtype().to_int(), q.qclass().to_int()))
    }).collect()
}

/// Reads the name-server records of the authority section: `Message::sections`
/// of `domain`, then `RecordSection::limit_to` for `Ns`.
#[verifier::external_body]
pub(crate) fn parse_name_servers(octets: &Vec<u8>) -> (r: Option<Vec<Option<(Vec<u8>, Vec<u8>)>>>)
    requires
        octets@.len() >= 12,
    ensures
        r.deep_view() == wire_name_servers(octets@),
{
    let message = Message::from_octets(octets).unwrap();
    let (_, _, authority, _) = message.sections().ok()?;
    Some(authority.limit_to::<Ns<ParsedDname<_>>>().map(|r| {
        r.ok().map(|r| (r.owner().to_vec().into_octets(), r.data().nsdname().to_vec().into_octets()))
    }).collect())
}

/// Reads the address records of a record section: `Message::sections` of
/// `domain`, then `RecordSection::limit_to` for `A`.
#[verifier::external_body]
pub(crate) fn parse_addresses(octets: &Vec<u8>, section: usize) -> (r: Option<
    Vec<Option<(Vec<u8>, [u8; 4])>>,
>)
    requires
        octets@.len() >= 12,
        section < 3,
    ensures
        r.deep_view() == wire_addresses(octets@, section),
{
    let message = Message::from_octets(octets).unwrap();
    let (_, answer, authority, additional) = message.sections().ok()?;
    Some([answer, authority, additional][section].limit_to::<A>().map(|r| {
        r.ok().map(|r| (r.owner().to_vec().into_octets(), r.data().addr().octets()))
    }).collect())
}

/// Composes anew the IN records of a record section: `Message::sections`
/// of `domain`, then `RecordSection::limit_to_in` for every known kind of
/// record data, then `Record::compose`.
#[verifier::external_body]
pub(crate) fn compose_records(octets: &Vec<u8>, section: usize) -> (r: Option<
    Vec<Option<Vec<u8>>>,
>)
    requires
        octets@.len() >= 12,
        section < 3,
    ensures
        r.deep_view() == wire_records(octets@, section),
{
    let message = Message::from_octets(octets).unwrap();
    let (_, answer, authority, additional) = message.sections().ok()?;
    let records = [answer, authority, additional][section];
    Some(records.limit_to_in::<AllRecordData<_, ParsedDname<_>>>().map(|r| {
        let mut out = Vec::new();
        r.ok().and_then(|r| r.compose(&mut out).ok()).map(|_| out)
    }).collect())
}

/// The questions of a sequence that could be read, in order.
pub open spec fn readable_questions(
    questions: Seq<Option<(Seq<u8>, u16, u16)>>,
) -> Seq<(Seq<u8>, u16, u16)>
    decreases questions.len(),
{
    if questions.len() == 0 {
        Seq::empty()
    } else {
        let init = readable_questions(questions.drop_last());
        match questions.last() {
            Some(q) => init.push(q),
            None => init,
        }
    }
}

/// The wire format of one question: the name, then type and class.
pub open spec fn composed_question(question: (Seq<u8>, u16, u16)) -> Seq<u8> {
    question.0 + be16_octets(question.1) + be16_octets(question.2)
}

/// The wire format of a question section.
pub open spec fn composed_questions(questions: Seq<(Seq<u8>, u16, u16)>) -> Seq<u8>
    decreases questions.len(),
{
    if questions.len() == 0 {
        Seq::empty()
    } else {
        composed_questions(questions.drop_last()) + composed_question(questions.last())
    }
}

/// The flags octet of a reply: the response bit set, the opcode and
/// "recursion desired" as the request has them, all else clear.
pub open spec fn reply_flags(request_flags: u8) -> u8 {
    0x80u8 | (request_flags & 0x79u8)
}

/// How a reply to a request begins: a header that mirrors the id, the
/// opcode and "recursion desired", carries the response code and counts the
/// questions, with no records announced; then the questions.
pub open spec fn reply_preamble(
    request: Seq<u8>,
    rcode: u8,
    questions: Seq<(Seq<u8>, u16, u16)>,
) -> Seq<u8> {
    seq![request[0], request[1], reply_flags(request[2]), rcode] + be16_octets(
        questions.len() as u16,
    ) + seq![0u8, 0u8, 0u8, 0u8, 0u8, 0u8] + composed_questions(questions)
}

/// Begins a reply with `MessageBuilder::start_answer` of `domain`, which
/// mirrors the request's header fields and copies the questions it can
/// read, uncompressed.
#[verifier::external_body]
pub(crate) fn start_reply(request: &Vec<u8>, rcode: u8) -> (r: Vec<u8>)
    requires
        request@.len() >= 12,
        rcode < 16,
    ensures
        r@ == reply_preamble(request@, rcode, readable_questions(wire_questions(request@))),
{
    let message = Message::from_octets(request).unwrap();
    MessageBuilder::new_vec().start_answer(&message, Rcode::from_int(rcode)).unwrap().finish()
}

/// The octets of a query after its transaction id: the flags with only
/// "recursion desired" set, a count of one question, and the question.
pub open spec fn query_tail(name: Seq<u8>, qtype: u16, qclass: u16) -> Seq<u8> {
    seq![1u8, 0u8, 0u8, 1u8, 0u8, 0u8, 0u8, 0u8, 0u8, 0u8] + composed_question((name, qtype, qclass))
}

/// Builds a query with `MessageBuilder` of `domain`: a random transaction
/// id, "recursion desired" set, and the one question. Only the id is left
/// open.
#[verifier::external_body]
pub(crate) fn compose_query(name: &Vec<u8>, qtype: u16, qclass: u16) -> (r: Vec<u8>)
    requires
        parse_name(name@) is Some,
    ensures
        r@.len() == 12 + name@.len() + 4,
        r@.skip(2) == query_tail(name@, qtype, qclass),
{
    let mut builder = MessageBuilder::new_vec();
    builder.header_mut().set_random_id();
    builder.header_mut().set_rd(true);
    let mut builder = builder.question();
    let qname = Dname::from_octets(name.clone()).unwrap();
    builder.push((qname, Rtype::from_int(qtype), Class::from_int(qclass))).unwrap();
    builder.finish()
}

} // verus!
