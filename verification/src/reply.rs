//! Replies to the client: how they are put together from the request and
//! from what the resolution gave.

use vstd::prelude::*;
use crate::codec::{
    compose_records, composed_questions, readable_questions, reply_flags, reply_preamble,
    start_reply, wire_questions, wire_records, ADDITIONAL, ANSWER, AUTHORITY,
};
use crate::message::{be16_octets, header_rcode, Message, RCODE_FORMERR, RCODE_SERVFAIL};
use crate::resolver::ResolveError;

verus! {

/// The records of a section that could be read, in order.
pub open spec fn kept_records(items: Seq<Option<Seq<u8>>>) -> Seq<Seq<u8>>
    decreases items.len(),
{
    if items.len() == 0 {
        Seq::empty()
    } else {
        let init = kept_records(items.drop_last());
        match items.last() {
            Some(record) => init.push(record),
            None => init,
        }
    }
}

/// The records of a section, one behind the other.
pub open spec fn joined(records: Seq<Seq<u8>>) -> Seq<u8>
    decreases records.len(),
{
    if records.len() == 0 {
        Seq::empty()
    } else {
        joined(records.drop_last()) + records.last()
    }
}

/// The beginning of a reply with the three record counts written into its
/// header.
pub open spec fn with_counts(preamble: Seq<u8>, answers: u16, authorities: u16, additionals: u16) -> Seq<
    u8,
> {
    preamble.subrange(0, 6) + be16_octets(answers) + be16_octets(authorities) + be16_octets(
        additionals,
    ) + preamble.skip(12)
}

/// A whole reply: its beginning with the record counts filled in, then the
/// answer, authority and additional records. There is none when a section
/// has more records than a count can hold.
pub open spec fn assembled(
    preamble: Seq<u8>,
    answers: Seq<Seq<u8>>,
    authorities: Seq<Seq<u8>>,
    additionals: Seq<Seq<u8>>,
) -> Option<Seq<u8>> {
    if answers.len() > 65535 || authorities.len() > 65535 || additionals.len() > 65535 {
        None
    } else {
        Some(
            with_counts(
                preamble,
                answers.len() as u16,
                authorities.len() as u16,
                additionals.len() as u16,
            ) + joined(answers) + joined(authorities) + joined(additionals),
        )
    }
}

/// The reply to a request that is too short to hold a header: a bare header
/// that mirrors what arrived of the id and the flags, and says that the
/// request could not be read.
pub open spec fn truncated_reply(request: Seq<u8>) -> Seq<u8> {
    seq![
        octet_or_zero(request, 0),
        octet_or_zero(request, 1),
        reply_flags(octet_or_zero(request, 2)),
        1u8,
        0u8,
        0u8,
        0u8,
        0u8,
        0u8,
        0u8,
        0u8,
        0u8,
    ]
}

/// The octet at `at`, or zero where the octets end before it.
pub open spec fn octet_or_zero(octets: Seq<u8>, at: int) -> u8 {
    if 0 <= at < octets.len() {
        octets[at]
    } else {
        0
    }
}

/// The reply to a request that does not hold exactly one readable question.
pub open spec fn form_error_reply(request: Seq<u8>) -> Seq<u8> {
    reply_preamble(request, 1, readable_questions(wire_questions(request)))
}

/// The reply to a request whose resolution gave `outcome`. A failed
/// resolution is answered with "server failure". A reply from upstream is
/// passed on: its response code, and of its three sections the records of
/// class IN that can be read, composed anew. There is no reply where the
/// upstream message cannot be taken apart.
pub open spec fn reply_to(request: Seq<u8>, outcome: Result<Seq<u8>, ResolveError>) -> Option<
    Seq<u8>,
> {
    let questions = readable_questions(wire_questions(request));
    match outcome {
        Err(_) => Some(reply_preamble(request, 2, questions)),
        Ok(upstream) => match (
            wire_records(upstream, ANSWER),
            wire_records(upstream, AUTHORITY),
            wire_records(upstream, ADDITIONAL),
        ) {
            (Some(answers), Some(authorities), Some(additionals)) => assembled(
                reply_preamble(request, header_rcode(upstream), questions),
                kept_records(answers),
                kept_records(authorities),
                kept_records(additionals),
            ),
            _ => None,
        },
    }
}

/// Appends octets to a vector.
pub fn append_octets(out: &mut Vec<u8>, octets: &Vec<u8>)
    ensures
        final(out)@ == old(out)@ + octets@,
{
    let mut i: usize = 0;
    while i < octets.len()
        invariant
            i <= octets.len(),
            out@ == old(out)@ + octets@.take(i as int),
        decreases octets.len() - i,
    {
        out.push(octets[i]);
        i += 1;
        assert(out@ =~= old(out)@ + octets@.take(i as int));
    }
    assert(octets@.take(octets.len() as int) =~= octets@);
}

/// Appends the two octets of a 16-bit number in network byte order.
pub fn append_be16(out: &mut Vec<u8>, value: u16)
    ensures
        final(out)@ == old(out)@ + be16_octets(value),
{
    out.push((value / 256) as u8);
    out.push((value % 256) as u8);
    assert(out@ =~= old(out)@ + be16_octets(value));
}

/// Puts the records of a section that could be read one behind the other,
/// and counts them.
pub fn join_records(items: &Vec<Option<Vec<u8>>>) -> (r: (Vec<u8>, usize))
    ensures
        r.0@ == joined(kept_records(items.deep_view())),
        r.1 == kept_records(items.deep_view()).len(),
{
    let ghost all = items.deep_view();
    let mut out: Vec<u8> = Vec::new();
    let mut count: usize = 0;
    let mut i: usize = 0;
    proof {
        assert(all.take(0) =~= Seq::empty());
    }
    while i < items.len()
        invariant
            i <= items.len(),
            count <= i,
            all == items.deep_view(),
            out@ == joined(kept_records(all.take(i as int))),
            count == kept_records(all.take(i as int)).len(),
        decreases items.len() - i,
    {
        proof {
            assert(all.take(i + 1).drop_last() =~= all.take(i as int));
            assert(all.take(i + 1).last() == all[i as int]);
            assert(all[i as int] == items@[i as int].deep_view());
        }
        match &items[i] {
            Some(record) => {
                proof {
                    assert(record.deep_view() =~= record@);
                    let kept = kept_records(all.take(i as int));
                    assert(kept.push(record@).drop_last() =~= kept);
                }
                append_octets(&mut out, record);
                count += 1;
            },
            None => {},
        }
        i += 1;
    }
    proof {
        assert(all.take(items.len() as int) =~= all);
    }
    (out, count)
}

/// Puts a reply together: the beginning, with the record counts filled in,
/// and the records of the three sections that could be read.
pub fn assemble_reply(
    preamble: &Vec<u8>,
    answers: &Vec<Option<Vec<u8>>>,
    authorities: &Vec<Option<Vec<u8>>>,
    additionals: &Vec<Option<Vec<u8>>>,
) -> (r: Option<Vec<u8>>)
    requires
        preamble@.len() >= 12,
    ensures
        match r {
            Some(datagram) => assembled(
                preamble@,
                kept_records(answers.deep_view()),
                kept_records(authorities.deep_view()),
                kept_records(additionals.deep_view()),
            ) == Some(datagram@),
            None => assembled(
                preamble@,
                kept_records(answers.deep_view()),
                kept_records(authorities.deep_view()),
                kept_records(additionals.deep_view()),
            ) is None,
        },
{
    let (answer_octets, answer_count) = join_records(answers);
    let (authority_octets, authority_count) = join_records(authorities);
    let (additional_octets, additional_count) = join_records(additionals);
    if answer_count > 65535 || authority_count > 65535 || additional_count > 65535 {
        return None;
    }
    let mut out: Vec<u8> = Vec::new();
    let mut i: usize = 0;
    while i < 6
        invariant
            i <= 6,
            preamble@.len() >= 12,
            out@ == preamble@.subrange(0, i as int),
        decreases 6 - i,
    {
        out.push(preamble[i]);
        i += 1;
        assert(out@ =~= preamble@.subrange(0, i as int));
    }
    append_be16(&mut out, answer_count as u16);
    append_be16(&mut out, authority_count as u16);
    append_be16(&mut out, additional_count as u16);
    let ghost head = out@;
    let mut k: usize = 12;
    while k < preamble.len()
        invariant
            12 <= k <= preamble.len(),
            out@ == head + preamble@.subrange(12, k as int),
        decreases preamble.len() - k,
    {
        out.push(preamble[k]);
        k += 1;
        assert(out@ =~= head + preamble@.subrange(12, k as int));
    }
    proof {
        assert(preamble@.subrange(12, preamble@.len() as int) =~= preamble@.skip(12));
    }
    append_octets(&mut out, &answer_octets);
    append_octets(&mut out, &authority_octets);
    append_octets(&mut out, &additional_octets);
    Some(out)
}

/// The reply to a request that is too short to hold a header.
pub fn reply_to_truncated(request: &Vec<u8>) -> (r: Vec<u8>)
    ensures
        r@ == truncated_reply(request@),
{
    let id_high: u8 = if request.len() > 0 { request[0] } else { 0 };
    let id_low: u8 = if request.len() > 1 { request[1] } else { 0 };
    let flags: u8 = if request.len() > 2 { request[2] } else { 0 };
    let mut out: Vec<u8> = Vec::with_capacity(12);
    out.push(id_high);
    out.push(id_low);
    out.push(0x80u8 | (flags & 0x79u8));
    out.push(RCODE_FORMERR);
    let mut i: usize = 4;
    while i < 12
        invariant
            4 <= i <= 12,
            out@.len() == i,
            out@[0] == id_high,
            out@[1] == id_low,
            out@[2] == reply_flags(flags),
            out@[3] == 1,
            forall|j: int| 4 <= j < i ==> out@[j] == 0,
        decreases 12 - i,
    {
        out.push(0u8);
        i += 1;
    }
    assert(out@ =~= truncated_reply(request@));
    out
}

/// The reply to a request that does not hold exactly one readable question.
pub fn reply_form_error(request: &Message) -> (r: Vec<u8>)
    ensures
        r@ == form_error_reply(request@),
{
    start_reply(request.as_octets(), RCODE_FORMERR)
}

/// The reply to a request whose resolution gave `outcome`.
pub fn compose_reply(request: &Message, outcome: &Result<Message, ResolveError>) -> (r: Option<
    Vec<u8>,
>)
    ensures
        match r {
            Some(datagram) => reply_to(
                request@,
                match outcome {
                    Ok(upstream) => Ok(upstream@),
                    Err(error) => Err(*error),
                },
            ) == Some(datagram@),
            None => reply_to(
                request@,
                match outcome {
                    Ok(upstream) => Ok(upstream@),
                    Err(error) => Err(*error),
                },
            ) is None,
        },
{
    match outcome {
        Err(_) => Some(start_reply(request.as_octets(), RCODE_SERVFAIL)),
        Ok(upstream) => {
            let octets = upstream.as_octets();
            let answers = match compose_records(octets, ANSWER) {
                Some(items) => items,
                None => {
                    return None;
                },
            };
            let authorities = match compose_records(octets, AUTHORITY) {
                Some(items) => items,
                None => {
                    return None;
                },
            };
            let additionals = match compose_records(octets, ADDITIONAL) {
                Some(items) => items,
                None => {
                    return None;
                },
            };
            let preamble = start_reply(request.as_octets(), upstream.rcode());
            assemble_reply(&preamble, &answers, &authorities, &additionals)
        },
    }
}

/// The response code that the reply to a request carries: that of the
/// upstream reply, or "server failure" where the resolution failed.
pub open spec fn reply_rcode(outcome: Result<Seq<u8>, ResolveError>) -> u8 {
    match outcome {
        Ok(upstream) => header_rcode(upstream),
        Err(_) => 2,
    }
}

/// Every reply to a request that holds a header carries the transaction id
/// of the request. It is marked as a response, mirrors the opcode and
/// "recursion desired", and carries the response code of the outcome.
pub proof fn lemma_reply_mirrors_header(
    request: Seq<u8>,
    outcome: Result<Seq<u8>, ResolveError>,
    reply: Seq<u8>,
)
    requires
        request.len() >= 12,
        reply_to(request, outcome) == Some(reply),
    ensures
        reply.len() >= 12,
        reply[0] == request[0],
        reply[1] == request[1],
        reply[2] == reply_flags(request[2]),
        reply[3] == reply_rcode(outcome),
{
}

/// The reply that says "format error" carries the transaction id of the
/// request, as far as the request holds one.
pub proof fn lemma_form_error_mirrors_header(request: Seq<u8>)
    ensures
        request.len() >= 12 ==> form_error_reply(request).len() >= 12 && form_error_reply(
            request,
        )[0] == request[0] && form_error_reply(request)[1] == request[1] && form_error_reply(
            request,
        )[3] == 1,
        truncated_reply(request).len() == 12,
        request.len() >= 2 ==> truncated_reply(request)[0] == request[0] && truncated_reply(
            request,
        )[1] == request[1],
        truncated_reply(request)[3] == 1,
{
}

/// The question section of every reply holds the questions that the codec
/// read in the request, composed as the codec composes them, and nothing
/// else: it starts behind the header and the records follow it.
pub proof fn lemma_reply_keeps_questions(
    request: Seq<u8>,
    outcome: Result<Seq<u8>, ResolveError>,
    reply: Seq<u8>,
)
    requires
        request.len() >= 12,
        reply_to(request, outcome) == Some(reply),
    ensures
        reply.len() >= 12 + composed_questions(readable_questions(wire_questions(request))).len(),
        reply.subrange(
            12,
            12 + composed_questions(readable_questions(wire_questions(request))).len() as int,
        ) == composed_questions(readable_questions(wire_questions(request))),
        reply.subrange(4, 6) == be16_octets(
            readable_questions(wire_questions(request)).len() as u16,
        ),
{
    let questions = composed_questions(readable_questions(wire_questions(request)));
    assert(reply.subrange(12, 12 + questions.len() as int) =~= questions);
    assert(reply.subrange(4, 6) =~= be16_octets(
        readable_questions(wire_questions(request)).len() as u16,
    ));
}

/// Where the request spells its questions as the codec composes them, which
/// a request without name compression does, the question section of the
/// reply is that of the request, octet for octet.
pub proof fn lemma_reply_repeats_question_octets(
    request: Seq<u8>,
    outcome: Result<Seq<u8>, ResolveError>,
    reply: Seq<u8>,
)
    requires
        request.len() >= 12 + composed_questions(readable_questions(wire_questions(request))).len(),
        request.subrange(
            12,
            12 + composed_questions(readable_questions(wire_questions(request))).len() as int,
        ) == composed_questions(readable_questions(wire_questions(request))),
        reply_to(request, outcome) == Some(reply),
    ensures
        reply.subrange(
            12,
            12 + composed_questions(readable_questions(wire_questions(request))).len() as int,
        ) == request.subrange(
            12,
            12 + composed_questions(readable_questions(wire_questions(request))).len() as int,
        ),
{
    lemma_reply_keeps_questions(request, outcome, reply);
}

} // verus!
