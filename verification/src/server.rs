//! The query handler: from a request datagram to the reply datagram, by way
//! of the queries that the resolution needs.

use vstd::prelude::*;
use crate::address::{Ipv4Address, ServerAddr};
use crate::budget::{
    budget, full_budget, lemma_choose_budget, lemma_deliver_budget, lemma_fail_budget,
    lemma_start_budget,
};
use crate::codec::{compose_query, parse_questions, query_tail, wire_questions};
use crate::message::{header_qdcount, Message, HEADER_LEN};
use crate::name::{encode_labels, parse_name, DomainName};
use crate::question::{canonical_question, Question, QuestionView};
use crate::random::choose_address;
use crate::referral::{summarize, summary_of};
use crate::reply::{
    compose_reply, form_error_reply, reply_form_error, reply_to, reply_to_truncated,
    truncated_reply,
};
use crate::resolver::{
    awaits_reply, cache_follows, choose_server, deliver, fail, idle, lemma_choose_cache,
    lemma_choose_fits, lemma_deliver_cache, lemma_deliver_fits, lemma_fail_cache,
    lemma_fail_fits, start, step_fits, well_formed, ResolveError, Resolver, ResolverView, Step,
    StepView,
};

verus! {

/// Why a query brought no reply.
#[derive(Clone, Copy, Debug, PartialEq, Eq, Structural)]
pub enum TransportError {
    /// The socket could not be bound, or sending or receiving failed.
    SocketError,
    /// What came back is no DNS message.
    DecodeError,
    /// No reply came in time.
    Timeout,
}

/// The failure of a resolution that a failure of the transport makes.
pub open spec fn resolve_error_of(error: TransportError) -> ResolveError {
    match error {
        TransportError::DecodeError => ResolveError::Malformed,
        _ => ResolveError::Upstream,
    }
}

/// An action as a value in contracts.
pub enum ActionView {
    Query { server: ServerAddr, datagram: Seq<u8> },
    Reply { datagram: Seq<u8> },
    Drop,
}

/// What the handler asks of whoever holds the sockets.
pub enum Action {
    /// Send the datagram to the name server and hand back what came of it.
    Query { server: ServerAddr, datagram: Vec<u8> },
    /// Send the datagram to the client: the request is dealt with.
    Reply { datagram: Vec<u8> },
    /// No reply could be put together: the request is dropped.
    Drop,
}

impl View for Action {
    type V = ActionView;

    open spec fn view(&self) -> ActionView {
        match self {
            Action::Query { server, datagram } => ActionView::Query {
                server: *server,
                datagram: datagram@,
            },
            Action::Reply { datagram } => ActionView::Reply { datagram: datagram@ },
            Action::Drop => ActionView::Drop,
        }
    }
}

/// The question among those that the codec read in a request, if the
/// request announces exactly one and its name is valid.
pub open spec fn question_among(
    qdcount: u16,
    questions: Seq<Option<(Seq<u8>, u16, u16)>>,
) -> Option<QuestionView> {
    if qdcount == 1 && questions.len() > 0 {
        match questions[0] {
            Some((name, qtype, qclass)) => match parse_name(name) {
                Some(labels) => Some(QuestionView { qname: labels, qtype, qclass }),
                None => None,
            },
            None => None,
        }
    } else {
        None
    }
}

/// The one question of a request.
pub open spec fn sole_question_of(request: Seq<u8>) -> Option<QuestionView> {
    question_among(header_qdcount(request), wire_questions(request))
}

/// A request that announces no question, or more than one, has no sole
/// question, whatever its question section holds.
pub proof fn lemma_one_question_only(request: Seq<u8>)
    requires
        header_qdcount(request) != 1,
    ensures
        sole_question_of(request) is None,
{
}

/// Picks the one question among those that the codec read in a request.
pub fn single_question(qdcount: u16, questions: &Vec<Option<(Vec<u8>, u16, u16)>>) -> (r: Option<
    Question,
>)
    ensures
        match r {
            Some(q) => question_among(qdcount, questions.deep_view()) == Some(q@),
            None => question_among(qdcount, questions.deep_view()) is None,
        },
{
    if qdcount != 1 || questions.len() == 0 {
        return None;
    }
    assert(questions.deep_view()[0] == questions@[0].deep_view());
    match &questions[0] {
        Some((name, qtype, qclass)) => {
            assert(name.deep_view() =~= name@);
            match DomainName::from_wire(name) {
                Some(qname) => Some(Question::new(qname, *qtype, *qclass)),
                None => None,
            }
        },
        None => None,
    }
}

/// Reads the one question of a request. There is none when the request
/// announces no question or several, or when its question cannot be read.
pub fn sole_question(request: &Message) -> (r: Option<Question>)
    ensures
        match r {
            Some(q) => sole_question_of(request@) == Some(q@),
            None => sole_question_of(request@) is None,
        },
{
    let questions = parse_questions(request.as_octets());
    single_question(request.qdcount(), &questions)
}

/// A datagram is a query for a question: whatever its transaction id, it
/// asks for recursion and holds the question and nothing else.
pub open spec fn is_query_for(datagram: Seq<u8>, question: QuestionView) -> bool {
    &&& datagram.len() == 12 + encode_labels(question.qname).len() + 4
    &&& datagram.skip(2) == query_tail(
        encode_labels(question.qname),
        question.qtype,
        question.qclass,
    )
}

/// Builds the query datagram for a question, with a fresh transaction id.
pub fn build_query(question: &Question) -> (r: Vec<u8>)
    ensures
        is_query_for(r@, question@),
{
    let name = question.qname.to_wire();
    compose_query(&name, question.qtype, question.qclass)
}

/// Tells whether a datagram carries the transaction id of a query.
pub fn same_transaction(query: &Vec<u8>, reply: &Vec<u8>) -> (r: bool)
    ensures
        r == (query@.len() >= 2 && reply@.len() >= 2 && query@[0] == reply@[0] && query@[1]
            == reply@[1]),
{
    query.len() >= 2 && reply.len() >= 2 && query[0] == reply[0] && query[1] == reply[1]
}

/// An action carries out a step of the resolver for a request: a query is
/// sent as the resolver asks, and the result of the resolution is sent to
/// the client as a reply, or nothing is where no reply can be made of it.
pub open spec fn renders(request: Seq<u8>, step: StepView, action: ActionView) -> bool {
    match step {
        StepView::Query { server, question } => action matches ActionView::Query {
            server: to,
            datagram,
        } && to == server && is_query_for(datagram, question),
        StepView::Done { outcome } => match reply_to(request, outcome) {
            Some(datagram) => action == (ActionView::Reply { datagram }),
            None => action == ActionView::Drop,
        },
        StepView::Choose { .. } => false,
    }
}

/// From a state and a step the resolver comes to another state and step by
/// choices alone, each among the addresses offered, and the step it comes to
/// asks for no further choice.
pub open spec fn resolves_to(
    s: ResolverView,
    step: StepView,
    end: ResolverView,
    last: StepView,
) -> bool
    decreases s.stack.len(),
{
    match step {
        StepView::Choose { addresses } => exists|addr: Ipv4Address| #[trigger]
            addresses.contains(addr) && {
                let next = choose_server(s, addr);
                if next.1 is Choose {
                    next.0.stack.len() < s.stack.len() && resolves_to(next.0, next.1, end, last)
                } else {
                    next.0 == end && next.1 == last
                }
            },
        _ => s == end && step == last,
    }
}

/// What came of a query, as a value in contracts.
pub open spec fn event_of(outcome: Result<Vec<u8>, TransportError>) -> Result<
    Seq<u8>,
    TransportError,
> {
    match outcome {
        Ok(octets) => Ok(octets@),
        Err(error) => Err(error),
    }
}

/// What an upstream event makes of the state of the resolver: a reply that
/// can be read is delivered, anything else is a failure.
pub open spec fn upstream_step(s: ResolverView, outcome: Result<Seq<u8>, TransportError>) -> (
    ResolverView,
    StepView,
) {
    match outcome {
        Err(error) => fail(s, resolve_error_of(error)),
        Ok(octets) => if octets.len() < 12 {
            fail(s, ResolveError::Malformed)
        } else {
            match summary_of(octets) {
                Some(summary) => deliver(s, octets, summary),
                None => fail(s, ResolveError::Malformed),
            }
        },
    }
}

/// Choices change the cache no more than the steps between which they are
/// made: whatever is chosen, the cache is changed only as `cache_follows`
/// says.
pub proof fn lemma_choices_keep_cache(
    origin: ResolverView,
    s: ResolverView,
    step: StepView,
    end: ResolverView,
    last: StepView,
)
    requires
        origin.stack.len() > 0,
        step_fits(s, step),
        cache_follows(origin, s, step),
        resolves_to(s, step, end, last),
    ensures
        cache_follows(origin, end, last),
        step_fits(end, last),
        !(last is Choose),
    decreases s.stack.len(),
{
    match step {
        StepView::Choose { addresses } => {
            let addr = choose|addr: Ipv4Address| #[trigger]
                addresses.contains(addr) && {
                    let next = choose_server(s, addr);
                    if next.1 is Choose {
                        next.0.stack.len() < s.stack.len() && resolves_to(
                            next.0,
                            next.1,
                            end,
                            last,
                        )
                    } else {
                        next.0 == end && next.1 == last
                    }
                };
            let next = choose_server(s, addr);
            lemma_choose_fits(s, addr);
            lemma_choose_cache(s, addr);
            if next.1 is Choose {
                lemma_choices_keep_cache(origin, next.0, next.1, end, last);
            }
        },
        _ => {},
    }
}

/// Whatever comes of a query and whatever is chosen on the way, the cache
/// changes only when the outermost question ends with a reply, which is
/// then stored under the key of that question: what a lookup of a
/// name-server name gives is never stored.
pub proof fn lemma_upstream_keeps_cache(
    s: ResolverView,
    outcome: Result<Seq<u8>, TransportError>,
    end: ResolverView,
    last: StepView,
)
    requires
        well_formed(s),
        awaits_reply(s),
        resolves_to(upstream_step(s, outcome).0, upstream_step(s, outcome).1, end, last),
    ensures
        cache_follows(s, end, last),
        step_fits(end, last),
        !(last is Choose),
{
    let next = upstream_step(s, outcome);
    match outcome {
        Err(error) => {
            lemma_fail_fits(s, resolve_error_of(error));
            lemma_fail_cache(s, resolve_error_of(error));
        },
        Ok(octets) => {
            lemma_fail_fits(s, ResolveError::Malformed);
            lemma_fail_cache(s, ResolveError::Malformed);
            if octets.len() >= 12 {
                match summary_of(octets) {
                    Some(summary) => {
                        lemma_deliver_fits(s, octets, summary);
                        lemma_deliver_cache(s, octets, summary);
                    },
                    None => {},
                }
            }
        },
    }
    lemma_choices_keep_cache(s, next.0, next.1, end, last);
}

/// Choices use up none of the budget of a resolution and add nothing to
/// it, whatever is chosen.
pub proof fn lemma_choices_keep_budget(
    s: ResolverView,
    step: StepView,
    end: ResolverView,
    last: StepView,
)
    requires
        step_fits(s, step),
        resolves_to(s, step, end, last),
    ensures
        budget(end.stack) <= budget(s.stack),
    decreases s.stack.len(),
{
    match step {
        StepView::Choose { addresses } => {
            let addr = choose|addr: Ipv4Address| #[trigger]
                addresses.contains(addr) && {
                    let next = choose_server(s, addr);
                    if next.1 is Choose {
                        next.0.stack.len() < s.stack.len() && resolves_to(
                            next.0,
                            next.1,
                            end,
                            last,
                        )
                    } else {
                        next.0 == end && next.1 == last
                    }
                };
            let next = choose_server(s, addr);
            lemma_choose_fits(s, addr);
            lemma_choose_budget(s, addr);
            if next.1 is Choose {
                lemma_choices_keep_budget(next.0, next.1, end, last);
            }
        },
        _ => {},
    }
}

/// Whatever comes of a query and whatever is chosen on the way, some of the
/// budget of the resolution is used up. A resolution starts with the full
/// budget, so it is over after no more replies and failures than that.
pub proof fn lemma_upstream_uses_budget(
    s: ResolverView,
    outcome: Result<Seq<u8>, TransportError>,
    end: ResolverView,
    last: StepView,
)
    requires
        well_formed(s),
        awaits_reply(s),
        resolves_to(upstream_step(s, outcome).0, upstream_step(s, outcome).1, end, last),
    ensures
        budget(end.stack) < budget(s.stack),
{
    let next = upstream_step(s, outcome);
    match outcome {
        Err(error) => {
            lemma_fail_fits(s, resolve_error_of(error));
            lemma_fail_budget(s, resolve_error_of(error));
        },
        Ok(octets) => {
            lemma_fail_fits(s, ResolveError::Malformed);
            lemma_fail_budget(s, ResolveError::Malformed);
            if octets.len() >= 12 {
                match summary_of(octets) {
                    Some(summary) => {
                        lemma_deliver_fits(s, octets, summary);
                        lemma_deliver_budget(s, octets, summary);
                    },
                    None => {},
                }
            }
        },
    }
    lemma_choices_keep_budget(next.0, next.1, end, last);
}

/// Carries out a step of the resolver for a request, making the choices
/// that the resolver asks for on the way.
pub fn carry_out(resolver: &mut Resolver, request: &Message, step: Step) -> (r: Action)
    requires
        old(resolver).wf(),
        step_fits(old(resolver)@, step@),
    ensures
        final(resolver).wf(),
        exists|last: StepView|
            resolves_to(old(resolver)@, step@, final(resolver)@, last) && #[trigger] renders(
                request@,
                last,
                r@,
            ),
        r is Query ==> awaits_reply(final(resolver)@),
        !(r is Query) ==> idle(final(resolver)@),
{
    let mut current = step;
    loop
        invariant
            resolver.wf(),
            step_fits(resolver@, current@),
            forall|end: ResolverView, last: StepView| #[trigger]
                resolves_to(resolver@, current@, end, last) ==> resolves_to(
                    old(resolver)@,
                    step@,
                    end,
                    last,
                ),
        decreases (if current is Choose { 1int } else { 0int }), resolver@.stack.len(),
    {
        match current {
            Step::Query { server, question } => {
                let datagram = build_query(&question);
                let action = Action::Query { server, datagram };
                proof {
                    let last = StepView::Query { server, question: question@ };
                    assert(resolves_to(resolver@, last, resolver@, last));
                    assert(renders(request@, last, action@));
                }
                return action;
            },
            Step::Done { outcome } => {
                let action = match compose_reply(request, &outcome) {
                    Some(datagram) => Action::Reply { datagram },
                    None => Action::Drop,
                };
                proof {
                    let last = (Step::Done { outcome })@;
                    assert(resolves_to(resolver@, last, resolver@, last));
                    assert(renders(request@, last, action@));
                }
                return action;
            },
            Step::Choose { addresses } => {
                let ghost here = resolver@;
                let ghost offered = addresses@;
                let addr = match choose_address(&addresses) {
                    Some(addr) => addr,
                    None => addresses[0],
                };
                proof {
                    assert(offered.contains(addr));
                }
                current = resolver.on_choice(addr);
                proof {
                    assert forall|end: ResolverView, last: StepView| #[trigger]
                        resolves_to(resolver@, current@, end, last) implies resolves_to(
                        here,
                        StepView::Choose { addresses: offered },
                        end,
                        last,
                    ) by {
                        let next = choose_server(here, addr);
                        assert(next.0 == resolver@ && next.1 == current@);
                        assert(offered.contains(addr));
                    }
                }
            },
        }
    }
}

/// The state of the handler as a value in contracts: the resolver, and the
/// request that is being dealt with.
pub struct ServerView {
    pub resolver: ResolverView,
    pub request: Option<Seq<u8>>,
}

/// The recursive resolver as seen from the sockets: it takes one request at
/// a time and says what to send.
pub struct DnsServer {
    resolver: Resolver,
    request: Option<Message>,
}

impl View for DnsServer {
    type V = ServerView;

    closed spec fn view(&self) -> ServerView {
        ServerView {
            resolver: self.resolver@,
            request: match self.request {
                Some(message) => Some(message@),
                None => None,
            },
        }
    }
}

impl DnsServer {
    /// What the methods keep of the handler: with a request in hand a reply
    /// from upstream is awaited, and without one nothing is under way.
    pub closed spec fn wf(&self) -> bool {
        &&& self.resolver.wf()
        &&& match self.request {
            Some(_) => awaits_reply(self.resolver@),
            None => idle(self.resolver@),
        }
    }

    /// A handler with an empty cache and no request in hand.
    pub fn new() -> (r: DnsServer)
        ensures
            r.wf(),
            r@.request is None,
            r@.resolver.cache == Map::<QuestionView, Seq<u8>>::empty(),
    {
        DnsServer { resolver: Resolver::new(), request: None }
    }

    /// Tells whether no request is in hand.
    pub fn is_idle(&self) -> (r: bool)
        ensures
            r == (self@.request is None),
    {
        self.request.is_none()
    }

    /// A handler is well formed as a value in contracts too: its resolver
    /// is, and it awaits a reply exactly while it has a request in hand.
    pub proof fn lemma_well_formed(&self)
        requires
            self.wf(),
        ensures
            well_formed(self@.resolver),
            self@.request is Some ==> awaits_reply(self@.resolver),
            self@.request is None ==> idle(self@.resolver),
    {
        self.resolver.lemma_well_formed();
    }

    /// The number of replies in the cache.
    pub fn cached(&self) -> (r: usize)
        requires
            self.wf(),
        ensures
            self@.resolver.cache.dom().finite(),
            r == self@.resolver.cache.dom().len(),
    {
        self.resolver.cached()
    }

    /// The cached reply to a question, if there is one.
    pub fn cached_reply(&self, question: &Question) -> (r: Option<Message>)
        requires
            self.wf(),
        ensures
            match r {
                Some(message) => self@.resolver.cache.contains_key(canonical_question(question@))
                    && message@ == self@.resolver.cache[canonical_question(question@)],
                None => !self@.resolver.cache.contains_key(canonical_question(question@)),
            },
    {
        self.resolver.cached_reply(question)
    }

    /// Takes a request datagram from a client. A request that cannot be
    /// read, or that does not hold exactly one question, is answered at once
    /// with "format error". Any other is resolved with the cache in use:
    /// the action is the reply where the cache holds the answer, and else
    /// the first query.
    pub fn handle_query(&mut self, request: Vec<u8>) -> (r: Action)
        requires
            old(self).wf(),
            old(self)@.request is None,
        ensures
            final(self).wf(),
            request@.len() < 12 ==> final(self)@ == old(self)@ && r@ == (ActionView::Reply {
                datagram: truncated_reply(request@),
            }),
            request@.len() >= 12 && sole_question_of(request@) is None ==> final(self)@ == old(
                self,
            )@ && r@ == (ActionView::Reply { datagram: form_error_reply(request@) }),
            request@.len() >= 12 && sole_question_of(request@) is Some ==> {
                let begun = start(old(self)@.resolver, sole_question_of(request@)->0, true);
                &&& final(self)@.resolver == begun.0
                &&& renders(request@, begun.1, r@)
                &&& final(self)@.request == if begun.1 is Query {
                    Some(request@)
                } else {
                    None::<Seq<u8>>
                }
            },
            budget(final(self)@.resolver.stack) <= full_budget(),
    {
        if request.len() < HEADER_LEN {
            return Action::Reply { datagram: reply_to_truncated(&request) };
        }
        let message = match Message::from_octets(request) {
            Some(message) => message,
            None => {
                return Action::Drop;
            },
        };
        let question = match sole_question(&message) {
            Some(question) => question,
            None => {
                return Action::Reply { datagram: reply_form_error(&message) };
            },
        };
        proof {
            lemma_start_budget(self.resolver@, question@, true);
        }
        let step = self.resolver.resolve(question, true);
        let action = carry_out(&mut self.resolver, &message, step);
        match action {
            Action::Query { .. } => {
                self.request = Some(message);
            },
            _ => {},
        }
        action
    }

    /// Takes what came of the query that is out: the reply datagram, or the
    /// failure of the transport.
    pub fn on_upstream(&mut self, outcome: Result<Vec<u8>, TransportError>) -> (r: Action)
        requires
            old(self).wf(),
            old(self)@.request is Some,
        ensures
            final(self).wf(),
            exists|last: StepView|
                resolves_to(
                    upstream_step(old(self)@.resolver, event_of(outcome)).0,
                    upstream_step(old(self)@.resolver, event_of(outcome)).1,
                    final(self)@.resolver,
                    last,
                ) && #[trigger] renders(old(self)@.request->0, last, r@) && cache_follows(
                    old(self)@.resolver,
                    final(self)@.resolver,
                    last,
                ),
            final(self)@.request == if r is Query {
                old(self)@.request
            } else {
                None::<Seq<u8>>
            },
            budget(final(self)@.resolver.stack) < budget(old(self)@.resolver.stack),
    {
        let ghost before = self@;
        let ghost event = event_of(outcome);
        proof {
            self.resolver.lemma_well_formed();
        }
        let step = match outcome {
            Err(error) => {
                let reason = match error {
                    TransportError::DecodeError => ResolveError::Malformed,
                    _ => ResolveError::Upstream,
                };
                self.resolver.on_failure(reason)
            },
            Ok(octets) => match Message::from_octets(octets) {
                None => self.resolver.on_failure(ResolveError::Malformed),
                Some(reply) => match summarize(&reply) {
                    Some(summary) => self.resolver.on_reply(reply, summary),
                    None => self.resolver.on_failure(ResolveError::Malformed),
                },
            },
        };
        proof {
            assert(self.resolver@ == upstream_step(before.resolver, event).0);
            assert(step@ == upstream_step(before.resolver, event).1);
        }
        let ghost first = step@;
        let ghost mid = self.resolver@;
        let action = match &self.request {
            Some(request) => {
                assert(before.request == Some(request@));
                carry_out(&mut self.resolver, request, step)
            },
            None => Action::Drop,
        };
        proof {
            let last = choose|last: StepView|
                resolves_to(mid, first, self.resolver@, last) && #[trigger] renders(
                    before.request->0,
                    last,
                    action@,
                );
            assert(resolves_to(mid, first, self.resolver@, last) && renders(
                before.request->0,
                last,
                action@,
            ));
            lemma_upstream_keeps_cache(before.resolver, event, self.resolver@, last);
            lemma_upstream_uses_budget(before.resolver, event, self.resolver@, last);
        }
        match action {
            Action::Query { .. } => {},
            _ => {
                self.request = None;
            },
        }
        action
    }
}

} // verus!
