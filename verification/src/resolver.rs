//! The resolution engine: the walk down the name-server hierarchy as a state
//! machine. The machine says which query to send next; whoever drives it
//! sends the query and hands back what came of it.

use vstd::prelude::*;
use crate::address::{root_server, Ipv4Address, ServerAddr};
use crate::cache::Cache;
use crate::message::Message;
use crate::question::{canonical_question, Question, QuestionView, TYPE_A};
use crate::referral::{
    conclude_lookup, lookup_verdict, next_server, select, select_next, verdict, ReplySummary,
    Selection, SelectionView, SummaryView, Verdict,
};

verus! {

/// The most queries that are sent for one question before the last reply is
/// taken as final.
pub const MAX_HOPS: usize = 16;

/// The most lookups of name-server names that may be nested in one another.
pub const MAX_DEPTH: usize = 8;

/// Why a resolution failed.
#[derive(Clone, Copy, Debug, PartialEq, Eq, Structural)]
pub enum ResolveError {
    /// The query could not be sent or no reply came.
    Upstream,
    /// The reply could not be read.
    Malformed,
}

/// A suspended reply as a value in contracts.
pub struct PendingView {
    pub reply: Seq<u8>,
    pub addresses: Seq<Ipv4Address>,
}

/// One question under resolution as a value in contracts.
pub struct FrameView {
    pub question: QuestionView,
    pub hops: nat,
    pub pending: Option<PendingView>,
}

/// The state of the resolver as a value in contracts: the cache, whether
/// the outermost resolution caches its result, and the questions under
/// resolution, the outermost first.
pub struct ResolverView {
    pub cache: Map<QuestionView, Seq<u8>>,
    pub caching: bool,
    pub stack: Seq<FrameView>,
}

/// A step as a value in contracts.
pub enum StepView {
    Query { server: ServerAddr, question: QuestionView },
    Choose { addresses: Seq<Ipv4Address> },
    Done { outcome: Result<Seq<u8>, ResolveError> },
}

/// No resolution is under way.
pub open spec fn idle(s: ResolverView) -> bool {
    s.stack.len() == 0
}

/// A query is out and its reply is awaited.
pub open spec fn awaits_reply(s: ResolverView) -> bool {
    s.stack.len() > 0 && s.stack.last().pending is None
}

/// A lookup has given addresses and one of them is to be chosen.
pub open spec fn awaits_choice(s: ResolverView) -> bool {
    s.stack.len() > 0 && s.stack.last().pending is Some
}

/// What holds of the state between any two steps: lookups are nested no
/// deeper than the limit, no question has had more queries than the limit,
/// and every question but the innermost waits on a reply of its own.
pub open spec fn well_formed(s: ResolverView) -> bool {
    &&& s.stack.len() <= MAX_DEPTH + 1
    &&& forall|i: int| 0 <= i < s.stack.len() ==> 1 <= (#[trigger] s.stack[i]).hops <= MAX_HOPS
    &&& forall|i: int| 0 <= i < s.stack.len() - 1 ==> (#[trigger] s.stack[i]).pending is Some
}

/// The state with another stack of questions.
pub open spec fn with_stack(s: ResolverView, stack: Seq<FrameView>) -> ResolverView {
    ResolverView { cache: s.cache, caching: s.caching, stack }
}

/// Taking up a question. With the cache in use and the question in it, the
/// cached reply is the result and nothing changes. Else the walk starts at
/// the root name server.
pub open spec fn start(s: ResolverView, question: QuestionView, use_cache: bool) -> (
    ResolverView,
    StepView,
) {
    let key = canonical_question(question);
    if use_cache && s.cache.contains_key(key) {
        (s, StepView::Done { outcome: Ok(s.cache[key]) })
    } else {
        (
            ResolverView {
                cache: s.cache,
                caching: use_cache,
                stack: seq![FrameView { question, hops: 1, pending: None }],
            },
            StepView::Query { server: root_server(), question },
        )
    }
}

/// The innermost question ends with `reply`, whose answer section holds
/// `addresses`. The outermost question hands the reply out, and stores it
/// if it caches. A lookup hands its addresses to the question that waits
/// for it; where it has none, that question ends too, with the reply on
/// which it waits.
pub open spec fn settle(s: ResolverView, reply: Seq<u8>, addresses: Seq<Ipv4Address>) -> (
    ResolverView,
    StepView,
)
    decreases s.stack.len(),
{
    if s.stack.len() == 0 {
        (s, StepView::Done { outcome: Ok(reply) })
    } else {
        let rest = s.stack.drop_last();
        if rest.len() == 0 {
            let cache = if s.caching {
                s.cache.insert(canonical_question(s.stack.last().question), reply)
            } else {
                s.cache
            };
            (
                ResolverView { cache, caching: s.caching, stack: rest },
                StepView::Done { outcome: Ok(reply) },
            )
        } else if addresses.len() > 0 {
            (with_stack(s, rest), StepView::Choose { addresses })
        } else {
            match rest.last().pending {
                Some(p) => settle(with_stack(s, rest), p.reply, p.addresses),
                None => (with_stack(s, rest), StepView::Done { outcome: Ok(reply) }),
            }
        }
    }
}

/// The innermost question goes on to the name server at `server`, unless it
/// has had its share of queries: then it ends with `reply`.
pub open spec fn follow(
    s: ResolverView,
    server: ServerAddr,
    reply: Seq<u8>,
    addresses: Seq<Ipv4Address>,
) -> (ResolverView, StepView) {
    let frame = s.stack.last();
    if frame.hops < MAX_HOPS {
        (
            with_stack(
                s,
                s.stack.drop_last().push(
                    FrameView { question: frame.question, hops: frame.hops + 1, pending: None },
                ),
            ),
            StepView::Query { server, question: frame.question },
        )
    } else {
        settle(s, reply, addresses)
    }
}

/// The innermost question goes by a verdict on `reply`: it ends with the
/// reply where the verdict says so, and else goes on to the server that the
/// verdict names. A verdict that neither ends the walk nor names a server
/// ends it too.
pub open spec fn proceed(
    s: ResolverView,
    verdict: Verdict,
    reply: Seq<u8>,
    addresses: Seq<Ipv4Address>,
) -> (ResolverView, StepView) {
    if !verdict.terminal && verdict.next is Some {
        follow(s, verdict.next->0, reply, addresses)
    } else {
        settle(s, reply, addresses)
    }
}

/// The question that looks up the address of the name server `name`.
pub open spec fn lookup_question(name: Seq<Seq<u8>>) -> QuestionView {
    QuestionView { qname: name, qtype: 1, qclass: 1 }
}

/// A reply has come for the query that is out. The question goes by the
/// verdict on the reply; where a name server has to be looked up first, the
/// question waits on the reply and the lookup starts at the root name
/// server, unless lookups are nested too deep already: then no address is
/// found.
pub open spec fn deliver(s: ResolverView, reply: Seq<u8>, summary: SummaryView) -> (
    ResolverView,
    StepView,
) {
    let frame = s.stack.last();
    let selection = select(summary, frame.question.qname);
    match selection {
        SelectionView::Lookup(name) => if s.stack.len() <= MAX_DEPTH {
            let waiting = FrameView {
                question: frame.question,
                hops: frame.hops,
                pending: Some(PendingView { reply, addresses: summary.addresses }),
            };
            let inner = FrameView { question: lookup_question(name), hops: 1, pending: None };
            (
                with_stack(s, s.stack.drop_last().push(waiting).push(inner)),
                StepView::Query { server: root_server(), question: lookup_question(name) },
            )
        } else {
            proceed(s, verdict(selection, None), reply, summary.addresses)
        },
        _ => proceed(s, verdict(selection, None), reply, summary.addresses),
    }
}

/// The query that is out has failed. The outermost question fails with it;
/// a lookup that fails ends the question that waits for it, with the reply
/// on which it waits.
pub open spec fn fail(s: ResolverView, error: ResolveError) -> (ResolverView, StepView) {
    let rest = s.stack.drop_last();
    if rest.len() == 0 {
        (with_stack(s, rest), StepView::Done { outcome: Err(error) })
    } else {
        match rest.last().pending {
            Some(p) => settle(with_stack(s, rest), p.reply, p.addresses),
            None => (with_stack(s, rest), StepView::Done { outcome: Err(error) }),
        }
    }
}

/// One of the addresses that a lookup gave has been chosen: the question
/// that waited for the lookup goes by the verdict that names it.
pub open spec fn choose_server(s: ResolverView, addr: Ipv4Address) -> (ResolverView, StepView) {
    match s.stack.last().pending {
        Some(p) => proceed(s, lookup_verdict(Some(addr)), p.reply, p.addresses),
        None => (s, StepView::Done { outcome: Err(ResolveError::Upstream) }),
    }
}

/// What a step leaves behind fits the step: after a query a reply is
/// awaited, a choice is asked for among at least one address, and with the
/// result the resolver is idle again.
pub open spec fn step_fits(s: ResolverView, step: StepView) -> bool {
    &&& well_formed(s)
    &&& match step {
        StepView::Query { .. } => awaits_reply(s),
        StepView::Choose { addresses } => awaits_choice(s) && addresses.len() > 0,
        StepView::Done { .. } => idle(s),
    }
}

/// Ending the innermost question keeps the state well formed, leaves it as
/// the step says, and takes at least that question off the stack.
pub proof fn lemma_settle_fits(s: ResolverView, reply: Seq<u8>, addresses: Seq<Ipv4Address>)
    requires
        well_formed(s),
        s.stack.len() > 0,
    ensures
        step_fits(settle(s, reply, addresses).0, settle(s, reply, addresses).1),
        settle(s, reply, addresses).0.stack.len() < s.stack.len(),
        !(settle(s, reply, addresses).1 is Query),
    decreases s.stack.len(),
{
    let rest = s.stack.drop_last();
    lemma_pop_well_formed(s);
    if rest.len() > 0 && addresses.len() == 0 {
        let p = rest.last().pending->0;
        lemma_settle_fits(with_stack(s, rest), p.reply, p.addresses);
    }
}

/// Going on to another server, or ending for want of queries, keeps the
/// state well formed and leaves it as the step says.
pub proof fn lemma_follow_fits(
    s: ResolverView,
    server: ServerAddr,
    reply: Seq<u8>,
    addresses: Seq<Ipv4Address>,
)
    requires
        well_formed(s),
        s.stack.len() > 0,
    ensures
        step_fits(follow(s, server, reply, addresses).0, follow(s, server, reply, addresses).1),
        follow(s, server, reply, addresses).1 is Choose ==> follow(
            s,
            server,
            reply,
            addresses,
        ).0.stack.len() < s.stack.len(),
{
    let frame = s.stack.last();
    if frame.hops < MAX_HOPS {
        let next = s.stack.drop_last().push(
            FrameView { question: frame.question, hops: frame.hops + 1, pending: None },
        );
        assert forall|i: int| 0 <= i < next.len() implies 1 <= (#[trigger] next[i]).hops
            <= MAX_HOPS by {
            if i < next.len() - 1 {
                assert(next[i] == s.stack[i]);
            }
        }
        assert forall|i: int| 0 <= i < next.len() - 1 implies (#[trigger] next[i]).pending is Some by {
            assert(next[i] == s.stack[i]);
        }
    } else {
        lemma_settle_fits(s, reply, addresses);
    }
}

/// A reply keeps the state well formed and leaves it as the step says.
pub proof fn lemma_deliver_fits(s: ResolverView, reply: Seq<u8>, summary: SummaryView)
    requires
        well_formed(s),
        awaits_reply(s),
    ensures
        step_fits(deliver(s, reply, summary).0, deliver(s, reply, summary).1),
{
    let frame = s.stack.last();
    match select(summary, frame.question.qname) {
        SelectionView::Terminal => {
            lemma_settle_fits(s, reply, summary.addresses);
        },
        SelectionView::Glue(addr) => {
            lemma_settle_fits(s, reply, summary.addresses);
            lemma_follow_fits(s, ServerAddr { ip: addr, port: 53 }, reply, summary.addresses);
        },
        SelectionView::Lookup(name) => {
            if s.stack.len() <= MAX_DEPTH {
                let waiting = FrameView {
                    question: frame.question,
                    hops: frame.hops,
                    pending: Some(PendingView { reply, addresses: summary.addresses }),
                };
                let inner = FrameView { question: lookup_question(name), hops: 1, pending: None };
                let next = s.stack.drop_last().push(waiting).push(inner);
                assert forall|i: int| 0 <= i < next.len() implies 1 <= (#[trigger] next[i]).hops
                    <= MAX_HOPS by {
                    if i < next.len() - 2 {
                        assert(next[i] == s.stack[i]);
                    }
                }
                assert forall|i: int| 0 <= i < next.len() - 1 implies (
                #[trigger] next[i]).pending is Some by {
                    if i < next.len() - 2 {
                        assert(next[i] == s.stack[i]);
                    }
                }
            } else {
                lemma_settle_fits(s, reply, summary.addresses);
            }
        },
    }
}

/// A failure keeps the state well formed and leaves it as the step says.
pub proof fn lemma_fail_fits(s: ResolverView, error: ResolveError)
    requires
        well_formed(s),
        awaits_reply(s),
    ensures
        step_fits(fail(s, error).0, fail(s, error).1),
        !(fail(s, error).1 is Query),
        fail(s, error).0.stack.len() < s.stack.len(),
{
    let rest = s.stack.drop_last();
    lemma_pop_well_formed(s);
    if rest.len() > 0 {
        let p = rest.last().pending->0;
        lemma_settle_fits(with_stack(s, rest), p.reply, p.addresses);
    }
}

/// A choice keeps the state well formed and leaves it as the step says;
/// where another choice is asked for, fewer questions are left.
pub proof fn lemma_choose_fits(s: ResolverView, addr: Ipv4Address)
    requires
        well_formed(s),
        awaits_choice(s),
    ensures
        step_fits(choose_server(s, addr).0, choose_server(s, addr).1),
        choose_server(s, addr).1 is Choose ==> choose_server(s, addr).0.stack.len() < s.stack.len(),
{
    let p = s.stack.last().pending->0;
    lemma_follow_fits(s, ServerAddr { ip: addr, port: 53 }, p.reply, p.addresses);
}

/// How a step may change the cache: a reply with which the outermost
/// question ends is stored under the key of that question, if the question
/// was taken up with the cache in use. No other step changes the cache, and
/// while the resolution goes on the outermost question stays what it is.
pub open spec fn cache_follows(before: ResolverView, after: ResolverView, step: StepView) -> bool {
    &&& after.caching == before.caching
    &&& match step {
        StepView::Done { outcome: Ok(reply) } => after.cache == if before.caching {
            before.cache.insert(canonical_question(before.stack[0].question), reply)
        } else {
            before.cache
        },
        StepView::Done { outcome: Err(_) } => after.cache == before.cache,
        _ => after.cache == before.cache && after.stack.len() > 0 && after.stack[0].question
            == before.stack[0].question,
    }
}

/// Ending the innermost question changes the cache only as `cache_follows`
/// says: the reply of a lookup is never stored.
pub proof fn lemma_settle_cache(s: ResolverView, reply: Seq<u8>, addresses: Seq<Ipv4Address>)
    requires
        well_formed(s),
        s.stack.len() > 0,
    ensures
        cache_follows(s, settle(s, reply, addresses).0, settle(s, reply, addresses).1),
    decreases s.stack.len(),
{
    let rest = s.stack.drop_last();
    lemma_pop_well_formed(s);
    if rest.len() > 0 {
        assert(rest[0] == s.stack[0]);
        if addresses.len() == 0 {
            let p = rest.last().pending->0;
            lemma_settle_cache(with_stack(s, rest), p.reply, p.addresses);
        }
    }
}

/// Going on to another server changes the cache only as `cache_follows`
/// says.
pub proof fn lemma_follow_cache(
    s: ResolverView,
    server: ServerAddr,
    reply: Seq<u8>,
    addresses: Seq<Ipv4Address>,
)
    requires
        well_formed(s),
        s.stack.len() > 0,
    ensures
        cache_follows(
            s,
            follow(s, server, reply, addresses).0,
            follow(s, server, reply, addresses).1,
        ),
{
    lemma_settle_cache(s, reply, addresses);
}

/// A reply changes the cache only as `cache_follows` says.
pub proof fn lemma_deliver_cache(s: ResolverView, reply: Seq<u8>, summary: SummaryView)
    requires
        well_formed(s),
        awaits_reply(s),
    ensures
        cache_follows(s, deliver(s, reply, summary).0, deliver(s, reply, summary).1),
{
    lemma_settle_cache(s, reply, summary.addresses);
    match select(summary, s.stack.last().question.qname) {
        SelectionView::Glue(addr) => {
            lemma_follow_cache(s, ServerAddr { ip: addr, port: 53 }, reply, summary.addresses);
        },
        _ => {},
    }
}

/// A failure changes the cache only as `cache_follows` says.
pub proof fn lemma_fail_cache(s: ResolverView, error: ResolveError)
    requires
        well_formed(s),
        awaits_reply(s),
    ensures
        cache_follows(s, fail(s, error).0, fail(s, error).1),
{
    let rest = s.stack.drop_last();
    lemma_pop_well_formed(s);
    if rest.len() > 0 {
        assert(rest[0] == s.stack[0]);
        let p = rest.last().pending->0;
        lemma_settle_cache(with_stack(s, rest), p.reply, p.addresses);
    }
}

/// A choice changes the cache only as `cache_follows` says.
pub proof fn lemma_choose_cache(s: ResolverView, addr: Ipv4Address)
    requires
        well_formed(s),
        awaits_choice(s),
    ensures
        cache_follows(s, choose_server(s, addr).0, choose_server(s, addr).1),
{
    let p = s.stack.last().pending->0;
    lemma_follow_cache(s, ServerAddr { ip: addr, port: 53 }, p.reply, p.addresses);
}

/// A question whose answer the cache holds is answered from the cache: the
/// result is the stored reply, octet for octet, no query is asked for, and
/// the resolver stays as it is. A question that differs from the one under
/// which the reply was stored at most in the case of its name is answered
/// with the same reply.
pub proof fn lemma_cached_reply_is_served(
    s: ResolverView,
    stored: QuestionView,
    asked: QuestionView,
)
    requires
        s.cache.contains_key(canonical_question(stored)),
        canonical_question(asked) == canonical_question(stored),
    ensures
        start(s, asked, true).0 == s,
        start(s, asked, true).1 == (StepView::Done {
            outcome: Ok(s.cache[canonical_question(stored)]),
        }),
{
}

/// A cached reply stays the answer to its question when a reply is stored
/// under another key.
pub proof fn lemma_cached_reply_stays(
    s: ResolverView,
    stored: QuestionView,
    other: QuestionView,
    reply: Seq<u8>,
)
    requires
        s.cache.contains_key(canonical_question(stored)),
        canonical_question(other) != canonical_question(stored),
    ensures
        start(
            ResolverView {
                cache: s.cache.insert(canonical_question(other), reply),
                caching: s.caching,
                stack: s.stack,
            },
            stored,
            true,
        ).1 == (StepView::Done { outcome: Ok(s.cache[canonical_question(stored)]) }),
{
}

/// The reply with which a resolution ends is the reply that the cache then
/// holds for its question, where the question was taken up with the cache
/// in use: asking again, before another reply is stored under that key,
/// gives the same octets.
pub proof fn lemma_resolved_reply_is_cached(before: ResolverView, after: ResolverView, reply: Seq<u8>)
    requires
        before.caching,
        before.stack.len() > 0,
        cache_follows(before, after, StepView::Done { outcome: Ok(reply) }),
    ensures
        start(after, before.stack[0].question, true).0 == after,
        start(after, before.stack[0].question, true).1 == (StepView::Done { outcome: Ok(reply) }),
{
}

/// Taking the innermost question off a well-formed stack leaves a
/// well-formed stack, whose innermost question waits on a reply.
pub proof fn lemma_pop_well_formed(s: ResolverView)
    requires
        well_formed(s),
        s.stack.len() > 0,
    ensures
        well_formed(with_stack(s, s.stack.drop_last())),
        s.stack.len() > 1 ==> s.stack.drop_last().last().pending is Some,
{
    let rest = s.stack.drop_last();
    assert forall|i: int| 0 <= i < rest.len() implies 1 <= (#[trigger] rest[i]).hops <= MAX_HOPS by {
        assert(rest[i] == s.stack[i]);
    }
    assert forall|i: int| 0 <= i < rest.len() - 1 implies (#[trigger] rest[i]).pending is Some by {
        assert(rest[i] == s.stack[i]);
    }
    if rest.len() > 0 {
        assert(rest.last() == s.stack[rest.len() - 1]);
    }
}

/// A reply on which a question waits while a name server is looked up, with
/// the addresses that its answer section holds.
pub struct Pending {
    reply: Message,
    addresses: Vec<Ipv4Address>,
}

impl DeepView for Pending {
    type V = PendingView;

    closed spec fn deep_view(&self) -> PendingView {
        PendingView { reply: self.reply@, addresses: self.addresses@ }
    }
}

/// One question under resolution: the question, the number of queries sent
/// for it, and the reply on which it waits while a lookup goes on.
pub struct Frame {
    question: Question,
    hops: usize,
    pending: Option<Pending>,
}

impl DeepView for Frame {
    type V = FrameView;

    closed spec fn deep_view(&self) -> FrameView {
        FrameView {
            question: self.question@,
            hops: self.hops as nat,
            pending: self.pending.deep_view(),
        }
    }
}

/// What the resolver asks of whoever drives it.
pub enum Step {
    /// Send a query for `question` to `server` and hand back what came of
    /// it.
    Query { server: ServerAddr, question: Question },
    /// Choose one of the addresses and hand it back.
    Choose { addresses: Vec<Ipv4Address> },
    /// The resolution is over.
    Done { outcome: Result<Message, ResolveError> },
}

impl View for Step {
    type V = StepView;

    open spec fn view(&self) -> StepView {
        match self {
            Step::Query { server, question } => StepView::Query {
                server: *server,
                question: question@,
            },
            Step::Choose { addresses } => StepView::Choose { addresses: addresses@ },
            Step::Done { outcome } => StepView::Done {
                outcome: match outcome {
                    Ok(message) => Ok(message@),
                    Err(error) => Err(*error),
                },
            },
        }
    }
}

/// A copy of a vector of addresses.
pub fn copy_addresses(v: &Vec<Ipv4Address>) -> (r: Vec<Ipv4Address>)
    ensures
        r@ == v@,
{
    let mut out: Vec<Ipv4Address> = Vec::with_capacity(v.len());
    let mut i: usize = 0;
    while i < v.len()
        invariant
            i <= v.len(),
            out@ == v@.take(i as int),
        decreases v.len() - i,
    {
        out.push(v[i]);
        i += 1;
        assert(out@ =~= v@.take(i as int));
    }
    assert(v@.take(v.len() as int) =~= v@);
    out
}

/// The resolver: the cache and the questions under resolution.
pub struct Resolver {
    cache: Cache,
    caching: bool,
    stack: Vec<Frame>,
}

impl View for Resolver {
    type V = ResolverView;

    closed spec fn view(&self) -> ResolverView {
        ResolverView { cache: self.cache@, caching: self.caching, stack: self.stack.deep_view() }
    }
}

impl Resolver {
    /// What the methods keep of the resolver.
    pub closed spec fn wf(&self) -> bool {
        self.cache.wf() && well_formed(self@)
    }

    /// A resolver is well formed as a value in contracts too.
    pub proof fn lemma_well_formed(&self)
        requires
            self.wf(),
        ensures
            well_formed(self@),
    {
    }

    /// A resolver with an empty cache and nothing under way.
    pub fn new() -> (r: Resolver)
        ensures
            r.wf(),
            idle(r@),
            r@.cache == Map::<QuestionView, Seq<u8>>::empty(),
    {
        let r = Resolver { cache: Cache::new(), caching: false, stack: Vec::new() };
        assert(r@.stack =~= Seq::empty());
        r
    }

    /// Tells whether nothing is under way.
    pub fn is_idle(&self) -> (r: bool)
        ensures
            r == idle(self@),
    {
        self.stack.len() == 0
    }

    /// The number of replies in the cache.
    pub fn cached(&self) -> (r: usize)
        requires
            self.wf(),
        ensures
            self@.cache.dom().finite(),
            r == self@.cache.dom().len(),
    {
        self.cache.len()
    }

    /// The cached reply to a question, if there is one.
    pub fn cached_reply(&self, question: &Question) -> (r: Option<Message>)
        requires
            self.wf(),
        ensures
            match r {
                Some(message) => self@.cache.contains_key(canonical_question(question@))
                    && message@ == self@.cache[canonical_question(question@)],
                None => !self@.cache.contains_key(canonical_question(question@)),
            },
    {
        let key = question.cache_key();
        self.cache.get(&key)
    }

    /// Takes up a question. The step is the cached reply, where the cache is
    /// in use and holds one, and else the first query, to the root name
    /// server.
    pub fn resolve(&mut self, question: Question, use_cache: bool) -> (r: Step)
        requires
            old(self).wf(),
            idle(old(self)@),
        ensures
            final(self).wf(),
            final(self)@ == start(old(self)@, question@, use_cache).0,
            r@ == start(old(self)@, question@, use_cache).1,
            step_fits(final(self)@, r@),
            !(r is Choose),
    {
        if use_cache {
            let key = question.cache_key();
            match self.cache.get(&key) {
                Some(message) => {
                    return Step::Done { outcome: Ok(message) };
                },
                None => {},
            }
        }
        self.caching = use_cache;
        let frame = Frame { question: question.duplicate(), hops: 1, pending: None };
        self.stack.push(frame);
        proof {
            assert(self.stack.deep_view() =~= seq![
                FrameView { question: question@, hops: 1, pending: None },
            ]);
        }
        Step::Query { server: ServerAddr::root(), question }
    }

    /// Ends the innermost question with `reply`.
    fn settle(&mut self, reply: Message, addresses: Vec<Ipv4Address>) -> (r: Step)
        requires
            old(self).wf(),
            old(self)@.stack.len() > 0,
        ensures
            final(self).wf(),
            final(self)@ == settle(old(self)@, reply@, addresses@).0,
            r@ == settle(old(self)@, reply@, addresses@).1,
    {
        let ghost goal = settle(self@, reply@, addresses@);
        let mut last = reply;
        let mut found = addresses;
        loop
            invariant
                self.wf(),
                self@.stack.len() > 0,
                settle(self@, last@, found@) == goal,
                goal == settle(old(self)@, reply@, addresses@),
            decreases self.stack.len(),
        {
            let ghost before = self@;
            proof {
                lemma_pop_well_formed(before);
            }
            let frame = self.stack.pop().unwrap();
            proof {
                assert(self.stack.deep_view() =~= before.stack.drop_last());
                assert(frame.deep_view() == before.stack.last());
            }
            let n: usize = self.stack.len();
            if n == 0 {
                if self.caching {
                    let key = frame.question.cache_key();
                    self.cache.insert(key, last.duplicate());
                }
                return Step::Done { outcome: Ok(last) };
            }
            if found.len() > 0 {
                return Step::Choose { addresses: found };
            }
            proof {
                assert(self.stack.deep_view().last() == self.stack@[n - 1].deep_view());
            }
            match &self.stack[n - 1].pending {
                Some(p) => {
                    last = p.reply.duplicate();
                    found = copy_addresses(&p.addresses);
                },
                None => {
                    return Step::Done { outcome: Ok(last) };
                },
            }
        }
    }

    /// Sends the innermost question on to the name server at `server`.
    fn follow(&mut self, server: ServerAddr, reply: Message, addresses: Vec<Ipv4Address>) -> (r:
        Step)
        requires
            old(self).wf(),
            old(self)@.stack.len() > 0,
        ensures
            final(self).wf(),
            final(self)@ == follow(old(self)@, server, reply@, addresses@).0,
            r@ == follow(old(self)@, server, reply@, addresses@).1,
    {
        let ghost before = self@;
        let n: usize = self.stack.len();
        proof {
            assert(before.stack.last() == self.stack@[n - 1].deep_view());
            lemma_follow_fits(before, server, reply@, addresses@);
        }
        if self.stack[n - 1].hops < MAX_HOPS {
            let frame = self.stack.pop().unwrap();
            let question = frame.question.duplicate();
            let next = Frame { question: frame.question, hops: frame.hops + 1, pending: None };
            self.stack.push(next);
            proof {
                assert(self.stack.deep_view() =~= before.stack.drop_last().push(
                    FrameView {
                        question: before.stack.last().question,
                        hops: before.stack.last().hops + 1,
                        pending: None,
                    },
                ));
            }
            Step::Query { server, question }
        } else {
            self.settle(reply, addresses)
        }
    }

    /// Lets the innermost question go by a verdict on `reply`.
    fn proceed(&mut self, verdict: Verdict, reply: Message, addresses: Vec<Ipv4Address>) -> (r:
        Step)
        requires
            old(self).wf(),
            old(self)@.stack.len() > 0,
        ensures
            final(self).wf(),
            final(self)@ == proceed(old(self)@, verdict, reply@, addresses@).0,
            r@ == proceed(old(self)@, verdict, reply@, addresses@).1,
    {
        if verdict.terminal {
            return self.settle(reply, addresses);
        }
        match verdict.next {
            Some(server) => self.follow(server, reply, addresses),
            None => self.settle(reply, addresses),
        }
    }

    /// Takes the reply to the query that is out, with what was read in it.
    pub fn on_reply(&mut self, reply: Message, summary: ReplySummary) -> (r: Step)
        requires
            old(self).wf(),
            awaits_reply(old(self)@),
        ensures
            final(self).wf(),
            final(self)@ == deliver(old(self)@, reply@, summary@).0,
            r@ == deliver(old(self)@, reply@, summary@).1,
            step_fits(final(self)@, r@),
    {
        let ghost before = self@;
        let n: usize = self.stack.len();
        proof {
            assert(before.stack.last() == self.stack@[n - 1].deep_view());
            lemma_deliver_fits(before, reply@, summary@);
        }
        let selection = select_next(&summary, &self.stack[n - 1].question.qname);
        let verdict = next_server(&selection, None);
        match selection {
            Selection::Lookup(name) => {
                if n <= MAX_DEPTH {
                    let frame = self.stack.pop().unwrap();
                    let waiting = Frame {
                        question: frame.question,
                        hops: frame.hops,
                        pending: Some(Pending { reply, addresses: summary.addresses }),
                    };
                    let question = Question::new_in(name, TYPE_A);
                    let inner = Frame { question: question.duplicate(), hops: 1, pending: None };
                    self.stack.push(waiting);
                    self.stack.push(inner);
                    proof {
                        assert(self.stack.deep_view() =~= before.stack.drop_last().push(
                            waiting.deep_view(),
                        ).push(inner.deep_view()));
                    }
                    Step::Query { server: ServerAddr::root(), question }
                } else {
                    self.proceed(verdict, reply, summary.addresses)
                }
            },
            _ => self.proceed(verdict, reply, summary.addresses),
        }
    }

    /// Takes the failure of the query that is out.
    pub fn on_failure(&mut self, error: ResolveError) -> (r: Step)
        requires
            old(self).wf(),
            awaits_reply(old(self)@),
        ensures
            final(self).wf(),
            final(self)@ == fail(old(self)@, error).0,
            r@ == fail(old(self)@, error).1,
            step_fits(final(self)@, r@),
            !(r is Query),
    {
        let ghost before = self@;
        proof {
            lemma_fail_fits(before, error);
            lemma_pop_well_formed(before);
        }
        let _ = self.stack.pop();
        proof {
            assert(self.stack.deep_view() =~= before.stack.drop_last());
        }
        let n: usize = self.stack.len();
        if n == 0 {
            return Step::Done { outcome: Err(error) };
        }
        proof {
            assert(self.stack.deep_view().last() == self.stack@[n - 1].deep_view());
        }
        match &self.stack[n - 1].pending {
            Some(p) => {
                let reply = p.reply.duplicate();
                let addresses = copy_addresses(&p.addresses);
                self.settle(reply, addresses)
            },
            None => Step::Done { outcome: Err(error) },
        }
    }

    /// Takes the address chosen among those that a lookup gave.
    pub fn on_choice(&mut self, addr: Ipv4Address) -> (r: Step)
        requires
            old(self).wf(),
            awaits_choice(old(self)@),
        ensures
            final(self).wf(),
            final(self)@ == choose_server(old(self)@, addr).0,
            r@ == choose_server(old(self)@, addr).1,
            step_fits(final(self)@, r@),
            r is Choose ==> final(self)@.stack.len() < old(self)@.stack.len(),
    {
        let ghost before = self@;
        let n: usize = self.stack.len();
        proof {
            assert(before.stack.last() == self.stack@[n - 1].deep_view());
            lemma_choose_fits(before, addr);
        }
        match &self.stack[n - 1].pending {
            Some(p) => {
                let reply = p.reply.duplicate();
                let addresses = copy_addresses(&p.addresses);
                self.proceed(conclude_lookup(Some(addr)), reply, addresses)
            },
            None => Step::Done { outcome: Err(ResolveError::Upstream) },
        }
    }
}

} // verus!
