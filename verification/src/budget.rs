//! The bound on the work of one resolution: every reply and every failure
//! from upstream uses up some of a budget that the limits on queries and on
//! nested lookups make finite.

use vstd::prelude::*;
use crate::address::{Ipv4Address, ServerAddr};
use crate::question::QuestionView;
use crate::referral::{lookup_verdict, select, verdict, SelectionView, SummaryView, Verdict};
use crate::resolver::{
    awaits_choice, awaits_reply, choose_server, deliver, fail, follow, idle, lemma_pop_well_formed,
    lookup_question, proceed, settle, start, well_formed, with_stack, FrameView, PendingView,
    ResolveError, ResolverView, MAX_DEPTH, MAX_HOPS,
};

verus! {

/// The most replies and failures that one query of a question at `depth`
/// can lead to: its own, and those of the lookup that its reply may call
/// for, which is a question one level deeper with its full share of
/// queries. At the deepest level no lookup is started.
pub open spec fn hop_cost(depth: nat) -> nat
    decreases MAX_DEPTH - depth,
{
    if depth >= MAX_DEPTH {
        1
    } else {
        (1 + MAX_HOPS * hop_cost(depth + 1)) as nat
    }
}

/// The budget of one question: for each query that it still may send, and
/// for the one that is out, the cost of a query at its depth.
pub open spec fn frame_budget(frame: FrameView, depth: nat) -> nat {
    if frame.hops > MAX_HOPS {
        0
    } else if frame.pending is Some {
        ((MAX_HOPS - frame.hops) * hop_cost(depth)) as nat
    } else {
        ((MAX_HOPS - frame.hops + 1) * hop_cost(depth)) as nat
    }
}

/// The budget of the questions under resolution.
pub open spec fn budget(stack: Seq<FrameView>) -> nat
    decreases stack.len(),
{
    if stack.len() == 0 {
        0
    } else {
        budget(stack.drop_last()) + frame_budget(stack.last(), (stack.len() - 1) as nat)
    }
}

/// The budget with which every resolution starts.
pub open spec fn full_budget() -> nat {
    (MAX_HOPS * hop_cost(0)) as nat
}

/// A query costs at least the reply to it.
pub proof fn lemma_hop_cost_positive(depth: nat)
    ensures
        hop_cost(depth) >= 1,
{
}

proof fn lemma_scale(count: int, cost: int)
    requires
        count >= 0,
        cost >= 1,
    ensures
        (count + 1) * cost == count * cost + cost,
        count * cost >= 0,
        (count + 1) * cost >= 1,
{
    assert((count + 1) * cost == count * cost + cost) by (nonlinear_arith);
    assert(count * cost >= 0) by (nonlinear_arith)
        requires
            count >= 0,
            cost >= 1,
    ;
}

/// Ending the innermost question gives up what was left of its budget.
pub proof fn lemma_settle_budget(s: ResolverView, reply: Seq<u8>, addresses: Seq<Ipv4Address>)
    requires
        well_formed(s),
        s.stack.len() > 0,
    ensures
        budget(settle(s, reply, addresses).0.stack) + frame_budget(
            s.stack.last(),
            (s.stack.len() - 1) as nat,
        ) <= budget(s.stack),
    decreases s.stack.len(),
{
    let rest = s.stack.drop_last();
    lemma_pop_well_formed(s);
    if rest.len() > 0 && addresses.len() == 0 {
        let p = rest.last().pending->0;
        lemma_settle_budget(with_stack(s, rest), p.reply, p.addresses);
    }
}

/// Going on to another server uses up the cost of a query where a reply
/// was awaited, and nothing where a choice was.
pub proof fn lemma_follow_budget(
    s: ResolverView,
    server: ServerAddr,
    reply: Seq<u8>,
    addresses: Seq<Ipv4Address>,
)
    requires
        well_formed(s),
        s.stack.len() > 0,
    ensures
        budget(follow(s, server, reply, addresses).0.stack) <= budget(s.stack),
        s.stack.last().pending is None ==> budget(follow(s, server, reply, addresses).0.stack)
            < budget(s.stack),
{
    let frame = s.stack.last();
    let depth = (s.stack.len() - 1) as nat;
    lemma_hop_cost_positive(depth);
    lemma_scale(MAX_HOPS - frame.hops, hop_cost(depth) as int);
    if frame.hops < MAX_HOPS {
        let next = FrameView { question: frame.question, hops: frame.hops + 1, pending: None };
        let after = s.stack.drop_last().push(next);
        assert(after.drop_last() =~= s.stack.drop_last());
        assert(after.last() == next);
        assert(frame_budget(next, depth) == (MAX_HOPS - frame.hops) * hop_cost(depth));
    } else {
        lemma_settle_budget(s, reply, addresses);
    }
}

/// Going by a verdict uses up the cost of a query where a reply was
/// awaited, and nothing where a choice was.
pub proof fn lemma_proceed_budget(
    s: ResolverView,
    verdict: Verdict,
    reply: Seq<u8>,
    addresses: Seq<Ipv4Address>,
)
    requires
        well_formed(s),
        s.stack.len() > 0,
    ensures
        budget(proceed(s, verdict, reply, addresses).0.stack) <= budget(s.stack),
        s.stack.last().pending is None ==> budget(proceed(s, verdict, reply, addresses).0.stack)
            < budget(s.stack),
{
    let frame = s.stack.last();
    let depth = (s.stack.len() - 1) as nat;
    lemma_hop_cost_positive(depth);
    lemma_scale(MAX_HOPS - frame.hops, hop_cost(depth) as int);
    lemma_settle_budget(s, reply, addresses);
    if !verdict.terminal && verdict.next is Some {
        lemma_follow_budget(s, verdict.next->0, reply, addresses);
    }
}

/// Every reply from upstream uses up some of the budget.
pub proof fn lemma_deliver_budget(s: ResolverView, reply: Seq<u8>, summary: SummaryView)
    requires
        well_formed(s),
        awaits_reply(s),
    ensures
        budget(deliver(s, reply, summary).0.stack) < budget(s.stack),
{
    let frame = s.stack.last();
    let depth = (s.stack.len() - 1) as nat;
    let selection = select(summary, frame.question.qname);
    lemma_proceed_budget(s, verdict(selection, None), reply, summary.addresses);
    match selection {
        SelectionView::Lookup(name) => {
            if s.stack.len() <= MAX_DEPTH {
                let waiting = FrameView {
                    question: frame.question,
                    hops: frame.hops,
                    pending: Some(PendingView { reply, addresses: summary.addresses }),
                };
                let inner = FrameView { question: lookup_question(name), hops: 1, pending: None };
                let middle = s.stack.drop_last().push(waiting);
                let after = middle.push(inner);
                assert(after.drop_last() =~= middle);
                assert(middle.drop_last() =~= s.stack.drop_last());
                assert(after.last() == inner && middle.last() == waiting);
                lemma_hop_cost_positive(depth);
                lemma_hop_cost_positive(depth + 1);
                lemma_scale(MAX_HOPS - frame.hops, hop_cost(depth) as int);
                assert(hop_cost(depth) == 1 + MAX_HOPS * hop_cost(depth + 1));
                assert(frame_budget(inner, depth + 1) == MAX_HOPS * hop_cost(depth + 1));
                assert(frame_budget(waiting, depth) == (MAX_HOPS - frame.hops) * hop_cost(depth));
                assert(frame_budget(frame, depth) == (MAX_HOPS - frame.hops + 1) * hop_cost(
                    depth,
                ));
                assert(budget(after) == budget(middle) + frame_budget(inner, depth + 1));
                assert(budget(middle) == budget(s.stack.drop_last()) + frame_budget(
                    waiting,
                    depth,
                ));
                assert(budget(s.stack) == budget(s.stack.drop_last()) + frame_budget(
                    frame,
                    depth,
                ));
                assert(deliver(s, reply, summary).0.stack == after);
            }
        },
        _ => {},
    }
}

/// Every failure of a query uses up some of the budget.
pub proof fn lemma_fail_budget(s: ResolverView, error: ResolveError)
    requires
        well_formed(s),
        awaits_reply(s),
    ensures
        budget(fail(s, error).0.stack) < budget(s.stack),
{
    let rest = s.stack.drop_last();
    let frame = s.stack.last();
    let depth = (s.stack.len() - 1) as nat;
    lemma_pop_well_formed(s);
    lemma_hop_cost_positive(depth);
    lemma_scale(MAX_HOPS - frame.hops, hop_cost(depth) as int);
    if rest.len() > 0 {
        let p = rest.last().pending->0;
        lemma_settle_budget(with_stack(s, rest), p.reply, p.addresses);
    }
}

/// A choice uses up none of the budget, and adds nothing to it.
pub proof fn lemma_choose_budget(s: ResolverView, addr: Ipv4Address)
    requires
        well_formed(s),
        awaits_choice(s),
    ensures
        budget(choose_server(s, addr).0.stack) <= budget(s.stack),
{
    let p = s.stack.last().pending->0;
    lemma_proceed_budget(s, lookup_verdict(Some(addr)), p.reply, p.addresses);
}

/// A resolution starts with the full budget, or with none where the cache
/// has the answer.
pub proof fn lemma_start_budget(s: ResolverView, question: QuestionView, use_cache: bool)
    requires
        idle(s),
    ensures
        budget(start(s, question, use_cache).0.stack) <= full_budget(),
{
    let after = start(s, question, use_cache).0.stack;
    if after.len() > 0 {
        assert(after.drop_last() =~= Seq::empty());
        assert(budget(after.drop_last()) == 0);
    }
}

} // verus!
