//! What the resolver reads in an upstream reply, and how it picks the next
//! name server from it.

use vstd::prelude::*;
use crate::address::{address_of, Ipv4Address, ServerAddr};
use crate::codec::{
    parse_addresses, parse_name_servers, wire_addresses, wire_name_servers, ADDITIONAL, ANSWER,
};
use crate::message::{header_ancount, header_rcode, Message, RCODE_NOERROR, RCODE_NXDOMAIN};
use crate::name::{labels_end_with, labels_eq, parse_name, DomainName};

verus! {

/// A name-server record as a value in contracts.
pub struct NameServerView {
    pub owner: Seq<Seq<u8>>,
    pub target: Seq<Seq<u8>>,
}

/// A name-server record: the zone that is delegated, and the name of a
/// server for it.
pub struct NameServer {
    pub owner: DomainName,
    pub target: DomainName,
}

impl DeepView for NameServer {
    type V = NameServerView;

    open spec fn deep_view(&self) -> NameServerView {
        NameServerView { owner: self.owner@, target: self.target@ }
    }
}

/// An address record as a value in contracts.
pub struct AddressRecordView {
    pub owner: Seq<Seq<u8>>,
    pub addr: Ipv4Address,
}

/// An address record: a name and an IPv4 address of it.
pub struct AddressRecord {
    pub owner: DomainName,
    pub addr: Ipv4Address,
}

impl DeepView for AddressRecord {
    type V = AddressRecordView;

    open spec fn deep_view(&self) -> AddressRecordView {
        AddressRecordView { owner: self.owner@, addr: self.addr }
    }
}

/// A reply summary as a value in contracts.
pub struct SummaryView {
    pub rcode: u8,
    pub has_answer: bool,
    pub name_servers: Seq<NameServerView>,
    pub glue: Seq<AddressRecordView>,
    pub addresses: Seq<Ipv4Address>,
}

/// What the resolver reads in an upstream reply: the response code, whether
/// there is any answer, the name-server records of the authority section,
/// the address records of the additional section, and the addresses that
/// the answer section holds.
pub struct ReplySummary {
    pub rcode: u8,
    pub has_answer: bool,
    pub name_servers: Vec<NameServer>,
    pub glue: Vec<AddressRecord>,
    pub addresses: Vec<Ipv4Address>,
}

impl View for ReplySummary {
    type V = SummaryView;

    open spec fn view(&self) -> SummaryView {
        SummaryView {
            rcode: self.rcode,
            has_answer: self.has_answer,
            name_servers: self.name_servers.deep_view(),
            glue: self.glue.deep_view(),
            addresses: self.addresses@,
        }
    }
}

/// The name-server record that a pair of wire-format names stands for, if
/// both are valid names.
pub open spec fn name_server_of(item: Option<(Seq<u8>, Seq<u8>)>) -> Option<NameServerView> {
    match item {
        Some((owner, target)) => match (parse_name(owner), parse_name(target)) {
            (Some(o), Some(t)) => Some(NameServerView { owner: o, target: t }),
            _ => None,
        },
        None => None,
    }
}

/// The name-server records among the items that the codec handed out, in
/// order; what could not be read is left out.
pub open spec fn name_servers_of(items: Seq<Option<(Seq<u8>, Seq<u8>)>>) -> Seq<NameServerView>
    decreases items.len(),
{
    if items.len() == 0 {
        Seq::empty()
    } else {
        let init = name_servers_of(items.drop_last());
        match name_server_of(items.last()) {
            Some(record) => init.push(record),
            None => init,
        }
    }
}

/// The address record that a wire-format name and four octets stand for.
pub open spec fn address_record_of(item: Option<(Seq<u8>, Seq<u8>)>) -> Option<AddressRecordView> {
    match item {
        Some((owner, addr)) => match parse_name(owner) {
            Some(o) => Some(AddressRecordView { owner: o, addr: address_of(addr) }),
            None => None,
        },
        None => None,
    }
}

/// The address records among the items that the codec handed out, in order.
pub open spec fn address_records_of(items: Seq<Option<(Seq<u8>, Seq<u8>)>>) -> Seq<
    AddressRecordView,
>
    decreases items.len(),
{
    if items.len() == 0 {
        Seq::empty()
    } else {
        let init = address_records_of(items.drop_last());
        match address_record_of(items.last()) {
            Some(record) => init.push(record),
            None => init,
        }
    }
}

/// The addresses among the items that the codec handed out, in order,
/// whatever their owners.
pub open spec fn addresses_of(items: Seq<Option<(Seq<u8>, Seq<u8>)>>) -> Seq<Ipv4Address>
    decreases items.len(),
{
    if items.len() == 0 {
        Seq::empty()
    } else {
        let init = addresses_of(items.drop_last());
        match items.last() {
            Some((_, addr)) => init.push(address_of(addr)),
            None => init,
        }
    }
}

/// Turns the name-server items of the codec into records, leaving out what
/// could not be read.
pub fn name_servers_from(items: &Vec<Option<(Vec<u8>, Vec<u8>)>>) -> (r: Vec<NameServer>)
    ensures
        r.deep_view() == name_servers_of(items.deep_view()),
{
    let ghost all = items.deep_view();
    let mut out: Vec<NameServer> = Vec::new();
    let mut i: usize = 0;
    proof {
        assert(all.take(0) =~= Seq::empty());
        assert(out.deep_view() =~= Seq::empty());
    }
    while i < items.len()
        invariant
            i <= items.len(),
            all == items.deep_view(),
            out.deep_view() == name_servers_of(all.take(i as int)),
        decreases items.len() - i,
    {
        let ghost before = out.deep_view();
        proof {
            assert(all.take(i + 1).drop_last() =~= all.take(i as int));
            assert(all.take(i + 1).last() == all[i as int]);
            assert(all[i as int] == items@[i as int].deep_view());
        }
        match &items[i] {
            Some((owner, target)) => {
                proof {
                    assert(owner.deep_view() =~= owner@);
                    assert(target.deep_view() =~= target@);
                }
                match DomainName::from_wire(owner) {
                    Some(o) => match DomainName::from_wire(target) {
                        Some(t) => {
                            let record = NameServer { owner: o, target: t };
                            out.push(record);
                            proof {
                                assert(out.deep_view() =~= before.push(record.deep_view()));
                            }
                        },
                        None => {},
                    },
                    None => {},
                }
            },
            None => {},
        }
        i += 1;
    }
    proof {
        assert(all.take(items.len() as int) =~= all);
    }
    out
}

/// Turns the address items of the codec into records, leaving out what could
/// not be read.
pub fn address_records_from(items: &Vec<Option<(Vec<u8>, [u8; 4])>>) -> (r: Vec<AddressRecord>)
    ensures
        r.deep_view() == address_records_of(items.deep_view()),
{
    let ghost all = items.deep_view();
    let mut out: Vec<AddressRecord> = Vec::new();
    let mut i: usize = 0;
    proof {
        assert(all.take(0) =~= Seq::empty());
        assert(out.deep_view() =~= Seq::empty());
    }
    while i < items.len()
        invariant
            i <= items.len(),
            all == items.deep_view(),
            out.deep_view() == address_records_of(all.take(i as int)),
        decreases items.len() - i,
    {
        let ghost before = out.deep_view();
        proof {
            assert(all.take(i + 1).drop_last() =~= all.take(i as int));
            assert(all.take(i + 1).last() == all[i as int]);
            assert(all[i as int] == items@[i as int].deep_view());
        }
        match &items[i] {
            Some((owner, addr)) => {
                proof {
                    assert(owner.deep_view() =~= owner@);
                    assert(addr.deep_view() =~= addr@);
                }
                match DomainName::from_wire(owner) {
                    Some(o) => {
                        let record = AddressRecord { owner: o, addr: Ipv4Address::from_octets(*addr) };
                        out.push(record);
                        proof {
                            assert(out.deep_view() =~= before.push(record.deep_view()));
                        }
                    },
                    None => {},
                }
            },
            None => {},
        }
        i += 1;
    }
    proof {
        assert(all.take(items.len() as int) =~= all);
    }
    out
}

/// Turns the address items of the codec into addresses, leaving out what
/// could not be read.
pub fn addresses_from(items: &Vec<Option<(Vec<u8>, [u8; 4])>>) -> (r: Vec<Ipv4Address>)
    ensures
        r@ == addresses_of(items.deep_view()),
{
    let ghost all = items.deep_view();
    let mut out: Vec<Ipv4Address> = Vec::new();
    let mut i: usize = 0;
    proof {
        assert(all.take(0) =~= Seq::empty());
    }
    while i < items.len()
        invariant
            i <= items.len(),
            all == items.deep_view(),
            out@ == addresses_of(all.take(i as int)),
        decreases items.len() - i,
    {
        proof {
            assert(all.take(i + 1).drop_last() =~= all.take(i as int));
            assert(all.take(i + 1).last() == all[i as int]);
            assert(all[i as int] == items@[i as int].deep_view());
        }
        match &items[i] {
            Some((_, addr)) => {
                proof {
                    assert(addr.deep_view() =~= addr@);
                }
                out.push(Ipv4Address::from_octets(*addr));
            },
            None => {},
        }
        i += 1;
    }
    proof {
        assert(all.take(items.len() as int) =~= all);
    }
    out
}

/// The names of the servers to which a reply delegates the question: the
/// targets of the name-server records whose owner is the question's name or
/// an ancestor of it, in the order of the records.
pub open spec fn candidate_names(
    name_servers: Seq<NameServerView>,
    qname: Seq<Seq<u8>>,
) -> Seq<Seq<Seq<u8>>>
    decreases name_servers.len(),
{
    if name_servers.len() == 0 {
        Seq::empty()
    } else {
        let init = candidate_names(name_servers.drop_last(), qname);
        if labels_end_with(qname, name_servers.last().owner) {
            init.push(name_servers.last().target)
        } else {
            init
        }
    }
}

/// `owner` is one of the candidate names.
pub open spec fn is_candidate(owner: Seq<Seq<u8>>, candidates: Seq<Seq<Seq<u8>>>) -> bool {
    exists|j: int| 0 <= j < candidates.len() && labels_eq(owner, #[trigger] candidates[j])
}

/// The address of the first address record, in the order of the records,
/// whose owner is one of the candidate names.
pub open spec fn first_glue(
    glue: Seq<AddressRecordView>,
    candidates: Seq<Seq<Seq<u8>>>,
) -> Option<Ipv4Address>
    decreases glue.len(),
{
    if glue.len() == 0 {
        None
    } else if is_candidate(glue[0].owner, candidates) {
        Some(glue[0].addr)
    } else {
        first_glue(glue.drop_first(), candidates)
    }
}

/// A selection as a value in contracts.
pub enum SelectionView {
    Terminal,
    Glue(Ipv4Address),
    Lookup(Seq<Seq<u8>>),
}

/// What a reply tells the resolver to do next.
pub enum Selection {
    /// The walk ends with this reply.
    Terminal,
    /// The reply delegates and gives the address of a name server to ask.
    Glue(Ipv4Address),
    /// The reply delegates to a name server whose address it does not give:
    /// the name has to be resolved first.
    Lookup(DomainName),
}

impl View for Selection {
    type V = SelectionView;

    open spec fn view(&self) -> SelectionView {
        match self {
            Selection::Terminal => SelectionView::Terminal,
            Selection::Glue(addr) => SelectionView::Glue(*addr),
            Selection::Lookup(name) => SelectionView::Lookup(name@),
        }
    }
}

/// The selection that a reply calls for. A reply without error that holds
/// an answer ends the walk, and so does one that says the name does not
/// exist. Any other reply is taken as a delegation: it ends the walk when
/// it names no server for the question; else the first glue record gives
/// the next server, and without glue the first server named is looked up.
pub open spec fn select(summary: SummaryView, qname: Seq<Seq<u8>>) -> SelectionView {
    if summary.rcode == 0 && summary.has_answer {
        SelectionView::Terminal
    } else if summary.rcode == 3 {
        SelectionView::Terminal
    } else {
        let candidates = candidate_names(summary.name_servers, qname);
        if candidates.len() == 0 {
            SelectionView::Terminal
        } else {
            match first_glue(summary.glue, candidates) {
                Some(addr) => SelectionView::Glue(addr),
                None => SelectionView::Lookup(candidates[0]),
            }
        }
    }
}

/// Gathers the names of the servers to which the records delegate `qname`.
pub fn gather_candidates(name_servers: &Vec<NameServer>, qname: &DomainName) -> (r: Vec<DomainName>)
    ensures
        r.deep_view() == candidate_names(name_servers.deep_view(), qname@),
{
    let ghost all = name_servers.deep_view();
    let mut out: Vec<DomainName> = Vec::new();
    let mut i: usize = 0;
    proof {
        assert(all.take(0) =~= Seq::empty());
        assert(out.deep_view() =~= Seq::empty());
    }
    while i < name_servers.len()
        invariant
            i <= name_servers.len(),
            all == name_servers.deep_view(),
            out.deep_view() == candidate_names(all.take(i as int), qname@),
        decreases name_servers.len() - i,
    {
        let ghost before = out.deep_view();
        proof {
            assert(all.take(i + 1).drop_last() =~= all.take(i as int));
            assert(all.take(i + 1).last() == all[i as int]);
        }
        if qname.ends_with(&name_servers[i].owner) {
            let target = name_servers[i].target.duplicate();
            out.push(target);
            proof {
                assert(out.deep_view() =~= before.push(target@));
            }
        }
        i += 1;
    }
    proof {
        assert(all.take(name_servers.len() as int) =~= all);
    }
    out
}

/// Tells whether `owner` is one of the candidate names.
pub fn matches_candidate(owner: &DomainName, candidates: &Vec<DomainName>) -> (r: bool)
    ensures
        r == is_candidate(owner@, candidates.deep_view()),
{
    let mut j: usize = 0;
    while j < candidates.len()
        invariant
            j <= candidates.len(),
            forall|k: int| 0 <= k < j ==> !labels_eq(owner@, #[trigger] candidates.deep_view()[k]),
        decreases candidates.len() - j,
    {
        if owner.eq_ignore_case(&candidates[j]) {
            assert(labels_eq(owner@, candidates.deep_view()[j as int]));
            return true;
        }
        j += 1;
    }
    false
}

/// Finds the first glue record for one of the candidate names.
pub fn find_glue(glue: &Vec<AddressRecord>, candidates: &Vec<DomainName>) -> (r: Option<Ipv4Address>)
    ensures
        r == first_glue(glue.deep_view(), candidates.deep_view()),
{
    let ghost all = glue.deep_view();
    let mut i: usize = 0;
    proof {
        assert(all.skip(0) =~= all);
    }
    while i < glue.len()
        invariant
            i <= glue.len(),
            all == glue.deep_view(),
            first_glue(all, candidates.deep_view()) == first_glue(
                all.skip(i as int),
                candidates.deep_view(),
            ),
        decreases glue.len() - i,
    {
        proof {
            assert(all.skip(i as int)[0] == all[i as int]);
            assert(all.skip(i as int).drop_first() =~= all.skip(i + 1));
        }
        if matches_candidate(&glue[i].owner, candidates) {
            return Some(glue[i].addr);
        }
        i += 1;
    }
    None
}

/// Picks what to do next from an upstream reply to a question for `qname`.
pub fn select_next(summary: &ReplySummary, qname: &DomainName) -> (r: Selection)
    ensures
        r@ == select(summary@, qname@),
{
    if summary.rcode == RCODE_NOERROR && summary.has_answer {
        return Selection::Terminal;
    }
    if summary.rcode == RCODE_NXDOMAIN {
        return Selection::Terminal;
    }
    let candidates = gather_candidates(&summary.name_servers, qname);
    if candidates.len() == 0 {
        return Selection::Terminal;
    }
    match find_glue(&summary.glue, &candidates) {
        Some(addr) => Selection::Glue(addr),
        None => {
            assert(candidates.deep_view()[0] == candidates@[0]@);
            Selection::Lookup(candidates[0].duplicate())
        },
    }
}

/// The verdict of next-server selection: whether the walk ends, and the
/// server to ask next if it does not.
#[derive(Clone, Copy, Debug, PartialEq, Eq, Structural)]
pub struct Verdict {
    pub terminal: bool,
    pub next: Option<ServerAddr>,
}

/// The verdict after the lookup of a name server: the walk goes on to the
/// address that the lookup gave and that was chosen, and ends where the
/// lookup failed or gave no address.
pub open spec fn lookup_verdict(found: Option<Ipv4Address>) -> Verdict {
    match found {
        Some(addr) => Verdict { terminal: false, next: Some(ServerAddr { ip: addr, port: 53 }) },
        None => Verdict { terminal: true, next: None },
    }
}

/// The verdict on a reply: the walk ends where the selection says so, goes
/// on to the server of the glue record where there is one, and depends on
/// the lookup where a name server had to be looked up.
pub open spec fn verdict(selection: SelectionView, found: Option<Ipv4Address>) -> Verdict {
    match selection {
        SelectionView::Terminal => Verdict { terminal: true, next: None },
        SelectionView::Glue(addr) => Verdict {
            terminal: false,
            next: Some(ServerAddr { ip: addr, port: 53 }),
        },
        SelectionView::Lookup(_) => lookup_verdict(found),
    }
}

/// The verdict after the lookup of a name server.
pub fn conclude_lookup(found: Option<Ipv4Address>) -> (r: Verdict)
    ensures
        r == lookup_verdict(found),
        r.terminal || r.next is Some,
{
    match found {
        Some(addr) => Verdict { terminal: false, next: Some(ServerAddr::dns(addr)) },
        None => Verdict { terminal: true, next: None },
    }
}

/// Concludes next-server selection: the selection made from the reply, and
/// for a name server that had to be looked up the address found for it.
pub fn next_server(selection: &Selection, found: Option<Ipv4Address>) -> (r: Verdict)
    ensures
        r == verdict(selection@, found),
        r.terminal || r.next is Some,
{
    match selection {
        Selection::Terminal => Verdict { terminal: true, next: None },
        Selection::Glue(addr) => Verdict { terminal: false, next: Some(ServerAddr::dns(*addr)) },
        Selection::Lookup(_) => conclude_lookup(found),
    }
}

/// Next-server selection never leaves the resolver without a decision: it
/// ends the walk or names the server to ask next, whatever the reply, the
/// question and the outcome of a lookup are. It names a server exactly when
/// the walk goes on.
pub proof fn lemma_selection_decides(
    summary: SummaryView,
    qname: Seq<Seq<u8>>,
    found: Option<Ipv4Address>,
)
    ensures
        !(!verdict(select(summary, qname), found).terminal && verdict(
            select(summary, qname),
            found,
        ).next is None),
        verdict(select(summary, qname), found).terminal <==> verdict(
            select(summary, qname),
            found,
        ).next is None,
{
}

/// What is read in a message, if its sections can be told apart: the
/// response code and the answer count of the header, and of the records
/// those that the codec hands out and that hold valid names.
pub open spec fn summary_of(octets: Seq<u8>) -> Option<SummaryView> {
    match (
        wire_name_servers(octets),
        wire_addresses(octets, ADDITIONAL),
        wire_addresses(octets, ANSWER),
    ) {
        (Some(name_servers), Some(glue), Some(addresses)) => Some(
            SummaryView {
                rcode: header_rcode(octets),
                has_answer: header_ancount(octets) > 0,
                name_servers: name_servers_of(name_servers),
                glue: address_records_of(glue),
                addresses: addresses_of(addresses),
            },
        ),
        _ => None,
    }
}

/// Reads in an upstream reply what the resolver goes by. Fails when the
/// sections of the message cannot be told apart.
pub fn summarize(message: &Message) -> (r: Option<ReplySummary>)
    ensures
        match r {
            Some(summary) => summary_of(message@) == Some(summary@),
            None => summary_of(message@) is None,
        },
{
    let octets = message.as_octets();
    let name_servers = match parse_name_servers(octets) {
        Some(items) => name_servers_from(&items),
        None => {
            return None;
        },
    };
    let glue = match parse_addresses(octets, ADDITIONAL) {
        Some(items) => address_records_from(&items),
        None => {
            return None;
        },
    };
    let addresses = match parse_addresses(octets, ANSWER) {
        Some(items) => addresses_from(&items),
        None => {
            return None;
        },
    };
    Some(
        ReplySummary {
            rcode: message.rcode(),
            has_answer: message.ancount() > 0,
            name_servers,
            glue,
            addresses,
        },
    )
}

} // verus!
