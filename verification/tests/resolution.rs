use dns_resolver::address::{Ipv4Address, ServerAddr};
use dns_resolver::message::Message;
use dns_resolver::name::DomainName;
use dns_resolver::question::Question;
use dns_resolver::referral::{
    addresses_from, address_records_from, find_glue, gather_candidates, matches_candidate,
    name_servers_from, next_server, select_next, AddressRecord, NameServer, ReplySummary,
    Selection, Verdict,
};
use dns_resolver::resolver::{copy_addresses, ResolveError, Resolver, Step};

fn name(dotted: &str) -> DomainName {
    DomainName::from_labels(
        dotted.split('.').filter(|l| !l.is_empty()).map(|l| l.as_bytes().to_vec()).collect(),
    )
    .unwrap()
}

fn ip(d: u8) -> Ipv4Address {
    Ipv4Address::new(192, 0, 2, d)
}

fn ns(owner: &str, target: &str) -> NameServer {
    NameServer { owner: name(owner), target: name(target) }
}

fn glue(owner: &str, d: u8) -> AddressRecord {
    AddressRecord { owner: name(owner), addr: ip(d) }
}

fn summary(
    rcode: u8,
    has_answer: bool,
    name_servers: Vec<NameServer>,
    glue: Vec<AddressRecord>,
    addresses: Vec<Ipv4Address>,
) -> ReplySummary {
    ReplySummary { rcode, has_answer, name_servers, glue, addresses }
}

fn message(tag: u8) -> Message {
    Message::from_octets(vec![0, tag, 0x80, 0, 0, 0, 0, 0, 0, 0, 0, 0]).unwrap()
}

fn tag(message: &Message) -> u8 {
    message.as_octets()[1]
}

fn root() -> ServerAddr {
    ServerAddr::root()
}

fn expect_query(step: Step) -> (ServerAddr, Question) {
    match step {
        Step::Query { server, question } => (server, question),
        Step::Choose { .. } => panic!("a choice where a query was expected"),
        Step::Done { .. } => panic!("the end where a query was expected"),
    }
}

fn expect_done(step: Step) -> Result<Message, ResolveError> {
    match step {
        Step::Done { outcome } => outcome,
        Step::Choose { .. } => panic!("a choice where the end was expected"),
        Step::Query { .. } => panic!("a query where the end was expected"),
    }
}

fn expect_choice(step: Step) -> Vec<Ipv4Address> {
    match step {
        Step::Choose { addresses } => addresses,
        Step::Query { .. } => panic!("a query where a choice was expected"),
        Step::Done { .. } => panic!("the end where a choice was expected"),
    }
}

fn selected(summary: &ReplySummary, qname: &str) -> String {
    match select_next(summary, &name(qname)) {
        Selection::Terminal => "end".to_string(),
        Selection::Glue(addr) => format!("glue {}.{}.{}.{}", addr.a, addr.b, addr.c, addr.d),
        Selection::Lookup(target) => {
            let labels: Vec<String> =
                target.labels().iter().map(|l| String::from_utf8(l.clone()).unwrap()).collect();
            format!("lookup {}", labels.join("."))
        }
    }
}

#[test]
fn answer_without_error_ends_the_walk() {
    let reply = summary(0, true, vec![ns("a.test", "ns1.a.test")], vec![glue("ns1.a.test", 1)], vec![]);
    assert_eq!(selected(&reply, "www.a.test"), "end");
}

#[test]
fn nxdomain_ends_the_walk() {
    let reply = summary(3, false, vec![ns("a.test", "ns1.a.test")], vec![glue("ns1.a.test", 1)], vec![]);
    assert_eq!(selected(&reply, "www.a.test"), "end");
}

#[test]
fn answer_with_error_is_taken_as_delegation() {
    let reply = summary(2, true, vec![ns("a.test", "ns1.a.test")], vec![glue("ns1.a.test", 1)], vec![]);
    assert_eq!(selected(&reply, "www.a.test"), "glue 192.0.2.1");
}

#[test]
fn reply_without_name_servers_ends_the_walk() {
    assert_eq!(selected(&summary(0, false, vec![], vec![glue("ns1.a.test", 1)], vec![]), "www.a.test"), "end");
    assert_eq!(selected(&summary(2, false, vec![], vec![], vec![]), "www.a.test"), "end");
}

#[test]
fn name_servers_of_other_zones_are_left_out() {
    let servers = vec![
        ns("b.test", "ns1.b.test"),
        ns("A.Test", "ns1.a.test"),
        ns("www.a.test", "ns2.a.test"),
        ns("x.www.a.test", "ns3.a.test"),
        ns("", "ns4.a.test"),
    ];
    let candidates = gather_candidates(&servers, &name("www.a.test"));
    let found: Vec<Vec<Vec<u8>>> = candidates.iter().map(|c| c.labels()).collect();
    assert_eq!(
        found,
        vec![name("ns1.a.test").labels(), name("ns2.a.test").labels(), name("ns4.a.test").labels()]
    );
    assert!(matches_candidate(&name("NS2.a.test"), &candidates));
    assert!(!matches_candidate(&name("ns3.a.test"), &candidates));
    assert!(!matches_candidate(&name("ns1.a.test"), &Vec::new()));
}

#[test]
fn first_glue_in_record_order_is_taken() {
    let candidates = vec![name("ns1.a.test"), name("ns2.a.test")];
    let records = vec![glue("other.test", 9), glue("NS2.A.TEST", 2), glue("ns1.a.test", 1)];
    assert_eq!(find_glue(&records, &candidates), Some(ip(2)));
    assert_eq!(find_glue(&vec![glue("other.test", 9)], &candidates), None);
    assert_eq!(find_glue(&Vec::new(), &candidates), None);
    assert_eq!(find_glue(&records, &Vec::new()), None);
    let reply = summary(
        0,
        false,
        vec![ns("a.test", "ns1.a.test"), ns("a.test", "ns2.a.test")],
        records,
        vec![],
    );
    assert_eq!(selected(&reply, "www.a.test"), "glue 192.0.2.2");
}

#[test]
fn first_name_server_is_looked_up_without_glue() {
    let reply = summary(
        0,
        false,
        vec![ns("org", "ns0.org"), ns("test", "ns1.other.test"), ns("a.test", "ns2.other.test")],
        vec![glue("ns9.other.test", 9)],
        vec![],
    );
    assert_eq!(selected(&reply, "www.a.test"), "lookup ns1.other.test");
}

#[test]
fn verdict_ends_the_walk_or_names_a_server() {
    let dns = |d: u8| ServerAddr { ip: ip(d), port: 53 };
    assert_eq!(next_server(&Selection::Terminal, None), Verdict { terminal: true, next: None });
    assert_eq!(next_server(&Selection::Terminal, Some(ip(1))), Verdict { terminal: true, next: None });
    assert_eq!(
        next_server(&Selection::Glue(ip(2)), None),
        Verdict { terminal: false, next: Some(dns(2)) }
    );
    assert_eq!(
        next_server(&Selection::Lookup(name("ns1.test")), Some(ip(3))),
        Verdict { terminal: false, next: Some(dns(3)) }
    );
    assert_eq!(
        next_server(&Selection::Lookup(name("ns1.test")), None),
        Verdict { terminal: true, next: None }
    );
}

#[test]
fn items_of_the_codec_become_records() {
    let wire = |dotted: &str| name(dotted).to_wire();
    let servers = name_servers_from(&vec![
        Some((wire("a.test"), wire("ns1.a.test"))),
        None,
        Some((vec![3, b'b', b'a'], wire("ns2.a.test"))),
        Some((wire("b.test"), vec![1])),
        Some((wire("c.test"), wire("ns3.c.test"))),
    ]);
    assert_eq!(servers.len(), 2);
    assert!(servers[0].owner.same(&name("a.test")) && servers[0].target.same(&name("ns1.a.test")));
    assert!(servers[1].owner.same(&name("c.test")) && servers[1].target.same(&name("ns3.c.test")));

    let records = address_records_from(&vec![
        None,
        Some((wire("ns1.a.test"), [192, 0, 2, 1])),
        Some((vec![9], [192, 0, 2, 2])),
        Some((wire("ns3.a.test"), [192, 0, 2, 3])),
    ]);
    assert_eq!(records.len(), 2);
    assert!(records[0].owner.same(&name("ns1.a.test")));
    assert_eq!(records[0].addr, ip(1));
    assert_eq!(records[1].addr, ip(3));

    assert_eq!(
        addresses_from(&vec![
            Some((wire("a.test"), [10, 1, 2, 3])),
            None,
            Some((vec![7], [10, 4, 5, 6])),
        ]),
        vec![Ipv4Address::new(10, 1, 2, 3), Ipv4Address::new(10, 4, 5, 6)]
    );
    assert_eq!(Ipv4Address::from_octets([1, 2, 3, 4]).octets(), [1, 2, 3, 4]);
    assert_eq!(copy_addresses(&vec![ip(1), ip(2)]), vec![ip(1), ip(2)]);
    assert_eq!(ServerAddr::dns(ip(7)), ServerAddr { ip: ip(7), port: 53 });
    assert_eq!(
        ServerAddr::root(),
        ServerAddr { ip: Ipv4Address { a: 198, b: 41, c: 0, d: 4 }, port: 53 }
    );
}

#[test]
fn resolution_starts_at_the_root() {
    let mut resolver = Resolver::new();
    assert!(resolver.is_idle());
    let (to, question) = expect_query(resolver.resolve(Question::new_in(name("www.a.test"), 1), true));
    assert_eq!(to, root());
    assert!(question.qname.same(&name("www.a.test")));
    assert_eq!((question.qtype, question.qclass), (1, 1));
    assert!(!resolver.is_idle());
}

#[test]
fn terminal_reply_is_cached_when_asked_for() {
    let mut resolver = Resolver::new();
    let question = Question::new_in(name("www.a.test"), 1);
    expect_query(resolver.resolve(question.duplicate(), true));
    let outcome = expect_done(resolver.on_reply(message(1), summary(0, true, vec![], vec![], vec![ip(1)])));
    assert_eq!(tag(&outcome.unwrap()), 1);
    assert!(resolver.is_idle());
    assert_eq!(resolver.cached(), 1);
    assert_eq!(tag(&resolver.cached_reply(&question).unwrap()), 1);
    let again = expect_done(resolver.resolve(Question::new_in(name("WWW.A.TEST"), 1), true));
    assert_eq!(tag(&again.unwrap()), 1);
    assert!(resolver.is_idle());
}

#[test]
fn terminal_reply_is_not_cached_unless_asked_for() {
    let mut resolver = Resolver::new();
    let question = Question::new_in(name("www.a.test"), 1);
    expect_query(resolver.resolve(question.duplicate(), false));
    let outcome = expect_done(resolver.on_reply(message(1), summary(3, false, vec![], vec![], vec![])));
    assert_eq!(tag(&outcome.unwrap()), 1);
    assert_eq!(resolver.cached(), 0);
    assert!(resolver.cached_reply(&question).is_none());
}

#[test]
fn cache_is_passed_over_when_not_asked_for() {
    let mut resolver = Resolver::new();
    let question = Question::new_in(name("www.a.test"), 1);
    expect_query(resolver.resolve(question.duplicate(), true));
    expect_done(resolver.on_reply(message(1), summary(0, true, vec![], vec![], vec![])));
    let (to, _) = expect_query(resolver.resolve(question.duplicate(), false));
    assert_eq!(to, root());
    let outcome = expect_done(resolver.on_reply(message(2), summary(0, true, vec![], vec![], vec![])));
    assert_eq!(tag(&outcome.unwrap()), 2);
    assert_eq!(tag(&resolver.cached_reply(&question).unwrap()), 1);
}

#[test]
fn later_result_replaces_the_cached_one() {
    let mut resolver = Resolver::new();
    let question = Question::new_in(name("www.a.test"), 2);
    expect_query(resolver.resolve(question.duplicate(), true));
    expect_done(resolver.on_reply(message(1), summary(0, true, vec![], vec![], vec![])));
    assert!(resolver.cached_reply(&Question::new_in(name("www.a.test"), 1)).is_none());
    assert_eq!(tag(&resolver.cached_reply(&question).unwrap()), 1);
}

#[test]
fn failure_of_the_outermost_question_is_handed_out() {
    let mut resolver = Resolver::new();
    expect_query(resolver.resolve(Question::new_in(name("www.a.test"), 1), true));
    assert_eq!(expect_done(resolver.on_failure(ResolveError::Upstream)).err(), Some(ResolveError::Upstream));
    assert!(resolver.is_idle());
    assert_eq!(resolver.cached(), 0);
    expect_query(resolver.resolve(Question::new_in(name("www.a.test"), 1), true));
    assert_eq!(expect_done(resolver.on_failure(ResolveError::Malformed)).err(), Some(ResolveError::Malformed));
}

#[test]
fn choice_is_asked_for_among_the_addresses_found() {
    let mut resolver = Resolver::new();
    expect_query(resolver.resolve(Question::new_in(name("www.b.test"), 1), true));
    let referral = summary(0, false, vec![ns("b.test", "ns1.other.test")], vec![], vec![]);
    let (to, lookup) = expect_query(resolver.on_reply(message(1), referral));
    assert_eq!(to, root());
    assert!(lookup.qname.same(&name("ns1.other.test")));
    assert_eq!((lookup.qtype, lookup.qclass), (1, 1));
    let found = summary(0, true, vec![], vec![], vec![ip(5), ip(6), ip(7)]);
    let offered = expect_choice(resolver.on_reply(message(2), found));
    assert_eq!(offered, vec![ip(5), ip(6), ip(7)]);
    assert_eq!(resolver.cached(), 0);
    let (to, question) = expect_query(resolver.on_choice(ip(6)));
    assert_eq!(to, ServerAddr { ip: ip(6), port: 53 });
    assert!(question.qname.same(&name("www.b.test")));
    let outcome = expect_done(resolver.on_reply(message(3), summary(0, true, vec![], vec![], vec![])));
    assert_eq!(tag(&outcome.unwrap()), 3);
    assert_eq!(resolver.cached(), 1);
    assert!(resolver.cached_reply(&Question::new_in(name("ns1.other.test"), 1)).is_none());
}

#[test]
fn walk_ends_with_the_last_reply_after_sixteen_queries() {
    let mut resolver = Resolver::new();
    expect_query(resolver.resolve(Question::new_in(name("www.a.test"), 1), true));
    for sent in 1..16u8 {
        let referral = summary(0, false, vec![ns("a.test", "ns1.a.test")], vec![glue("ns1.a.test", sent)], vec![]);
        let (to, _) = expect_query(resolver.on_reply(message(sent), referral));
        assert_eq!(to, ServerAddr { ip: ip(sent), port: 53 });
    }
    let referral = summary(0, false, vec![ns("a.test", "ns1.a.test")], vec![glue("ns1.a.test", 16)], vec![]);
    let outcome = expect_done(resolver.on_reply(message(16), referral));
    assert_eq!(tag(&outcome.unwrap()), 16);
    assert!(resolver.is_idle());
}

#[test]
fn lookups_are_nested_eight_deep_and_no_deeper() {
    let mut resolver = Resolver::new();
    expect_query(resolver.resolve(Question::new_in(name("www.test"), 1), true));
    for depth in 1..=8u8 {
        let target = format!("ns{}.test", depth);
        let referral = summary(0, false, vec![ns("test", &target)], vec![], vec![]);
        let (to, lookup) = expect_query(resolver.on_reply(message(depth), referral));
        assert_eq!(to, root());
        assert!(lookup.qname.same(&name(&target)));
    }
    let referral = summary(0, false, vec![ns("test", "ns9.test")], vec![], vec![]);
    let outcome = expect_done(resolver.on_reply(message(9), referral));
    assert_eq!(tag(&outcome.unwrap()), 1);
    assert!(resolver.is_idle());
    assert_eq!(resolver.cached(), 1);
    assert_eq!(tag(&resolver.cached_reply(&Question::new_in(name("www.test"), 1)).unwrap()), 1);
}

#[test]
fn failed_lookup_ends_the_waiting_question_with_its_reply() {
    let mut resolver = Resolver::new();
    expect_query(resolver.resolve(Question::new_in(name("www.b.test"), 1), false));
    let referral = summary(0, false, vec![ns("b.test", "ns1.other.test")], vec![], vec![]);
    expect_query(resolver.on_reply(message(1), referral));
    let outcome = expect_done(resolver.on_failure(ResolveError::Upstream));
    assert_eq!(tag(&outcome.unwrap()), 1);
    assert_eq!(resolver.cached(), 0);
}

#[test]
fn choice_after_the_last_query_ends_the_waiting_question() {
    let mut resolver = Resolver::new();
    expect_query(resolver.resolve(Question::new_in(name("www.a.test"), 1), true));
    for sent in 1..16u8 {
        let referral = summary(0, false, vec![ns("a.test", "ns1.a.test")], vec![glue("ns1.a.test", sent)], vec![]);
        expect_query(resolver.on_reply(message(sent), referral));
    }
    let referral = summary(0, false, vec![ns("a.test", "ns1.other.test")], vec![], vec![]);
    expect_query(resolver.on_reply(message(16), referral));
    let offered = expect_choice(resolver.on_reply(message(17), summary(0, true, vec![], vec![], vec![ip(1)])));
    assert_eq!(offered, vec![ip(1)]);
    let outcome = expect_done(resolver.on_choice(ip(1)));
    assert_eq!(tag(&outcome.unwrap()), 16);
    assert!(resolver.is_idle());
}
