use std::str::FromStr;

use dns_resolver::address::{Ipv4Address, ServerAddr};
use dns_resolver::name::DomainName;
use dns_resolver::question::Question;
use dns_resolver::server::{Action, DnsServer, TransportError};
use domain::base::iana::{Rcode, Rtype};
use domain::base::{Dname, Message, MessageBuilder};
use domain::rdata::{Ns, A};

fn dname(name: &str) -> Dname<Vec<u8>> {
    Dname::from_str(name).unwrap()
}

fn library_name(name: &str) -> DomainName {
    DomainName::from_wire(&dname(name).into_octets()).unwrap()
}

fn request(id: u16, name: &str) -> Vec<u8> {
    let mut builder = MessageBuilder::new_vec();
    builder.header_mut().set_id(id);
    builder.header_mut().set_rd(true);
    let mut builder = builder.question();
    builder.push((dname(name), Rtype::A)).unwrap();
    builder.finish()
}

fn upstream(
    query: &[u8],
    rcode: Rcode,
    answers: &[(&str, [u8; 4])],
    authorities: &[(&str, &str)],
    additionals: &[(&str, [u8; 4])],
) -> Vec<u8> {
    let query = Message::from_octets(query.to_vec()).unwrap();
    let mut builder = MessageBuilder::new_vec().start_answer(&query, rcode).unwrap();
    for (owner, addr) in answers {
        builder.push((dname(owner), 300, A::from_octets(addr[0], addr[1], addr[2], addr[3]))).unwrap();
    }
    let mut builder = builder.authority();
    for (owner, target) in authorities {
        builder.push((dname(owner), 300, Ns::new(dname(target)))).unwrap();
    }
    let mut builder = builder.additional();
    for (owner, addr) in additionals {
        builder.push((dname(owner), 300, A::from_octets(addr[0], addr[1], addr[2], addr[3]))).unwrap();
    }
    builder.finish()
}

fn expect_query(action: Action) -> (ServerAddr, Vec<u8>) {
    match action {
        Action::Query { server, datagram } => (server, datagram),
        Action::Reply { .. } => panic!("a reply where a query was expected"),
        Action::Drop => panic!("a drop where a query was expected"),
    }
}

fn expect_reply(action: Action) -> Vec<u8> {
    match action {
        Action::Reply { datagram } => datagram,
        Action::Query { .. } => panic!("a query where a reply was expected"),
        Action::Drop => panic!("a drop where a reply was expected"),
    }
}

fn asked(datagram: &[u8]) -> (String, Rtype) {
    let message = Message::from_octets(datagram.to_vec()).unwrap();
    assert!(message.header().rd());
    assert!(!message.header().qr());
    let question = message.sole_question().unwrap();
    (format!("{}", question.qname()), question.qtype())
}

fn answers(datagram: &[u8]) -> Vec<(String, [u8; 4])> {
    let message = Message::from_octets(datagram.to_vec()).unwrap();
    message
        .answer()
        .unwrap()
        .limit_to::<A>()
        .map(|record| {
            let record = record.unwrap();
            (format!("{}", record.owner()), record.data().addr().octets())
        })
        .collect()
}

fn rcode(datagram: &[u8]) -> Rcode {
    Message::from_octets(datagram.to_vec()).unwrap().header().rcode()
}

fn id(datagram: &[u8]) -> u16 {
    Message::from_octets(datagram.to_vec()).unwrap().header().id()
}

fn root() -> ServerAddr {
    ServerAddr { ip: Ipv4Address { a: 198, b: 41, c: 0, d: 4 }, port: 53 }
}

#[test]
fn direct_answer_is_cached_and_served_again() {
    let mut server = DnsServer::new();
    let first = request(0x1234, "example.test.");
    let (to, query) = expect_query(server.handle_query(first.clone()));
    assert_eq!(to, root());
    assert_eq!(asked(&query), ("example.test".to_string(), Rtype::A));
    assert!(!server.is_idle());

    let reply = upstream(&query, Rcode::NoError, &[("example.test.", [203, 0, 113, 7])], &[], &[]);
    let sent = expect_reply(server.on_upstream(Ok(reply.clone())));
    assert!(server.is_idle());
    assert_eq!(id(&sent), 0x1234);
    assert_eq!(rcode(&sent), Rcode::NoError);
    assert_eq!(answers(&sent), vec![("example.test".to_string(), [203, 0, 113, 7])]);
    assert_eq!(server.cached(), 1);
    let stored = server
        .cached_reply(&Question::new_in(library_name("example.test."), 1))
        .unwrap();
    assert_eq!(stored.into_octets(), reply);

    let again = expect_reply(server.handle_query(first));
    assert_eq!(again, sent);
    assert!(server.is_idle());
    assert_eq!(server.cached(), 1);
}

#[test]
fn cached_answer_ignores_the_case_of_the_name() {
    let mut server = DnsServer::new();
    let (_, query) = expect_query(server.handle_query(request(1, "example.test.")));
    let reply = upstream(&query, Rcode::NoError, &[("example.test.", [203, 0, 113, 7])], &[], &[]);
    expect_reply(server.on_upstream(Ok(reply)));
    let sent = expect_reply(server.handle_query(request(2, "EXAMPLE.Test.")));
    assert_eq!(id(&sent), 2);
    assert_eq!(answers(&sent), vec![("example.test".to_string(), [203, 0, 113, 7])]);
    assert_eq!(server.cached(), 1);
}

#[test]
fn nxdomain_is_passed_on_and_cached() {
    let mut server = DnsServer::new();
    let (to, query) = expect_query(server.handle_query(request(7, "nope.test.")));
    assert_eq!(to, root());
    let reply = upstream(&query, Rcode::NXDomain, &[], &[], &[]);
    let sent = expect_reply(server.on_upstream(Ok(reply.clone())));
    assert_eq!(rcode(&sent), Rcode::NXDomain);
    assert_eq!(id(&sent), 7);
    assert!(answers(&sent).is_empty());
    assert_eq!(server.cached(), 1);
    let stored = server.cached_reply(&Question::new_in(library_name("nope.test."), 1)).unwrap();
    assert_eq!(stored.into_octets(), reply);
}

#[test]
fn glue_is_followed_without_a_lookup() {
    let mut server = DnsServer::new();
    let (to, query) = expect_query(server.handle_query(request(9, "www.a.test.")));
    assert_eq!(to, root());
    let referral = upstream(
        &query,
        Rcode::NoError,
        &[],
        &[("a.test.", "ns1.a.test.")],
        &[("ns1.a.test.", [192, 0, 2, 1])],
    );
    let (to, query) = expect_query(server.on_upstream(Ok(referral)));
    assert_eq!(to, ServerAddr { ip: Ipv4Address { a: 192, b: 0, c: 2, d: 1 }, port: 53 });
    assert_eq!(asked(&query), ("www.a.test".to_string(), Rtype::A));
    let answer = upstream(&query, Rcode::NoError, &[("www.a.test.", [192, 0, 2, 100])], &[], &[]);
    let sent = expect_reply(server.on_upstream(Ok(answer)));
    assert_eq!(rcode(&sent), Rcode::NoError);
    assert_eq!(answers(&sent), vec![("www.a.test".to_string(), [192, 0, 2, 100])]);
    assert_eq!(server.cached(), 1);
}

#[test]
fn missing_glue_is_looked_up_and_not_cached() {
    let mut server = DnsServer::new();
    let (_, query) = expect_query(server.handle_query(request(11, "www.b.test.")));
    let referral = upstream(&query, Rcode::NoError, &[], &[("b.test.", "ns1.other.test.")], &[]);
    let (to, lookup) = expect_query(server.on_upstream(Ok(referral)));
    assert_eq!(to, root());
    assert_eq!(asked(&lookup), ("ns1.other.test".to_string(), Rtype::A));
    assert_eq!(server.cached(), 0);

    let found = upstream(&lookup, Rcode::NoError, &[("ns1.other.test.", [198, 51, 100, 5])], &[], &[]);
    let (to, query) = expect_query(server.on_upstream(Ok(found)));
    assert_eq!(to, ServerAddr { ip: Ipv4Address { a: 198, b: 51, c: 100, d: 5 }, port: 53 });
    assert_eq!(asked(&query), ("www.b.test".to_string(), Rtype::A));
    assert_eq!(server.cached(), 0);

    let answer = upstream(&query, Rcode::NoError, &[("www.b.test.", [192, 0, 2, 77])], &[], &[]);
    let sent = expect_reply(server.on_upstream(Ok(answer)));
    assert_eq!(answers(&sent), vec![("www.b.test".to_string(), [192, 0, 2, 77])]);
    assert_eq!(server.cached(), 1);
    assert!(server.cached_reply(&Question::new_in(library_name("ns1.other.test."), 1)).is_none());
    assert!(server.cached_reply(&Question::new_in(library_name("www.b.test."), 1)).is_some());
}

#[test]
fn lookup_without_address_ends_with_the_referral() {
    let mut server = DnsServer::new();
    let (_, query) = expect_query(server.handle_query(request(12, "www.b.test.")));
    let referral = upstream(&query, Rcode::NoError, &[], &[("b.test.", "ns1.other.test.")], &[]);
    let (_, lookup) = expect_query(server.on_upstream(Ok(referral.clone())));
    let nothing = upstream(&lookup, Rcode::NXDomain, &[], &[], &[]);
    let sent = expect_reply(server.on_upstream(Ok(nothing)));
    assert!(server.is_idle());
    assert_eq!(rcode(&sent), Rcode::NoError);
    assert_eq!(id(&sent), 12);
    let message = Message::from_octets(sent).unwrap();
    assert_eq!(message.header_counts().ancount(), 0);
    assert_eq!(message.header_counts().nscount(), 1);
    let stored = server.cached_reply(&Question::new_in(library_name("www.b.test."), 1)).unwrap();
    assert_eq!(stored.into_octets(), referral);
}

#[test]
fn failed_lookup_ends_with_the_referral() {
    let mut server = DnsServer::new();
    let (_, query) = expect_query(server.handle_query(request(13, "www.b.test.")));
    let referral = upstream(&query, Rcode::NoError, &[], &[("b.test.", "ns1.other.test.")], &[]);
    expect_query(server.on_upstream(Ok(referral)));
    let sent = expect_reply(server.on_upstream(Err(TransportError::Timeout)));
    assert_eq!(rcode(&sent), Rcode::NoError);
    assert_eq!(Message::from_octets(sent).unwrap().header_counts().nscount(), 1);
    assert_eq!(server.cached(), 1);
}

#[test]
fn lookup_picks_one_of_the_addresses_found() {
    let mut server = DnsServer::new();
    let (_, query) = expect_query(server.handle_query(request(14, "www.b.test.")));
    let referral = upstream(&query, Rcode::NoError, &[], &[("b.test.", "ns1.other.test.")], &[]);
    let (_, lookup) = expect_query(server.on_upstream(Ok(referral)));
    let found = upstream(
        &lookup,
        Rcode::NoError,
        &[("ns1.other.test.", [198, 51, 100, 5]), ("ns1.other.test.", [198, 51, 100, 6])],
        &[],
        &[],
    );
    let (to, _) = expect_query(server.on_upstream(Ok(found)));
    assert_eq!(to.port, 53);
    assert!(
        to.ip == Ipv4Address { a: 198, b: 51, c: 100, d: 5 }
            || to.ip == Ipv4Address { a: 198, b: 51, c: 100, d: 6 }
    );
}

#[test]
fn malformed_request_gets_form_error() {
    let mut server = DnsServer::new();
    let sent = expect_reply(server.handle_query(vec![0xab, 0xcd, 0x01, 0x20, 0x00]));
    assert_eq!(sent, vec![0xab, 0xcd, 0x81, 0x01, 0, 0, 0, 0, 0, 0, 0, 0]);
    assert_eq!(rcode(&sent), Rcode::FormErr);
    assert_eq!(id(&sent), 0xabcd);
    assert!(server.is_idle());
    let (to, _) = expect_query(server.handle_query(request(1, "example.test.")));
    assert_eq!(to, root());
}

#[test]
fn empty_request_gets_form_error() {
    let mut server = DnsServer::new();
    let sent = expect_reply(server.handle_query(Vec::new()));
    assert_eq!(sent, vec![0, 0, 0x80, 0x01, 0, 0, 0, 0, 0, 0, 0, 0]);
}

#[test]
fn request_with_two_questions_gets_form_error() {
    let mut builder = MessageBuilder::new_vec();
    builder.header_mut().set_id(77);
    let mut builder = builder.question();
    builder.push((dname("one.test."), Rtype::A)).unwrap();
    builder.push((dname("two.test."), Rtype::A)).unwrap();
    let mut server = DnsServer::new();
    let sent = expect_reply(server.handle_query(builder.finish()));
    assert_eq!(rcode(&sent), Rcode::FormErr);
    assert_eq!(id(&sent), 77);
    assert!(server.is_idle());
    assert_eq!(server.cached(), 0);
}

#[test]
fn request_without_question_gets_form_error() {
    let mut builder = MessageBuilder::new_vec();
    builder.header_mut().set_id(78);
    let mut server = DnsServer::new();
    let sent = expect_reply(server.handle_query(builder.finish()));
    assert_eq!(rcode(&sent), Rcode::FormErr);
    assert_eq!(id(&sent), 78);
    assert_eq!(sent.len(), 12);
    assert!(server.is_idle());
}

#[test]
fn request_with_unreadable_question_gets_form_error() {
    let mut octets = vec![0, 5, 1, 0, 0, 1, 0, 0, 0, 0, 0, 0];
    octets.extend_from_slice(&[3, b'w', b'w']);
    let mut server = DnsServer::new();
    let sent = expect_reply(server.handle_query(octets));
    assert_eq!(rcode(&sent), Rcode::FormErr);
    assert_eq!(id(&sent), 5);
}

#[test]
fn transport_failure_gets_server_failure() {
    let mut server = DnsServer::new();
    expect_query(server.handle_query(request(21, "example.test.")));
    let sent = expect_reply(server.on_upstream(Err(TransportError::SocketError)));
    assert_eq!(rcode(&sent), Rcode::ServFail);
    assert_eq!(id(&sent), 21);
    assert!(server.is_idle());
    assert_eq!(server.cached(), 0);
}

#[test]
fn short_upstream_reply_gets_server_failure() {
    let mut server = DnsServer::new();
    expect_query(server.handle_query(request(22, "example.test.")));
    let sent = expect_reply(server.on_upstream(Ok(vec![1, 2, 3])));
    assert_eq!(rcode(&sent), Rcode::ServFail);
    assert_eq!(server.cached(), 0);
}

#[test]
fn broken_upstream_reply_gets_server_failure() {
    let mut server = DnsServer::new();
    expect_query(server.handle_query(request(23, "example.test.")));
    let broken = vec![0, 23, 0x80, 0, 0, 0, 0, 1, 0, 0, 0, 0, 3, b'w'];
    let sent = expect_reply(server.on_upstream(Ok(broken)));
    assert_eq!(rcode(&sent), Rcode::ServFail);
    assert_eq!(server.cached(), 0);
}

#[test]
fn reply_mirrors_the_question_of_the_request() {
    let mut server = DnsServer::new();
    let first = request(31, "Example.Test.");
    let (_, query) = expect_query(server.handle_query(first.clone()));
    let reply = upstream(&query, Rcode::NoError, &[("example.test.", [203, 0, 113, 7])], &[], &[]);
    let sent = expect_reply(server.on_upstream(Ok(reply)));
    assert_eq!(&sent[12..first.len()], &first[12..]);
    assert_eq!(&sent[..2], &first[..2]);
    let message = Message::from_octets(sent).unwrap();
    assert!(message.header().qr());
    assert!(message.header().rd());
    assert_eq!(message.header_counts().qdcount(), 1);
    assert_eq!(message.header_counts().ancount(), 1);
}

#[test]
fn referral_to_another_zone_ends_the_walk() {
    let mut server = DnsServer::new();
    let (_, query) = expect_query(server.handle_query(request(41, "www.a.test.")));
    let referral = upstream(
        &query,
        Rcode::NoError,
        &[],
        &[("b.test.", "ns1.b.test.")],
        &[("ns1.b.test.", [192, 0, 2, 1])],
    );
    let sent = expect_reply(server.on_upstream(Ok(referral)));
    assert_eq!(rcode(&sent), Rcode::NoError);
    assert!(answers(&sent).is_empty());
}

#[test]
fn walk_ends_after_sixteen_queries() {
    let mut server = DnsServer::new();
    let (_, mut query) = expect_query(server.handle_query(request(51, "www.a.test.")));
    let mut sent_queries = 1;
    loop {
        let referral = upstream(
            &query,
            Rcode::NoError,
            &[],
            &[("a.test.", "ns1.a.test.")],
            &[("ns1.a.test.", [192, 0, 2, 1])],
        );
        match server.on_upstream(Ok(referral)) {
            Action::Query { datagram, .. } => {
                query = datagram;
                sent_queries += 1;
                assert!(sent_queries <= 16);
            }
            Action::Reply { datagram } => {
                assert_eq!(rcode(&datagram), Rcode::NoError);
                assert_eq!(Message::from_octets(datagram).unwrap().header_counts().nscount(), 1);
                break;
            }
            Action::Drop => panic!("the request was dropped"),
        }
    }
    assert_eq!(sent_queries, 16);
    assert!(server.is_idle());
}

#[test]
fn undecodable_upstream_reply_gets_server_failure() {
    let mut server = DnsServer::new();
    expect_query(server.handle_query(request(24, "example.test.")));
    let sent = expect_reply(server.on_upstream(Err(TransportError::DecodeError)));
    assert_eq!(rcode(&sent), Rcode::ServFail);
    assert_eq!(id(&sent), 24);
    assert_eq!(server.cached(), 0);
    assert!(server.is_idle());
}

#[test]
fn timeout_gets_server_failure() {
    let mut server = DnsServer::new();
    expect_query(server.handle_query(request(25, "example.test.")));
    let sent = expect_reply(server.on_upstream(Err(TransportError::Timeout)));
    assert_eq!(rcode(&sent), Rcode::ServFail);
    assert!(server.is_idle());
}

#[test]
fn every_request_ends_with_one_reply() {
    let mut server = DnsServer::new();
    let mut replies = 0;
    for round in 0..3u16 {
        let mut action = server.handle_query(request(round, "www.c.test."));
        loop {
            action = match action {
                Action::Query { datagram, .. } => {
                    let referral =
                        upstream(&datagram, Rcode::NoError, &[], &[("test.", "ns.c.test.")], &[]);
                    server.on_upstream(Ok(referral))
                }
                Action::Reply { datagram } => {
                    assert_eq!(id(&datagram), round);
                    replies += 1;
                    break;
                }
                Action::Drop => panic!("the request was dropped"),
            };
        }
        assert!(server.is_idle());
    }
    assert_eq!(replies, 3);
    assert_eq!(server.cached(), 1);
}
