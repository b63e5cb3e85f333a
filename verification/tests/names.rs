use dns_resolver::cache::Cache;
use dns_resolver::message::Message;
use dns_resolver::name::{copy_octets, label_matches, lower_octet, same_octets, DomainName};
use dns_resolver::question::Question;

fn name(labels: &[&str]) -> DomainName {
    DomainName::from_labels(labels.iter().map(|l| l.as_bytes().to_vec()).collect()).unwrap()
}

fn message(last: u8) -> Message {
    Message::from_octets(vec![0, 1, 0x80, 0, 0, 0, 0, 0, 0, 0, 0, 0, last]).unwrap()
}

#[test]
fn names_compare_without_case() {
    assert!(name(&["WWW", "Example", "test"]).eq_ignore_case(&name(&["www", "example", "TEST"])));
    assert!(!name(&["www", "example", "test"]).eq_ignore_case(&name(&["example", "test"])));
    assert!(!name(&["www", "example", "test"]).eq_ignore_case(&name(&["www", "exmaple", "test"])));
    assert!(DomainName::root().eq_ignore_case(&DomainName::root()));
}

#[test]
fn names_spelled_alike_are_the_same() {
    assert!(name(&["a", "test"]).same(&name(&["a", "test"])));
    assert!(!name(&["A", "test"]).same(&name(&["a", "test"])));
    assert!(!name(&["a", "test"]).same(&name(&["a"])));
}

#[test]
fn only_ascii_capitals_are_folded() {
    assert_eq!(lower_octet(b'A'), b'a');
    assert_eq!(lower_octet(b'Z'), b'z');
    assert_eq!(lower_octet(b'@'), b'@');
    assert_eq!(lower_octet(b'['), b'[');
    assert_eq!(lower_octet(b'a'), b'a');
    assert_eq!(lower_octet(0xC1), 0xC1);
    assert!(label_matches(&b"MiXed-09".to_vec(), &b"mixed-09".to_vec()));
    assert!(!label_matches(&b"a@".to_vec(), &b"a`".to_vec()));
    assert!(!label_matches(&b"ab".to_vec(), &b"abc".to_vec()));
}

#[test]
fn octets_are_copied_and_compared() {
    let octets = vec![1u8, 2, 3];
    assert_eq!(copy_octets(&octets), octets);
    assert!(same_octets(&octets, &vec![1, 2, 3]));
    assert!(!same_octets(&octets, &vec![1, 2, 4]));
    assert!(!same_octets(&octets, &vec![1, 2]));
}

#[test]
fn zone_cut_test_looks_at_whole_labels() {
    let www = name(&["www", "a", "test"]);
    assert!(www.ends_with(&name(&["a", "TEST"])));
    assert!(www.ends_with(&name(&["test"])));
    assert!(www.ends_with(&DomainName::root()));
    assert!(www.ends_with(&name(&["www", "a", "test"])));
    assert!(!www.ends_with(&name(&["b", "test"])));
    assert!(!www.ends_with(&name(&["ww", "a", "test"])));
    assert!(!www.ends_with(&name(&["x", "www", "a", "test"])));
    assert!(!name(&["wwwa", "test"]).ends_with(&name(&["a", "test"])));
}

#[test]
fn canonical_form_is_lower_case() {
    let canonical = name(&["WWW", "Example", "TEST"]).canonical();
    assert_eq!(canonical.labels(), vec![b"www".to_vec(), b"example".to_vec(), b"test".to_vec()]);
    assert!(canonical.same(&name(&["www", "example", "test"])));
    assert!(canonical.canonical().same(&canonical));
}

#[test]
fn labels_are_checked() {
    assert!(DomainName::from_labels(vec![]).is_some());
    assert!(DomainName::from_labels(vec![vec![]]).is_none());
    assert!(DomainName::from_labels(vec![vec![b'a'; 63]]).is_some());
    assert!(DomainName::from_labels(vec![vec![b'a'; 64]]).is_none());
    let longest = vec![vec![b'a'; 63], vec![b'b'; 63], vec![b'c'; 63], vec![b'd'; 61]];
    assert_eq!(DomainName::from_labels(longest).unwrap().to_wire().len(), 255);
    let too_long = vec![vec![b'a'; 63], vec![b'b'; 63], vec![b'c'; 63], vec![b'd'; 62]];
    assert!(DomainName::from_labels(too_long).is_none());
    assert_eq!(name(&["a", "bc"]).label_count(), 2);
    assert_eq!(DomainName::root().label_count(), 0);
}

#[test]
fn wire_format_is_read_and_written() {
    let wire = vec![3, b'w', b'w', b'w', 1, b'a', 4, b't', b'e', b's', b't', 0];
    let read = DomainName::from_wire(&wire).unwrap();
    assert_eq!(read.labels(), vec![b"www".to_vec(), b"a".to_vec(), b"test".to_vec()]);
    assert_eq!(read.to_wire(), wire);
    assert_eq!(DomainName::root().to_wire(), vec![0]);
    assert_eq!(DomainName::from_wire(&vec![0]).unwrap().label_count(), 0);
    assert!(read.duplicate().same(&read));
}

#[test]
fn broken_wire_format_is_refused() {
    assert!(DomainName::from_wire(&vec![]).is_none());
    assert!(DomainName::from_wire(&vec![3, b'w', b'w', b'w']).is_none());
    assert!(DomainName::from_wire(&vec![3, b'w', b'w']).is_none());
    assert!(DomainName::from_wire(&vec![1, b'a', 0, 0]).is_none());
    assert!(DomainName::from_wire(&vec![0, 1, b'a', 0]).is_none());
    assert!(DomainName::from_wire(&vec![0xC0, 12]).is_none());
    assert!(DomainName::from_wire(&vec![64, 0]).is_none());
    let mut long = Vec::new();
    for _ in 0..128 {
        long.extend_from_slice(&[1, b'a']);
    }
    long.push(0);
    assert_eq!(long.len(), 257);
    assert!(DomainName::from_wire(&long).is_none());
}

#[test]
fn cache_keys_ignore_case_but_not_type_or_class() {
    let upper = Question::new_in(name(&["Example", "TEST"]), 1);
    let lower = Question::new_in(name(&["example", "test"]), 1);
    assert!(upper.cache_key().same(&lower.cache_key()));
    assert!(upper.cache_key().duplicate().same(&upper.cache_key()));
    let other_type = Question::new_in(name(&["example", "test"]), 2);
    assert!(!other_type.cache_key().same(&lower.cache_key()));
    let other_class = Question::new(name(&["example", "test"]), 1, 3);
    assert!(!other_class.cache_key().same(&lower.cache_key()));
    let other_name = Question::new_in(name(&["example", "org"]), 1);
    assert!(!other_name.cache_key().same(&lower.cache_key()));
    let copy = upper.duplicate();
    assert!(copy.qname.same(&upper.qname));
    assert_eq!((copy.qtype, copy.qclass), (1, 1));
}

#[test]
fn cache_returns_what_was_stored_last() {
    let mut cache = Cache::new();
    let first = Question::new_in(name(&["a", "test"]), 1);
    let second = Question::new_in(name(&["b", "test"]), 1);
    assert!(cache.get(&first.cache_key()).is_none());
    assert_eq!(cache.len(), 0);
    cache.insert(first.cache_key(), message(1));
    cache.insert(second.cache_key(), message(2));
    assert_eq!(cache.len(), 2);
    assert_eq!(cache.get(&first.cache_key()).unwrap().into_octets()[12], 1);
    assert_eq!(cache.get(&second.cache_key()).unwrap().into_octets()[12], 2);
    cache.insert(Question::new_in(name(&["A", "TEST"]), 1).cache_key(), message(3));
    assert_eq!(cache.len(), 2);
    assert_eq!(cache.get(&first.cache_key()).unwrap().into_octets()[12], 3);
    assert_eq!(cache.get(&second.cache_key()).unwrap().into_octets()[12], 2);
    assert_eq!(cache.get(&first.cache_key()).unwrap().into_octets()[12], 3);
}

#[test]
fn message_needs_a_whole_header() {
    assert!(Message::from_octets(vec![0; 11]).is_none());
    assert!(Message::from_octets(vec![0; 12]).is_some());
    let message = Message::from_octets(vec![0x12, 0x34, 0x81, 0x83, 0, 1, 1, 2, 0, 3, 0, 4]).unwrap();
    assert_eq!(message.id(), 0x1234);
    assert_eq!(message.rcode(), 3);
    assert_eq!(message.qdcount(), 1);
    assert_eq!(message.ancount(), 258);
    assert_eq!(message.duplicate().into_octets(), message.as_octets().clone());
}
