use smalltools::content_compare::{
    compare, hash_eq, parse_line, step, Action, HashBytes, Line, PutSet, State, UniqueHashes, HASH_LEN,
};

fn field(c: u8) -> HashBytes {
    [c; HASH_LEN]
}

fn separator_line() -> String {
    format!("{} {}", "-".repeat(64), "-".repeat(13))
}

#[test]
fn parse_line_classifies_the_field() {
    assert!(matches!(parse_line(&" ".repeat(78)), Line::Dir));
    assert!(matches!(parse_line(&format!("{}  dir/name", " ".repeat(78))), Line::Dir));
    assert!(matches!(parse_line(&separator_line()), Line::StartEnd));
    assert!(matches!(parse_line(&format!("{} trailing", separator_line())), Line::StartEnd));
    let text = format!("{}  size", "a".repeat(78));
    match parse_line(&text) {
        Line::Hash(h) => assert_eq!(h, field(b'a')),
        other => panic!("unexpected {:?}", other),
    }
    let almost = "-".repeat(78);
    assert!(matches!(parse_line(&almost), Line::Hash(_)));
}

#[test]
fn step_follows_the_listing_layout() {
    let h = field(b'x');
    assert!(matches!(step(State::NotStarted, Line::StartEnd), (State::Started, Action::Start)));
    assert!(matches!(step(State::NotStarted, Line::Dir), (State::NotStarted, Action::Reject(Line::Dir))));
    assert!(matches!(step(State::NotStarted, Line::Hash(h)), (State::NotStarted, Action::Reject(_))));
    match step(State::Started, Line::Hash(h)) {
        (State::Started, Action::Put(got)) => assert_eq!(got, h),
        other => panic!("unexpected {:?}", other),
    }
    assert!(matches!(step(State::Started, Line::Dir), (State::Started, Action::Skip)));
    assert!(matches!(step(State::Started, Line::StartEnd), (State::Ended, Action::Stop)));
    assert!(matches!(step(State::Ended, Line::Dir), (State::Ended, Action::Reject(_))));
}

#[test]
fn unique_hashes_put_contains_remove() {
    let mut set = UniqueHashes::new();
    assert!(set.is_empty());
    set.put(field(b'a'));
    set.put(field(b'b'));
    assert_eq!(set.len(), 2);
    assert!(set.contains(&field(b'a')));
    assert!(!set.contains(&field(b'c')));
    assert!(set.remove(&field(b'a')));
    assert!(!set.remove(&field(b'a')));
    assert_eq!(set.into_vec(), vec![field(b'b')]);
}

#[test]
fn vec_put_keeps_order_and_repeats() {
    let mut v: Vec<HashBytes> = Vec::new();
    v.put(field(b'a'));
    v.put(field(b'a'));
    assert_eq!(v, vec![field(b'a'), field(b'a')]);
}

#[test]
fn hash_eq_compares_bytes() {
    let a = field(b'a');
    let mut b = field(b'a');
    assert!(hash_eq(&a, &b));
    b[77] = b'b';
    assert!(!hash_eq(&a, &b));
}

#[test]
fn compare_equal_listings_in_any_order() {
    let mut first = UniqueHashes::new();
    first.put(field(b'a'));
    first.put(field(b'b'));
    let second = vec![field(b'b'), field(b'a')];
    let c = compare(first, &second);
    assert!(c.is_equal());
}

#[test]
fn compare_reports_both_sides() {
    let mut first = UniqueHashes::new();
    first.put(field(b'a'));
    first.put(field(b'b'));
    first.put(field(b'c'));
    let second = vec![field(b'b'), field(b'd'), field(b'b')];
    let c = compare(first, &second);
    assert!(!c.is_equal());
    assert_eq!(c.missing, vec![field(b'd'), field(b'b')]);
    assert_eq!(c.leftover, vec![field(b'a'), field(b'c')]);
}

#[test]
fn compare_repeated_hash_is_not_equal() {
    let mut first = UniqueHashes::new();
    first.put(field(b'a'));
    let c = compare(first, &vec![field(b'a'), field(b'a')]);
    assert!(!c.is_equal());
    assert!(c.leftover.is_empty());
    assert_eq!(c.missing, vec![field(b'a')]);
}
