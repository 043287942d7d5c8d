//! Items, their reprs and their states.

use cfggraft::port::{Addr, Item, Observed, Ownership, Repr, State};

#[test]
fn observed_equality_is_by_repr() {
    let o = Observed::Present(Repr::new("\"1\""));
    assert!(o.equals(&Repr::new("\"1\"")));
    assert!(!o.equals(&Repr::new("\"2\"")));
    assert!(!Observed::Absent.equals(&Repr::new("\"1\"")));
}

#[test]
fn truncation_counts_characters_not_bytes() {
    let r = Repr::new("ありがとうございます");
    assert_eq!(r.truncated(3), "ありが…");
    assert_eq!(r.truncated(50), "ありがとうございます");
}

#[test]
fn addresses_order_stably_for_provenance() {
    let mut v = vec![Addr::new("b"), Addr::new("a")];
    v.sort();
    assert_eq!(v, vec![Addr::new("a"), Addr::new("b")]);
}

#[test]
fn truncation_at_the_exact_length_cuts_nothing() {
    assert_eq!(Repr::new("abc").truncated(3), "abc");
    assert_eq!(Repr::new("abcd").truncated(3), "abc…");
    assert_eq!(Repr::new("abc").truncated(0), "…");
    assert_eq!(Repr::new("").truncated(0), "");
}

#[test]
fn texts_are_handed_back_as_given() {
    assert_eq!(Addr::new(String::from("env.A")).as_str(), "env.A");
    assert_eq!(Addr::new(&String::from("env.A")).to_string(), "env.A");
    assert_eq!(Repr::new("{}").as_str(), "{}");
    assert_eq!(Repr::new("{}").to_string(), "{}");
    assert!(Addr::new("a").same(&Addr::new("a")));
    assert!(!Addr::new("a").same(&Addr::new("b")));
    assert!(!Repr::new("a").same(&Repr::new("A")));
}

#[test]
fn a_note_is_kept_with_the_state() {
    let plain = State::new(Observed::Absent, Ownership::Removed);
    assert_eq!(plain.note, None);
    let noted = plain.with_note("gone");
    assert_eq!(noted.note, Some(String::from("gone")));
    assert_eq!(noted.observed, Observed::Absent);
    assert_eq!(noted.ownership, Ownership::Removed);
}

#[test]
fn an_item_pairs_an_address_with_a_value() {
    let i = Item::new(Addr::new("a"), Repr::new("1"));
    assert_eq!(i.addr, Addr::new("a"));
    assert_eq!(i.repr, Repr::new("1"));
    assert_eq!(i.clone(), i);
}
