//! The record of what was written.

use cfggraft::port::{Addr, Item, Repr};
use cfggraft::prior::Store;

fn item(addr: &str, repr: &str) -> Item {
    Item::new(Addr::new(addr), Repr::new(repr))
}

#[test]
fn round_trips_through_the_file() {
    let target = "/some/target.json";

    let mut s = Store::empty("round-trip.json");
    s.set(target, &[item("env.A", "\"1\""), item("env.B", "\"2\"")]);
    let text = s.save().unwrap();

    let reopened = Store::open("round-trip.json", Some(text.as_str()));
    let mut got = reopened.items(target);
    got.sort_by(|a, b| a.addr.cmp(&b.addr));
    assert_eq!(got, vec![item("env.A", "\"1\""), item("env.B", "\"2\"")]);
}

#[test]
fn an_unknown_target_has_nothing_recorded() {
    let s = Store::empty("unused.json");
    assert!(s.items("/never/written.json").is_empty());
}

#[test]
fn a_missing_file_opens_empty_rather_than_failing() {
    let s = Store::open("does-not-exist.json", None);
    assert!(s.items("/x").is_empty());
}

#[test]
fn malformed_content_degrades_to_empty() {
    let s = Store::open("malformed.json", Some("{ not json"));
    assert!(s.items("/x").is_empty());
}

#[test]
fn clearing_a_target_drops_its_row() {
    let target = "/some/target.json";

    let mut s = Store::empty("cleared.json");
    s.set(target, &[item("a", "1")]);
    s.set(target, &[]);
    let text = s.save().unwrap();

    assert!(!text.contains("/some/target.json"), "got: {text}");
}

#[test]
fn the_file_is_written_in_sorted_order() {
    let mut s = Store::empty("sorted.json");
    s.set("/t.json", &[item("z", "1"), item("a", "2")]);
    let text = s.save().unwrap();

    assert!(
        text.find("\"a\"").unwrap() < text.find("\"z\"").unwrap(),
        "addresses should be sorted: {text}"
    );
}

#[test]
fn a_record_is_written_in_the_documented_form() {
    let mut s = Store::empty("p.json");
    s.set("/z", &[item("env.EDITOR", "\"hx\"")]);
    s.set("/a", &[item("k", "1")]);
    assert_eq!(
        s.save().unwrap(),
        "{\n  \"version\": 1,\n  \"targets\": {\n    \"/a\": {\n      \"k\": \"1\"\n    },\n    \
         \"/z\": {\n      \"env.EDITOR\": \"\\\"hx\\\"\"\n    }\n  }\n}\n"
    );
    assert_eq!(s.path(), "p.json");
    assert_eq!(
        Store::empty("p").save().unwrap(),
        "{\n  \"version\": 1,\n  \"targets\": {}\n}\n"
    );
}

#[test]
fn setting_one_target_leaves_the_others() {
    let mut s = Store::empty("p.json");
    s.set("/a", &[item("k", "1")]);
    s.set("/b", &[item("k", "2")]);
    s.set("/a", &[item("k", "3"), item("j", "4")]);
    assert_eq!(s.items("/a"), vec![item("j", "4"), item("k", "3")]);
    assert_eq!(s.items("/b"), vec![item("k", "2")]);
    s.set("/a", &[]);
    assert!(s.items("/a").is_empty());
    assert_eq!(s.items("/b"), vec![item("k", "2")]);
}

#[test]
fn the_last_item_at_an_address_is_kept() {
    let mut s = Store::empty("p.json");
    s.set("/a", &[item("k", "1"), item("k", "2")]);
    assert_eq!(s.items("/a"), vec![item("k", "2")]);
}

#[test]
fn what_is_not_a_record_is_passed_over() {
    let s = Store::open(
        "p.json",
        Some(r#"{"targets":{"/b":{"z":"1","n":2,"a":"3"},"/c":[],"/a":{}},"version":9}"#),
    );
    assert_eq!(s.items("/b"), vec![item("a", "3"), item("z", "1")]);
    assert!(s.items("/c").is_empty());
    assert!(s.items("/a").is_empty());
    for text in ["[]", "1", "{}", r#"{"targets":[]}"#, ""] {
        let s = Store::open("p.json", Some(text));
        assert_eq!(
            s.save().unwrap(),
            "{\n  \"version\": 1,\n  \"targets\": {}\n}\n",
            "opened {text}"
        );
    }
}

#[test]
fn a_saved_record_opens_the_same() {
    let mut s = Store::empty("p.json");
    s.set("/é\"\\", &[item("a.b[#12345678]", "{\"x\":\"\\n\"}")]);
    s.set("/b", &[item("", ""), item("q", "null")]);
    let text = s.save().unwrap();
    let t = Store::open("p.json", Some(text.as_str()));
    assert_eq!(t.save().unwrap(), text);
    assert_eq!(t.items("/b"), s.items("/b"));
    assert_eq!(t.clone().items("/é\"\\"), s.items("/é\"\\"));
}
