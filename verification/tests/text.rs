//! Texts and values.

use cfggraft::text::{decimal_text, is_blank, join, pad, split, text_precedes, trim_bounds};
use cfggraft::value::{canonical_text, position, read, render, remove_entry, set_entry, Json};

#[test]
fn white_space_alone_is_blank() {
    assert!(is_blank(""));
    assert!(is_blank(" \t\r\n\u{b}\u{c}\u{85}\u{a0}\u{2003}\u{3000}"));
    assert!(!is_blank(" . "));
    assert!(!is_blank("\u{200b}"));
}

#[test]
fn trimming_stops_at_the_first_mark() {
    let chars: Vec<char> = "  a b\n".chars().collect();
    assert_eq!(trim_bounds(&chars), (2, 5));
    let none: Vec<char> = " \n ".chars().collect();
    let (from, to) = trim_bounds(&none);
    assert_eq!(from, to);
}

#[test]
fn splitting_undoes_joining() {
    let chars: Vec<char> = "a..b.".chars().collect();
    let parts = split(&chars, 0, chars.len(), '.');
    assert_eq!(parts, vec!["a", "", "b", ""]);
    assert_eq!(join(&parts, "."), "a..b.");
    assert_eq!(join(&[], "."), "");
}

#[test]
fn dictionary_order_is_by_code_point() {
    assert!(text_precedes("", "a"));
    assert!(text_precedes("a", "ab"));
    assert!(text_precedes("B", "a"));
    assert!(text_precedes("z", "é"));
    assert!(!text_precedes("a", "a"));
    assert!(!text_precedes("b", "ab"));
}

#[test]
fn numbers_are_written_in_decimal() {
    assert_eq!(decimal_text(0), "0");
    assert_eq!(decimal_text(9), "9");
    assert_eq!(decimal_text(10), "10");
    assert_eq!(decimal_text(u64::MAX), "18446744073709551615");
}

#[test]
fn padding_counts_characters() {
    assert_eq!(pad("é", 3), "é  ");
    assert_eq!(pad("long", 3), "long");
}

#[test]
fn a_value_is_read_in_document_order() {
    let j = read(r#"{"z":[1,true,null],"a":{"k":"v"}}"#).unwrap();
    match &j {
        Json::Object(m) => {
            assert_eq!(m[0].0, "z");
            assert_eq!(m[1].0, "a");
            assert_eq!(position(m, &"a".to_string()), Some(1));
            assert_eq!(position(m, &"b".to_string()), None);
        }
        _ => panic!("expected an object"),
    }
    assert_eq!(j.clone(), j);
    assert_eq!(
        render(&j).unwrap(),
        "{\n  \"z\": [\n    1,\n    true,\n    null\n  ],\n  \"a\": {\n    \"k\": \"v\"\n  }\n}"
    );
}

#[test]
fn a_key_given_twice_is_read_once() {
    let j = read(r#"{"a":1,"b":2,"a":3}"#).unwrap();
    assert_eq!(j, read(r#"{"a":3,"b":2}"#).unwrap());
}

#[test]
fn what_is_not_json_is_reported() {
    assert_eq!(
        read("nope").unwrap_err(),
        "expected ident at line 1 column 2"
    );
}

#[test]
fn numbers_keep_their_text() {
    assert_eq!(canonical_text(&read("1").unwrap()), "1");
    assert_eq!(canonical_text(&read("-7").unwrap()), "-7");
    assert_eq!(canonical_text(&read("1.0").unwrap()), "1.0");
    assert_eq!(canonical_text(&read("1e2").unwrap()), "100.0");
    assert_eq!(
        canonical_text(&read("18446744073709551615").unwrap()),
        "18446744073709551615"
    );
    assert_eq!(
        canonical_text(&read("-9223372036854775808").unwrap()),
        "-9223372036854775808"
    );
}

#[test]
fn strings_are_escaped_where_json_asks_for_it() {
    let text = r#""\"\\/\b\f\n\r\t\u0000\u001f\u007fé😀""#;
    assert_eq!(
        canonical_text(&read(text).unwrap()),
        "\"\\\"\\\\/\\b\\f\\n\\r\\t\\u0000\\u001f\u{7f}é😀\""
    );
}

#[test]
fn the_deepest_document_that_is_read_reads_back() {
    let deep = format!("{}{}", "[".repeat(127), "]".repeat(127));
    let j = read(&deep).unwrap();
    let text = render(&j).unwrap();
    assert_eq!(read(&format!("{text}\n")).unwrap(), j);
    let deeper = format!("{}{}", "[".repeat(128), "]".repeat(128));
    assert!(read(&deeper).is_err());
}

#[test]
fn an_entry_keeps_its_place_when_set() {
    let mut m = vec![
        ("a".to_string(), Json::Null),
        ("b".to_string(), Json::Bool(true)),
    ];
    set_entry(&mut m, "a".to_string(), Json::Bool(false));
    set_entry(&mut m, "c".to_string(), Json::Null);
    assert_eq!(
        canonical_text(&Json::Object(m.clone())),
        r#"{"a":false,"b":true,"c":null}"#
    );
    remove_entry(&mut m, &"a".to_string());
    let keys: Vec<&str> = m.iter().map(|(k, _)| k.as_str()).collect();
    assert_eq!(keys, vec!["c", "b"]);
    remove_entry(&mut m, &"x".to_string());
    assert_eq!(m.len(), 2);
}

#[test]
fn entries_are_set_and_removed_as_in_a_map_that_keeps_its_order() {
    let mut ours: Vec<(String, Json)> = Vec::new();
    let mut map = serde_json::Map::new();
    for key in ["d", "b", "a", "c", "b"] {
        set_entry(&mut ours, key.to_string(), Json::Bool(true));
        map.insert(key.to_string(), serde_json::Value::Bool(true));
    }
    for key in ["b", "x", "d", "c"] {
        remove_entry(&mut ours, &key.to_string());
        map.remove(key);
        let expected: Vec<&String> = map.keys().collect();
        let got: Vec<&String> = ours.iter().map(|(k, _)| k).collect();
        assert_eq!(got, expected, "after removing {key}");
    }
}

#[test]
fn indented_text_gives_every_element_a_line() {
    let texts = [
        ("7", "7"),
        (r#""a\nb""#, r#""a\nb""#),
        ("[]", "[]"),
        ("{ }", "{}"),
        ("[[],{}]", "[\n  [],\n  {}\n]"),
        (
            r#"{"b":[1,{"x":[null]}],"a\"":{}}"#,
            "{\n  \"b\": [\n    1,\n    {\n      \"x\": [\n        null\n      ]\n    }\n  ],\n  \"a\\\"\": {}\n}",
        ),
    ];
    for (text, expected) in texts {
        assert_eq!(render(&read(text).unwrap()).unwrap(), expected);
    }
}

#[test]
fn values_are_equal_whatever_the_order_of_their_keys() {
    let value = |text: &str| read(text).unwrap();
    assert_eq!(value(r#"{"a":1,"b":[{"c":2,"d":3}]}"#), value(r#"{"b":[{"d":3,"c":2}],"a":1}"#));
    assert_ne!(value("[1,2]"), value("[2,1]"));
    assert_ne!(value("1"), value("1.0"));
    assert_ne!(value("1"), value(r#""1""#));
}
