//! JSON documents under management.

use cfggraft::adapter::json::{
    canonical, display_path, ensure_path, get_path, resolve, split_path, JsonDoc, Resolved,
};
use cfggraft::adapter::path::{element_addr, parse_addr, Locator};
use cfggraft::adapter::Adapter;
use cfggraft::engine::{run, Options};
use cfggraft::error::Error;
use cfggraft::policy::{Decision, Reason};
use cfggraft::port::{Addr, Item, Observed, Ownership, Repr, Store};
use cfggraft::value::{read, Json};
use serde_json::Value;

fn json(text: &str) -> Json {
    read(text).expect("valid JSON")
}

/// Build a document the way the command line does: the declaration is the value
/// *at* the key path within the fragment, not the whole fragment.
fn doc(target: &str, fragment: &str, key: &str, prior: &[(&str, &str)]) -> JsonDoc {
    let prior = prior
        .iter()
        .map(|(a, r)| Item::new(Addr::new(*a), Repr::new(*r)))
        .collect();
    let segs = split_path(key);
    let fragment = json(fragment);
    let declaration = get_path(&fragment, &segs)
        .cloned()
        .expect("the fragment declares something at the key path");
    JsonDoc::new(target, "target.json", &declaration, &segs, prior).expect("target parses")
}

/// The rendered document, what is now owned, and what was decided.
type Applied = (String, Vec<(String, String)>, Vec<(String, Decision)>);

/// Apply a declaration and hand back the rendered document and what is now
/// owned, so a second run can be written the way a real one happens.
fn apply(
    target: &str,
    declaration: &str,
    key: &str,
    prior: &[(&str, &str)],
    opts: Options,
) -> Applied {
    let mut d = doc(target, declaration, key, prior);
    let (report, out) = run(&mut d, opts).expect("run");
    let owned = out
        .prior
        .unwrap()
        .iter()
        .map(|i| (i.addr.to_string(), i.repr.to_string()))
        .collect();
    let decisions = report
        .entries
        .iter()
        .map(|e| (e.addr.to_string(), e.decision))
        .collect();
    (out.document, owned, decisions)
}

fn borrowed(owned: &[(String, String)]) -> Vec<(&str, &str)> {
    owned
        .iter()
        .map(|(a, r)| (a.as_str(), r.as_str()))
        .collect()
}

fn parsed(text: &str) -> Value {
    serde_json::from_str(text).expect("rendered document parses")
}

#[test]
fn adds_an_absent_key() {
    let (text, _, d) = apply(
        r#"{"env":{"A":"1"}}"#,
        r#"{"env": {"B": "2"}}"#,
        ".env",
        &[],
        Options::default(),
    );
    assert_eq!(parsed(&text)["env"]["B"], parsed(r#""2""#));
    assert_eq!(parsed(&text)["env"]["A"], parsed(r#""1""#), "untouched");
    assert_eq!(d, vec![("env.B".into(), Decision::Add)]);
}

#[test]
fn skips_an_equal_key_and_adopts_it() {
    let (_, owned, d) = apply(
        r#"{"env":{"A":"1"}}"#,
        r#"{"env": {"A": "1"}}"#,
        ".env",
        &[],
        Options::default(),
    );
    assert_eq!(d, vec![("env.A".into(), Decision::Skip)]);
    assert_eq!(owned, vec![("env.A".into(), "\"1\"".into())]);
}

#[test]
fn refuses_a_value_it_never_wrote() {
    let (text, _, d) = apply(
        r#"{"env":{"A":"1"}}"#,
        r#"{"env": {"A": "2"}}"#,
        ".env",
        &[],
        Options::default(),
    );
    assert_eq!(
        parsed(&text)["env"]["A"],
        parsed(r#""1""#),
        "target value survives"
    );
    assert_eq!(
        d,
        vec![("env.A".into(), Decision::Refuse(Reason::Conflict))]
    );
}

#[test]
fn updates_a_value_it_did_write() {
    // Ownership is what separates this from the test above: same target, same
    // declaration, different provenance.
    let (text, _, d) = apply(
        r#"{"env":{"A":"1"}}"#,
        r#"{"env": {"A": "2"}}"#,
        ".env",
        &[("env.A", "\"1\"")],
        Options::default(),
    );
    assert_eq!(parsed(&text)["env"]["A"], parsed(r#""2""#));
    assert_eq!(d, vec![("env.A".into(), Decision::Update)]);
}

#[test]
fn a_changed_declaration_settles_in_one_run() {
    let first = apply(
        "{}",
        r#"{"env": {"A": "1"}}"#,
        ".env",
        &[],
        Options::default(),
    );
    let prior = borrowed(&first.1);

    let (text, _, d) = apply(
        &first.0,
        r#"{"env": {"A": "2"}}"#,
        ".env",
        &prior,
        Options::default(),
    );
    assert_eq!(parsed(&text)["env"]["A"], parsed(r#""2""#));
    assert_eq!(d, vec![("env.A".into(), Decision::Update)]);
}

#[test]
fn array_elements_are_added_without_duplicating() {
    let (text, _, _) = apply(
        r#"{"permissions":{"deny":["a","b"]}}"#,
        r#"{"permissions": {"deny": ["b", "c"]}}"#,
        ".permissions.deny",
        &[],
        Options::default(),
    );
    assert_eq!(
        parsed(&text)["permissions"]["deny"],
        parsed(r#"["a", "b", "c"]"#)
    );
}

#[test]
fn array_union_is_idempotent() {
    let target = r#"{"permissions":{"deny":["a","b"]}}"#;
    let decl = r#"{"permissions": {"deny": ["b", "c"]}}"#;
    let (once, owned, _) = apply(target, decl, ".permissions.deny", &[], Options::default());
    let prior = borrowed(&owned);
    let (twice, _, d) = apply(&once, decl, ".permissions.deny", &prior, Options::default());
    assert_eq!(parsed(&once), parsed(&twice));
    assert!(d.iter().all(|(_, d)| *d == Decision::Skip));
}

#[test]
fn a_withdrawn_element_is_removed_and_a_foreign_one_is_not() {
    // The whole point of addressing elements by value: an element this tool put
    // there can be taken back, and one it did not put there cannot be reached at
    // all.
    let first = apply(
        "{}",
        r#"{"permissions": {"deny": ["old"]}}"#,
        ".permissions.deny",
        &[],
        Options::default(),
    );
    let target = first
        .0
        .replace(r#""old""#, "\"old\",\n      \"added-by-the-other-program\"");
    let prior = borrowed(&first.1);

    let opts = Options {
        retract: true,
        ..Options::default()
    };
    let (text, _, d) = apply(
        &target,
        r#"{"permissions": {"deny": ["new"]}}"#,
        ".permissions.deny",
        &prior,
        opts,
    );
    assert_eq!(
        parsed(&text)["permissions"]["deny"],
        parsed(r#"["added-by-the-other-program", "new"]"#)
    );
    assert!(d.iter().any(|(_, d)| *d == Decision::Retract));
    assert!(d.iter().any(|(_, d)| *d == Decision::Add));
}

#[test]
fn without_retraction_a_withdrawn_element_stays() {
    let first = apply(
        "{}",
        r#"{"permissions": {"deny": ["old"]}}"#,
        ".permissions.deny",
        &[],
        Options::default(),
    );
    let prior = borrowed(&first.1);
    let (text, owned, _) = apply(
        &first.0,
        r#"{"permissions": {"deny": ["new"]}}"#,
        ".permissions.deny",
        &prior,
        Options::default(),
    );
    assert_eq!(
        parsed(&text)["permissions"]["deny"],
        parsed(r#"["old", "new"]"#)
    );
    assert_eq!(owned.len(), 2, "the old element stays claimed");
}

#[test]
fn creates_a_missing_parent_path() {
    let (text, _, _) = apply(
        "{}",
        r#"{"permissions": {"deny": ["x"]}}"#,
        ".permissions.deny",
        &[],
        Options::default(),
    );
    assert_eq!(parsed(&text)["permissions"]["deny"], parsed(r#"["x"]"#));
}

#[test]
fn creates_a_missing_parent_for_a_scalar() {
    let (text, _, d) = apply("{}", r#"{"a": {"b": 7}}"#, ".a.b", &[], Options::default());
    assert_eq!(parsed(&text)["a"]["b"], parsed("7"));
    assert_eq!(d, vec![("a.b".into(), Decision::Add)]);
}

#[test]
fn recurses_into_nested_objects_as_separate_items() {
    let (text, _, d) = apply(
        r#"{"hooks":{"PreToolUse":[{"matcher":"Bash"}]}}"#,
        r#"{"hooks": {"Stop": [{"matcher": "x"}], "PreToolUse": [{"matcher": "Read"}]}}"#,
        ".hooks",
        &[],
        Options::default(),
    );
    assert_eq!(
        parsed(&text)["hooks"]["PreToolUse"]
            .as_array()
            .unwrap()
            .len(),
        2
    );
    assert!(parsed(&text)["hooks"].get("Stop").is_some());
    assert_eq!(d.len(), 2, "one item per element, decided separately");
}

#[test]
fn key_order_within_an_element_is_not_a_change() {
    // The other program may rewrite the document with its keys reordered.
    let (text, _, d) = apply(
        r#"{"hooks":{"Stop":[{"b":2,"a":1}]}}"#,
        r#"{"hooks": {"Stop": [{"a": 1, "b": 2}]}}"#,
        ".hooks",
        &[],
        Options::default(),
    );
    assert_eq!(d.len(), 1);
    assert_eq!(d[0].1, Decision::Skip);
    assert_eq!(parsed(&text)["hooks"]["Stop"].as_array().unwrap().len(), 1);
}

#[test]
fn a_type_mismatch_is_drift_not_a_replacement() {
    let (text, _, d) = apply(
        r#"{"env":{"A":{"nested":true}}}"#,
        r#"{"env": {"A": "scalar"}}"#,
        ".env",
        &[],
        Options::default(),
    );
    assert_eq!(parsed(&text)["env"]["A"], parsed(r#"{"nested": true}"#));
    assert_eq!(
        d,
        vec![("env.A".into(), Decision::Refuse(Reason::Conflict))]
    );
}

#[test]
fn a_blocking_parent_is_reported_rather_than_replaced() {
    let mut d = doc(
        r#"{"permissions":"not-an-object"}"#,
        r#"{"permissions": {"deny": ["x"]}}"#,
        ".permissions.deny",
        &[],
    );
    let (report, out) = run(&mut d, Options::default()).unwrap();
    assert!(report.has_drift());
    assert_eq!(
        parsed(&out.document)["permissions"],
        parsed(r#""not-an-object""#),
        "the other program's value survives"
    );
    assert!(
        report.entries[0].note.as_ref().unwrap().contains("string"),
        "the report should say what blocked the path"
    );
}

#[test]
fn declaring_at_the_root_is_supported() {
    let (text, _, d) = apply(
        r#"{"keep":1}"#,
        r#"{"add": 2}"#,
        "",
        &[],
        Options::default(),
    );
    assert_eq!(parsed(&text), parsed(r#"{"keep": 1, "add": 2}"#));
    assert_eq!(d, vec![("add".into(), Decision::Add)]);
}

#[test]
fn an_empty_container_is_declared_as_a_value() {
    let (text, _, d) = apply("{}", r#"{"a": {}}"#, ".a", &[], Options::default());
    assert_eq!(parsed(&text)["a"], parsed("{}"));
    assert_eq!(d, vec![("a".into(), Decision::Add)]);
}

#[test]
fn an_empty_target_is_an_empty_document() {
    let (text, _, _) = apply("", r#"{"a": 1}"#, ".a", &[], Options::default());
    assert_eq!(parsed(&text), parsed(r#"{"a": 1}"#));
}

#[test]
fn the_rendered_document_keeps_the_usual_shape() {
    let (text, _, _) = apply("{}", r#"{"a": {"b": 1}}"#, ".a", &[], Options::default());
    assert!(
        text.starts_with("{\n  \"a\": {\n    \"b\": 1"),
        "got: {text}"
    );
    assert!(text.ends_with("}\n"));
}

#[test]
fn canonical_form_sorts_nested_keys_only_for_comparison() {
    assert_eq!(
        canonical(&json(r#"{"b": {"d": 1, "c": 2}, "a": 3}"#)).as_str(),
        r#"{"a":3,"b":{"c":2,"d":1}}"#
    );
}

#[test]
fn a_canonical_form_reads_back_as_its_value() {
    for text in [
        "null",
        "true",
        "-12",
        "18446744073709551615",
        "1.5",
        r#""""#,
        r#""a\"b\\c\n\u0001\u001f\u007fé😀""#,
        "[]",
        "{}",
        r#"[1,[2,"3"],{"b":[],"a":{"d":null,"c":false}}]"#,
        r#"{"z":1,"é":2,"a b":3,"":4,"a\"":5}"#,
    ] {
        let value = json(text);
        let form = canonical(&value);
        let again = json(form.as_str());
        assert_eq!(canonical(&again), form, "read from {text}");
        // Two maps are equal whatever the order of their keys.
        assert_eq!(parsed(form.as_str()), parsed(text));
    }
}

#[test]
fn canonical_forms_tell_values_apart() {
    let texts = [
        "null",
        "true",
        "false",
        "1",
        "11",
        "1.0",
        "-1",
        r#""1""#,
        r#""null""#,
        r#""\\n""#,
        r#""\n""#,
        r#""n""#,
        r#""\u0010""#,
        r#""\u0001""#,
        "[]",
        "{}",
        "[1]",
        "[1,1]",
        "[[1],1]",
        "[[1,1]]",
        r#"["1,1"]"#,
        r#"{"a":1}"#,
        r#"{"a":[1]}"#,
        r#"{"a":1,"b":1}"#,
        r#"{"a":{"b":1}}"#,
        r#"{"a\":1,\"b":1}"#,
    ];
    for (i, a) in texts.iter().enumerate() {
        for (j, b) in texts.iter().enumerate() {
            let same = canonical(&json(a)) == canonical(&json(b));
            assert_eq!(same, i == j, "{a} and {b}");
        }
    }
}

#[test]
fn the_keys_of_a_canonical_form_ascend() {
    assert_eq!(
        canonical(&json(r#"{"é":0,"z":0,"B":0,"a":{"10":0,"1":0,"":0},"aa":0}"#)).as_str(),
        r#"{"B":0,"a":{"":0,"1":0,"10":0},"aa":0,"z":0,"é":0}"#
    );
}

#[test]
fn element_addresses_are_stable_and_distinct() {
    let path = vec!["permissions".to_string(), "deny".to_string()];
    let a = element_addr(&path, &canonical(&json(r#""x""#)));
    let b = element_addr(&path, &canonical(&json(r#""y""#)));
    assert_eq!(a, element_addr(&path, &canonical(&json(r#""x""#))));
    assert_ne!(a, b);
    assert!(a.as_str().starts_with("permissions.deny[#"));
}

#[test]
fn an_element_address_round_trips_from_provenance() {
    let path = vec!["permissions".to_string(), "deny".to_string()];
    let repr = canonical(&json(r#""x""#));
    let addr = element_addr(&path, &repr);
    match parse_addr(&addr, &repr) {
        Locator::Element { path: p, repr: r } => {
            assert_eq!(p, path);
            assert_eq!(r, repr);
        }
        other => panic!("expected an element locator, got {other:?}"),
    }
    match parse_addr(&Addr::new("env.A"), &repr) {
        Locator::Key(p) => assert_eq!(p, vec!["env".to_string(), "A".to_string()]),
        other => panic!("expected a key locator, got {other:?}"),
    }
}

#[test]
fn descending_through_a_scalar_when_writing_is_an_error() {
    let mut root = json(r#"{"permissions": "not-an-object"}"#);
    let err = ensure_path(&mut root, &split_path(".permissions.deny")).unwrap_err();
    assert!(
        err.to_string().contains("permissions.deny"),
        "got: {}",
        err.to_string()
    );
}

#[test]
fn a_leading_dot_is_tolerated() {
    assert_eq!(split_path(".env.EDITOR"), vec!["env", "EDITOR"]);
    assert_eq!(split_path("env.EDITOR"), vec!["env", "EDITOR"]);
    assert!(split_path("").is_empty());
    assert!(split_path(" .. ").is_empty());
    assert_eq!(split_path(" ..a..b "), vec!["a", "", "b"]);
}

#[test]
fn an_empty_path_is_displayed_as_the_root() {
    assert_eq!(display_path(&[]), "<root>");
    assert_eq!(display_path(&split_path("a.b.c")), "a.b.c");
}

#[test]
fn key_order_is_not_part_of_the_value() {
    assert_eq!(
        canonical(&json(r#"{"b": 1, "a": 2}"#)).as_str(),
        r#"{"a":2,"b":1}"#
    );
    assert_eq!(
        canonical(&json(r#"[{"b":[],"a":null},true,-1.5e3,"q\"\\\n\u0001"]"#)).as_str(),
        r#"[{"a":null,"b":[]},true,-1500.0,"q\"\\\n\u0001"]"#
    );
    assert_eq!(
        canonical(&json(r#"{"é":1,"z":2,"Z":3}"#)).as_str(),
        r#"{"Z":3,"z":2,"é":1}"#
    );
}

#[test]
fn an_element_address_holds_the_start_of_the_digest() {
    let path = vec!["a".to_string()];
    let addr = element_addr(&path, &Repr::new("abc"));
    assert_eq!(addr.as_str(), "a[#ba7816bf]");
    let at_root = element_addr(&[], &Repr::new(""));
    assert_eq!(at_root.as_str(), "<root>[#e3b0c442]");
}

#[test]
fn an_address_that_only_looks_like_an_element_is_a_key() {
    let repr = Repr::new("1");
    match parse_addr(&Addr::new("a]"), &repr) {
        Locator::Key(p) => assert_eq!(p, vec!["a]".to_string()]),
        other => panic!("expected a key locator, got {other:?}"),
    }
    match parse_addr(&Addr::new("a[#b][#c]"), &repr) {
        Locator::Element { path, .. } => assert_eq!(path, vec!["a[#b]".to_string()]),
        other => panic!("expected an element locator, got {other:?}"),
    }
}

#[test]
fn a_path_is_followed_as_far_as_it_goes() {
    let root = json(r#"{"a":{"b":1}}"#);
    assert_eq!(get_path(&root, &split_path("a.b")), Some(&json("1")));
    assert_eq!(get_path(&root, &split_path("a.c")), None);
    assert_eq!(get_path(&root, &split_path("a.b.c")), None);
    assert_eq!(get_path(&root, &[]), Some(&root));
    assert!(matches!(
        resolve(&root, &split_path("a.c.d")),
        Resolved::Absent
    ));
    match resolve(&root, &split_path("a.b.c.d")) {
        Resolved::Blocked { at, found } => {
            assert_eq!(at, "a.b");
            assert_eq!(found, &json("1"));
        }
        _ => panic!("expected to be blocked"),
    }
}

#[test]
fn the_declaration_keeps_its_own_key_order() {
    let (text, _, _) = apply(
        "{}",
        r#"{"hooks": [{"z": 1, "a": 2}]}"#,
        ".hooks",
        &[],
        Options::default(),
    );
    assert_eq!(
        text,
        "{\n  \"hooks\": [\n    {\n      \"z\": 1,\n      \"a\": 2\n    }\n  ]\n}\n"
    );
}

#[test]
fn an_unparsable_target_names_the_file() {
    let e = JsonDoc::new("{", "target.json", &json("1"), &[], Vec::new()).unwrap_err();
    assert!(matches!(e, Error::Parse { .. }));
    assert_eq!(
        e.to_string(),
        "target.json: EOF while parsing an object at line 1 column 1"
    );
}

#[test]
fn white_space_alone_is_an_empty_document() {
    let d = JsonDoc::new(" \n\t", "t", &json("1"), &split_path("a"), Vec::new()).unwrap();
    assert_eq!(d.value(), &json("{}"));
}

#[test]
fn a_state_says_whose_the_value_is() {
    let d = doc(
        r#"{"env":{"same":1,"other":2},"list":["x"]}"#,
        r#"{"env":{"same":1,"other":3,"gone":4}}"#,
        ".env",
        &[("env.same", "1"), ("env.other", "1"), ("env.gone", "4")],
    );
    let same = d.state(&Addr::new("env.same")).unwrap();
    assert_eq!(same.ownership, Ownership::Ours);
    assert_eq!(same.observed, Observed::Present(Repr::new("1")));
    assert_eq!(same.note, None);
    let other = d.state(&Addr::new("env.other")).unwrap();
    assert_eq!(other.ownership, Ownership::Diverged);
    assert_eq!(other.note, Some(String::from("this tool last wrote 1")));
    let gone = d.state(&Addr::new("env.gone")).unwrap();
    assert_eq!(gone.ownership, Ownership::Removed);
    assert_eq!(gone.observed, Observed::Absent);
}

#[test]
fn an_unknown_item_is_an_error() {
    let mut d = doc("{}", r#"{"a":1}"#, ".a", &[("b", "1")]);
    let e = d.state(&Addr::new("c")).unwrap_err();
    assert_eq!(e.to_string(), "no such item: c");
    assert_eq!(
        d.write(&Addr::new("c")).unwrap_err().to_string(),
        "no such item: c"
    );
    assert_eq!(
        d.retract(&Addr::new("c")).unwrap_err().to_string(),
        "no such item: c"
    );
    assert_eq!(
        d.write(&Addr::new("b")).unwrap_err().to_string(),
        "b is not declared"
    );
    assert_eq!(d.value(), &json("{}"));
}

#[test]
fn a_blocked_write_is_an_error_and_changes_nothing() {
    let target = r#"{"a":1,"b":{"c":"x"}}"#;
    let mut d = doc(target, r#"{"a":{"k":1}}"#, ".a", &[]);
    assert_eq!(
        d.write(&Addr::new("a.k")).unwrap_err().to_string(),
        "cannot write `a.k`: `a` is not an object"
    );
    assert_eq!(d.value(), &json(target));

    let mut d = doc(target, r#"{"a":{"k":{"l":{"m":1}}}}"#, ".a", &[]);
    assert_eq!(
        d.write(&Addr::new("a.k.l.m")).unwrap_err().to_string(),
        "cannot descend into `a.k`: a is not an object"
    );
    assert_eq!(d.value(), &json(target));

    let mut d = doc(target, r#"{"b":{"c":["y"]}}"#, ".b.c", &[]);
    let addr = d.declared().unwrap()[0].addr.clone();
    assert_eq!(
        d.write(&addr).unwrap_err().to_string(),
        "cannot add to `b.c`: it is not an array"
    );

    let mut d = doc(target, r#"{"a":{"l":["y"]}}"#, ".a.l", &[]);
    let addr = d.declared().unwrap()[0].addr.clone();
    assert_eq!(
        d.write(&addr).unwrap_err().to_string(),
        "cannot write into `a`: it is not an object"
    );

    let mut d = doc("[]", r#"["y"]"#, "", &[]);
    let addr = d.declared().unwrap()[0].addr.clone();
    assert_eq!(
        d.write(&addr).unwrap_err().to_string(),
        "the document root cannot be an array element"
    );
}

#[test]
fn a_forced_write_through_a_scalar_ends_the_run() {
    let mut d = doc(r#"{"a":"x"}"#, r#"{"a":{"k":1}}"#, ".a", &[]);
    let opts = Options {
        force: true,
        retract: false,
    };
    let e = run(&mut d, opts).unwrap_err();
    assert_eq!(e.to_string(), "cannot write `a.k`: `a` is not an object");
    assert_eq!(d.value(), &json(r#"{"a":"x"}"#));
}

#[test]
fn a_blocking_value_equal_to_the_declared_one_is_refused() {
    for (target, decl, addr) in [
        (r#"{"a":1}"#, r#"{"a":{"k":1}}"#, "a.k".to_string()),
        (
            r#"{"a":"rm"}"#,
            r#"{"a":["rm"]}"#,
            element_addr(&split_path(".a"), &canonical(&json(r#""rm""#))).to_string(),
        ),
    ] {
        let refused = vec![(addr, Decision::Refuse(Reason::Conflict))];
        let (text, owned, d) = apply(target, decl, ".a", &[], Options::default());
        assert_eq!(d, refused, "nothing is at the declared path");
        assert!(owned.is_empty(), "what was refused is not claimed");
        assert_eq!(parsed(&text), parsed(target));

        let (again, owned, d) = apply(&text, decl, ".a", &[], Options::default());
        assert_eq!(d, refused);
        assert!(owned.is_empty());
        assert_eq!(again, text);
    }
}

#[test]
fn a_blocked_path_is_nobody_s_whatever_is_in_the_way() {
    for (target, decl, prior, addr, observed) in [
        (r#"{"a":"x"}"#, r#"{"a":{"b":"x"}}"#, None, "a.b", r#"{"a":"x"}"#),
        (r#"{"a":"y"}"#, r#"{"a":{"b":"x"}}"#, None, "a.b", r#""y""#),
        (r#"{"a":"x"}"#, r#"{"a":{"b":"x"}}"#, Some(r#""x""#), "a.b", r#"{"a":"x"}"#),
        (r#"{"a":{"b":1}}"#, r#"{"a":{"b":{"c":1}}}"#, None, "a.b.c", r#"{"a.b":1}"#),
    ] {
        let recorded: Vec<(&str, &str)> = prior.iter().map(|r| (addr, *r)).collect();
        let s = doc(target, decl, ".a", &recorded).state(&Addr::new(addr)).unwrap();
        assert_eq!(s.ownership, Ownership::Unknown);
        assert_eq!(s.observed, Observed::Present(Repr::new(observed)));
        assert!(s.note.unwrap().ends_with("so the path cannot be followed"));
    }
}

#[test]
fn the_address_of_the_document_reads_back_as_a_key() {
    assert_eq!(display_path(&[]), display_path(&["<root>".to_string()]));
    match parse_addr(&Addr::new("<root>"), &Repr::new("1")) {
        Locator::Key(path) => assert_eq!(path, vec!["<root>".to_string()]),
        other => panic!("expected a key locator, got {other:?}"),
    }
}

#[test]
fn a_blocked_path_is_not_cleared_by_force() {
    let opts = Options {
        force: true,
        retract: false,
    };
    let mut d = doc(r#"{"a":1}"#, r#"{"a":{"k":1}}"#, ".a", &[]);
    let e = run(&mut d, opts).expect_err("there is no object to write into");
    assert_eq!(e.to_string(), "cannot write `a.k`: `a` is not an object");
    assert_eq!(d.value(), &json(r#"{"a":1}"#));
}

#[test]
fn a_declaration_for_the_root_replaces_the_document() {
    let (text, _, d) = apply("", "1", "", &[], Options::default());
    assert_eq!(
        d,
        vec![("<root>".into(), Decision::Refuse(Reason::Conflict))]
    );
    assert_eq!(text, "{}\n");
    let opts = Options {
        force: true,
        retract: false,
    };
    let (text, _, _) = apply("", "1", "", &[], opts);
    assert_eq!(text, "1\n");
}

#[test]
fn a_bare_null_becomes_an_object_when_forced() {
    let (text, _, d) = apply("null", r#"{"a":1}"#, ".a", &[], Options::default());
    assert_eq!(text, "null\n");
    assert_eq!(d, vec![("a".into(), Decision::Refuse(Reason::Conflict))]);
    let opts = Options {
        force: true,
        retract: false,
    };
    let (text, _, _) = apply("null", r#"{"a":1}"#, ".a", &[], opts);
    assert_eq!(parsed(&text), parsed(r#"{"a":1}"#));
}

#[test]
fn what_is_left_alone_stays_in_place() {
    let target = r#"{"z":[1,2],"env":{"keep":{"deep":[null]}},"a":"x"}"#;
    let (text, _, _) = apply(
        target,
        r#"{"env":{"new":1,"keep2":2}}"#,
        ".env",
        &[],
        Options::default(),
    );
    let got = parsed(&text);
    assert_eq!(got["z"], parsed("[1,2]"));
    assert_eq!(got["env"]["keep"], parsed(r#"{"deep":[null]}"#));
    assert_eq!(got["a"], parsed(r#""x""#));
    assert!(text.find("\"z\"").unwrap() < text.find("\"env\"").unwrap());
    assert!(text.find("\"env\"").unwrap() < text.find("\"a\"").unwrap());
}

#[test]
fn a_withdrawn_key_is_gone_and_its_neighbours_stay() {
    let opts = Options {
        force: false,
        retract: true,
    };
    let (text, owned, d) = apply(
        r#"{"env":{"old":1,"theirs":2,"kept":3}}"#,
        r#"{"env":{"kept":3}}"#,
        ".env",
        &[("env.old", "1"), ("env.kept", "3")],
        opts,
    );
    assert_eq!(parsed(&text), parsed(r#"{"env":{"theirs":2,"kept":3}}"#));
    assert_eq!(
        d,
        vec![
            ("env.kept".into(), Decision::Skip),
            ("env.old".into(), Decision::Retract),
        ]
    );
    assert_eq!(owned, vec![("env.kept".into(), "3".into())]);
}

#[test]
fn withdrawing_the_document_leaves_an_empty_object() {
    let mut d = doc(r#"{"a":1}"#, r#"{"b":1}"#, ".b", &[("", "x")]);
    d.retract(&Addr::new("")).unwrap();
    assert_eq!(d.value(), &json("{}"));
}

#[test]
fn withdrawing_what_cannot_be_reached_changes_nothing() {
    let target = r#"{"a":1}"#;
    for addr in ["a.b", "b.c", "x[#00000000]", "a[#00000000]"] {
        let mut d = doc(target, r#"{"k":1}"#, ".k", &[(addr, "1")]);
        d.retract(&Addr::new(addr)).unwrap();
        assert_eq!(d.value(), &json(target), "withdrew {addr}");
    }
}

#[test]
fn a_settled_document_renders_the_same_text_again() {
    let decl = r#"{"s":{"b":[{"y":1,"x":[]}],"a":"é\n\u0000","n":{}}}"#;
    let (once, owned, first) = apply(r#"{"other":0}"#, decl, ".s", &[], Options::default());
    assert!(first.iter().all(|(_, d)| *d == Decision::Add));
    let prior = borrowed(&owned);
    let (twice, again, second) = apply(&once, decl, ".s", &prior, Options::default());
    assert!(second.iter().all(|(_, d)| *d == Decision::Skip));
    assert_eq!(once, twice);
    assert_eq!(owned, again);
}

#[test]
fn duplicate_elements_are_one_item() {
    let (text, owned, d) = apply("{}", r#"{"l":["x","x"]}"#, ".l", &[], Options::default());
    assert_eq!(parsed(&text), parsed(r#"{"l":["x"]}"#));
    assert_eq!(d[0].1, Decision::Add);
    assert_eq!(d[1].1, Decision::Skip);
    assert_eq!(owned[0], owned[1]);
}

#[test]
fn without_provenance_nothing_is_updated() {
    let opts = Options {
        force: false,
        retract: true,
    };
    let (_, _, d) = apply(
        r#"{"e":{"a":1,"b":2}}"#,
        r#"{"e":{"a":1,"b":3,"c":4}}"#,
        ".e",
        &[],
        opts,
    );
    assert_eq!(
        d,
        vec![
            ("e.a".into(), Decision::Skip),
            ("e.b".into(), Decision::Refuse(Reason::Conflict)),
            ("e.c".into(), Decision::Add),
        ]
    );
}

#[test]
fn an_adapter_behaves_as_its_document() {
    let mut a = Adapter::Json(doc(r#"{"e":1}"#, r#"{"a":1}"#, ".a", &[("e", "1")]));
    assert_eq!(a.owned(), vec![Item::new(Addr::new("e"), Repr::new("1"))]);
    assert_eq!(
        a.declared().unwrap(),
        vec![Item::new(Addr::new("a"), Repr::new("1"))]
    );
    let opts = Options {
        force: false,
        retract: true,
    };
    let (report, out) = run(&mut a, opts).unwrap();
    assert_eq!(out.document, "{\n  \"a\": 1\n}\n");
    assert_eq!(report.entries[1].decision, Decision::Retract);
}

#[test]
fn an_adapter_runs_as_its_document_does() {
    let make = || {
        doc(
            r#"{"e":{"b":2,"c":3},"o":0}"#,
            r#"{"e":{"a":1,"b":9,"c":4}}"#,
            ".e",
            &[("e.c", "3"), ("o", "0")],
        )
    };
    for (force, retract) in [(false, false), (false, true), (true, false), (true, true)] {
        let opts = Options { force, retract };
        let (mut plain, mut wrapped) = (make(), Adapter::Json(make()));
        let (report, out) = run(&mut plain, opts).unwrap();
        let (same, equal) = run(&mut wrapped, opts).unwrap();
        assert_eq!(report, same);
        assert_eq!(out.document, equal.document);
        assert_eq!(out.prior, equal.prior);
    }
}

#[test]
fn a_declaration_grown_from_an_empty_container_settles() {
    let decl = r#"{"permissions":{"deny":["rm"]}}"#;
    let opts = Options {
        force: false,
        retract: true,
    };
    let (once, owned, first) = apply(
        r#"{"permissions":{"deny":[]}}"#,
        decl,
        ".permissions",
        &[("permissions.deny", "[]")],
        opts,
    );
    assert_eq!(first[0].1, Decision::Add);
    assert_eq!(parsed(&once), parsed(decl));
    assert_eq!(owned.len(), 1, "only the element is claimed");
    let (twice, again, second) = apply(&once, decl, ".permissions", &borrowed(&owned), opts);
    assert_eq!(second.len(), 1);
    assert_eq!(second[0].1, Decision::Skip);
    assert_eq!(once, twice);
    assert_eq!(owned, again);
}

#[test]
fn a_forced_run_over_a_bare_null_settles() {
    let opts = Options {
        force: true,
        retract: true,
    };
    let decl = r#"{"a":{"k":1,"l":[]}}"#;
    let (once, owned, first) = apply("null", decl, ".a", &[], opts);
    assert!(first.iter().all(|(_, d)| *d != Decision::Skip));
    assert_eq!(parsed(&once), parsed(decl));
    let (twice, again, second) = apply(&once, decl, ".a", &borrowed(&owned), opts);
    assert!(second.iter().all(|(_, d)| *d == Decision::Skip));
    assert_eq!(once, twice);
    assert_eq!(owned, again);
}

#[test]
fn a_second_run_hands_the_same_record_back() {
    let decl = r#"{"e":{"a":1,"b":[2],"c":{}}}"#;
    let prior = [("e.old", "5"), ("x", "6"), ("e.b", "[]")];
    let target = r#"{"e":{"old":5},"x":7}"#;
    for retract in [false, true] {
        let opts = Options {
            force: false,
            retract,
        };
        let (once, owned, _) = apply(target, decl, ".e", &prior, opts);
        assert_eq!(
            owned.iter().any(|(a, _)| a == "e.old"),
            !retract,
            "what is kept stays claimed"
        );
        let (twice, again, second) = apply(&once, decl, ".e", &borrowed(&owned), opts);
        assert!(second.iter().all(|(_, d)| *d == Decision::Skip));
        assert_eq!(once, twice);
        assert_eq!(owned, again);
    }
}

#[test]
fn a_refused_value_does_not_block_the_rest() {
    let target = r#"{"e":{"theirs":1,"list":["x"]}}"#;
    let decl = r#"{"e":{"theirs":2,"list":["y"],"new":{"k":3}}}"#;
    let (text, owned, d) = apply(target, decl, ".e", &[], Options::default());
    assert_eq!(
        parsed(&text),
        parsed(r#"{"e":{"theirs":1,"list":["x","y"],"new":{"k":3}}}"#)
    );
    assert_eq!(d[0].1, Decision::Refuse(Reason::Conflict));
    assert_eq!(d[1].1, Decision::Add);
    assert_eq!(d[2].1, Decision::Add);
    assert_eq!(owned.len(), 2, "a conflict claims nothing");
}

#[test]
fn a_second_run_over_a_difference_changes_nothing() {
    let target = r#"{"e":{"conflict":1,"edited":2}}"#;
    let decl = r#"{"e":{"conflict":5,"edited":6,"gone":7,"new":8}}"#;
    let prior = [("e.edited", "6"), ("e.gone", "7")];
    let (once, owned, first) = apply(target, decl, ".e", &prior, Options::default());
    let decisions: Vec<Decision> = first.iter().map(|(_, d)| *d).collect();
    assert_eq!(
        decisions,
        vec![
            Decision::Refuse(Reason::Conflict),
            Decision::Refuse(Reason::HandEdited),
            Decision::Refuse(Reason::RemovedByOther),
            Decision::Add,
        ]
    );
    let (twice, again, second) = apply(&once, decl, ".e", &borrowed(&owned), Options::default());
    assert_eq!(once, twice);
    assert_eq!(owned, again);
    let decisions: Vec<Decision> = second.iter().map(|(_, d)| *d).collect();
    assert_eq!(
        decisions,
        vec![
            Decision::Refuse(Reason::Conflict),
            Decision::Refuse(Reason::HandEdited),
            Decision::Refuse(Reason::RemovedByOther),
            Decision::Skip,
        ]
    );
}
