//! What the front end prints, writes back and records.

use cfggraft::cli::{
    aftermath, build_merge, line_for, load_prior, report_lines, suppressed_retraction, value_of,
    Aftermath, Common, Destination, MergeArgs, EXIT_DRIFT, EXIT_FAIL, EXIT_OK,
};
use cfggraft::engine::{run, Entry, Report};
use cfggraft::policy::{Decision, Reason};
use cfggraft::port::{Addr, Item, Observed, Output, Repr};
use cfggraft::prior::Store;

fn entry(decision: Decision, overridden: bool) -> Entry {
    Entry {
        addr: Addr::new("env.A"),
        decision,
        declared: Some(Repr::new("\"2\"")),
        observed: Observed::Present(Repr::new("\"1\"")),
        note: None,
        overridden,
    }
}

#[test]
fn an_update_line_shows_both_values() {
    let line = line_for(&entry(Decision::Update, false));
    assert!(line.contains("env.A"), "got: {line}");
    assert!(line.contains("\"1\" -> \"2\""), "got: {line}");
}

#[test]
fn a_refusal_line_says_what_was_kept() {
    let line = line_for(&entry(Decision::Refuse(Reason::Conflict), false));
    assert!(line.starts_with("conflict"), "got: {line}");
    assert!(line.contains("kept \"1\""), "got: {line}");
    assert!(line.contains("declared \"2\""), "got: {line}");
}

#[test]
fn a_forced_line_says_so() {
    let line = line_for(&entry(Decision::Update, true));
    assert!(line.ends_with("(forced)"), "got: {line}");
}

#[test]
fn a_suppressed_retraction_reads_as_stale_not_forced() {
    let e = Entry {
        declared: None,
        ..entry(Decision::Skip, true)
    };
    assert!(suppressed_retraction(&e));
    let line = line_for(&e);
    assert!(line.starts_with("stale"), "got: {line}");
    assert!(!line.contains("forced"), "got: {line}");
}

#[test]
fn lines_are_laid_out_in_columns() {
    assert_eq!(
        line_for(&entry(Decision::Add, false)),
        "add         env.A \"2\""
    );
    assert_eq!(
        line_for(&entry(Decision::Update, false)),
        "update      env.A \"1\" -> \"2\""
    );
    assert_eq!(
        line_for(&entry(Decision::Refuse(Reason::HandEdited), false)),
        "hand-edited env.A: kept \"1\", declared \"2\""
    );
    let gone = Entry {
        observed: Observed::Absent,
        note: Some("why".to_string()),
        ..entry(Decision::Refuse(Reason::RemovedByOther), false)
    };
    assert_eq!(line_for(&gone), "removed     env.A, declared \"2\" (why)");
    let forced = Entry {
        note: Some("why".to_string()),
        ..entry(Decision::Add, true)
    };
    assert_eq!(line_for(&forced), "add         env.A \"2\" (why) (forced)");
    let bare = Entry {
        declared: None,
        observed: Observed::Absent,
        ..entry(Decision::Skip, false)
    };
    assert_eq!(line_for(&bare), "skip        env.A");
    let withdrawn = Entry {
        declared: None,
        ..entry(Decision::Retract, false)
    };
    assert_eq!(line_for(&withdrawn), "retract     env.A \"1\"");
    let half = Entry {
        declared: None,
        ..entry(Decision::Update, false)
    };
    assert_eq!(line_for(&half), "update      env.A");
}

#[test]
fn long_values_are_shortened() {
    let long = "x".repeat(70);
    let e = Entry {
        declared: Some(Repr::new(long.as_str())),
        ..entry(Decision::Add, false)
    };
    assert_eq!(
        line_for(&e),
        format!("add         env.A {}…", "x".repeat(60))
    );
    let e = Entry {
        declared: Some(Repr::new(long.as_str())),
        ..entry(Decision::Update, false)
    };
    assert_eq!(
        line_for(&e),
        format!("update      env.A \"1\" -> {}…", "x".repeat(40))
    );
}

#[test]
fn the_declared_value_is_shown_first() {
    let e = entry(Decision::Add, false);
    assert_eq!(value_of(&e), Some(&Repr::new("\"2\"")));
    let e = Entry {
        declared: None,
        ..e
    };
    assert_eq!(value_of(&e), Some(&Repr::new("\"1\"")));
    let e = Entry {
        observed: Observed::Absent,
        ..e
    };
    assert_eq!(value_of(&e), None);
}

#[test]
fn a_report_ends_with_a_summary_and_hints() {
    let report = Report {
        entries: vec![
            entry(Decision::Add, false),
            entry(Decision::Skip, false),
            Entry {
                declared: None,
                ..entry(Decision::Skip, true)
            },
            entry(Decision::Refuse(Reason::Conflict), false),
        ],
    };
    assert_eq!(
        report_lines("merge", &report, false),
        vec![
            "add         env.A \"2\"",
            "stale       env.A \"1\"",
            "conflict    env.A: kept \"1\", declared \"2\"",
            "merge: added=1 updated=0 skipped=2 retracted=0 refused=1",
            "  1 item(s) are no longer declared; pass --retract to remove them.",
            "  Nothing was overwritten. Pass --force to overwrite anyway.",
        ]
    );
    assert_eq!(report_lines("merge", &report, true).len(), 7);
    let settled = Report {
        entries: (0..12).map(|_| entry(Decision::Skip, false)).collect(),
    };
    assert_eq!(
        report_lines("merge", &settled, false),
        vec!["merge: added=0 updated=0 skipped=12 retracted=0 refused=0"]
    );
}

fn common(file: Option<&str>, in_place: bool, check: bool) -> Common {
    Common {
        file: file.map(String::from),
        in_place,
        check,
        verbose: false,
        force: false,
        retract: true,
        prior_store: None,
    }
}

fn args(key: &str, fragment_key: Option<&str>, fragment_root: bool) -> MergeArgs {
    MergeArgs {
        key: key.to_string(),
        fragment: "frag.json".to_string(),
        fragment_key: fragment_key.map(String::from),
        fragment_root,
        common: common(Some("t.json"), true, false),
    }
}

#[test]
fn the_overrides_are_those_asked_for() {
    let c = common(None, true, true);
    assert!(!c.options().force);
    assert!(c.options().retract);
    assert!(!c.applies());
    assert!(common(None, true, false).applies());
    assert!(!common(None, false, false).applies());
}

#[test]
fn the_declaration_comes_out_of_the_fragment() {
    let fragment = r#"{"env":{"A":1},"other":{"B":2}}"#;
    let declared = |a: &MergeArgs| -> Vec<String> {
        let mut d = build_merge(a, "", fragment, Vec::new()).unwrap();
        let (report, _) = run(&mut d, a.common.options()).unwrap();
        report.entries.iter().map(|e| e.addr.to_string()).collect()
    };
    assert_eq!(declared(&args(".env", None, false)), vec!["env.A"]);
    assert_eq!(
        declared(&args("env", Some(".other"), false)),
        vec!["env.B"]
    );
    assert_eq!(
        declared(&args("x", None, true)),
        vec!["x.env.A", "x.other.B"]
    );
}

#[test]
fn a_fragment_that_declares_nothing_is_an_error() {
    let e = build_merge(&args(".a.b", None, false), "", "{}", Vec::new()).unwrap_err();
    assert_eq!(e.to_string(), "frag.json declares nothing at `a.b`");
    let e = build_merge(&args("a", Some("1"), false), "", "[]", Vec::new()).unwrap_err();
    assert_eq!(e.to_string(), "frag.json declares nothing at `1`");
}

#[test]
fn unreadable_texts_are_named() {
    let a = args("a", None, false);
    let e = build_merge(&a, "{", "x", Vec::new()).unwrap_err();
    assert_eq!(
        e.to_string(),
        "frag.json: expected value at line 1 column 1"
    );
    let e = build_merge(&a, "x", r#"{"a":1}"#, Vec::new()).unwrap_err();
    assert_eq!(e.to_string(), "t.json: expected value at line 1 column 1");
    let stdin = MergeArgs {
        common: common(None, false, false),
        ..a
    };
    let e = build_merge(&stdin, "x", r#"{"a":1}"#, Vec::new()).unwrap_err();
    assert_eq!(e.to_string(), "<stdin>: expected value at line 1 column 1");
}

#[test]
fn without_a_target_path_there_is_no_record() {
    let mut s = Store::empty("p");
    let item = Item::new(Addr::new("a"), Repr::new("1"));
    s.set("/t", std::slice::from_ref(&item));
    assert_eq!(load_prior(Some("/t"), &s), vec![item]);
    assert!(load_prior(Some("/u"), &s).is_empty());
    assert!(load_prior(None, &s).is_empty());
}

fn output(document: &str, prior: bool) -> Output {
    Output {
        document: document.to_string(),
        prior: if prior { Some(Vec::new()) } else { None },
    }
}

#[test]
fn the_file_is_written_only_where_it_differs() {
    let quiet = Report::default();
    let out = output("new", true);
    let c = common(Some("f"), true, false);
    assert_eq!(
        aftermath(&c, "old", &quiet, &out).unwrap(),
        Aftermath {
            destination: Destination::File,
            record: true,
            code: EXIT_OK,
        }
    );
    assert_eq!(
        aftermath(&c, "new", &quiet, &out).unwrap(),
        Aftermath {
            destination: Destination::Nowhere,
            record: true,
            code: EXIT_OK,
        }
    );
    assert!(!aftermath(&c, "old", &quiet, &output("new", false)).unwrap().record);
}

#[test]
fn a_check_writes_and_records_nothing() {
    let out = output("new", true);
    let drift = Report {
        entries: vec![entry(Decision::Refuse(Reason::Conflict), false)],
    };
    for in_place in [false, true] {
        let a = aftermath(&common(Some("f"), in_place, true), "old", &drift, &out).unwrap();
        assert_eq!(a.destination, Destination::Nowhere);
        assert!(!a.record);
        assert_eq!(a.code, EXIT_DRIFT);
    }
}

#[test]
fn what_is_printed_is_not_recorded() {
    let out = output("same", true);
    let a = aftermath(&common(Some("f"), false, false), "same", &Report::default(), &out).unwrap();
    assert_eq!(a.destination, Destination::Output);
    assert!(!a.record);
}

#[test]
fn writing_back_needs_a_file() {
    let out = output("x", true);
    let e = aftermath(&common(None, true, false), "y", &Report::default(), &out).unwrap_err();
    assert_eq!(e.to_string(), "--in-place needs --file");
    assert!(aftermath(&common(None, true, true), "y", &Report::default(), &out).is_ok());
}

#[test]
fn the_exit_codes_are_distinct() {
    assert_eq!((EXIT_OK, EXIT_FAIL, EXIT_DRIFT), (0, 1, 2));
}

#[test]
fn a_second_invocation_has_nothing_to_do() {
    let a = args("s", None, false);
    let fragment = r#"{"s":{"list":["x",{"b":1,"a":2}],"k":"v"}}"#;
    let mut record = Store::empty("p");
    let before = r#"{"s":{"list":["theirs"]},"z":null}"#;

    let mut d = build_merge(&a, before, fragment, load_prior(Some("/t"), &record)).unwrap();
    let (report, out) = run(&mut d, a.common.options()).unwrap();
    assert!(!report.has_drift());
    let after = aftermath(&a.common, before, &report, &out).unwrap();
    assert_eq!(after.destination, Destination::File);
    assert!(after.record);
    record.set("/t", out.prior.as_ref().unwrap());
    let record = Store::open("p", Some(record.save().unwrap().as_str()));

    let text = out.document;
    let mut d = build_merge(&a, &text, fragment, load_prior(Some("/t"), &record)).unwrap();
    let (report, out) = run(&mut d, a.common.options()).unwrap();
    assert!(report.entries.iter().all(|e| e.decision == Decision::Skip));
    let after = aftermath(&a.common, &text, &report, &out).unwrap();
    assert_eq!(after.destination, Destination::Nowhere);
    assert_eq!(after.code, EXIT_OK);
}
