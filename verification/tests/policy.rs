//! The decision table and its labels.

use cfggraft::policy::{decide, Decision, Reason};
use cfggraft::port::{Observed, Ownership, Repr, State};

fn repr(s: &str) -> Repr {
    Repr::new(s)
}

fn state(observed: Observed, ownership: Ownership) -> State {
    State::new(observed, ownership)
}

fn present(s: &str) -> Observed {
    Observed::Present(repr(s))
}

#[test]
fn unknown_absent_is_added() {
    let s = state(Observed::Absent, Ownership::Unknown);
    assert_eq!(decide(Some(&repr("1")), &s), Decision::Add);
}

#[test]
fn unknown_matching_is_adopted_by_skipping() {
    let s = state(present("1"), Ownership::Unknown);
    assert_eq!(decide(Some(&repr("1")), &s), Decision::Skip);
}

#[test]
fn unknown_differing_is_refused_and_not_updated() {
    let s = state(present("1"), Ownership::Unknown);
    assert_eq!(
        decide(Some(&repr("2")), &s),
        Decision::Refuse(Reason::Conflict)
    );
}

#[test]
fn ours_differing_is_updated() {
    let s = state(present("1"), Ownership::Ours);
    assert_eq!(decide(Some(&repr("2")), &s), Decision::Update);
}

#[test]
fn ours_matching_is_skipped() {
    let s = state(present("2"), Ownership::Ours);
    assert_eq!(decide(Some(&repr("2")), &s), Decision::Skip);
}

#[test]
fn diverged_is_refused_whatever_is_declared() {
    let s = state(present("edited"), Ownership::Diverged);
    assert_eq!(
        decide(Some(&repr("x")), &s),
        Decision::Refuse(Reason::HandEdited)
    );
}

#[test]
fn removed_is_not_resurrected() {
    let s = state(Observed::Absent, Ownership::Removed);
    assert_eq!(
        decide(Some(&repr("x")), &s),
        Decision::Refuse(Reason::RemovedByOther)
    );
}

#[test]
fn undeclared_and_ours_is_retracted() {
    let s = state(present("old"), Ownership::Ours);
    assert_eq!(decide(None, &s), Decision::Retract);
}

#[test]
fn undeclared_and_not_ours_is_left_alone() {
    for own in [Ownership::Unknown, Ownership::Diverged, Ownership::Removed] {
        let s = state(present("theirs"), own);
        assert_eq!(decide(None, &s), Decision::Skip, "ownership {own:?}");
    }
}

#[test]
fn nothing_is_written_unless_ours_or_absent() {
    // The safety property the whole crate rests on: a decision that writes over
    // an existing value occurs only when that value is ours.
    for own in [
        Ownership::Unknown,
        Ownership::Ours,
        Ownership::Diverged,
        Ownership::Removed,
    ] {
        let s = state(present("theirs"), own);
        let d = decide(Some(&repr("mine")), &s);
        if d.changes_target() {
            assert_eq!(own, Ownership::Ours, "would overwrite with {own:?}");
        }
    }
}

#[test]
fn an_agreed_declaration_reapplies_as_skip() {
    // Idempotence: after any applying decision the item is ours and equal, which
    // is the Skip row.
    let s = state(present("v"), Ownership::Ours);
    assert_eq!(decide(Some(&repr("v")), &s), Decision::Skip);
}

#[test]
fn labels_are_distinct_per_outcome() {
    let labels = [
        Decision::Add.label(),
        Decision::Skip.label(),
        Decision::Update.label(),
        Decision::Retract.label(),
        Decision::Refuse(Reason::Conflict).label(),
        Decision::Refuse(Reason::HandEdited).label(),
        Decision::Refuse(Reason::RemovedByOther).label(),
    ];
    let mut sorted = labels.to_vec();
    sorted.sort_unstable();
    sorted.dedup();
    assert_eq!(sorted.len(), labels.len(), "labels collide: {labels:?}");
}

#[test]
fn only_refusal_is_drift() {
    assert!(Decision::Refuse(Reason::Conflict).is_drift());
    assert!(!Decision::Add.is_drift());
    assert!(!Decision::Skip.is_drift());
    assert!(!Decision::Update.is_drift());
    assert!(!Decision::Retract.is_drift());
}

#[test]
fn an_update_and_a_retraction_change_the_target() {
    assert!(Decision::Add.changes_target());
    assert!(Decision::Update.changes_target());
    assert!(Decision::Retract.changes_target());
    assert!(!Decision::Skip.changes_target());
    assert!(!Decision::Refuse(Reason::HandEdited).changes_target());
}

#[test]
fn labels_are_the_documented_words() {
    assert_eq!(Decision::Add.label(), "add");
    assert_eq!(Decision::Skip.label(), "skip");
    assert_eq!(Decision::Update.label(), "update");
    assert_eq!(Decision::Retract.label(), "retract");
    assert_eq!(Reason::Conflict.label(), "conflict");
    assert_eq!(Reason::HandEdited.label(), "hand-edited");
    assert_eq!(Reason::RemovedByOther.label(), "removed");
}

#[test]
fn without_provenance_the_table_never_updates() {
    let absent = state(Observed::Absent, Ownership::Unknown);
    assert_eq!(decide(None, &absent), Decision::Skip);
    let there = state(present("x"), Ownership::Unknown);
    assert_eq!(decide(None, &there), Decision::Skip);
    assert_eq!(
        decide(Some(&repr("y")), &there),
        Decision::Refuse(Reason::Conflict)
    );
}

#[test]
fn an_item_of_ours_that_is_absent_is_written_again() {
    let s = state(Observed::Absent, Ownership::Ours);
    assert_eq!(decide(Some(&repr("1")), &s), Decision::Update);
    assert_eq!(decide(None, &s), Decision::Skip);
}
