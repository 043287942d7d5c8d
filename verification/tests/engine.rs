//! Runs over a store that stands in for any representation.

use cfggraft::engine::{run, Entry, Options, Report, Tally};
use cfggraft::error::Error;
use cfggraft::policy::{Decision, Reason};
use cfggraft::port::{Addr, Item, Observed, Output, Ownership, Repr, State, Store};
use std::collections::BTreeMap;

/// A store over a flat map, standing in for any representation.
struct FakeStore {
    declared: Vec<Item>,
    prior: Vec<Item>,
    present: BTreeMap<Addr, Repr>,
    writes: Vec<Addr>,
    retractions: Vec<Addr>,
}

impl FakeStore {
    fn new(declared: &[(&str, &str)], prior: &[(&str, &str)], present: &[(&str, &str)]) -> Self {
        let items = |v: &[(&str, &str)]| -> Vec<Item> {
            v.iter()
                .map(|(a, r)| Item::new(Addr::new(*a), Repr::new(*r)))
                .collect()
        };
        FakeStore {
            declared: items(declared),
            prior: items(prior),
            present: present
                .iter()
                .map(|(a, r)| (Addr::new(*a), Repr::new(*r)))
                .collect(),
            writes: Vec::new(),
            retractions: Vec::new(),
        }
    }
}

impl Store for FakeStore {
    fn declared(&self) -> Result<Vec<Item>, Error> {
        Ok(self.declared.clone())
    }

    fn owned(&self) -> Vec<Item> {
        self.prior.clone()
    }

    fn state(&self, addr: &Addr) -> Result<State, Error> {
        let observed = match self.present.get(addr) {
            Some(r) => Observed::Present(r.clone()),
            None => Observed::Absent,
        };
        let recorded = self.prior.iter().find(|i| &i.addr == addr).map(|i| &i.repr);
        let ownership = match (recorded, &observed) {
            (None, _) => Ownership::Unknown,
            (Some(_), Observed::Absent) => Ownership::Removed,
            (Some(p), Observed::Present(o)) if p == o => Ownership::Ours,
            (Some(_), Observed::Present(_)) => Ownership::Diverged,
        };
        Ok(State::new(observed, ownership))
    }

    fn write(&mut self, addr: &Addr) -> Result<(), Error> {
        let repr = self
            .declared
            .iter()
            .find(|i| &i.addr == addr)
            .map(|i| i.repr.clone())
            .expect("write is only called for declared addresses");
        self.present.insert(addr.clone(), repr);
        self.writes.push(addr.clone());
        Ok(())
    }

    fn retract(&mut self, addr: &Addr) -> Result<(), Error> {
        self.present.remove(addr);
        self.retractions.push(addr.clone());
        Ok(())
    }

    fn finish(&mut self, owned: &[Item]) -> Result<Output, Error> {
        Ok(Output {
            document: self
                .present
                .iter()
                .map(|(a, r)| format!("{}={}\n", a.as_str(), r.as_str()))
                .collect(),
            prior: Some(owned.to_vec()),
        })
    }
}

fn decisions(report: &Report) -> Vec<(String, Decision)> {
    report
        .entries
        .iter()
        .map(|e| (e.addr.to_string(), e.decision))
        .collect()
}

#[test]
fn adds_what_is_absent_and_claims_it() {
    let mut s = FakeStore::new(&[("a", "1")], &[], &[]);
    let (r, out) = run(&mut s, Options::default()).unwrap();
    assert_eq!(decisions(&r), vec![("a".into(), Decision::Add)]);
    assert_eq!(
        out.prior.unwrap(),
        vec![Item::new(Addr::new("a"), Repr::new("1"))]
    );
}

#[test]
fn updates_a_value_this_tool_wrote() {
    // The defect three-way comparison exists to fix: a declaration that changes
    // its mind about a value it put there itself.
    let mut s = FakeStore::new(&[("a", "2")], &[("a", "1")], &[("a", "1")]);
    let (r, _) = run(&mut s, Options::default()).unwrap();
    assert_eq!(decisions(&r), vec![("a".into(), Decision::Update)]);
    assert_eq!(s.present.get(&Addr::new("a")).unwrap(), &Repr::new("2"));
}

#[test]
fn refuses_a_value_it_cannot_claim() {
    let mut s = FakeStore::new(&[("a", "2")], &[], &[("a", "theirs")]);
    let (r, _) = run(&mut s, Options::default()).unwrap();
    assert_eq!(
        decisions(&r),
        vec![("a".into(), Decision::Refuse(Reason::Conflict))]
    );
    assert_eq!(
        s.present.get(&Addr::new("a")).unwrap(),
        &Repr::new("theirs")
    );
    assert!(s.writes.is_empty(), "nothing may be written on a refusal");
}

#[test]
fn retraction_is_off_by_default_but_keeps_the_claim() {
    let mut s = FakeStore::new(&[], &[("a", "1")], &[("a", "1")]);
    let (r, out) = run(&mut s, Options::default()).unwrap();
    assert_eq!(decisions(&r), vec![("a".into(), Decision::Skip)]);
    assert!(s.retractions.is_empty());
    assert_eq!(
        out.prior.unwrap(),
        vec![Item::new(Addr::new("a"), Repr::new("1"))],
        "a suppressed retraction stays claimed so it can be retracted later"
    );
}

#[test]
fn retraction_removes_only_what_was_ours() {
    let mut s = FakeStore::new(&[], &[("ours", "1")], &[("ours", "1"), ("theirs", "x")]);
    let opts = Options {
        retract: true,
        ..Options::default()
    };
    let (r, out) = run(&mut s, opts).unwrap();
    assert_eq!(decisions(&r), vec![("ours".into(), Decision::Retract)]);
    assert!(!s.present.contains_key(&Addr::new("ours")));
    assert!(
        s.present.contains_key(&Addr::new("theirs")),
        "an item this tool never wrote is not walked and not touched"
    );
    assert!(out.prior.unwrap().is_empty());
}

#[test]
fn force_overrides_a_refusal_and_says_so() {
    let mut s = FakeStore::new(&[("a", "2")], &[], &[("a", "theirs")]);
    let opts = Options {
        force: true,
        ..Options::default()
    };
    let (r, _) = run(&mut s, opts).unwrap();
    assert_eq!(decisions(&r), vec![("a".into(), Decision::Update)]);
    assert!(r.entries[0].overridden);
}

#[test]
fn a_second_identical_run_only_skips() {
    let mut s = FakeStore::new(&[("a", "1"), ("b", "2")], &[], &[]);
    let (first, out) = run(&mut s, Options::default()).unwrap();
    assert!(first.changed());

    let prior: Vec<(String, String)> = out
        .prior
        .unwrap()
        .iter()
        .map(|i| (i.addr.to_string(), i.repr.to_string()))
        .collect();
    let prior: Vec<(&str, &str)> = prior
        .iter()
        .map(|(a, r)| (a.as_str(), r.as_str()))
        .collect();
    let present = prior.clone();

    let mut s2 = FakeStore::new(&[("a", "1"), ("b", "2")], &prior, &present);
    let (second, _) = run(&mut s2, Options::default()).unwrap();
    assert!(!second.changed(), "a settled declaration must not rewrite");
    assert!(!second.has_drift());
    assert_eq!(second.tally().skipped, 2);
}

#[test]
fn a_second_run_renders_and_records_the_same() {
    let declared = [("a", "1"), ("b", "2"), ("c", "3")];
    let prior = [("b", "old"), ("x", "5"), ("y", "6")];
    let present = [("b", "old"), ("c", "3"), ("x", "5"), ("z", "theirs")];
    for (force, retract) in [(false, false), (false, true), (true, false), (true, true)] {
        let opts = Options { force, retract };
        let mut s = FakeStore::new(&declared, &prior, &present);
        let (first, out) = run(&mut s, opts).unwrap();
        assert!(!first.has_drift());
        assert_eq!(s.present.contains_key(&Addr::new("x")), !retract);

        let mut s2 = FakeStore::new(&declared, &[], &[]);
        s2.prior = out.prior.clone().unwrap();
        s2.present = s.present.clone();
        let (second, again) = run(&mut s2, opts).unwrap();
        assert!(second
            .entries
            .iter()
            .all(|e| e.decision == Decision::Skip));
        assert_eq!(again.document, out.document);
        assert_eq!(again.prior, out.prior);
        assert_eq!(s2.present, s.present);
    }
}

#[test]
fn adoption_claims_a_matching_value_written_before_provenance() {
    let mut s = FakeStore::new(&[("a", "1")], &[], &[("a", "1")]);
    let (r, out) = run(&mut s, Options::default()).unwrap();
    assert_eq!(decisions(&r), vec![("a".into(), Decision::Skip)]);
    assert_eq!(
        out.prior.unwrap(),
        vec![Item::new(Addr::new("a"), Repr::new("1"))],
        "agreeing on a value adopts it, so a later change can apply"
    );
}

#[test]
fn a_hand_edit_keeps_its_history_across_runs() {
    let mut s = FakeStore::new(&[("a", "1")], &[("a", "1")], &[("a", "edited")]);
    let (r, out) = run(&mut s, Options::default()).unwrap();
    assert_eq!(
        decisions(&r),
        vec![("a".into(), Decision::Refuse(Reason::HandEdited))]
    );
    assert_eq!(
        out.prior.unwrap(),
        vec![Item::new(Addr::new("a"), Repr::new("1"))],
        "keeping the old record is what lets the next run still say hand-edited"
    );
}

#[test]
fn a_deletion_by_someone_else_is_not_undone() {
    let mut s = FakeStore::new(&[("a", "1")], &[("a", "1")], &[]);
    let (r, _) = run(&mut s, Options::default()).unwrap();
    assert_eq!(
        decisions(&r),
        vec![("a".into(), Decision::Refuse(Reason::RemovedByOther))]
    );
    assert!(s.writes.is_empty());
}

#[test]
fn walk_order_is_declaration_then_sorted_remainder() {
    let mut s = FakeStore::new(
        &[("z", "1"), ("a", "2")],
        &[("m", "3"), ("b", "4")],
        &[("m", "3"), ("b", "4")],
    );
    let (r, _) = run(&mut s, Options::default()).unwrap();
    let order: Vec<String> = r.entries.iter().map(|e| e.addr.to_string()).collect();
    assert_eq!(order, vec!["z", "a", "b", "m"]);
}

#[test]
fn tally_counts_each_outcome() {
    let mut s = FakeStore::new(
        &[("add", "1"), ("skip", "2"), ("conflict", "3")],
        &[("skip", "2")],
        &[("skip", "2"), ("conflict", "theirs")],
    );
    let (r, _) = run(&mut s, Options::default()).unwrap();
    let t = r.tally();
    assert_eq!(t.added, 1);
    assert_eq!(t.skipped, 1);
    assert_eq!(t.refused, 1);
    assert!(r.has_drift());
}

#[test]
fn options_and_tallies_start_out_empty() {
    let o = Options::default();
    assert!(!o.force);
    assert!(!o.retract);
    assert_eq!(Report::default().entries, Vec::<Entry>::new());
    assert_eq!(Report::default().tally(), Tally::default());
    assert!(!Report::default().changed());
    assert!(!Report::default().has_drift());
}

#[test]
fn a_forced_deletion_is_written_again_as_an_addition() {
    let mut s = FakeStore::new(&[("a", "1")], &[("a", "1")], &[]);
    let opts = Options {
        force: true,
        retract: false,
    };
    let (r, out) = run(&mut s, opts).unwrap();
    assert_eq!(decisions(&r), vec![("a".into(), Decision::Add)]);
    assert!(r.entries[0].overridden);
    assert!(!r.has_drift());
    assert_eq!(out.document, "a=1\n");
}

#[test]
fn force_does_not_touch_what_is_not_declared() {
    let mut s = FakeStore::new(&[], &[("a", "1")], &[("a", "edited")]);
    let opts = Options {
        force: true,
        retract: true,
    };
    let (r, out) = run(&mut s, opts).unwrap();
    assert_eq!(decisions(&r), vec![("a".into(), Decision::Skip)]);
    assert!(!r.entries[0].overridden);
    assert_eq!(out.prior.unwrap(), Vec::<Item>::new());
    assert_eq!(out.document, "a=edited\n");
}

#[test]
fn an_address_recorded_twice_is_walked_once() {
    let mut s = FakeStore::new(&[], &[("b", "1"), ("a", "2"), ("b", "1")], &[("b", "1")]);
    let (r, out) = run(&mut s, Options::default()).unwrap();
    assert_eq!(
        decisions(&r),
        vec![
            ("a".into(), Decision::Skip),
            ("b".into(), Decision::Skip),
        ]
    );
    assert!(!r.entries[0].overridden, "absent, so nothing to withdraw");
    assert!(r.entries[1].overridden, "a suppressed retraction");
    assert_eq!(
        out.prior.unwrap(),
        vec![Item::new(Addr::new("b"), Repr::new("1"))]
    );
}

#[test]
fn matching_lists_the_entries_in_order() {
    let mut s = FakeStore::new(&[("z", "1"), ("a", "2"), ("m", "3")], &[], &[("a", "x")]);
    let (r, _) = run(&mut s, Options::default()).unwrap();
    let added: Vec<&str> = r
        .matching(|d| d == Decision::Add)
        .iter()
        .map(|e| e.addr.as_str())
        .collect();
    assert_eq!(added, vec!["z", "m"]);
    assert_eq!(r.matching(|d| d.is_drift()).len(), 1);
    assert!(r.matching(|_| false).is_empty());
}

#[test]
fn the_counts_of_a_tally_add_up() {
    let mut s = FakeStore::new(
        &[("add", "1"), ("skip", "2"), ("update", "3"), ("no", "4")],
        &[("skip", "2"), ("update", "old"), ("gone", "5")],
        &[("skip", "2"), ("update", "old"), ("no", "x"), ("gone", "5")],
    );
    let opts = Options {
        force: false,
        retract: true,
    };
    let (r, _) = run(&mut s, opts).unwrap();
    let t = r.tally();
    assert_eq!(
        t,
        Tally {
            added: 1,
            skipped: 1,
            updated: 1,
            retracted: 1,
            refused: 1,
        }
    );
    assert_eq!(
        t.added + t.skipped + t.updated + t.retracted + t.refused,
        r.entries.len()
    );
    assert!(r.changed());
    assert!(r.has_drift());
    assert_eq!(s.writes, vec![Addr::new("add"), Addr::new("update")]);
    assert_eq!(s.retractions, vec![Addr::new("gone")]);
}

/// A store one of whose operations fails.
struct Failing {
    inner: FakeStore,
    at: &'static str,
}

impl Failing {
    fn fail(&self, op: &str) -> Result<(), Error> {
        if self.at == op {
            Err(Error::invalid(op))
        } else {
            Ok(())
        }
    }
}

impl Store for Failing {
    fn declared(&self) -> Result<Vec<Item>, Error> {
        self.fail("declared")?;
        self.inner.declared()
    }

    fn owned(&self) -> Vec<Item> {
        self.inner.owned()
    }

    fn state(&self, addr: &Addr) -> Result<State, Error> {
        self.fail("state")?;
        self.inner.state(addr)
    }

    fn write(&mut self, addr: &Addr) -> Result<(), Error> {
        self.fail("write")?;
        self.inner.write(addr)
    }

    fn retract(&mut self, addr: &Addr) -> Result<(), Error> {
        self.fail("retract")?;
        self.inner.retract(addr)
    }

    fn finish(&mut self, owned: &[Item]) -> Result<Output, Error> {
        self.fail("finish")?;
        self.inner.finish(owned)
    }
}

#[test]
fn a_failing_operation_ends_the_run_with_its_error() {
    for at in ["declared", "state", "write", "retract", "finish"] {
        let inner = FakeStore::new(&[("a", "1")], &[("b", "2")], &[("b", "2")]);
        let mut s = Failing { inner, at };
        let opts = Options {
            force: false,
            retract: true,
        };
        let e = run(&mut s, opts).unwrap_err();
        assert_eq!(e.to_string(), at);
        let written = at == "retract" || at == "finish";
        assert_eq!(!s.inner.writes.is_empty(), written, "failed at {at}");
        assert_eq!(!s.inner.retractions.is_empty(), at == "finish");
    }
}
