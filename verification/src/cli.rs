//! What the command line front end says and does around a run.
//!
//! The front end parses arguments, reads and writes files, prints the report,
//! and maps the outcome to an exit status. What it prints, where the declaration
//! comes from, what is written back and what is recorded are decided here; the
//! files themselves are the front end's part.
//!
//! # Exit status
//!
//! | | |
//! |---|---|
//! | 0 | applied, or already up to date |
//! | 1 | failure: bad input, an unreadable file |
//! | 2 | drift: a difference this tool declined to overwrite |
//!
//! On drift nothing is written over the difference. A disagreement about one item
//! never blocks the rest, so with `--in-place` the other items are still applied:
//! the file is written whenever the rendered document differs from what was read,
//! and what is claimed is recorded. With `--check` nothing is written at all.
//!
//! 2 is reserved for drift alone. A check that cannot tell *the generator
//! crashed* from *there is no difference* is a green light that checks nothing.
//!
//! # When ownership is recorded
//!
//! Provenance is written only when the target itself is written: with
//! `--in-place`, and without `--check`. Rendering to standard output leaves the
//! target untouched, so claiming to have written it would be false, and the next
//! run would act on a record of something that never happened.
//!
//! A consequence worth knowing: a pipeline that never uses `--in-place` never
//! accumulates provenance, so it stays add-only.

use crate::adapter::json::{display_path, get_path, split_path, JsonDoc};
use crate::adapter::model::{leaves, opened, DocView};
use crate::adapter::path::{segments, shown};
use crate::engine::{count, Entry, EntryView, Options, Report};
use crate::error::{Error, Failure};
use crate::policy::{decision_label, optional_repr, Decision};
use crate::port::{item_views, shortened, Item, ItemView, Observed, Output, Repr};
use crate::prior::{recorded, Ledger, Store};
use crate::text::{concat, decimal, decimal_text, pad, padded, texts};
use crate::tree::{lemma_walk_well_formed, walk, Path, Tree, Walk};
use crate::value::{parsed, read, Json};
use vstd::prelude::*;
use vstd::string::*;

verus! {

/// Applied, or already up to date.
pub const EXIT_OK: u8 = 0;

/// The run could not be carried out.
pub const EXIT_FAIL: u8 = 1;

/// A difference was left in place.
pub const EXIT_DRIFT: u8 = 2;

/// What every invocation says about its target.
#[derive(Debug, Clone)]
pub struct Common {
    /// Target file. Standard input where there is none.
    pub file: Option<String>,
    /// Write the result back to the file instead of to standard output.
    pub in_place: bool,
    /// Report only. Writes nothing, to the file or anywhere else.
    pub check: bool,
    /// Also list the items that were already in place.
    pub verbose: bool,
    /// Overwrite values this tool cannot show it wrote, discarding them.
    pub force: bool,
    /// Remove items this tool wrote that are no longer declared.
    pub retract: bool,
    /// Where to keep the record of what this tool has written.
    pub prior_store: Option<String>,
}

impl Common {
    /// The overrides this invocation asks for.
    pub fn options(&self) -> (o: Options)
        ensures
            o == (Options { force: self.force, retract: self.retract }),
    {
        Options { force: self.force, retract: self.retract }
    }

    /// Whether this invocation actually applies the result to the target.
    ///
    /// Only then may provenance be recorded, since only then is there something
    /// to have a record of.
    pub fn applies(&self) -> (r: bool)
        ensures
            r == (self.in_place && !self.check),
    {
        self.in_place && !self.check
    }
}

/// Whether an entry is a retraction the caller chose not to perform.
pub open spec fn stale(e: EntryView) -> bool {
    e.decision is Skip && e.overridden
}

/// Whether this entry is a retraction the caller chose not to perform.
pub fn suppressed_retraction(e: &Entry) -> (r: bool)
    ensures
        r == stale(e@),
{
    matches!(e.decision, Decision::Skip) && e.overridden
}

/// The value worth showing for an entry: what is declared, or failing that what
/// is there.
pub open spec fn worth_showing(e: EntryView) -> Option<Seq<char>> {
    if e.declared is Some {
        e.declared
    } else {
        e.observed
    }
}

/// The value worth showing for an entry: what is declared, or failing that what
/// is there.
pub fn value_of(e: &Entry) -> (r: Option<&Repr>)
    ensures
        optional_repr(r) == worth_showing(e@),
{
    match (&e.declared, &e.observed) {
        (Some(d), _) => Some(d),
        (None, Observed::Present(o)) => Some(o),
        _ => None,
    }
}

/// What a line says of the values of an item.
pub open spec fn detail(e: EntryView) -> Seq<char> {
    match e.decision {
        Decision::Update => match (e.observed, e.declared) {
            (Some(o), Some(d)) => " "@ + shortened(o, 40) + " -> "@ + shortened(d, 40),
            _ => Seq::empty(),
        },
        Decision::Refuse(_) => (match e.observed {
            Some(o) => ": kept "@ + shortened(o, 40),
            None => Seq::empty(),
        }) + (match e.declared {
            Some(d) => ", declared "@ + shortened(d, 40),
            None => Seq::empty(),
        }),
        _ => match worth_showing(e) {
            Some(v) => " "@ + shortened(v, 60),
            None => Seq::empty(),
        },
    }
}

/// The line for an entry: what was decided, where, the values, and what there is
/// to add.
pub open spec fn line(e: EntryView) -> Seq<char> {
    padded(
        if stale(e) {
            "stale"@
        } else {
            decision_label(e.decision)
        },
        11,
    ) + " "@ + e.addr + detail(e) + (match e.note {
        Some(note) => " ("@ + note + ")"@,
        None => Seq::empty(),
    }) + (if e.overridden && !stale(e) {
        " (forced)"@
    } else {
        Seq::empty()
    })
}

/// The line for one item.
pub fn line_for(e: &Entry) -> (s: String)
    ensures
        s@ == line(e@),
{
    let label = if suppressed_retraction(e) {
        "stale"
    } else {
        e.decision.label()
    };
    let mut s = pad(label, 11);
    s.append(" ");
    s.append(e.addr.as_str());
    let ghost head = s@;
    let more = detail_for(e);
    s.append(more.as_str());
    let ghost shown_so_far = s@;
    if let Some(note) = &e.note {
        s.append(" (");
        s.append(note.as_str());
        s.append(")");
        assert(s@ =~= shown_so_far + (" ("@ + note@ + ")"@));
    } else {
        assert(s@ =~= shown_so_far + Seq::<char>::empty());
    }
    let ghost noted = s@;
    if e.overridden && !suppressed_retraction(e) {
        s.append(" (forced)");
    } else {
        assert(s@ =~= noted + Seq::<char>::empty());
    }
    s
}

/// What a line says of the values of an item.
fn detail_for(e: &Entry) -> (s: String)
    ensures
        s@ == detail(e@),
{
    let mut s = String::new();
    match e.decision {
        Decision::Update => {
            if let (Observed::Present(o), Some(d)) = (&e.observed, &e.declared) {
                s.append(" ");
                s.append(o.truncated(40).as_str());
                s.append(" -> ");
                s.append(d.truncated(40).as_str());
            }
        },
        Decision::Refuse(_) => {
            if let Observed::Present(o) = &e.observed {
                s.append(": kept ");
                s.append(o.truncated(40).as_str());
            }
            if let Some(d) = &e.declared {
                s.append(", declared ");
                s.append(d.truncated(40).as_str());
            }
        },
        Decision::Add | Decision::Retract | Decision::Skip => {
            if let Some(v) = value_of(e) {
                s.append(" ");
                s.append(v.truncated(60).as_str());
            }
        },
    }
    assert(s@ =~= detail(e@));
    s
}

/// Whether an entry has a line of its own in the report.
///
/// Items already in the declared state are listed only on request: a run over a
/// settled declaration would otherwise bury the one line that matters.
pub open spec fn has_line(e: EntryView, verbose: bool) -> bool {
    !(e.decision is Skip) || verbose || stale(e)
}

/// The lines for the entries that have one.
pub open spec fn entry_lines(entries: Seq<EntryView>, verbose: bool) -> Seq<Seq<char>>
    decreases entries.len(),
{
    if entries.len() == 0 {
        Seq::empty()
    } else {
        let before = entry_lines(entries.drop_last(), verbose);
        if has_line(entries.last(), verbose) {
            before.push(line(entries.last()))
        } else {
            before
        }
    }
}

/// How many entries are retractions the caller chose not to perform.
pub open spec fn stale_count(entries: Seq<EntryView>) -> nat
    decreases entries.len(),
{
    if entries.len() == 0 {
        0
    } else {
        stale_count(entries.drop_last()) + if stale(entries.last()) {
            1nat
        } else {
            0nat
        }
    }
}

/// How many items got each outcome, in one line.
pub open spec fn summary(label: Seq<char>, entries: Seq<EntryView>) -> Seq<char> {
    label + ": added="@ + decimal(count(entries, |d: Decision| d is Add)) + " updated="@ + decimal(
        count(entries, |d: Decision| d is Update),
    ) + " skipped="@ + decimal(count(entries, |d: Decision| d is Skip)) + " retracted="@ + decimal(
        count(entries, |d: Decision| d is Retract),
    ) + " refused="@ + decimal(count(entries, |d: Decision| d is Refuse))
}

/// The whole report: a line per item, a summary, and what can be done about the
/// items left as they are.
pub open spec fn report_text(label: Seq<char>, entries: Seq<EntryView>, verbose: bool) -> Seq<
    Seq<char>,
> {
    let listed = entry_lines(entries, verbose).push(summary(label, entries));
    let hinted = if stale_count(entries) > 0 {
        listed.push(
            "  "@ + decimal(stale_count(entries))
                + " item(s) are no longer declared; pass --retract to remove them."@,
        )
    } else {
        listed
    };
    if count(entries, |d: Decision| d is Refuse) > 0 {
        hinted.push("  Nothing was overwritten. Pass --force to overwrite anyway."@)
    } else {
        hinted
    }
}

/// The lines of the report: one per item, then a summary.
pub fn report_lines(label: &str, report: &Report, verbose: bool) -> (lines: Vec<String>)
    ensures
        texts(lines@) == report_text(label@, report@, verbose),
{
    let ghost all = report@;
    let mut lines: Vec<String> = Vec::new();
    let mut left: u64 = 0;
    let mut i: usize = 0;
    assert(texts(lines@) =~= entry_lines(all.take(0), verbose));
    while i < report.entries.len()
        invariant
            i <= report.entries@.len(),
            all == report@,
            left <= i,
            left == stale_count(all.take(i as int)),
            texts(lines@) == entry_lines(all.take(i as int), verbose),
        decreases report.entries@.len() - i,
    {
        let e = &report.entries[i];
        assert(all.take(i + 1).drop_last() =~= all.take(i as int));
        assert(all.take(i + 1).last() == e@);
        if suppressed_retraction(e) {
            left += 1;
        }
        if !matches!(e.decision, Decision::Skip) || verbose || suppressed_retraction(e) {
            push_line(&mut lines, line_for(e));
        }
        i += 1;
    }
    assert(all.take(i as int) =~= all);

    let t = report.tally();
    let mut s = concat(label, ": added=");
    s.append(decimal_text(t.added as u64).as_str());
    s.append(" updated=");
    s.append(decimal_text(t.updated as u64).as_str());
    s.append(" skipped=");
    s.append(decimal_text(t.skipped as u64).as_str());
    s.append(" retracted=");
    s.append(decimal_text(t.retracted as u64).as_str());
    s.append(" refused=");
    s.append(decimal_text(t.refused as u64).as_str());
    push_line(&mut lines, s);

    if left > 0 {
        let mut hint = concat("  ", decimal_text(left).as_str());
        hint.append(" item(s) are no longer declared; pass --retract to remove them.");
        push_line(&mut lines, hint);
    }
    if t.refused > 0 {
        push_line(
            &mut lines,
            "  Nothing was overwritten. Pass --force to overwrite anyway.".to_owned(),
        );
    }
    lines
}

fn push_line(lines: &mut Vec<String>, line: String)
    ensures
        texts(final(lines)@) == texts(old(lines)@).push(line@),
{
    let ghost before = texts(lines@);
    let ghost seen = line@;
    lines.push(line);
    assert(texts(lines@) =~= before.push(seen));
}

/// What an invocation says about the items of a JSON document to manage.
#[derive(Debug, Clone)]
pub struct MergeArgs {
    /// Dotted path in the target, such as `env` or `permissions.deny`.
    pub key: String,
    /// JSON document to declare from.
    pub fragment: String,
    /// Path inside the fragment. Defaults to the key, so a fragment can keep the
    /// same shape as the target and carry extra keys alongside.
    pub fragment_key: Option<String>,
    /// Use the whole fragment document as the declared value.
    pub fragment_root: bool,
    /// What every invocation says.
    pub common: Common,
}

impl MergeArgs {
    /// Where in the fragment the declaration is.
    pub open spec fn fragment_path(self) -> Path {
        if self.fragment_root {
            Seq::empty()
        } else {
            match self.fragment_key {
                Some(path) => segments(path@),
                None => segments(self.key@),
            }
        }
    }

    /// What the target is called in messages.
    pub open spec fn target_name(self) -> Seq<char> {
        match self.common.file {
            Some(name) => name@,
            None => "<stdin>"@,
        }
    }

    /// The declaration in a fragment.
    pub open spec fn declaration(self, fragment: Tree) -> Result<Tree, Failure> {
        match walk(fragment, self.fragment_path(), 0) {
            Walk::Found(t) => Ok(t),
            _ => Err(
                Failure::Invalid(
                    self.fragment@ + " declares nothing at `"@ + shown(self.fragment_path())
                        + "`"@,
                ),
            ),
        }
    }

    /// The document to manage, from a fragment and a target already read.
    pub open spec fn managed(
        self,
        fragment: Tree,
        target: Result<Tree, Seq<char>>,
        prior: Seq<ItemView>,
    ) -> Result<DocView, Failure> {
        match self.declaration(fragment) {
            Err(e) => Err(e),
            Ok(declaration) => match target {
                Err(message) => Err(Failure::Parse { path: self.target_name(), message }),
                Ok(root) => Ok(
                    DocView { root, leaves: leaves(segments(self.key@), declaration), prior },
                ),
            },
        }
    }

    /// The value the fragment declares.
    pub fn select<'a>(&self, fragment: &'a Json) -> (r: Result<&'a Json, Error>)
        ensures
            match r {
                Ok(v) => self.declaration(fragment@) == Ok::<Tree, Failure>(v@),
                Err(e) => self.declaration(fragment@) == Err::<Tree, Failure>(e@),
            },
    {
        let segs: Vec<String> = if self.fragment_root {
            let none: Vec<String> = Vec::new();
            assert(texts(none@) =~= Seq::<Seq<char>>::empty());
            none
        } else {
            match &self.fragment_key {
                Some(path) => split_path(path.as_str()),
                None => split_path(self.key.as_str()),
            }
        };
        match get_path(fragment, segs.as_slice()) {
            Some(v) => Ok(v),
            None => {
                let mut message = concat(self.fragment.as_str(), " declares nothing at `");
                message.append(display_path(segs.as_slice()).as_str());
                message.append("`");
                Err(Error::invalid(message))
            },
        }
    }
}

/// Put the document to manage together: the declaration out of the fragment, the
/// target as it was read, and what a previous run recorded.
pub fn build_merge(
    args: &MergeArgs,
    target_text: &str,
    fragment_text: &str,
    prior: Vec<Item>,
) -> (r: Result<JsonDoc, Error>)
    ensures
        match parsed(fragment_text@) {
            Err(message) => r is Err && r->Err_0@ == (Failure::Parse {
                path: args.fragment@,
                message,
            }),
            Ok(fragment) => match args.managed(
                fragment,
                opened(target_text@),
                item_views(prior@),
            ) {
                Ok(doc) => r is Ok && r->Ok_0@ == doc && doc.ok(),
                Err(e) => r is Err && r->Err_0@ == e,
            },
        },
{
    let fragment = match read(fragment_text) {
        Ok(fragment) => fragment,
        Err(message) => {
            return Err(Error::parse(args.fragment.as_str(), message));
        },
    };
    let declaration = match args.select(&fragment) {
        Ok(declaration) => declaration,
        Err(e) => {
            return Err(e);
        },
    };
    proof {
        lemma_walk_well_formed(fragment@, args.fragment_path(), 0);
    }
    let key = split_path(args.key.as_str());
    let name = match &args.common.file {
        Some(name) => name.as_str(),
        None => "<stdin>",
    };
    JsonDoc::new(target_text, name, declaration, key.as_slice(), prior)
}

/// What is known of a target: what is recorded for it, and nothing without one.
pub open spec fn known(target: Option<Seq<char>>, ledger: Ledger) -> Seq<ItemView> {
    match target {
        Some(key) => recorded(ledger, key),
        None => Seq::empty(),
    }
}

/// What a previous run recorded for this target.
///
/// Empty without a target path, since there is nothing to key the record on.
/// That leaves every item unclaimed, which the decision table handles by
/// degrading to add-only.
pub fn load_prior(target: Option<&str>, record: &Store) -> (items: Vec<Item>)
    ensures
        item_views(items@) == known(
            match target {
                Some(key) => Some(key@),
                None => None,
            },
            record@.ledger,
        ),
{
    match target {
        Some(key) => record.items(key),
        None => {
            let none: Vec<Item> = Vec::new();
            assert(item_views(none@) =~= Seq::empty());
            none
        },
    }
}

/// Where the rendered document goes.
#[derive(Debug, Clone, Copy, PartialEq, Eq, Structural)]
pub enum Destination {
    /// Nowhere.
    Nowhere,
    /// To standard output.
    Output,
    /// Into the target file.
    File,
}

/// What is left to do once a run is over.
#[derive(Debug, Clone, Copy, PartialEq, Eq, Structural)]
pub struct Aftermath {
    /// Where the rendered document goes.
    pub destination: Destination,
    /// Whether what is now claimed is recorded.
    pub record: bool,
    /// The exit status.
    pub code: u8,
}

/// The exit status of a run that was carried out: drift where something was refused.
pub open spec fn exit_status(entries: Seq<EntryView>) -> u8 {
    if exists|i: int| 0 <= i < entries.len() && (#[trigger] entries[i]).decision is Refuse {
        EXIT_DRIFT
    } else {
        EXIT_OK
    }
}

/// Decide what is left to do once a run is over.
///
/// `before` is the text the target was read from. The file is written whenever
/// the rendered document differs from it, and left alone otherwise rather than
/// rewriting identical bytes and moving its modification time.
pub fn aftermath(common: &Common, before: &str, report: &Report, output: &Output) -> (r: Result<
    Aftermath,
    Error,
>)
    ensures
        match r {
            Ok(a) => {
                &&& !common.applies_without_file()
                &&& a.destination == common.destination(output@.document != before@)
                &&& a.record == common.records(output@.prior is Some)
                &&& a.code == exit_status(report@)
            },
            Err(e) => {
                &&& common.applies_without_file()
                &&& e@ == Failure::Invalid("--in-place needs --file"@)
            },
        },
{
    let destination = if common.check {
        Destination::Nowhere
    } else if !common.in_place {
        Destination::Output
    } else if common.file.is_none() {
        return Err(Error::invalid("--in-place needs --file"));
    } else if output.document != before.to_owned() {
        Destination::File
    } else {
        Destination::Nowhere
    };
    let code: u8 = if report.has_drift() {
        EXIT_DRIFT
    } else {
        EXIT_OK
    };
    let record = common.applies() && common.file.is_some() && output.prior.is_some();
    Ok(Aftermath { destination, record, code })
}

impl Common {
    /// Whether the result is to be written back and there is no file to write.
    pub open spec fn applies_without_file(self) -> bool {
        self.in_place && !self.check && self.file is None
    }

    /// Where a rendered document goes, which differs from what was read or not.
    pub open spec fn destination(self, differs: bool) -> Destination {
        if self.check {
            Destination::Nowhere
        } else if !self.in_place {
            Destination::Output
        } else if differs {
            Destination::File
        } else {
            Destination::Nowhere
        }
    }

    /// Whether what a run claims is recorded, where it hands a record back or
    /// not.
    pub open spec fn records(self, handed_back: bool) -> bool {
        self.in_place && !self.check && self.file is Some && handed_back
    }
}

/// **Law.** A check writes nothing and records nothing. What is only printed is
/// not recorded.
pub proof fn law_a_check_is_read_only(common: Common, differs: bool, handed_back: bool)
    ensures
        common.check ==> common.destination(differs) is Nowhere && !common.records(handed_back),
        common.destination(differs) is Output ==> !common.records(handed_back),
{
}

} // verus!
