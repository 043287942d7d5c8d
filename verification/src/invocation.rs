//! What holds of an invocation as a whole.
//!
//! The laws below say what the command line front end promises: that the
//! declaration is the one the fragment holds and goes below the key it was given
//! for, that the result goes where it was asked for and is recorded only then, and
//! that the report tells what was done.

use crate::adapter::expansion::{
    declared_at, law_items_stand_in_declaration_order, law_nothing_else_is_declared, single,
};
use crate::adapter::json::JsonDoc;
use crate::adapter::laws::path_of;
use crate::adapter::model::{key_leaf, leaves, DocView};
use crate::adapter::path::{addressable, law_a_dotted_path_denotes_its_keys, segments, shown, Place};
use crate::adapter::promises::{law_the_whole_declaration_is_applied, manages, told_apart};
use crate::canon::canonical_form;
use crate::cli::{
    detail, entry_lines, exit_status, has_line, known, line, report_text, stale, stale_count,
    summary, worth_showing, Common, EXIT_FAIL, MergeArgs,
};
use crate::engine::{count, last_repr, ran, EntryView, Options};
use crate::error::Failure;
use crate::policy::{decision_label, Decision};
use crate::port::{shortened, ItemView, OutputView, Store};
use crate::prior::{amended, in_sorted_order, law_what_is_set_is_recorded, Ledger};
use crate::text::{decimal, joined, law_padding_fills_with_blanks, lemma_occurs, occurs_in, padded};
use crate::tree::{
    holds_at, law_a_walk_finds_what_is_there, lemma_walk_well_formed, well_formed, Path, Tree,
};
use vstd::prelude::*;

verus! {

/// **Law.** The result goes where it was asked for. A check writes nothing. In place,
/// the file is written exactly where the document differs from what was read.
/// Otherwise the result is printed. Nothing else the invocation says counts.
pub proof fn law_the_result_goes_where_it_was_asked_for(
    common: Common,
    other: Common,
    differs: bool,
)
    ensures
        common.check ==> common.destination(differs) is Nowhere,
        !common.check && !common.in_place ==> common.destination(differs) is Output,
        !common.check && common.in_place ==> (common.destination(differs) is File <==> differs),
        !common.check && common.in_place && !differs ==> common.destination(differs) is Nowhere,
        common.check == other.check && common.in_place == other.in_place ==> common.destination(
            differs,
        ) == other.destination(differs),
{
}

/// **Law.** What is recorded as written is in the file: there is a record exactly
/// where a file is written in place, and then it holds the document.
pub proof fn law_what_is_recorded_is_in_the_file(
    common: Common,
    differs: bool,
    handed_back: bool,
)
    ensures
        common.records(handed_back) <==> common.in_place && !common.check && common.file is Some
            && handed_back,
        common.records(handed_back) && differs ==> common.destination(differs) is File,
        common.records(handed_back) ==> !(common.destination(differs) is Output),
        common.applies_without_file() <==> common.in_place && !common.check && common.file is None,
        common.applies_without_file() ==> !common.records(handed_back),
{
}

/// **Law.** The declaration is what the fragment holds: the whole of it where that was
/// asked for, and otherwise the value at the fragment's own key, or at the key of the
/// target where there is none. There is no declaration where the fragment holds
/// nothing there.
pub proof fn law_the_declaration_is_in_the_fragment(args: MergeArgs, fragment: Tree, v: Tree)
    requires
        well_formed(fragment),
    ensures
        args.fragment_root ==> args.declaration(fragment) == Ok::<Tree, Failure>(fragment),
        !args.fragment_root && args.fragment_key is None ==> (args.declaration(fragment) == Ok::<
            Tree,
            Failure,
        >(v) <==> holds_at(fragment, segments(args.key@), v)),
        !args.fragment_root && args.fragment_key is Some ==> (args.declaration(fragment) == Ok::<
            Tree,
            Failure,
        >(v) <==> holds_at(fragment, segments(args.fragment_key->0@), v)),
        args.declaration(fragment) matches Err(e) ==> e is Invalid && occurs_in(
            args.fragment@,
            e->Invalid_0,
        ),
{
    let path = args.fragment_path();
    law_a_walk_finds_what_is_there(fragment, path, v);
    if let Err(e) = args.declaration(fragment) {
        let rest = " declares nothing at `"@ + shown(path) + "`"@;
        lemma_occurs(Seq::empty(), args.fragment@, rest);
        assert(Seq::<char>::empty() + args.fragment@ + rest =~= e->Invalid_0);
    }
}

/// **Law.** A merge manages the target it was given, with the record it was given, and
/// with items that all lie below the key: a single declared value is the one item, at
/// that very path. A dotted text gives its keys as the key, with a dot in front or
/// without.
pub proof fn law_a_merge_is_rooted_at_its_key(
    args: MergeArgs,
    path: Path,
    fragment: Tree,
    root: Tree,
    prior: Seq<ItemView>,
    doc: DocView,
)
    requires
        addressable(path),
        args.key@ == joined(path, seq!['.']) || args.key@ == seq!['.'] + joined(path, seq!['.']),
        args.managed(fragment, Ok(root), prior) == Ok::<DocView, Failure>(doc),
    ensures
        doc.root == root,
        doc.prior == prior,
        args.declaration(fragment) is Ok,
        forall|i: int|
            0 <= i < doc.leaves.len() ==> {
                &&& path_of((#[trigger] doc.leaves[i]).place).len() >= path.len()
                &&& path_of(doc.leaves[i].place).take(path.len() as int) == path
            },
        single(args.declaration(fragment)->Ok_0) ==> {
            &&& doc.leaves.len() == 1
            &&& doc.leaves[0].place == Place::Key(path)
            &&& doc.leaves[0].value == args.declaration(fragment)->Ok_0
        },
        args.declaration(fragment)->Ok_0 matches Tree::Array(a) ==> a.len() > 0 ==> {
            &&& doc.leaves.len() == a.len()
            &&& forall|i: int|
                0 <= i < a.len() ==> (#[trigger] doc.leaves[i]).place == (Place::Element {
                    path,
                    repr: canonical_form(a[i]),
                }) && doc.leaves[i].value == a[i]
        },
{
    law_a_dotted_path_denotes_its_keys(path);
    let declaration = args.declaration(fragment)->Ok_0;
    assert(doc.leaves == leaves(path, declaration));
    assert forall|i: int| 0 <= i < doc.leaves.len() implies path_of(
        (#[trigger] doc.leaves[i]).place,
    ).len() >= path.len() && path_of(doc.leaves[i].place).take(path.len() as int) == path by {
        law_nothing_else_is_declared(path, declaration, i);
        let q = choose|q: Path| #[trigger]
            declared_at(path, declaration, leaves(path, declaration)[i], q);
        assert(path_of(doc.leaves[i].place) == path + q);
        assert((path + q).take(path.len() as int) =~= path);
    }
    if single(declaration) {
        law_items_stand_in_declaration_order(
            path,
            Seq::empty(),
            Seq::empty(),
            Seq::empty(),
            0,
            declaration,
        );
        assert(leaves(path, declaration) == seq![key_leaf(path, declaration)]);
    }
}

/// **Law.** Whatever the key, a merge manages the target it was given, with the record it
/// was given, and with the items of the declaration at the path the key denotes: none
/// of them lies anywhere else, and a single value is the one item, at that very path.
pub proof fn law_a_merge_stays_below_its_key(
    args: MergeArgs,
    fragment: Tree,
    root: Tree,
    prior: Seq<ItemView>,
    doc: DocView,
    i: int,
)
    requires
        args.managed(fragment, Ok(root), prior) == Ok::<DocView, Failure>(doc),
    ensures
        doc.root == root,
        doc.prior == prior,
        args.declaration(fragment) is Ok,
        0 <= i < doc.leaves.len() ==> exists|q: Path| #[trigger]
            declared_at(
                segments(args.key@),
                args.declaration(fragment)->Ok_0,
                doc.leaves[i],
                q,
            ),
        single(args.declaration(fragment)->Ok_0) ==> doc.leaves.len() == 1 && doc.leaves[0].place
            == Place::Key(segments(args.key@)),
{
    let declaration = args.declaration(fragment)->Ok_0;
    let key = segments(args.key@);
    if 0 <= i < doc.leaves.len() {
        law_nothing_else_is_declared(key, declaration, i);
    }
    if single(declaration) {
        assert(leaves(key, declaration) == seq![key_leaf(key, declaration)]);
    }
}

/// **Law.** What cannot be managed is said: a fragment that declares nothing where it
/// was looked for, and a target that cannot be read, which is named by its file. In
/// every other case there is a document to manage.
pub proof fn law_what_cannot_be_managed_is_said(
    args: MergeArgs,
    fragment: Tree,
    target: Result<Tree, Seq<char>>,
    prior: Seq<ItemView>,
)
    ensures
        args.managed(fragment, target, prior) is Ok <==> args.declaration(fragment) is Ok && target
            is Ok,
        args.declaration(fragment) is Err ==> args.managed(fragment, target, prior) is Err
            && args.managed(fragment, target, prior)->Err_0 == args.declaration(fragment)->Err_0,
        args.declaration(fragment) is Ok && target is Err ==> args.managed(fragment, target, prior)
            == Err::<DocView, Failure>(
            Failure::Parse {
                path: if args.common.file is Some {
                    args.common.file->0@
                } else {
                    "<stdin>"@
                },
                message: target->Err_0,
            },
        ),
{
}

/// **Law.** A merge does what it is for. The fragment holds a value at the key, and the
/// run over the document refused nothing. Then the document holds, below the key,
/// every scalar and empty container of that value where the value holds it.
pub proof fn law_a_merge_puts_the_declaration_in_the_target(
    args: MergeArgs,
    path: Path,
    fragment: Tree,
    declaration: Tree,
    before: JsonDoc,
    opts: Options,
    after: JsonDoc,
    report: Seq<EntryView>,
    output: OutputView,
    q: Path,
    v: Tree,
)
    requires
        addressable(path),
        args.key@ == joined(path, seq!['.']),
        args.fragment_key is None,
        !args.fragment_root,
        well_formed(fragment),
        holds_at(fragment, path, declaration),
        args.managed(fragment, Ok(before@.root), before@.prior) == Ok::<DocView, Failure>(before@),
        before.inv(),
        told_apart(before@.leaves),
        ran(before, opts, after, Ok((report, output))),
        forall|i: int|
            0 <= i < report.len() ==> !((#[trigger] report[i]).decision is Refuse)
                && !(report[i].decision is Retract),
        holds_at(declaration, q, v),
        single(v),
    ensures
        exists|w: Tree| #[trigger]
            holds_at(after@.root, path + q, w) && canonical_form(w) == canonical_form(v),
{
    law_a_dotted_path_denotes_its_keys(path);
    law_the_declaration_is_in_the_fragment(args, fragment, declaration);
    law_a_walk_finds_what_is_there(fragment, path, declaration);
    lemma_walk_well_formed(fragment, path, 0);
    assert(manages(before, path, declaration));
    law_the_whole_declaration_is_applied(
        path,
        declaration,
        before,
        opts,
        after,
        report,
        output,
        q,
        v,
        Seq::empty(),
        0,
    );
}

/// What an entry is called at the start of its line.
pub open spec fn called(e: EntryView) -> Seq<char> {
    if e.decision is Skip && e.overridden {
        "stale"@
    } else {
        decision_label(e.decision)
    }
}

proof fn lemma_called(e: EntryView)
    ensures
        called(e).len() <= 11,
{
    reveal_strlit("add");
    reveal_strlit("skip");
    reveal_strlit("update");
    reveal_strlit("retract");
    reveal_strlit("conflict");
    reveal_strlit("hand-edited");
    reveal_strlit("removed");
    reveal_strlit("stale");
}

/// **Law.** A line begins with what was done, in a column of its own, followed by the
/// address. A withdrawal that was not asked for is called stale.
pub proof fn law_a_line_names_the_decision_and_the_item(e: EntryView)
    ensures
        line(e).len() >= 12 + e.addr.len(),
        called(e).len() <= 11,
        line(e).take(called(e).len() as int) == called(e),
        forall|i: int| called(e).len() <= i < 12 ==> #[trigger] line(e)[i] == ' ',
        line(e).subrange(12, 12 + e.addr.len() as int) == e.addr,
{
    lemma_called(e);
    reveal_strlit(" ");
    let head = padded(called(e), 11);
    law_padding_fills_with_blanks(called(e), 11);
    assert(line(e).take(11) =~= head);
    assert(line(e).take(called(e).len() as int) =~= head.take(called(e).len() as int));
    assert forall|i: int| called(e).len() <= i < 12 implies #[trigger] line(e)[i] == ' ' by {
        if i < 11 {
            assert(line(e).take(11)[i] == head[i]);
        }
    }
    assert(line(e).subrange(12, 12 + e.addr.len() as int) =~= e.addr);
}

/// What a line says behind the address.
pub open spec fn told(e: EntryView) -> Seq<char> {
    line(e).skip(12 + e.addr.len() as int)
}

proof fn lemma_told(e: EntryView)
    ensures
        told(e) == detail(e) + (match e.note {
            Some(note) => " ("@ + note + ")"@,
            None => Seq::empty(),
        }) + (if e.overridden && !stale(e) {
            " (forced)"@
        } else {
            Seq::empty()
        }),
{
    lemma_called(e);
    reveal_strlit(" ");
    law_padding_fills_with_blanks(called(e), 11);
    let note: Seq<char> = match e.note {
        Some(note) => " ("@ + note + ")"@,
        None => Seq::empty(),
    };
    let forced: Seq<char> = if e.overridden && !stale(e) {
        " (forced)"@
    } else {
        Seq::empty()
    };
    let head = padded(called(e), 11) + " "@ + e.addr;
    assert(head.len() == 12 + e.addr.len());
    assert(line(e) =~= head + (detail(e) + note + forced));
    assert(told(e) =~= detail(e) + note + forced);
}

/// **Law.** A line tells the values of its item. An update shows what was there and what
/// is there now, a refusal what was kept and what is declared, and everything else the
/// declared value, or where there is none the one that is there. A note stands behind
/// in brackets, and a forced change is marked. There is nothing else on a line.
pub proof fn law_a_line_tells_the_values(e: EntryView)
    requires
        e.note is None,
        !e.overridden || stale(e),
    ensures
        e.decision is Update && e.observed is Some && e.declared is Some ==> told(e) == " "@
            + shortened(e.observed->0, 40) + " -> "@ + shortened(e.declared->0, 40),
        e.decision is Refuse && e.observed is Some && e.declared is Some ==> told(e) == ": kept "@
            + shortened(e.observed->0, 40) + (", declared "@ + shortened(e.declared->0, 40)),
        e.decision is Update && (e.observed is None || e.declared is None) ==> told(e).len() == 0,
        e.decision is Refuse && e.observed is None && e.declared is Some ==> told(e)
            == ", declared "@ + shortened(e.declared->0, 40),
        e.decision is Refuse && e.observed is Some && e.declared is None ==> told(e) == ": kept "@
            + shortened(e.observed->0, 40),
        e.decision is Refuse && e.observed is None && e.declared is None ==> told(e).len() == 0,
        (e.decision is Add || e.decision is Skip || e.decision is Retract) && e.declared is Some
            ==> told(e) == " "@ + shortened(e.declared->0, 60),
        (e.decision is Add || e.decision is Skip || e.decision is Retract) && e.declared is None
            && e.observed is Some ==> told(e) == " "@ + shortened(e.observed->0, 60),
        (e.decision is Add || e.decision is Skip || e.decision is Retract) && e.declared is None
            && e.observed is None ==> told(e).len() == 0,
{
    lemma_told(e);
    assert(told(e) =~= detail(e));
}

/// **Law.** A note and a forced change add to a line what they say and no more: the line
/// is the one without them, with the note in brackets and the mark behind.
pub proof fn law_notes_and_force_are_told(e: EntryView, plain: EntryView)
    requires
        plain == (EntryView { note: None, overridden: false, ..e }),
        !stale(e),
    ensures
        line(e) == line(plain) + (if e.note is Some {
            " ("@ + e.note->0 + ")"@
        } else {
            Seq::empty()
        }) + (if e.overridden {
            " (forced)"@
        } else {
            Seq::empty()
        }),
{
    assert(detail(e) == detail(plain));
    assert(line(plain) =~= padded(decision_label(e.decision), 11) + " "@ + e.addr + detail(e));
    assert(line(e) =~= line(plain) + (if e.note is Some {
        " ("@ + e.note->0 + ")"@
    } else {
        Seq::empty()
    }) + (if e.overridden {
        " (forced)"@
    } else {
        Seq::empty()
    }));
}

/// **Law.** A note adds to the line of a stale item what it says and no more.
pub proof fn law_a_note_on_a_stale_item_is_told(e: EntryView, plain: EntryView)
    requires
        plain == (EntryView { note: None, ..e }),
        e.decision is Skip,
        e.overridden,
        e.note is Some,
    ensures
        line(e) == line(plain) + (" ("@ + e.note->0 + ")"@),
{
    assert(detail(e) == detail(plain));
    assert(line(plain) =~= padded("stale"@, 11) + " "@ + e.addr + detail(e));
    assert(line(e) =~= line(plain) + (" ("@ + e.note->0 + ")"@));
}

/// **Law.** What is worth showing of an item is the declared value, and where there is none
/// the one that is there.
pub proof fn law_the_declared_value_is_worth_showing(e: EntryView)
    ensures
        e.declared is Some ==> worth_showing(e) == e.declared,
        e.declared is None ==> worth_showing(e) == e.observed,
        stale(e) <==> e.decision is Skip && e.overridden,
        has_line(e, true),
        has_line(e, false) <==> !(e.decision is Skip && !e.overridden),
{
}

/// **Law.** An invocation goes by what is recorded for its target and for no other, and
/// knows of nothing where it has no target: an item is known exactly where the last
/// record made for the target has it.
pub proof fn law_an_invocation_knows_its_own_target(
    ledger: Ledger,
    target: Seq<char>,
    other: Seq<char>,
    items: Seq<ItemView>,
    item: ItemView,
)
    requires
        in_sorted_order(ledger),
    ensures
        known(None, ledger).len() == 0,
        known(Some(target), amended(ledger, target, items)).contains(item) <==> last_repr(
            items,
            item.addr,
        ) == Some(item.repr),
        other != target ==> known(Some(other), amended(ledger, target, items)) == known(
            Some(other),
            ledger,
        ),
{
    law_what_is_set_is_recorded(ledger, target, items, other);
}

/// **Law.** The exit status tells drift from success, and neither from a failure: it is
/// that of drift exactly where the report has a refusal.
pub proof fn law_the_exit_status_tells_drift(entries: Seq<EntryView>)
    ensures
        exit_status(entries) == 2 <==> exists|i: int|
            0 <= i < entries.len() && (#[trigger] entries[i]).decision is Refuse,
        exit_status(entries) == 0 || exit_status(entries) == 2,
        exit_status(entries) != EXIT_FAIL,
        EXIT_FAIL != 0,
{
}

/// **Law.** The report has a line for every item in order, except for the ones that were
/// in place already, which are listed on request and where a withdrawal was skipped.
pub proof fn law_the_report_lists_every_change(
    a: Seq<EntryView>,
    b: Seq<EntryView>,
    e: EntryView,
    verbose: bool,
)
    ensures
        entry_lines(a + b, verbose) == entry_lines(a, verbose) + entry_lines(b, verbose),
        entry_lines(seq![e], verbose) == if e.decision is Skip && !e.overridden && !verbose {
            Seq::empty()
        } else {
            seq![line(e)]
        },
        stale_count(a + b) == stale_count(a) + stale_count(b),
        stale_count(seq![e]) == if e.decision is Skip && e.overridden {
            1nat
        } else {
            0nat
        },
    decreases b.len(),
{
    assert(seq![e].drop_last() =~= Seq::<EntryView>::empty());
    assert(entry_lines(Seq::<EntryView>::empty(), verbose) =~= Seq::empty());
    assert(stale_count(Seq::<EntryView>::empty()) == 0);
    assert(Seq::<Seq<char>>::empty().push(line(e)) =~= seq![line(e)]);
    if b.len() == 0 {
        assert(a + b =~= a);
        assert(entry_lines(a, verbose) + entry_lines(b, verbose) =~= entry_lines(a, verbose));
    } else {
        law_the_report_lists_every_change(a, b.drop_last(), e, verbose);
        assert((a + b).drop_last() =~= a + b.drop_last());
        assert(entry_lines(a + b, verbose) =~= entry_lines(a, verbose) + entry_lines(b, verbose));
    }
}

/// **Law.** Behind the lines for the items stands the summary, and behind that what can
/// be done: withdraw what is stale, where something is, and force what was refused,
/// where something was.
pub proof fn law_the_report_ends_with_what_can_be_done(
    label: Seq<char>,
    entries: Seq<EntryView>,
    verbose: bool,
)
    ensures
        ({
            let lines = report_text(label, entries, verbose);
            let listed = entry_lines(entries, verbose);
            let n = listed.len() as int;
            let left = stale_count(entries) > 0;
            let refused = count(entries, |d: Decision| d is Refuse) > 0;
            &&& lines.len() == n + 1 + (if left {
                1int
            } else {
                0
            }) + (if refused {
                1int
            } else {
                0
            })
            &&& lines.take(n) == listed
            &&& lines[n] == summary(label, entries)
            &&& left ==> lines[n + 1] == "  "@ + decimal(stale_count(entries))
                + " item(s) are no longer declared; pass --retract to remove them."@
            &&& refused ==> lines.last()
                == "  Nothing was overwritten. Pass --force to overwrite anyway."@
        }),
{
    let listed = entry_lines(entries, verbose);
    assert(report_text(label, entries, verbose).take(listed.len() as int) =~= listed);
}

proof fn lemma_ends_with(p: Seq<char>, x: Seq<char>, a: Seq<char>, y: Seq<char>)
    ensures
        occurs_in(x + a + y, p + x + a + y),
{
    let part = x + a + y;
    let s = p + x + a + y;
    assert(s.len() == p.len() + part.len());
    assert forall|k: int| 0 <= k < part.len() implies part[k] == s[p.len() + k] by {}
    let i = p.len() as int;
    assert(s.subrange(i, i + part.len()) =~= part);
}

proof fn lemma_occurs_further(part: Seq<char>, s: Seq<char>, t: Seq<char>)
    requires
        occurs_in(part, s),
    ensures
        occurs_in(part, s + t),
{
    let i = choose|i: int|
        0 <= i <= s.len() - part.len() && #[trigger] s.subrange(i, i + part.len()) == part;
    assert((s + t).subrange(i, i + part.len()) =~= s.subrange(i, i + part.len()));
}

proof fn lemma_begins_with(p: Seq<char>, x: Seq<char>, a: Seq<char>, y: Seq<char>, b: Seq<char>)
    ensures
        (p + x + a + y + b).take(p.len() as int) == p,
        (p + x + a + y + b).len() >= p.len(),
{
    assert((p + x + a + y + b).take(p.len() as int) =~= p);
}

proof fn lemma_last_two(p: Seq<char>, x: Seq<char>, a: Seq<char>)
    ensures
        (p + x + a).skip((p + x + a).len() - a.len() - x.len()) == x + a,
{
    assert((p + x + a).skip((p + x + a).len() - a.len() - x.len()) =~= x + a);
}

/// **Law.** The summary tells how many items got each outcome, each count under its own
/// name, and begins with the label.
pub proof fn law_the_summary_tells_every_count(label: Seq<char>, entries: Seq<EntryView>)
    ensures
        ({
            let s = summary(label, entries);
            let added = decimal(count(entries, |d: Decision| d is Add));
            let updated = decimal(count(entries, |d: Decision| d is Update));
            let skipped = decimal(count(entries, |d: Decision| d is Skip));
            let retracted = decimal(count(entries, |d: Decision| d is Retract));
            let refused = decimal(count(entries, |d: Decision| d is Refuse));
            &&& s.take(label.len() as int) == label
            &&& occurs_in(": added="@ + added + " updated="@, s)
            &&& occurs_in(" updated="@ + updated + " skipped="@, s)
            &&& occurs_in(" skipped="@ + skipped + " retracted="@, s)
            &&& occurs_in(" retracted="@ + retracted + " refused="@, s)
            &&& s.skip(s.len() - refused.len() - " refused="@.len()) == " refused="@ + refused
        }),
{
    let s = summary(label, entries);
    let added = decimal(count(entries, |d: Decision| d is Add));
    let updated = decimal(count(entries, |d: Decision| d is Update));
    let skipped = decimal(count(entries, |d: Decision| d is Skip));
    let retracted = decimal(count(entries, |d: Decision| d is Retract));
    let refused = decimal(count(entries, |d: Decision| d is Refuse));
    let p1 = label + ": added="@ + added;
    let p2 = p1 + " updated="@ + updated;
    let p3 = p2 + " skipped="@ + skipped;
    let p4 = p3 + " retracted="@ + retracted;
    let first = ": added="@ + added + " updated="@;
    let second = " updated="@ + updated + " skipped="@;
    let third = " skipped="@ + skipped + " retracted="@;
    let fourth = " retracted="@ + retracted + " refused="@;
    lemma_ends_with(label, ": added="@, added, " updated="@);
    lemma_occurs_further(first, p1 + " updated="@, updated);
    lemma_ends_with(p1, " updated="@, updated, " skipped="@);
    lemma_occurs_further(first, p2, " skipped="@);
    lemma_occurs_further(first, p2 + " skipped="@, skipped);
    lemma_occurs_further(second, p2 + " skipped="@, skipped);
    lemma_ends_with(p2, " skipped="@, skipped, " retracted="@);
    lemma_occurs_further(first, p3, " retracted="@);
    lemma_occurs_further(second, p3, " retracted="@);
    lemma_occurs_further(first, p3 + " retracted="@, retracted);
    lemma_occurs_further(second, p3 + " retracted="@, retracted);
    lemma_occurs_further(third, p3 + " retracted="@, retracted);
    lemma_ends_with(p3, " retracted="@, retracted, " refused="@);
    lemma_occurs_further(first, p4, " refused="@);
    lemma_occurs_further(second, p4, " refused="@);
    lemma_occurs_further(third, p4, " refused="@);
    lemma_occurs_further(first, p4 + " refused="@, refused);
    lemma_occurs_further(second, p4 + " refused="@, refused);
    lemma_occurs_further(third, p4 + " refused="@, refused);
    lemma_occurs_further(fourth, p4 + " refused="@, refused);
    lemma_begins_with(label, ": added="@, added, " updated="@, updated);
    lemma_begins_with(p2, " skipped="@, skipped, " retracted="@, retracted);
    lemma_last_two(p4, " refused="@, refused);
    assert(s.take(label.len() as int) =~= p2.take(label.len() as int));
}

} // verus!
