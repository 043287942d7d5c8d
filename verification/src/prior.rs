//! Provenance for representations that cannot hold it inline.
//!
//! Deciding whether a value is this tool's to change requires remembering what
//! it wrote. A JSON document cannot hold that record: JSON has no comments, and
//! adding a reserved key would be a change to another program's document that
//! the program never asked for and may reject outright.
//!
//! So the record goes in a file of this tool's own. Reading and writing that
//! file is the caller's part; this module holds what is in it.
//!
//! # When it is missing
//!
//! A run whose record is unavailable (never created, deleted, or a target read
//! from standard input and so having no path to key on) sees every item as
//! [`Ownership::Unknown`](crate::port::Ownership::Unknown). The decision table
//! then allows only adding what is absent and agreeing with what already
//! matches, so the run degrades to add-only. Capability is lost; data is not.
//! The first run after that re-adopts every item it still agrees with.
//!
//! # Format
//!
//! ```json
//! {
//!   "version": 1,
//!   "targets": {
//!     "/home/me/.config/some-app/settings.json": {
//!       "env.EDITOR": "\"hx\""
//!     }
//!   }
//! }
//! ```
//!
//! Targets are keyed by absolute path, and each holds a map from address to the
//! canonical repr that was written. Both maps are written in sorted order so
//! that the file's own diffs stay readable.
//!
//! An unreadable or malformed record is treated as an empty one rather than as a
//! failure: losing provenance costs capability, and refusing to run costs more.

use crate::engine::last_repr;
use crate::error::Error;
use crate::layout::pretty_text;
use crate::port::{item_views, Addr, Item, ItemView, Repr};
use crate::runs::{agreeing, drawn_from, has_addr, lemma_last_repr};
use crate::text::{
    decimal, lemma_precedes_irreflexive, lemma_precedes_total, lemma_precedes_transitive, precedes,
    text_precedes, IntoText,
};
use crate::tree::{
    distinct_keys, entries_in, holds_at, law_a_lookup_finds_the_entry, lemma_key_at_is, lookup,
    well_formed, Entries, Path, Tree,
};
use crate::value::{
    entries_of, integer_text, lemma_object_view, nesting_limit, number_from, pair_texts, parsed,
    position, read, reads_back, render, Json,
};
use vstd::prelude::*;
use vstd::string::*;

verus! {

/// Rows in dictionary order of their keys, none twice.
pub open spec fn ordered<V>(rows: Seq<(Seq<char>, V)>) -> bool {
    forall|i: int, j: int|
        0 <= i < j < rows.len() ==> precedes((#[trigger] rows[i]).0, (#[trigger] rows[j]).0)
}

/// The rows with `key` set to `value`: in the place it had, or where the order
/// puts it.
pub open spec fn entered<V>(rows: Seq<(Seq<char>, V)>, key: Seq<char>, value: V) -> Seq<
    (Seq<char>, V),
>
    decreases rows.len(),
{
    if rows.len() == 0 {
        seq![(key, value)]
    } else if rows.last().0 == key {
        rows.drop_last().push((key, value))
    } else if precedes(key, rows.last().0) {
        entered(rows.drop_last(), key, value).push(rows.last())
    } else {
        rows.push((key, value))
    }
}

/// The rows without the one for `key`.
pub open spec fn dropped<V>(rows: Seq<(Seq<char>, V)>, key: Seq<char>) -> Seq<(Seq<char>, V)>
    decreases rows.len(),
{
    if rows.len() == 0 {
        rows
    } else {
        let before = dropped(rows.drop_last(), key);
        if rows.last().0 == key {
            before
        } else {
            before.push(rows.last())
        }
    }
}

/// The value in the row for `key`.
pub open spec fn row<V>(rows: Seq<(Seq<char>, V)>, key: Seq<char>) -> Option<V>
    decreases rows.len(),
{
    if rows.len() == 0 {
        None
    } else if rows.last().0 == key {
        Some(rows.last().1)
    } else {
        row(rows.drop_last(), key)
    }
}

/// Rows by the characters of their keys.
pub open spec fn keyed<V>(rows: Seq<(String, V)>) -> Seq<(Seq<char>, V)> {
    rows.map_values(|r: (String, V)| (r.0@, r.1))
}

/// Set `key` to `value`: in the place it has, or where the order puts it.
fn enter<V>(rows: &mut Vec<(String, V)>, key: String, value: V)
    ensures
        keyed(final(rows)@) == entered(keyed(old(rows)@), key@, value),
{
    let ghost all = keyed(rows@);
    let mut i: usize = rows.len();
    assert(all.take(i as int) =~= all);
    assert(entered(all.take(i as int), key@, value) + all.skip(i as int) =~= entered(
        all,
        key@,
        value,
    ));
    while i > 0
        invariant
            i <= rows@.len(),
            all == keyed(rows@),
            rows@ == old(rows)@,
            entered(all, key@, value) == entered(all.take(i as int), key@, value) + all.skip(
                i as int,
            ),
        ensures
            i <= rows@.len(),
            i == 0 || (all[i - 1].0 != key@ && !precedes(key@, all[i - 1].0)),
            entered(all, key@, value) == entered(all.take(i as int), key@, value) + all.skip(
                i as int,
            ),
        decreases i,
    {
        let ghost head = all.take(i as int);
        assert(head.last() == all[i - 1]);
        assert(head.drop_last() =~= all.take(i - 1));
        if rows[i - 1].0 == key {
            let ghost seen = (key@, value);
            rows.set(i - 1, (key, value));
            assert(keyed(rows@) =~= head.drop_last().push(seen) + all.skip(i as int));
            return ;
        }
        if !text_precedes(key.as_str(), rows[i - 1].0.as_str()) {
            break ;
        }
        assert(entered(all.take(i - 1), key@, value).push(head.last()) + all.skip(i as int)
            =~= entered(all.take(i - 1), key@, value) + all.skip(i - 1));
        i -= 1;
    }
    let ghost seen = (key@, value);
    assert(entered(all.take(i as int), key@, value) =~= all.take(i as int).push(seen));
    rows.insert(i, (key, value));
    assert(keyed(rows@) =~= all.take(i as int).push(seen) + all.skip(i as int));
}

/// Remove the row for `key`.
fn discard<V>(rows: &mut Vec<(String, V)>, key: &str)
    ensures
        keyed(final(rows)@) == dropped(keyed(old(rows)@), key@),
{
    let ghost all = keyed(rows@);
    let ghost mut seen: int = 0;
    let mut i: usize = 0;
    let name = key.to_owned();
    assert(dropped(all.take(0), key@) + all.skip(0) =~= all);
    while i < rows.len()
        invariant
            name@ == key@,
            0 <= seen <= all.len(),
            i == dropped(all.take(seen), key@).len(),
            keyed(rows@) == dropped(all.take(seen), key@) + all.skip(seen),
        decreases rows@.len() - i,
    {
        let ghost kept = dropped(all.take(seen), key@);
        assert(keyed(rows@)[i as int] == (rows@[i as int].0@, rows@[i as int].1));
        assert(all.take(seen + 1).drop_last() =~= all.take(seen));
        assert(all.take(seen + 1).last() == all[seen]);
        if rows[i].0 == name {
            let ghost was = rows@;
            rows.remove(i);
            assert(keyed(rows@) =~= keyed(was).remove(i as int));
            assert(keyed(rows@) =~= kept + all.skip(seen + 1));
        } else {
            assert(keyed(rows@) =~= kept.push(all[seen]) + all.skip(seen + 1));
            i += 1;
        }
        proof {
            seen = seen + 1;
        }
    }
    assert(all.take(seen) =~= all);
    assert(keyed(rows@) =~= dropped(all, key@));
}

/// The value in the row for `key`.
fn find<'a, V>(rows: &'a Vec<(String, V)>, key: &str) -> (r: Option<&'a V>)
    ensures
        match r {
            Some(v) => row(keyed(rows@), key@) == Some(*v),
            None => row(keyed(rows@), key@) is None,
        },
{
    let ghost all = keyed(rows@);
    let name = key.to_owned();
    let mut i: usize = rows.len();
    assert(all.take(i as int) =~= all);
    while i > 0
        invariant
            i <= rows@.len(),
            all == keyed(rows@),
            name@ == key@,
            row(all, key@) == row(all.take(i as int), key@),
        decreases i,
    {
        assert(all.take(i as int).last() == all[i - 1]);
        assert(all.take(i as int).drop_last() =~= all.take(i - 1));
        if rows[i - 1].0 == name {
            return Some(&rows[i - 1].1);
        }
        i -= 1;
    }
    None
}

/// The same keys with other values.
pub open spec fn mapped<V, W>(rows: Seq<(Seq<char>, V)>, f: spec_fn(V) -> W) -> Seq<
    (Seq<char>, W),
> {
    rows.map_values(|r: (Seq<char>, V)| (r.0, f(r.1)))
}

/// The rows of a map do not depend on what the values are.
proof fn lemma_mapped<V, W>(
    rows: Seq<(Seq<char>, V)>,
    key: Seq<char>,
    value: V,
    f: spec_fn(V) -> W,
)
    ensures
        mapped(entered(rows, key, value), f) == entered(mapped(rows, f), key, f(value)),
        mapped(dropped(rows, key), f) == dropped(mapped(rows, f), key),
        row(mapped(rows, f), key) == match row(rows, key) {
            Some(v) => Some(f(v)),
            None => None,
        },
    decreases rows.len(),
{
    if rows.len() == 0 {
        assert(mapped(entered(rows, key, value), f) =~= seq![(key, f(value))]);
        assert(mapped(rows, f) =~= Seq::empty());
    } else {
        let head = rows.drop_last();
        lemma_mapped(head, key, value, f);
        assert(mapped(rows, f).drop_last() =~= mapped(head, f));
        assert(mapped(rows, f).last() == (rows.last().0, f(rows.last().1)));
        assert(mapped(head.push((key, value)), f) =~= mapped(head, f).push((key, f(value))));
        assert(mapped(rows.push((key, value)), f) =~= mapped(rows, f).push((key, f(value))));
        assert(mapped(entered(head, key, value).push(rows.last()), f) =~= mapped(
            entered(head, key, value),
            f,
        ).push((rows.last().0, f(rows.last().1))));
        assert(mapped(dropped(head, key).push(rows.last()), f) =~= mapped(
            dropped(head, key),
            f,
        ).push((rows.last().0, f(rows.last().1))));
    }
}

/// What this tool wrote to one target: addresses and reprs.
pub type Notes = Seq<(Seq<char>, Seq<char>)>;

/// What this tool wrote, target by target.
pub type Ledger = Seq<(Seq<char>, Notes)>;

/// The notes a list of items makes: one per address, the last item's repr.
pub open spec fn noted(items: Seq<ItemView>) -> Notes
    decreases items.len(),
{
    if items.len() == 0 {
        Seq::empty()
    } else {
        entered(noted(items.drop_last()), items.last().addr, items.last().repr)
    }
}

/// The items a list of notes stands for.
pub open spec fn items_of(notes: Notes) -> Seq<ItemView> {
    notes.map_values(|n: (Seq<char>, Seq<char>)| ItemView { addr: n.0, repr: n.1 })
}

/// What a ledger records for a target.
pub open spec fn recorded(ledger: Ledger, target: Seq<char>) -> Seq<ItemView> {
    match row(ledger, target) {
        Some(notes) => items_of(notes),
        None => Seq::empty(),
    }
}

/// A ledger with what is recorded for a target replaced. A target nothing is
/// claimed in has no row.
pub open spec fn amended(ledger: Ledger, target: Seq<char>, items: Seq<ItemView>) -> Ledger {
    if items.len() == 0 {
        dropped(ledger, target)
    } else {
        entered(ledger, target, noted(items))
    }
}

/// The notes an object makes: its keys with a string under them.
pub open spec fn notes_in(e: Entries) -> Notes
    decreases e.len(),
{
    if e.len() == 0 {
        Seq::empty()
    } else {
        let before = notes_in(e.drop_last());
        match e.last().1 {
            Tree::String(s) => entered(before, e.last().0, s),
            _ => before,
        }
    }
}

/// The rows an object makes: its keys with an object under them.
pub open spec fn rows_in(e: Entries) -> Ledger
    decreases e.len(),
{
    if e.len() == 0 {
        Seq::empty()
    } else {
        let before = rows_in(e.drop_last());
        match e.last().1 {
            Tree::Object(m) => entered(before, e.last().0, notes_in(m)),
            _ => before,
        }
    }
}

/// The ledger a document holds: the rows under `targets`, or none.
pub open spec fn ledger_in(t: Tree) -> Ledger {
    match lookup(entries_in(t), "targets"@) {
        Some(Tree::Object(e)) => rows_in(e),
        _ => Seq::empty(),
    }
}

/// The ledger the contents of a file hold: none where there is no file, and none
/// where it cannot be read.
pub open spec fn ledger_of(contents: Option<Seq<char>>) -> Ledger {
    match contents {
        Some(text) => match parsed(text) {
            Ok(t) => ledger_in(t),
            Err(_) => Seq::empty(),
        },
        None => Seq::empty(),
    }
}

/// Both maps of a ledger are in order.
pub open spec fn in_sorted_order(ledger: Ledger) -> bool {
    &&& ordered(ledger)
    &&& forall|i: int| 0 <= i < ledger.len() ==> ordered((#[trigger] ledger[i]).1)
}

/// Entering a row keeps the order, sets that key and no other.
proof fn lemma_entered<V>(rows: Seq<(Seq<char>, V)>, key: Seq<char>, value: V, other: Seq<char>)
    requires
        ordered(rows),
    ensures
        ordered(entered(rows, key, value)),
        row(entered(rows, key, value), key) == Some(value),
        other != key ==> row(entered(rows, key, value), other) == row(rows, other),
        forall|i: int|
            0 <= i < entered(rows, key, value).len() ==> (#[trigger] entered(rows, key, value)[i])
                == (key, value) || rows.contains(entered(rows, key, value)[i]),
    decreases rows.len(),
{
    let after = entered(rows, key, value);
    if rows.len() == 0 {
        assert(after.drop_last() =~= rows);
    } else {
        let head = rows.drop_last();
        let last = rows.last();
        assert(rows[rows.len() - 1] == last);
        assert(ordered(head));
        if last.0 == key {
            assert(after.drop_last() =~= head);
            assert forall|i: int, j: int| 0 <= i < j < after.len() implies precedes(
                (#[trigger] after[i]).0,
                (#[trigger] after[j]).0,
            ) by {
                assert(after[i].0 == rows[i].0);
                assert(after[j].0 == rows[j].0);
            }
            assert forall|i: int| 0 <= i < after.len() implies (#[trigger] after[i]) == (key, value)
                || rows.contains(after[i]) by {
                if i < head.len() {
                    assert(after[i] == rows[i]);
                }
            }
        } else if precedes(key, last.0) {
            lemma_entered(head, key, value, other);
            let slot = entered(head, key, value);
            assert(after.drop_last() =~= slot);
            assert forall|i: int, j: int| 0 <= i < j < after.len() implies precedes(
                (#[trigger] after[i]).0,
                (#[trigger] after[j]).0,
            ) by {
                assert(after[i] == slot[i]);
                if j < slot.len() {
                    assert(after[j] == slot[j]);
                } else if slot[i] != (key, value) {
                    let k = choose|k: int| 0 <= k < head.len() && head[k] == slot[i];
                    assert(rows[k] == slot[i]);
                }
            }
            assert forall|i: int| 0 <= i < after.len() implies (#[trigger] after[i]) == (key, value)
                || rows.contains(after[i]) by {
                if i < slot.len() {
                    assert(after[i] == slot[i]);
                    if slot[i] != (key, value) {
                        let k = choose|k: int| 0 <= k < head.len() && head[k] == slot[i];
                        assert(rows[k] == slot[i]);
                    }
                }
            }
        } else {
            lemma_precedes_total(key, last.0);
            assert(after.drop_last() =~= rows);
            assert forall|i: int, j: int| 0 <= i < j < after.len() implies precedes(
                (#[trigger] after[i]).0,
                (#[trigger] after[j]).0,
            ) by {
                assert(after[i] == rows[i]);
                if j < rows.len() {
                    assert(after[j] == rows[j]);
                } else if i < rows.len() - 1 {
                    assert(precedes(rows[i].0, rows[rows.len() - 1].0));
                    lemma_precedes_transitive(rows[i].0, last.0, key);
                }
            }
            lemma_not_in_order(rows, key);
            assert forall|i: int| 0 <= i < after.len() implies (#[trigger] after[i]) == (key, value)
                || rows.contains(after[i]) by {
                if i < rows.len() {
                    assert(after[i] == rows[i]);
                }
            }
        }
        lemma_row_of_last(rows, other);
    }
}

/// A key that comes after the last one has no row.
proof fn lemma_not_in_order<V>(rows: Seq<(Seq<char>, V)>, key: Seq<char>)
    requires
        ordered(rows),
        rows.len() > 0 ==> precedes(rows.last().0, key),
    ensures
        row(rows, key) is None,
    decreases rows.len(),
{
    if rows.len() > 0 {
        lemma_precedes_irreflexive(key);
        let head = rows.drop_last();
        if head.len() > 0 {
            assert(precedes(rows[rows.len() - 2].0, rows[rows.len() - 1].0));
            lemma_precedes_transitive(head.last().0, rows.last().0, key);
        }
        assert(ordered(head));
        lemma_not_in_order(head, key);
    }
}

proof fn lemma_row_of_last<V>(rows: Seq<(Seq<char>, V)>, key: Seq<char>)
    requires
        rows.len() > 0,
    ensures
        row(rows, key) == if rows.last().0 == key {
            Some(rows.last().1)
        } else {
            row(rows.drop_last(), key)
        },
{
}

/// Dropping a row keeps the order and takes that row and no other.
proof fn lemma_dropped<V>(rows: Seq<(Seq<char>, V)>, key: Seq<char>, other: Seq<char>)
    requires
        ordered(rows),
    ensures
        ordered(dropped(rows, key)),
        row(dropped(rows, key), key) is None,
        other != key ==> row(dropped(rows, key), other) == row(rows, other),
        forall|i: int|
            0 <= i < dropped(rows, key).len() ==> rows.contains(#[trigger] dropped(rows, key)[i])
                && dropped(rows, key)[i].0 != key,
    decreases rows.len(),
{
    let after = dropped(rows, key);
    if rows.len() > 0 {
        let head = rows.drop_last();
        let last = rows.last();
        assert(rows[rows.len() - 1] == last);
        assert(ordered(head));
        lemma_dropped(head, key, other);
        let before = dropped(head, key);
        assert forall|i: int| 0 <= i < after.len() implies rows.contains(#[trigger] after[i])
            && after[i].0 != key by {
            if i < before.len() {
                assert(after[i] == before[i]);
                let k = choose|k: int| 0 <= k < head.len() && head[k] == before[i];
                assert(rows[k] == after[i]);
            }
        }
        if last.0 != key {
            assert(after.drop_last() =~= before);
            assert forall|i: int, j: int| 0 <= i < j < after.len() implies precedes(
                (#[trigger] after[i]).0,
                (#[trigger] after[j]).0,
            ) by {
                assert(after[i] == before[i]);
                if j < before.len() {
                    assert(after[j] == before[j]);
                } else {
                    let k = choose|k: int| 0 <= k < head.len() && head[k] == before[i];
                    assert(rows[k] == after[i]);
                }
            }
        }
    }
}

/// The notes of a list of items are in order.
proof fn lemma_noted_ordered(items: Seq<ItemView>)
    ensures
        ordered(noted(items)),
    decreases items.len(),
{
    if items.len() > 0 {
        lemma_noted_ordered(items.drop_last());
        lemma_entered(
            noted(items.drop_last()),
            items.last().addr,
            items.last().repr,
            items.last().addr,
        );
    }
}

/// Amending a ledger keeps it in sorted order.
proof fn lemma_amended_ordered(ledger: Ledger, target: Seq<char>, items: Seq<ItemView>)
    requires
        in_sorted_order(ledger),
    ensures
        in_sorted_order(amended(ledger, target, items)),
{
    let after = amended(ledger, target, items);
    lemma_noted_ordered(items);
    lemma_entered(ledger, target, noted(items), target);
    lemma_dropped(ledger, target, target);
    assert forall|i: int| 0 <= i < after.len() implies ordered((#[trigger] after[i]).1) by {
        if after[i] != (target, noted(items)) {
            assert(ledger.contains(after[i]));
        }
    }
}

/// The notes and rows of a document are in sorted order, however it lists them.
proof fn lemma_read_in_order(e: Entries)
    ensures
        ordered(notes_in(e)),
        in_sorted_order(rows_in(e)),
    decreases e.len(),
{
    if e.len() > 0 {
        let head = e.drop_last();
        lemma_read_in_order(head);
        match e.last().1 {
            Tree::String(s) => {
                lemma_entered(notes_in(head), e.last().0, s, e.last().0);
            },
            Tree::Object(m) => {
                lemma_notes_in_order(m);
                lemma_entered(rows_in(head), e.last().0, notes_in(m), e.last().0);
                let after = rows_in(e);
                assert forall|i: int| 0 <= i < after.len() implies ordered(
                    (#[trigger] after[i]).1,
                ) by {
                    if after[i] != (e.last().0, notes_in(m)) {
                        assert(rows_in(head).contains(after[i]));
                    }
                }
            },
            _ => {},
        }
    }
}

proof fn lemma_notes_in_order(e: Entries)
    ensures
        ordered(notes_in(e)),
    decreases e.len(),
{
    if e.len() > 0 {
        lemma_notes_in_order(e.drop_last());
        if let Tree::String(s) = e.last().1 {
            lemma_entered(notes_in(e.drop_last()), e.last().0, s, e.last().0);
        }
    }
}

/// The version this crate writes. Present so that a future change of shape can
/// be recognised rather than misread.
pub const VERSION: u64 = 1;

/// The entries that notes are written as.
pub open spec fn note_entries(notes: Notes) -> Entries {
    notes.map_values(|n: (Seq<char>, Seq<char>)| (n.0, Tree::String(n.1)))
}

/// The entries that a ledger is written as.
pub open spec fn row_entries(ledger: Ledger) -> Entries {
    ledger.map_values(|r: (Seq<char>, Notes)| (r.0, Tree::Object(note_entries(r.1))))
}

/// The document a ledger is written as.
pub open spec fn ledger_tree(ledger: Ledger) -> Tree {
    Tree::Object(
        seq![
            ("version"@, Tree::Number(decimal(VERSION as nat))),
            ("targets"@, Tree::Object(row_entries(ledger))),
        ],
    )
}

/// A row that comes after all others is entered at the end.
proof fn lemma_entered_last<V>(rows: Seq<(Seq<char>, V)>)
    requires
        ordered(rows),
        rows.len() > 0,
    ensures
        entered(rows.drop_last(), rows.last().0, rows.last().1) == rows,
{
    let head = rows.drop_last();
    let last = rows.last();
    assert(rows[rows.len() - 1] == last);
    if head.len() > 0 {
        assert(head.last() == rows[rows.len() - 2]);
        assert(precedes(head.last().0, last.0));
        lemma_precedes_irreflexive(last.0);
        if precedes(last.0, head.last().0) {
            lemma_precedes_transitive(last.0, head.last().0, last.0);
        }
        assert(head.push((last.0, last.1)) =~= rows);
    } else {
        assert(seq![(last.0, last.1)] =~= rows);
    }
}

proof fn lemma_notes_read_back(notes: Notes)
    requires
        ordered(notes),
    ensures
        notes_in(note_entries(notes)) == notes,
    decreases notes.len(),
{
    let e = note_entries(notes);
    if notes.len() > 0 {
        let head = notes.drop_last();
        assert(e.drop_last() =~= note_entries(head));
        assert(ordered(head));
        lemma_notes_read_back(head);
        lemma_entered_last(notes);
    } else {
        assert(notes =~= Seq::empty());
    }
}

proof fn lemma_rows_read_back(ledger: Ledger)
    requires
        in_sorted_order(ledger),
    ensures
        rows_in(row_entries(ledger)) == ledger,
    decreases ledger.len(),
{
    let e = row_entries(ledger);
    if ledger.len() > 0 {
        let head = ledger.drop_last();
        assert(e.drop_last() =~= row_entries(head));
        assert(in_sorted_order(head)) by {
            assert forall|i: int| 0 <= i < head.len() implies ordered((#[trigger] head[i]).1) by {
                assert(head[i] == ledger[i]);
            }
        }
        lemma_rows_read_back(head);
        assert(ledger[ledger.len() - 1] == ledger.last());
        lemma_notes_read_back(ledger.last().1);
        lemma_entered_last(ledger);
    } else {
        assert(ledger =~= Seq::empty());
    }
}

/// The document a ledger is written as holds that ledger.
proof fn lemma_ledger_tree(ledger: Ledger)
    requires
        in_sorted_order(ledger),
    ensures
        well_formed(ledger_tree(ledger)),
        reads_back(ledger_tree(ledger), nesting_limit()),
        ledger_in(ledger_tree(ledger)) == ledger,
{
    let t = ledger_tree(ledger);
    let top = t->Object_0;
    let rows = row_entries(ledger);
    reveal_strlit("version");
    reveal_strlit("targets");
    assert("version"@[0] == 'v');
    assert("targets"@[0] == 't');
    assert(top[0].0 != top[1].0);
    lemma_key_at_is(top, "targets"@, 1);
    lemma_rows_read_back(ledger);

    assert forall|i: int| 0 <= i < rows.len() implies well_formed((#[trigger] rows[i]).1)
        && reads_back(rows[i].1, 125) by {
        let notes = ledger[i].1;
        let e = note_entries(notes);
        assert(rows[i].1 == Tree::Object(e));
        assert(distinct_keys(e)) by {
            lemma_distinct(notes);
        }
        assert forall|j: int| 0 <= j < e.len() implies well_formed((#[trigger] e[j]).1)
            && reads_back(e[j].1, 124) by {
            assert(e[j].1 == Tree::String(notes[j].1));
        }
    }
    assert(distinct_keys(rows)) by {
        lemma_distinct(ledger);
    }
    assert(well_formed(top[1].1));
    assert(reads_back(top[1].1, 126));
    assert(integer_text(decimal(VERSION as nat)));
    assert(reads_back(top[0].1, 126));
    assert(top.len() == 2);
    assert forall|i: int| 0 <= i < top.len() implies well_formed((#[trigger] top[i]).1)
        && reads_back(top[i].1, 126) by {
        assert(i == 0 || i == 1);
    }
}

/// Rows in order have different keys.
proof fn lemma_distinct<V>(rows: Seq<(Seq<char>, V)>)
    requires
        ordered(rows),
    ensures
        forall|i: int, j: int|
            0 <= i < j < rows.len() ==> (#[trigger] rows[i]).0 != (#[trigger] rows[j]).0,
{
    assert forall|i: int, j: int| 0 <= i < j < rows.len() implies (#[trigger] rows[i]).0 != (
    #[trigger] rows[j]).0 by {
        lemma_precedes_irreflexive(rows[i].0);
        assert(precedes(rows[i].0, rows[j].0));
    }
}

/// The record of what this tool has written, across every target.
///
/// The rows, and the notes in each, are kept in sorted order.
#[derive(Debug, Clone)]
pub struct Store {
    path: String,
    targets: Vec<(String, Vec<(String, String)>)>,
}

/// What a [`Store`] says.
pub struct StoreView {
    /// Where the record is stored.
    pub path: Seq<char>,
    /// What this tool wrote.
    pub ledger: Ledger,
}

/// The notes in a row.
spec fn notes_view(notes: Vec<(String, String)>) -> Notes {
    pair_texts(notes@)
}

/// The rows of a record.
spec fn ledger_view(targets: Seq<(String, Vec<(String, String)>)>) -> Ledger {
    mapped(keyed(targets), |notes: Vec<(String, String)>| notes_view(notes))
}

impl View for Store {
    type V = StoreView;

    closed spec fn view(&self) -> StoreView {
        StoreView { path: self.path@, ledger: ledger_view(self.targets@) }
    }
}

/// The notes that a list of items makes.
fn notes_from(items: &[Item]) -> (notes: Vec<(String, String)>)
    ensures
        pair_texts(notes@) == noted(item_views(items@)),
{
    let ghost all = item_views(items@);
    let mut notes: Vec<(String, String)> = Vec::new();
    let mut i: usize = 0;
    assert(pair_texts(notes@) =~= noted(all.take(0)));
    while i < items.len()
        invariant
            i <= items@.len(),
            all == item_views(items@),
            pair_texts(notes@) == noted(all.take(i as int)),
        decreases items@.len() - i,
    {
        assert(all.take(i + 1).drop_last() =~= all.take(i as int));
        assert(all.take(i + 1).last() == items@[i as int]@);
        note(&mut notes, items[i].addr.to_string(), items[i].repr.to_string());
        i += 1;
    }
    assert(all.take(i as int) =~= all);
    notes
}

/// Enter one note.
fn note(notes: &mut Vec<(String, String)>, addr: String, repr: String)
    ensures
        pair_texts(final(notes)@) == entered(pair_texts(old(notes)@), addr@, repr@),
{
    let ghost f = |r: String| r@;
    proof {
        lemma_mapped(keyed(notes@), addr@, repr, f);
        assert(mapped(keyed(notes@), f) =~= pair_texts(notes@));
    }
    enter(notes, addr, repr);
    assert(mapped(keyed(notes@), f) =~= pair_texts(notes@));
}

/// Enter one row.
fn post(
    targets: &mut Vec<(String, Vec<(String, String)>)>,
    target: String,
    notes: Vec<(String, String)>,
)
    ensures
        ledger_view(final(targets)@) == entered(
            ledger_view(old(targets)@),
            target@,
            pair_texts(notes@),
        ),
{
    let ghost f = |notes: Vec<(String, String)>| notes_view(notes);
    proof {
        lemma_mapped(keyed(targets@), target@, notes, f);
    }
    enter(targets, target, notes);
}

/// The notes an object holds.
fn parse_notes(m: &Vec<(String, Json)>) -> (notes: Vec<(String, String)>)
    ensures
        pair_texts(notes@) == notes_in(entries_of(m@)),
{
    let ghost all = entries_of(m@);
    let mut notes: Vec<(String, String)> = Vec::new();
    let mut i: usize = 0;
    assert(pair_texts(notes@) =~= notes_in(all.take(0)));
    while i < m.len()
        invariant
            i <= m@.len(),
            all == entries_of(m@),
            pair_texts(notes@) == notes_in(all.take(i as int)),
        decreases m@.len() - i,
    {
        assert(all.take(i + 1).drop_last() =~= all.take(i as int));
        assert(all.take(i + 1).last() == (m@[i as int].0@, m@[i as int].1@));
        if let Json::String(repr) = &m[i].1 {
            note(&mut notes, m[i].0.clone(), repr.clone());
        }
        i += 1;
    }
    assert(all.take(i as int) =~= all);
    notes
}

/// The rows a document holds.
fn parse(v: &Json) -> (targets: Vec<(String, Vec<(String, String)>)>)
    ensures
        ledger_view(targets@) == ledger_in(v@),
{
    let mut targets: Vec<(String, Vec<(String, String)>)> = Vec::new();
    assert(ledger_view(targets@) =~= Seq::empty());
    let top = match v {
        Json::Object(m) => m,
        _ => {
            return targets;
        },
    };
    proof {
        lemma_object_view(*v);
    }
    let found: usize = match position(top, &"targets".to_owned()) {
        Some(k) => k,
        None => {
            return targets;
        },
    };
    assert(entries_of(top@)[found as int].1 == top@[found as int].1@);
    let rows = match &top[found].1 {
        Json::Object(rows) => rows,
        _ => {
            return targets;
        },
    };
    proof {
        lemma_object_view(top@[found as int].1);
    }
    let ghost all = entries_of(rows@);
    let mut i: usize = 0;
    assert(ledger_view(targets@) =~= rows_in(all.take(0)));
    while i < rows.len()
        invariant
            i <= rows@.len(),
            all == entries_of(rows@),
            ledger_view(targets@) == rows_in(all.take(i as int)),
        decreases rows@.len() - i,
    {
        assert(all.take(i + 1).drop_last() =~= all.take(i as int));
        assert(all.take(i + 1).last() == (rows@[i as int].0@, rows@[i as int].1@));
        if let Json::Object(m) = &rows[i].1 {
            proof {
                lemma_object_view(rows@[i as int].1);
            }
            post(&mut targets, rows[i].0.clone(), parse_notes(m));
        }
        i += 1;
    }
    assert(all.take(i as int) =~= all);
    targets
}

impl Store {
    /// The record is in sorted order.
    pub open spec fn inv(&self) -> bool {
        in_sorted_order(self@.ledger)
    }

    /// Read the record kept at `path` from the contents of that file, or start
    /// an empty one.
    ///
    /// A missing, unreadable, or malformed file yields an empty record. See the
    /// module documentation for why that is a degradation rather than an error.
    pub fn open(path: impl IntoText, contents: Option<&str>) -> (s: Self)
        ensures
            s.inv(),
            s@.path == path.text(),
            s@.ledger == ledger_of(
                match contents {
                    Some(text) => Some(text@),
                    None => None,
                },
            ),
    {
        let ghost name = path.text();
        let path = path.into_text();
        if let Some(text) = contents {
            if let Ok(v) = read(text) {
                proof {
                    if let Some(Tree::Object(e)) = lookup(entries_in(v@), "targets"@) {
                        lemma_read_in_order(e);
                    }
                }
                return Store { path, targets: parse(&v) };
            }
        }
        Store::empty(path)
    }

    /// An empty record that writes to `path`.
    pub fn empty(path: impl IntoText) -> (s: Self)
        ensures
            s.inv(),
            s@ == (StoreView { path: path.text(), ledger: Seq::empty() }),
    {
        let s = Store { path: path.into_text(), targets: Vec::new() };
        assert(s@.ledger =~= Seq::empty());
        s
    }

    /// Where this record is stored.
    pub fn path(&self) -> (p: &str)
        ensures
            p@ == self@.path,
    {
        self.path.as_str()
    }

    /// What this tool last wrote to `target`.
    ///
    /// Empty for a target never written, which is the add-only case.
    pub fn items(&self, target: &str) -> (items: Vec<Item>)
        ensures
            item_views(items@) == recorded(self@.ledger, target@),
    {
        let mut items: Vec<Item> = Vec::new();
        proof {
            let ghost f = |notes: Vec<(String, String)>| notes_view(notes);
            lemma_mapped(keyed(self.targets@), target@, vstd::pervasive::arbitrary(), f);
            assert(item_views(items@) =~= Seq::empty());
        }
        let notes = match find(&self.targets, target) {
            Some(notes) => notes,
            None => {
                return items;
            },
        };
        let ghost all = items_of(pair_texts(notes@));
        let mut i: usize = 0;
        while i < notes.len()
            invariant
                i <= notes@.len(),
                all == items_of(pair_texts(notes@)),
                item_views(items@) == all.take(i as int),
            decreases notes@.len() - i,
        {
            let item = Item::new(Addr::new(&notes[i].0), Repr::new(&notes[i].1));
            assert(all.take(i + 1) =~= all.take(i as int).push(item@));
            assert(item_views(items@.push(item)) =~= item_views(items@).push(item@));
            items.push(item);
            i += 1;
        }
        assert(all.take(i as int) =~= all);
        items
    }

    /// Replace what is recorded for `target`.
    ///
    /// An empty `items` removes the target's entry entirely, so a record does
    /// not accumulate rows for targets nothing is claimed in any more.
    pub fn set(&mut self, target: &str, items: &[Item])
        requires
            old(self).inv(),
        ensures
            final(self).inv(),
            final(self)@.path == old(self)@.path,
            final(self)@.ledger == amended(old(self)@.ledger, target@, item_views(items@)),
    {
        proof {
            let ghost f = |notes: Vec<(String, String)>| notes_view(notes);
            lemma_mapped(keyed(self.targets@), target@, vstd::pervasive::arbitrary(), f);
            lemma_amended_ordered(self@.ledger, target@, item_views(items@));
        }
        if items.len() == 0 {
            discard(&mut self.targets, target);
        } else {
            post(&mut self.targets, target.to_owned(), notes_from(items));
        }
    }

    /// The record as the text to write to its path: indented JSON with a line
    /// end behind it. Opening that text gives the same record back.
    pub fn save(&self) -> (r: Result<String, Error>)
        requires
            self.inv(),
        ensures
            r is Ok,
            r->Ok_0@ == pretty_text(ledger_tree(self@.ledger)).push('\n'),
            ledger_of(Some(r->Ok_0@)) == self@.ledger,
    {
        let mut targets: Vec<(String, Json)> = Vec::new();
        let ghost all = row_entries(self@.ledger);
        let mut i: usize = 0;
        while i < self.targets.len()
            invariant
                i <= self.targets@.len(),
                all == row_entries(self@.ledger),
                all.len() == self.targets@.len(),
                entries_of(targets@) == all.take(i as int),
            decreases self.targets@.len() - i,
        {
            let entry = (self.targets[i].0.clone(), notes_json(&self.targets[i].1));
            let ghost seen = (entry.0@, entry.1@);
            assert(all[i as int] == seen);
            assert(all.take(i + 1) =~= all.take(i as int).push(seen));
            assert(entries_of(targets@.push(entry)) =~= entries_of(targets@).push(seen));
            targets.push(entry);
            i += 1;
        }
        assert(all.take(i as int) =~= all);
        let mut root: Vec<(String, Json)> = Vec::new();
        let rows = Json::Object(targets);
        proof {
            lemma_object_view(rows);
        }
        root.push(("version".to_owned(), Json::Number(number_from(VERSION))));
        root.push(("targets".to_owned(), rows));
        let doc = Json::Object(root);
        proof {
            lemma_object_view(doc);
            assert(doc@->Object_0 =~= ledger_tree(self@.ledger)->Object_0);
            lemma_ledger_tree(self@.ledger);
        }
        match render(&doc) {
            Ok(mut text) => {
                text.push('\n');
                Ok(text)
            },
            Err(e) => Err(Error::parse(self.path.as_str(), e)),
        }
    }
}

/// The notes of a row as a JSON object.
fn notes_json(notes: &Vec<(String, String)>) -> (j: Json)
    ensures
        j@ == Tree::Object(note_entries(pair_texts(notes@))),
{
    let ghost all = note_entries(pair_texts(notes@));
    let mut m: Vec<(String, Json)> = Vec::new();
    let mut i: usize = 0;
    while i < notes.len()
        invariant
            i <= notes@.len(),
            all == note_entries(pair_texts(notes@)),
            entries_of(m@) == all.take(i as int),
        decreases notes@.len() - i,
    {
        let entry = (notes[i].0.clone(), Json::String(notes[i].1.clone()));
        let ghost seen = (entry.0@, entry.1@);
        assert(all.take(i + 1) =~= all.take(i as int).push(seen));
        assert(entries_of(m@.push(entry)) =~= entries_of(m@).push(seen));
        m.push(entry);
        i += 1;
    }
    assert(all.take(i as int) =~= all);
    let j = Json::Object(m);
    proof {
        lemma_object_view(j);
    }
    j
}

/// The row for a key is the one that is there.
proof fn lemma_row<V>(rows: Seq<(Seq<char>, V)>, key: Seq<char>, value: V)
    requires
        ordered(rows),
    ensures
        rows.contains((key, value)) <==> row(rows, key) == Some(value),
    decreases rows.len(),
{
    if rows.len() > 0 {
        let head = rows.drop_last();
        assert(rows[rows.len() - 1] == rows.last());
        assert(ordered(head));
        lemma_row(head, key, value);
        lemma_distinct(rows);
        if head.contains((key, value)) {
            let k = choose|k: int| 0 <= k < head.len() && head[k] == (key, value);
            assert(rows[k] == (key, value));
        }
        if rows.contains((key, value)) {
            let k = choose|k: int| 0 <= k < rows.len() && rows[k] == (key, value);
            if k < head.len() {
                assert(head[k] == (key, value));
                assert(rows[k].0 != rows[rows.len() - 1].0);
            }
        }
    }
}

/// What is noted at an address is the last item there.
proof fn lemma_noted(items: Seq<ItemView>, addr: Seq<char>)
    ensures
        row(noted(items), addr) == last_repr(items, addr),
    decreases items.len(),
{
    if items.len() > 0 {
        let head = items.drop_last();
        lemma_noted(head, addr);
        lemma_noted_ordered(head);
        lemma_entered(noted(head), items.last().addr, items.last().repr, addr);
    }
}

/// **Law.** What is set for a target is what is recorded for it: one item per
/// address, the last one given, in dictionary order of the addresses. What is
/// recorded for any other target stays.
pub proof fn law_what_is_set_is_recorded(
    ledger: Ledger,
    target: Seq<char>,
    items: Seq<ItemView>,
    other: Seq<char>,
)
    requires
        in_sorted_order(ledger),
    ensures
        forall|item: ItemView| #[trigger]
            recorded(amended(ledger, target, items), target).contains(item) <==> last_repr(
                items,
                item.addr,
            ) == Some(item.repr),
        forall|i: int, j: int|
            0 <= i < j < recorded(amended(ledger, target, items), target).len() ==> precedes(
                (#[trigger] recorded(amended(ledger, target, items), target)[i]).addr,
                (#[trigger] recorded(amended(ledger, target, items), target)[j]).addr,
            ),
        other != target ==> recorded(amended(ledger, target, items), other) == recorded(
            ledger,
            other,
        ),
{
    let after = amended(ledger, target, items);
    let notes = noted(items);
    let kept = recorded(after, target);
    lemma_entered(ledger, target, notes, other);
    lemma_dropped(ledger, target, other);
    lemma_noted_ordered(items);
    if items.len() == 0 {
        assert(kept =~= items_of(notes));
    }
    assert forall|item: ItemView| #[trigger] kept.contains(item) <==> last_repr(items, item.addr)
        == Some(item.repr) by {
        lemma_noted(items, item.addr);
        lemma_row(notes, item.addr, item.repr);
        if kept.contains(item) {
            let k = choose|k: int| 0 <= k < kept.len() && kept[k] == item;
            assert(notes[k] == (item.addr, item.repr));
        }
        if notes.contains((item.addr, item.repr)) {
            let k = choose|k: int| 0 <= k < notes.len() && notes[k] == (item.addr, item.repr);
            assert(kept[k] == item);
        }
    }
}

/// **Law.** A record keeps a value for every address it is given one for, and
/// none that it is not given.
pub proof fn law_a_record_is_drawn_from_what_is_set(
    ledger: Ledger,
    target: Seq<char>,
    items: Seq<ItemView>,
)
    requires
        in_sorted_order(ledger),
    ensures
        drawn_from(recorded(amended(ledger, target, items), target), items),
{
    let kept = recorded(amended(ledger, target, items), target);
    law_what_is_set_is_recorded(ledger, target, items, target);
    assert forall|item: ItemView| #[trigger] kept.contains(item) implies items.contains(item) by {
        lemma_last_repr(items, item.addr);
        assert(item == (ItemView { addr: item.addr, repr: item.repr }));
    }
    assert forall|addr: Seq<char>| #[trigger] has_addr(items, addr) implies has_addr(kept, addr) by {
        lemma_last_repr(items, addr);
        let last = ItemView { addr, repr: last_repr(items, addr)->0 };
        assert(kept.contains(last));
        let k = choose|k: int| 0 <= k < kept.len() && kept[k] == last;
        assert(kept[k].addr == addr);
    }
}

/// **Law.** What is recorded for a target is one value per address.
pub proof fn law_a_record_is_one_value_per_address(ledger: Ledger, target: Seq<char>)
    requires
        in_sorted_order(ledger),
    ensures
        agreeing(recorded(ledger, target)),
{
    if let Some(notes) = row(ledger, target) {
        lemma_row(ledger, target, notes);
        let k = choose|k: int| 0 <= k < ledger.len() && ledger[k] == (target, notes);
        assert(ordered(ledger[k].1));
        lemma_distinct(notes);
        let kept = items_of(notes);
        assert forall|i: int, j: int|
            0 <= i < kept.len() && 0 <= j < kept.len() && (#[trigger] kept[i]).addr == (
            #[trigger] kept[j]).addr implies kept[i].repr == kept[j].repr by {
            assert(kept[i].addr == notes[i].0);
            assert(kept[j].addr == notes[j].0);
        }
    }
}

/// **Law.** A target nothing is claimed in has no row.
pub proof fn law_a_cleared_target_has_no_row(ledger: Ledger, target: Seq<char>)
    requires
        in_sorted_order(ledger),
    ensures
        forall|i: int|
            0 <= i < amended(ledger, target, Seq::empty()).len() ==> (#[trigger] amended(
                ledger,
                target,
                Seq::empty(),
            )[i]).0 != target,
{
    lemma_dropped(ledger, target, target);
}

/// **Law.** A record that is missing or cannot be read has nothing recorded for
/// any target.
pub proof fn law_an_unreadable_record_is_empty(contents: Option<Seq<char>>, target: Seq<char>)
    ensures
        contents is None || parsed(contents->0) is Err ==> recorded(
            ledger_of(contents),
            target,
        ).len() == 0,
{
}

/// What is noted under a key is the string under it.
proof fn lemma_notes_in(e: Entries, key: Seq<char>, repr: Seq<char>)
    requires
        distinct_keys(e),
    ensures
        row(notes_in(e), key) == Some(repr) <==> e.contains((key, Tree::String(repr))),
    decreases e.len(),
{
    if e.len() > 0 {
        let head = e.drop_last();
        let last = e.last();
        assert(e[e.len() - 1] == last);
        lemma_notes_in(head, key, repr);
        lemma_notes_in_order(head);
        lemma_keys_before(e, key, Tree::String(repr));
        if let Tree::String(s) = last.1 {
            lemma_entered(notes_in(head), last.0, s, key);
        }
        if last.0 == key && !(last.1 is String) {
            lemma_no_note(head, key);
        }
    }
}

/// An entry is in an object where it is the last one, or one of those before.
proof fn lemma_keys_before(e: Entries, key: Seq<char>, v: Tree)
    requires
        distinct_keys(e),
        e.len() > 0,
    ensures
        distinct_keys(e.drop_last()),
        e.contains((key, v)) <==> e.last() == (key, v) || e.drop_last().contains((key, v)),
        e.last().0 == key ==> forall|i: int|
            0 <= i < e.drop_last().len() ==> (#[trigger] e.drop_last()[i]).0 != key,
{
    let head = e.drop_last();
    assert(e[e.len() - 1] == e.last());
    if e.contains((key, v)) && e.last() != (key, v) {
        let k = choose|k: int| 0 <= k < e.len() && e[k] == (key, v);
        assert(head[k] == (key, v));
    }
    if head.contains((key, v)) {
        let k = choose|k: int| 0 <= k < head.len() && head[k] == (key, v);
        assert(e[k] == (key, v));
    }
    if e.last().0 == key {
        assert forall|i: int| 0 <= i < head.len() implies (#[trigger] head[i]).0 != key by {
            assert(e[i].0 != e[e.len() - 1].0);
        }
    }
}

proof fn lemma_no_note(e: Entries, key: Seq<char>)
    requires
        distinct_keys(e),
        forall|i: int| 0 <= i < e.len() ==> (#[trigger] e[i]).0 != key,
    ensures
        row(notes_in(e), key) is None,
        row(rows_in(e), key) is None,
    decreases e.len(),
{
    if e.len() > 0 {
        let head = e.drop_last();
        assert(e[e.len() - 1].0 != key);
        assert forall|i: int| 0 <= i < head.len() implies (#[trigger] head[i]).0 != key by {
            assert(e[i].0 != key);
        }
        lemma_keys_before(e, key, Tree::Null);
        lemma_no_note(head, key);
        lemma_read_in_order(head);
        match e.last().1 {
            Tree::String(s) => {
                lemma_entered(notes_in(head), e.last().0, s, key);
            },
            Tree::Object(m) => {
                lemma_entered(rows_in(head), e.last().0, notes_in(m), key);
            },
            _ => {},
        }
    }
}

/// The row for a key is made of the object under it.
proof fn lemma_rows_in(e: Entries, key: Seq<char>, m: Entries)
    requires
        distinct_keys(e),
    ensures
        e.contains((key, Tree::Object(m))) ==> row(rows_in(e), key) == Some(notes_in(m)),
        row(rows_in(e), key) is Some ==> exists|f: Entries| #[trigger]
            e.contains((key, Tree::Object(f))),
    decreases e.len(),
{
    if e.len() > 0 {
        let head = e.drop_last();
        let last = e.last();
        lemma_rows_in(head, key, m);
        lemma_read_in_order(head);
        lemma_keys_before(e, key, Tree::Object(m));
        if let Tree::Object(f) = last.1 {
            lemma_entered(rows_in(head), last.0, notes_in(f), key);
            if last.0 == key {
                assert(e[e.len() - 1] == (key, Tree::Object(f)));
                assert(e.contains((key, Tree::Object(f))));
            }
        }
        if last.0 == key {
            lemma_no_note(head, key);
        } else if row(rows_in(head), key) is Some {
            let f = choose|f: Entries| #[trigger] head.contains((key, Tree::Object(f)));
            lemma_keys_before(e, key, Tree::Object(f));
            assert(e.contains((key, Tree::Object(f))));
        }
    }
}

/// An object holds a value one key down where it has an entry for it.
proof fn lemma_one_key_down(e: Entries, key: Seq<char>, rest: Path, v: Tree)
    requires
        distinct_keys(e),
    ensures
        holds_at(Tree::Object(e), seq![key] + rest, v) <==> exists|w: Tree| #[trigger]
            e.contains((key, w)) && holds_at(w, rest, v),
{
    let t = Tree::Object(e);
    let path = seq![key] + rest;
    assert(path.drop_first() =~= rest);
    assert(path[0] == key);
    if holds_at(t, path, v) {
        let i = choose|i: int|
            0 <= i < t->Object_0.len() && (#[trigger] t->Object_0[i]).0 == path[0] && holds_at(
                t->Object_0[i].1,
                path.drop_first(),
                v,
            );
        assert(e[i] == (key, e[i].1));
        assert(e.contains((key, e[i].1)));
    }
    if exists|w: Tree| #[trigger] e.contains((key, w)) && holds_at(w, rest, v) {
        let w = choose|w: Tree| #[trigger] e.contains((key, w)) && holds_at(w, rest, v);
        let i = choose|i: int| 0 <= i < e.len() && e[i] == (key, w);
        assert(t->Object_0[i] == (key, w));
    }
}

/// What is recorded in a document is the strings under the address, under the target,
/// under `targets`.
proof fn lemma_recorded_in(t: Tree, target: Seq<char>, item: ItemView)
    requires
        well_formed(t),
    ensures
        recorded(ledger_in(t), target).contains(item) <==> holds_at(
            t,
            seq!["targets"@, target, item.addr],
            Tree::String(item.repr),
        ),
{
    let leaf = Tree::String(item.repr);
    let none: Path = Seq::empty();
    let p1 = seq![item.addr] + none;
    let p2 = seq![target] + p1;
    let p3 = seq!["targets"@] + p2;
    assert(p3 =~= seq!["targets"@, target, item.addr]);
    if let Tree::Object(top) = t {
        lemma_one_key_down(top, "targets"@, p2, leaf);
        match lookup(top, "targets"@) {
            Some(w) => {
                law_a_lookup_finds_the_entry(top, "targets"@, w);
                let k = choose|k: int| 0 <= k < top.len() && top[k] == ("targets"@, w);
                assert(well_formed(top[k].1));
                assert forall|x: Tree| #[trigger] top.contains(("targets"@, x)) implies x == w by {
                    law_a_lookup_finds_the_entry(top, "targets"@, x);
                }
                if let Tree::Object(e) = w {
                    lemma_recorded_in_rows(e, target, item);
                    assert(top.contains(("targets"@, w)));
                }
            },
            None => {
                assert forall|x: Tree| !#[trigger] top.contains(("targets"@, x)) by {
                    law_a_lookup_finds_the_entry(top, "targets"@, x);
                }
            },
        }
    } else {
        assert(entries_in(t).len() == 0);
    }
}

proof fn lemma_recorded_in_rows(e: Entries, target: Seq<char>, item: ItemView)
    requires
        well_formed(Tree::Object(e)),
    ensures
        recorded(rows_in(e), target).contains(item) <==> holds_at(
            Tree::Object(e),
            seq![target] + (seq![item.addr] + Seq::empty()),
            Tree::String(item.repr),
        ),
{
    let leaf = Tree::String(item.repr);
    let none: Path = Seq::empty();
    let p1 = seq![item.addr] + none;
    lemma_one_key_down(e, target, p1, leaf);
    let kept = recorded(rows_in(e), target);
    lemma_rows_in(e, target, Seq::empty());
    if exists|f: Entries| #[trigger] e.contains((target, Tree::Object(f))) {
        let m = choose|f: Entries| #[trigger] e.contains((target, Tree::Object(f)));
        let k = choose|k: int| 0 <= k < e.len() && e[k] == (target, Tree::Object(m));
        assert(well_formed(e[k].1));
        lemma_rows_in(e, target, m);
        lemma_one_key_down(m, item.addr, none, leaf);
        lemma_notes_in(m, item.addr, item.repr);
        lemma_notes_in_order(m);
        let notes = notes_in(m);
        lemma_row(notes, item.addr, item.repr);
        if kept.contains(item) {
            let n = choose|n: int| 0 <= n < kept.len() && kept[n] == item;
            assert(notes[n] == (item.addr, item.repr));
            assert(notes.contains((item.addr, item.repr)));
        }
        if notes.contains((item.addr, item.repr)) {
            let n = choose|n: int| 0 <= n < notes.len() && notes[n] == (item.addr, item.repr);
            assert(kept[n] == item);
        }
        assert forall|w: Tree| #[trigger] e.contains((target, w)) implies w == Tree::Object(m) by {
            let j = choose|j: int| 0 <= j < e.len() && e[j] == (target, w);
            if j < k {
                assert(e[j].0 != e[k].0);
            } else if k < j {
                assert(e[k].0 != e[j].0);
            }
        }
        assert(holds_at(Tree::Object(m), p1, leaf) <==> m.contains((item.addr, leaf))) by {
            if m.contains((item.addr, leaf)) {
                assert(holds_at(leaf, none, leaf));
            }
        }
    } else {
        assert(kept.len() == 0);
        assert forall|w: Tree| #[trigger] e.contains((target, w)) implies !holds_at(
            w,
            p1,
            leaf,
        ) by {
            if let Tree::Object(f) = w {
                assert(e.contains((target, Tree::Object(f))));
            }
        }
    }
}

/// **Law.** The record is what the file says: an item is recorded for a target exactly
/// where the file holds its repr as a string under its address, under the target,
/// under `targets`.
pub proof fn law_the_record_is_what_the_file_says(
    text: Seq<char>,
    t: Tree,
    target: Seq<char>,
    item: ItemView,
)
    requires
        well_formed(t),
    ensures
        parsed(text) == Ok::<Tree, Seq<char>>(t) ==> (recorded(
            ledger_of(Some(text)),
            target,
        ).contains(item) <==> holds_at(
            t,
            seq!["targets"@, target, item.addr],
            Tree::String(item.repr),
        )),
{
    lemma_recorded_in(t, target, item);
}

/// **Law.** What is saved says what is recorded: for every target and address the file
/// holds the recorded repr, and no other. It names the version of its shape, and lists
/// the targets and the addresses of each in dictionary order.
pub proof fn law_the_file_says_what_is_recorded(
    ledger: Ledger,
    target: Seq<char>,
    item: ItemView,
    e: Entries,
)
    requires
        in_sorted_order(ledger),
    ensures
        holds_at(
            ledger_tree(ledger),
            seq!["targets"@, target, item.addr],
            Tree::String(item.repr),
        ) <==> recorded(ledger, target).contains(item),
        holds_at(ledger_tree(ledger), seq!["version"@], Tree::Number(seq!['1'])),
        holds_at(ledger_tree(ledger), seq!["targets"@], Tree::Object(e)) ==> ordered(e),
        holds_at(ledger_tree(ledger), seq!["targets"@, target], Tree::Object(e)) ==> ordered(e),
{
    let t = ledger_tree(ledger);
    let top = t->Object_0;
    let none: Path = Seq::empty();
    lemma_ledger_tree(ledger);
    lemma_recorded_in(t, target, item);
    let rows = row_entries(ledger);
    assert(decimal(VERSION as nat) =~= seq!['1']);
    lemma_one_key_down(top, "version"@, none, top[0].1);
    assert(seq!["version"@] + none =~= seq!["version"@]);
    assert(top[0] == ("version"@, Tree::Number(seq!['1'])));
    assert(top.contains(("version"@, Tree::Number(seq!['1']))));
    assert(holds_at(Tree::Number(seq!['1']), none, Tree::Number(seq!['1'])));
    assert(top[1] == ("targets"@, Tree::Object(rows)));
    assert(top.contains(("targets"@, Tree::Object(rows))));
    law_a_lookup_finds_the_entry(top, "targets"@, Tree::Object(rows));
    assert forall|x: Tree| #[trigger] top.contains(("targets"@, x)) implies x == Tree::Object(
        rows,
    ) by {
        law_a_lookup_finds_the_entry(top, "targets"@, x);
    }
    assert(ordered(rows)) by {
        assert forall|i: int, j: int| 0 <= i < j < rows.len() implies precedes(
            (#[trigger] rows[i]).0,
            (#[trigger] rows[j]).0,
        ) by {
            assert(rows[i].0 == ledger[i].0);
            assert(rows[j].0 == ledger[j].0);
        }
    }
    if holds_at(t, seq!["targets"@], Tree::Object(e)) {
        lemma_one_key_down(top, "targets"@, none, Tree::Object(e));
        assert(seq!["targets"@] + none =~= seq!["targets"@]);
        assert(Tree::Object(e) == Tree::Object(rows));
    }
    if holds_at(t, seq!["targets"@, target], Tree::Object(e)) {
        let p = seq![target] + none;
        assert(seq!["targets"@] + p =~= seq!["targets"@, target]);
        lemma_one_key_down(top, "targets"@, p, Tree::Object(e));
        assert(distinct_keys(rows)) by {
            lemma_distinct(rows);
        }
        lemma_one_key_down(rows, target, none, Tree::Object(e));
        let w = choose|w: Tree| #[trigger]
            rows.contains((target, w)) && holds_at(w, none, Tree::Object(e));
        let k = choose|k: int| 0 <= k < rows.len() && rows[k] == (target, w);
        let notes = ledger[k].1;
        assert(rows[k].1 == Tree::Object(note_entries(notes)));
        assert(ordered(notes));
        assert forall|i: int, j: int| 0 <= i < j < e.len() implies precedes(
            (#[trigger] e[i]).0,
            (#[trigger] e[j]).0,
        ) by {
            assert(e[i].0 == notes[i].0);
            assert(e[j].0 == notes[j].0);
        }
    }
}

} // verus!
