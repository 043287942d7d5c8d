//! What a run promises about each item.
//!
//! The laws below start from what stands in the document and in the record before
//! a run, and say what becomes of it: an edit by another writer survives, what is
//! ours follows the declaration, what is absent is added, and what the record says
//! afterwards. They speak of the values a document holds at its paths.

use crate::adapter::expansion::{law_every_element_is_declared, law_every_value_is_declared, single};
use crate::adapter::json::JsonDoc;
use crate::adapter::laws::{
    clear_of, law_a_refused_value_survives, law_declared_items_share_nothing,
    law_what_is_not_refused_is_applied, law_what_is_withdrawn_is_gone, lemma_first_repr,
    lemma_last_item, lemma_null_holds_nothing, lemma_run, lemma_step_elsewhere, lemma_trace,
    lemma_untouched, lemma_walked, path_of, share_nothing, withdrawn_clear_of, Trace,
};
use crate::adapter::model::{
    first_repr, last_leaf, leaves, lemma_last_leaf, look, DocView, LeafView, Look,
};
use crate::adapter::path::{place_of, shown, Place};
use crate::canon::canonical_form;
use crate::engine::{last_repr, ran, EntryView, Options};
use crate::error::Failure;
use crate::policy::{alters, Decision, Reason};
use crate::port::{shortened, ItemView, OutputView, Ownership, StateView, Store};
use crate::runs::{agreeing, has_addr, law_every_item_is_walked, lemma_claims, lemma_last_repr};
use crate::text::lemma_precedes_irreflexive;
use crate::tree::{
    holds_at, law_a_lookup_finds_the_entry, law_a_walk_finds_what_is_there,
    law_a_walk_is_blocked_by_what_is_in_the_way, walk, well_formed, Path, Tree,
};
use crate::unique::lemma_under_a_key;
use vstd::prelude::*;

verus! {

/// **Law.** What is seen at a place is what the document holds there: the value at
/// a path by its canonical form, an element where the array at the path has one of
/// that canonical form. Anything but an array is in the way of an element.
pub proof fn law_a_look_sees_what_is_held(
    root: Tree,
    path: Path,
    repr: Seq<char>,
    v: Tree,
    a: Seq<Tree>,
)
    requires
        well_formed(root),
    ensures
        holds_at(root, path, v) ==> look(root, Place::Key(path)) == Look::Seen(
            Some(canonical_form(v)),
        ),
        holds_at(root, path, Tree::Array(a)) ==> look(root, Place::Element { path, repr })
            == Look::Seen(
            if exists|i: int| 0 <= i < a.len() && canonical_form(#[trigger] a[i]) == repr {
                Some(repr)
            } else {
                None
            },
        ),
        holds_at(root, path, v) && !(v is Array) ==> look(root, Place::Element { path, repr })
            == Look::Blocked(shown(path), v),
{
    law_a_walk_finds_what_is_there(root, path, v);
    law_a_walk_finds_what_is_there(root, path, Tree::Array(a));
}

/// **Law.** A value short of the end of a path that is not an object is in the way,
/// and is what is seen. Where an object on the way has no entry for the next key,
/// there is nothing at the place.
pub proof fn law_a_look_stops_where_the_path_does(
    root: Tree,
    path: Path,
    repr: Seq<char>,
    n: int,
    v: Tree,
)
    requires
        well_formed(root),
        0 <= n < path.len(),
        holds_at(root, path.take(n), v),
    ensures
        !(v is Object) ==> look(root, Place::Key(path)) == Look::Blocked(shown(path.take(n)), v),
        !(v is Object) ==> look(root, Place::Element { path, repr }) == Look::Blocked(
            shown(path.take(n)),
            v,
        ),
        v is Object && (forall|i: int|
            0 <= i < v->Object_0.len() ==> (#[trigger] v->Object_0[i]).0 != path[n]) ==> look(
            root,
            Place::Key(path),
        ) == Look::Seen(None) && look(root, Place::Element { path, repr }) == Look::Seen(None),
{
    law_a_walk_is_blocked_by_what_is_in_the_way(root, path, n, v);
    if v is Object && (forall|i: int|
        0 <= i < v->Object_0.len() ==> (#[trigger] v->Object_0[i]).0 != path[n]) {
        assert(path.take(n).skip(0) =~= path.take(n));
        lemma_walk_ends(root, path, 0, n, v);
    }
}

/// A walk ends at the object that has no entry for the next key.
proof fn lemma_walk_ends(t: Tree, path: Path, i: int, n: int, v: Tree)
    requires
        well_formed(t),
        0 <= i <= n < path.len(),
        holds_at(t, path.take(n).skip(i), v),
        v is Object,
        forall|k: int| 0 <= k < v->Object_0.len() ==> (#[trigger] v->Object_0[k]).0 != path[n],
    ensures
        walk(t, path, i) is Absent,
    decreases n - i,
{
    let part = path.take(n).skip(i);
    if i == n {
        assert(part.len() == 0);
        law_a_lookup_finds_the_entry(v->Object_0, path[n], Tree::Null);
    } else {
        let e = t->Object_0;
        assert(part[0] == path[i]);
        assert(part.drop_first() =~= path.take(n).skip(i + 1));
        let k = choose|k: int|
            0 <= k < e.len() && (#[trigger] e[k]).0 == part[0] && holds_at(
                e[k].1,
                part.drop_first(),
                v,
            );
        assert(e[k] == (path[i], e[k].1));
        law_a_lookup_finds_the_entry(e, path[i], e[k].1);
        lemma_walk_ends(e[k].1, path, i + 1, n, v);
    }
}

/// The record for an address: the first one, where there is more than one.
pub open spec fn record_at(prior: Seq<ItemView>, addr: Seq<char>, k: int) -> bool {
    &&& 0 <= k < prior.len()
    &&& prior[k].addr == addr
    &&& forall|j: int| 0 <= j < k ==> (#[trigger] prior[j]).addr != addr
}

proof fn lemma_record_at(prior: Seq<ItemView>, addr: Seq<char>, k: int)
    requires
        record_at(prior, addr, k),
    ensures
        first_repr(prior, addr) == Some(prior[k].repr),
    decreases k,
{
    if k > 0 {
        let rest = prior.drop_first();
        assert(prior[0].addr != addr);
        assert forall|j: int| 0 <= j < k - 1 implies (#[trigger] rest[j]).addr != addr by {
            assert(rest[j] == prior[j + 1]);
        }
        lemma_record_at(rest, addr, k - 1);
    }
}

/// **Law.** Whose a value is follows from the record: it is ours exactly where what
/// is there is what was recorded, changed by another writer where something else is
/// there, and removed by another writer where nothing is.
pub proof fn law_whose_a_value_is(
    d: DocView,
    addr: Seq<char>,
    place: Place,
    observed: Option<Seq<char>>,
    k: int,
)
    requires
        d.place(addr) == Some(place),
        look(d.root, place) == Look::Seen(observed),
        record_at(d.prior, addr, k),
    ensures
        d.state(addr) is Ok,
        d.state(addr)->Ok_0.observed == observed,
        d.state(addr)->Ok_0.ownership == Ownership::Ours <==> observed is Some && observed->0
            == d.prior[k].repr,
        d.state(addr)->Ok_0.ownership == Ownership::Diverged <==> observed is Some && observed->0
            != d.prior[k].repr,
        d.state(addr)->Ok_0.ownership == Ownership::Removed <==> observed is None,
        d.state(addr)->Ok_0.ownership != Ownership::Unknown,
        d.state(addr)->Ok_0.note is Some <==> observed is Some && observed->0 != d.prior[k].repr,
        d.state(addr)->Ok_0.note is Some ==> d.state(addr)->Ok_0.note->0
            == "this tool last wrote "@ + shortened(d.prior[k].repr, 48),
{
    lemma_record_at(d.prior, addr, k);
}

/// **Law.** An item that is not recorded is nobody's, observed as it is seen where
/// its place can be reached, and without a note then.
pub proof fn law_what_is_not_recorded_is_observed(
    d: DocView,
    addr: Seq<char>,
    place: Place,
    observed: Option<Seq<char>>,
)
    requires
        d.place(addr) == Some(place),
        look(d.root, place) == Look::Seen(observed),
        !has_addr(d.prior, addr),
    ensures
        d.state(addr) == Ok::<StateView, Failure>(
            StateView { observed, ownership: Ownership::Unknown, note: None },
        ),
{
    lemma_first_repr(d.prior, addr);
}

/// **Law.** A value in the way of an item is nobody's, whatever is recorded for the item.
/// It is what is observed there, by its canonical form, unless that is the declared one,
/// and then something is observed that is not the declared value. A note tells where it
/// is and of what kind.
pub proof fn law_what_is_in_the_way_is_observed(
    d: DocView,
    addr: Seq<char>,
    place: Place,
    at: Seq<char>,
    found: Tree,
)
    requires
        d.place(addr) == Some(place),
        look(d.root, place) == Look::Blocked(at, found),
    ensures
        d.state(addr) is Ok,
        d.state(addr)->Ok_0.ownership == Ownership::Unknown,
        d.state(addr)->Ok_0.observed is Some,
        last_repr(d.items(), addr) != Some(canonical_form(found)) ==> d.state(addr)->Ok_0.observed
            == Some(canonical_form(found)),
        d.state(addr)->Ok_0.observed != last_repr(d.items(), addr),
        d.state(addr)->Ok_0.note == Some(
            "`"@ + at + "` is "@ + (match found {
                Tree::Null => "null"@,
                Tree::Bool(_) => "a bool"@,
                Tree::Number(_) => "a number"@,
                Tree::String(_) => "a string"@,
                Tree::Array(_) => "an array"@,
                Tree::Object(_) => "an object"@,
            }) + ", so the path cannot be followed"@,
        ),
{
    lemma_last_item(d.leaves, addr);
    lemma_under_a_key(at, found);
}

/// **Law.** What is declared is listed as it was declared: the items in their order, each
/// by its address and the canonical form of its value.
pub proof fn law_what_is_declared_is_listed(d: DocView, i: int)
    requires
        d.ok(),
    ensures
        d.items().len() == d.leaves.len(),
        0 <= i < d.leaves.len() ==> d.items()[i] == (ItemView {
            addr: d.leaves[i].addr,
            repr: canonical_form(d.leaves[i].value),
        }),
{
    if 0 <= i < d.leaves.len() {
        assert(d.leaves[i].sound());
    }
}

/// **Law.** An item that only the record knows is where its address says.
pub proof fn law_a_leftover_is_where_its_address_says(d: DocView, addr: Seq<char>, k: int)
    requires
        forall|i: int| 0 <= i < d.leaves.len() ==> (#[trigger] d.leaves[i]).addr != addr,
        record_at(d.prior, addr, k),
    ensures
        d.place(addr) == Some(place_of(addr, d.prior[k].repr)),
{
    lemma_last_leaf(d.leaves, addr);
    lemma_record_at(d.prior, addr, k);
    if last_leaf(d.leaves, addr) is Some {
        let i = choose|i: int|
            0 <= i < d.leaves.len() && d.leaves[i] == last_leaf(d.leaves, addr)->0;
        assert(d.leaves[i].addr == addr);
    }
}

/// **Law.** An item that is neither declared nor recorded is no item: reading,
/// writing and withdrawing it all fail, and an item that is only recorded is not
/// written.
pub proof fn law_only_items_are_touched(d: DocView, addr: Seq<char>)
    requires
        forall|i: int| 0 <= i < d.leaves.len() ==> (#[trigger] d.leaves[i]).addr != addr,
    ensures
        d.written(addr) is Err,
        !has_addr(d.prior, addr) ==> d.state(addr) is Err && d.withdrawn(addr) is Err,
        has_addr(d.prior, addr) ==> d.state(addr) is Ok && d.withdrawn(addr) is Ok,
{
    lemma_last_leaf(d.leaves, addr);
    lemma_first_repr(d.prior, addr);
    if last_leaf(d.leaves, addr) is Some {
        let i = choose|i: int|
            0 <= i < d.leaves.len() && d.leaves[i] == last_leaf(d.leaves, addr)->0;
        assert(d.leaves[i].addr == addr);
    }
}

/// No two declared items have the same address, except at the same place.
pub open spec fn told_apart(all: Seq<LeafView>) -> bool {
    forall|i: int, j: int|
        0 <= i < all.len() && 0 <= j < all.len() && (#[trigger] all[i]).addr == (
        #[trigger] all[j]).addr ==> all[i].place == all[j].place && all[i].repr == all[j].repr
}

/// **Law.** A declared item is where it was declared, and asks for the canonical
/// form it was declared with.
pub proof fn law_an_item_is_where_it_was_declared(d: DocView, i: int)
    requires
        told_apart(d.leaves),
        0 <= i < d.leaves.len(),
    ensures
        d.place(d.leaves[i].addr) == Some(d.leaves[i].place),
        last_repr(d.items(), d.leaves[i].addr) == Some(d.leaves[i].repr),
{
    let addr = d.leaves[i].addr;
    lemma_last_leaf(d.leaves, addr);
    lemma_last_item(d.leaves, addr);
    let leaf = last_leaf(d.leaves, addr)->0;
    let j = choose|j: int| 0 <= j < d.leaves.len() && d.leaves[j] == leaf;
    assert(d.leaves[j].addr == d.leaves[i].addr);
}

/// A document to manage with the items of a declaration at a key.
pub open spec fn manages(doc: JsonDoc, key: Path, declaration: Tree) -> bool {
    &&& doc.inv()
    &&& well_formed(declaration)
    &&& doc@.leaves == leaves(key, declaration)
}

/// No item before this one has its address.
pub open spec fn first_at(all: Seq<LeafView>, j: int) -> bool {
    0 <= j < all.len() && forall|i: int| 0 <= i < j ==> (#[trigger] all[i]).addr != all[j].addr
}

/// Until it is met, a declared item looks as it did before the run.
proof fn lemma_not_met_yet(t: Trace, j: int, k: int)
    requires
        t.sound(),
        share_nothing(t.start@.leaves),
        first_at(t.start@.leaves, j),
        0 <= k <= j,
        k < t.stores.len(),
        look(t.start@.root, t.place(j)) is Seen || !t.opts.force,
    ensures
        look(t.root(k), t.place(j)) == look(t.start@.root, t.place(j)),
        t.root(k) is Null ==> t.start@.root is Null,
    decreases k,
{
    if k > 0 {
        let n = k - 1;
        lemma_not_met_yet(t, j, n);
        law_every_item_is_walked(t.start@.items(), t.start@.prior);
        lemma_walked(t.start@, n);
        lemma_walked(t.start@, j);
        lemma_trace(t, n);
        assert(t.start@.leaves[n].addr != t.start@.leaves[j].addr);
        let met = t.order()[n];
        lemma_last_item(t.start@.leaves, met);
        if t.root(n) is Null && t.opts.force {
            // Then the item is the document itself, and no other is declared.
            lemma_null_holds_nothing(t.place(j));
            assert(clear_of(
                last_leaf(t.start@.leaves, met)->0.place,
                last_leaf(t.start@.leaves, t.order()[j])->0.place,
            ));
        } else {
            lemma_elsewhere_before(t, j, n);
        }
    }
}

/// The first `n` steps of a run.
spec fn cut_at(t: Trace, n: int) -> Trace {
    Trace { stores: t.stores.take(n + 1), states: t.states.take(n), ..t }
}

proof fn lemma_cut(t: Trace, n: int)
    requires
        t.sound(),
        0 <= n <= t.states.len(),
    ensures
        cut_at(t, n).sound(),
{
    let cut = cut_at(t, n);
    assert forall|i: int| 0 <= i < cut.states.len() implies cut.task().step(
        #[trigger] cut.stores[i],
        cut.stores[i + 1],
        cut.order()[i],
        cut.states[i],
    ) by {
        assert(t.task().step(t.stores[i], t.stores[i + 1], t.order()[i], t.states[i]));
    }
}

/// A step for another declared item leaves this one alone.
proof fn lemma_elsewhere_before(t: Trace, j: int, n: int)
    requires
        t.sound(),
        share_nothing(t.start@.leaves),
        first_at(t.start@.leaves, j),
        0 <= n < j,
        n < t.states.len(),
        t.root(n) is Null ==> !t.opts.force,
    ensures
        look(t.root(n + 1), t.place(j)) == look(t.root(n), t.place(j)),
        t.root(n + 1) is Null ==> t.root(n) is Null,
{
    let cut = cut_at(t, n + 1);
    lemma_cut(t, n + 1);
    law_every_item_is_walked(t.start@.items(), t.start@.prior);
    lemma_walked(t.start@, n);
    lemma_walked(t.start@, j);
    assert(t.start@.leaves[n].addr != t.start@.leaves[j].addr);
    assert forall|i: int|
        0 <= i < cut.states.len() && (#[trigger] cut.verdict(i)) is Retract implies clear_of(
        cut.place(i),
        t.place(j),
    ) by {
        lemma_walked(t.start@, i);
        lemma_last_item(t.start@.leaves, t.order()[i]);
    }
    lemma_step_elsewhere(cut, t.order()[j], n);
}

/// A declared item is met in the state it was in before the run.
proof fn lemma_met_as_it_was(t: Trace, j: int)
    requires
        t.sound(),
        t.complete(),
        share_nothing(t.start@.leaves),
        first_at(t.start@.leaves, j),
        look(t.start@.root, t.place(j)) is Seen || !t.opts.force,
    ensures
        t.order()[j] == t.start@.leaves[j].addr,
        t.start@.state(t.order()[j]) == Ok::<StateView, Failure>(t.states[j]),
        last_leaf(t.start@.leaves, t.order()[j]) is Some,
{
    law_every_item_is_walked(t.start@.items(), t.start@.prior);
    lemma_walked(t.start@, j);
    lemma_not_met_yet(t, j, j);
    lemma_trace(t, j);
}

/// **Law.** The report says what was there: for a declared item, what was seen at
/// its place before the run, and what is declared for it.
pub proof fn law_a_report_says_what_was_there(
    key: Path,
    declaration: Tree,
    before: JsonDoc,
    opts: Options,
    after: JsonDoc,
    report: Seq<EntryView>,
    output: OutputView,
    j: int,
    observed: Option<Seq<char>>,
)
    requires
        manages(before, key, declaration),
        ran(before, opts, after, Ok((report, output))),
        first_at(before@.leaves, j),
        look(before@.root, before@.place(before@.leaves[j].addr)->0) == Look::Seen(observed),
    ensures
        report[j].addr == before@.leaves[j].addr,
        report[j].observed == observed,
        report[j].declared is Some,
        told_apart(before@.leaves) ==> report[j].declared == Some(before@.leaves[j].repr),
        before@.state(report[j].addr) is Ok,
        report[j].note == before@.state(report[j].addr)->Ok_0.note,
{
    let t = lemma_run(before, opts, after, Ok((report, output)));
    law_declared_items_share_nothing(key, declaration);
    law_every_item_is_walked(before@.items(), before@.prior);
    lemma_walked(before@, j);
    lemma_met_as_it_was(t, j);
    lemma_last_item(before@.leaves, t.order()[j]);
    assert(report[j] == t.task().entry(t.order()[j], t.states[j]));
    if told_apart(before@.leaves) {
        law_an_item_is_where_it_was_declared(before@, j);
    }
}

/// **Law.** A hand edit is never overwritten: a run that is not forced leaves a
/// declared item alone whose value is not the one recorded for it, whatever is
/// declared, and reports it as edited. A deleted item is not put back.
pub proof fn law_a_hand_edit_survives(
    key: Path,
    declaration: Tree,
    before: JsonDoc,
    opts: Options,
    after: JsonDoc,
    report: Seq<EntryView>,
    output: OutputView,
    j: int,
    observed: Option<Seq<char>>,
    k: int,
)
    requires
        manages(before, key, declaration),
        ran(before, opts, after, Ok((report, output))),
        !opts.force,
        first_at(before@.leaves, j),
        look(before@.root, before@.place(before@.leaves[j].addr)->0) == Look::Seen(observed),
        record_at(before@.prior, before@.leaves[j].addr, k),
        observed != Some(before@.prior[k].repr),
        withdrawn_clear_of(before@, report, before@.place(before@.leaves[j].addr)->0),
    ensures
        look(after@.root, before@.place(before@.leaves[j].addr)->0) == Look::Seen(observed),
        report[j].addr == before@.leaves[j].addr,
        report[j].decision == Decision::Refuse(
            if observed is Some {
                Reason::HandEdited
            } else {
                Reason::RemovedByOther
            },
        ),
{
    let addr = before@.leaves[j].addr;
    let t = lemma_run(before, opts, after, Ok((report, output)));
    law_declared_items_share_nothing(key, declaration);
    law_every_item_is_walked(before@.items(), before@.prior);
    lemma_walked(before@, j);
    lemma_met_as_it_was(t, j);
    lemma_last_item(before@.leaves, addr);
    law_whose_a_value_is(before@, addr, before@.place(addr)->0, observed, k);
    assert(report[j] == t.task().entry(t.order()[j], t.states[j]));
    law_a_refused_value_survives(
        before,
        opts,
        after,
        Ok((report, output)),
        key,
        declaration,
        addr,
    );
}

/// **Law.** What is ours follows the declaration: a declared item that holds the
/// value recorded for it is never refused. It is skipped where that is the value
/// declared and updated otherwise, and holds the declared value after the run.
pub proof fn law_what_is_ours_is_brought_up_to_date(
    key: Path,
    declaration: Tree,
    before: JsonDoc,
    opts: Options,
    after: JsonDoc,
    report: Seq<EntryView>,
    output: OutputView,
    j: int,
    k: int,
)
    requires
        manages(before, key, declaration),
        ran(before, opts, after, Ok((report, output))),
        first_at(before@.leaves, j),
        record_at(before@.prior, before@.leaves[j].addr, k),
        look(before@.root, before@.place(before@.leaves[j].addr)->0) == Look::Seen(
            Some(before@.prior[k].repr),
        ),
        withdrawn_clear_of(before@, report, before@.place(before@.leaves[j].addr)->0),
    ensures
        report[j].addr == before@.leaves[j].addr,
        report[j].declared is Some,
        report[j].decision is Skip || report[j].decision is Update,
        report[j].decision is Skip <==> report[j].declared->0 == before@.prior[k].repr,
        look(after@.root, before@.place(before@.leaves[j].addr)->0) == Look::Seen(
            report[j].declared,
        ),
        told_apart(before@.leaves) ==> report[j].declared->0 == before@.leaves[j].repr,
{
    let addr = before@.leaves[j].addr;
    let t = lemma_run(before, opts, after, Ok((report, output)));
    law_declared_items_share_nothing(key, declaration);
    law_every_item_is_walked(before@.items(), before@.prior);
    lemma_walked(before@, j);
    lemma_met_as_it_was(t, j);
    lemma_last_item(before@.leaves, addr);
    let observed = Some(before@.prior[k].repr);
    law_whose_a_value_is(before@, addr, before@.place(addr)->0, observed, k);
    assert(report[j] == t.task().entry(t.order()[j], t.states[j]));
    law_what_is_not_refused_is_applied(
        key,
        declaration,
        before,
        opts,
        after,
        report,
        output,
        j,
    );
    if told_apart(before@.leaves) {
        law_an_item_is_where_it_was_declared(before@, j);
    }
}

/// **Law.** A declared item that nothing is recorded of is added where there is
/// nothing, adopted where it holds the declared value already, and otherwise left
/// as it is and reported as a conflict, unless the run is forced.
pub proof fn law_what_is_not_recorded_is_added_or_left(
    key: Path,
    declaration: Tree,
    before: JsonDoc,
    opts: Options,
    after: JsonDoc,
    report: Seq<EntryView>,
    output: OutputView,
    j: int,
    observed: Option<Seq<char>>,
)
    requires
        manages(before, key, declaration),
        ran(before, opts, after, Ok((report, output))),
        first_at(before@.leaves, j),
        !has_addr(before@.prior, before@.leaves[j].addr),
        look(before@.root, before@.place(before@.leaves[j].addr)->0) == Look::Seen(observed),
        withdrawn_clear_of(before@, report, before@.place(before@.leaves[j].addr)->0),
    ensures
        ({
            let place = before@.place(before@.leaves[j].addr)->0;
            let declared = report[j].declared;
            &&& report[j].addr == before@.leaves[j].addr
            &&& declared is Some
            &&& told_apart(before@.leaves) ==> declared->0 == before@.leaves[j].repr
            &&& observed is None ==> report[j].decision is Add && look(after@.root, place)
                == Look::Seen(declared)
            &&& observed == declared ==> report[j].decision is Skip && look(after@.root, place)
                == Look::Seen(declared)
            &&& observed is Some && observed != declared && !opts.force ==> report[j].decision
                == Decision::Refuse(Reason::Conflict) && look(after@.root, place) == Look::Seen(
                observed,
            )
            &&& observed is Some && observed != declared && opts.force ==> report[j].decision
                is Update && look(after@.root, place) == Look::Seen(declared)
        }),
{
    let addr = before@.leaves[j].addr;
    let t = lemma_run(before, opts, after, Ok((report, output)));
    law_declared_items_share_nothing(key, declaration);
    law_every_item_is_walked(before@.items(), before@.prior);
    lemma_walked(before@, j);
    lemma_met_as_it_was(t, j);
    lemma_last_item(before@.leaves, addr);
    law_what_is_not_recorded_is_observed(before@, addr, before@.place(addr)->0, observed);
    assert(report[j] == t.task().entry(t.order()[j], t.states[j]));
    if report[j].decision is Refuse {
        law_a_refused_value_survives(
            before,
            opts,
            after,
            Ok((report, output)),
            key,
            declaration,
            addr,
        );
    } else {
        law_what_is_not_refused_is_applied(
            key,
            declaration,
            before,
            opts,
            after,
            report,
            output,
            j,
        );
    }
    if told_apart(before@.leaves) {
        law_an_item_is_where_it_was_declared(before@, j);
    }
}

/// What a run changed besides the item at an address shares nothing with a place.
pub open spec fn others_clear_of(
    d: DocView,
    report: Seq<EntryView>,
    addr: Seq<char>,
    q: Place,
) -> bool {
    forall|i: int|
        0 <= i < report.len() && alters((#[trigger] report[i]).decision) && report[i].addr != addr
            ==> clear_of(d.place(report[i].addr)->0, q)
}

/// An item that only the record knows is met in the state it was in before the run.
proof fn lemma_leftover_met(t: Trace, report: Seq<EntryView>, j: int)
    requires
        t.sound(),
        t.complete(),
        report.len() == t.states.len(),
        forall|i: int|
            0 <= i < t.states.len() ==> (#[trigger] report[i]) == t.task().entry(
                t.order()[i],
                t.states[i],
            ),
        t.start@.leaves.len() <= j < t.states.len(),
        !(t.start@.root is Null),
        others_clear_of(t.start@, report, t.order()[j], t.place(j)),
    ensures
        t.start@.state(t.order()[j]) == Ok::<StateView, Failure>(t.states[j]),
        last_leaf(t.start@.leaves, t.order()[j]) is None,
{
    let cut = cut_at(t, j);
    lemma_cut(t, j);
    law_every_item_is_walked(t.start@.items(), t.start@.prior);
    lemma_walked(t.start@, j);
    assert forall|i: int| 0 <= i < cut.states.len() && alters(cut.verdict(i)) implies clear_of(
        #[trigger] cut.place(i),
        t.place(j),
    ) by {
        assert(report[i] == t.task().entry(t.order()[i], t.states[i]));
        lemma_walked(t.start@, i);
        if t.order()[i] == t.order()[j] {
            lemma_precedes_irreflexive(t.order()[j]);
        }
    }
    lemma_untouched(cut, t.place(j), j);
    lemma_trace(t, j);
}

/// **Law.** An item that is recorded and no longer declared is withdrawn where it
/// still holds the recorded value and the caller asked for it, and is left as it is
/// in every other case.
pub proof fn law_what_is_no_longer_declared(
    before: JsonDoc,
    opts: Options,
    after: JsonDoc,
    report: Seq<EntryView>,
    output: OutputView,
    j: int,
    observed: Option<Seq<char>>,
    k: int,
)
    requires
        before.inv(),
        ran(before, opts, after, Ok((report, output))),
        before@.leaves.len() <= j < report.len(),
        record_at(before@.prior, report[j].addr, k),
        look(before@.root, before@.place(report[j].addr)->0) == Look::Seen(observed),
        path_of(before@.place(report[j].addr)->0).len() > 0,
        others_clear_of(before@, report, report[j].addr, before@.place(report[j].addr)->0),
    ensures
        report[j].declared is None,
        report[j].observed == observed,
        report[j].decision is Retract <==> opts.retract && observed == Some(before@.prior[k].repr),
        !(report[j].decision is Retract) ==> report[j].decision is Skip,
        report[j].overridden <==> !opts.retract && observed == Some(before@.prior[k].repr),
        look(after@.root, before@.place(report[j].addr)->0) == Look::Seen(
            if opts.retract && observed == Some(before@.prior[k].repr) {
                None
            } else {
                observed
            },
        ),
{
    let t = lemma_run(before, opts, after, Ok((report, output)));
    let addr = report[j].addr;
    let place = before@.place(addr)->0;
    if before@.root is Null {
        lemma_null_holds_nothing(place);
    }
    assert(report[j] == t.task().entry(t.order()[j], t.states[j]));
    law_every_item_is_walked(before@.items(), before@.prior);
    lemma_walked(before@, j);
    lemma_leftover_met(t, report, j);
    lemma_last_item(before@.leaves, addr);
    law_whose_a_value_is(before@, addr, place, observed, k);
    if report[j].decision is Retract {
        law_what_is_withdrawn_is_gone(before, opts, after, report, output, j);
    } else {
        assert forall|i: int| 0 <= i < t.states.len() && alters(t.verdict(i)) implies clear_of(
            #[trigger] t.place(i),
            place,
        ) by {
            assert(report[i] == t.task().entry(t.order()[i], t.states[i]));
            lemma_walked(before@, i);
            if t.order()[i] == addr {
                lemma_precedes_irreflexive(addr);
                assert(i == j);
            }
        }
        lemma_untouched(t, place, t.stores.len() - 1);
    }
}

/// **Law.** A forced run that succeeds leaves every declared item with its declared
/// value, whatever was there.
pub proof fn law_force_applies_everything(
    key: Path,
    declaration: Tree,
    before: JsonDoc,
    opts: Options,
    after: JsonDoc,
    report: Seq<EntryView>,
    output: OutputView,
    j: int,
)
    requires
        manages(before, key, declaration),
        ran(before, opts, after, Ok((report, output))),
        opts.force,
        0 <= j < before@.leaves.len(),
        told_apart(before@.leaves),
        withdrawn_clear_of(before@, report, before@.leaves[j].place),
    ensures
        look(after@.root, before@.leaves[j].place) == Look::Seen(Some(before@.leaves[j].repr)),
{
    let t = lemma_run(before, opts, after, Ok((report, output)));
    law_every_item_is_walked(before@.items(), before@.prior);
    lemma_walked(before@, j);
    law_an_item_is_where_it_was_declared(before@, j);
    assert(report[j] == t.task().entry(t.order()[j], t.states[j]));
    law_what_is_not_refused_is_applied(
        key,
        declaration,
        before,
        opts,
        after,
        report,
        output,
        j,
    );
}

/// What an object holds at a path is seen there.
proof fn lemma_seen_is_held(root: Tree, path: Path, repr: Seq<char>)
    requires
        well_formed(root),
        look(root, Place::Key(path)) == Look::Seen(Some(repr)),
    ensures
        exists|w: Tree| #[trigger] holds_at(root, path, w) && canonical_form(w) == repr,
{
    let w = walk(root, path, 0)->Found_0;
    law_a_walk_finds_what_is_there(root, path, w);
    assert(holds_at(root, path, w));
}

/// **Law.** A run that refuses nothing leaves the whole declaration in the document:
/// every scalar and empty container that the declaration holds at a path stands at
/// that path below the key, and every element of an array of it is in the array
/// there.
pub proof fn law_the_whole_declaration_is_applied(
    key: Path,
    declaration: Tree,
    before: JsonDoc,
    opts: Options,
    after: JsonDoc,
    report: Seq<EntryView>,
    output: OutputView,
    q: Path,
    v: Tree,
    a: Seq<Tree>,
    n: int,
)
    requires
        manages(before, key, declaration),
        told_apart(before@.leaves),
        ran(before, opts, after, Ok((report, output))),
        forall|i: int| 0 <= i < report.len() ==> !((#[trigger] report[i]).decision is Refuse),
        forall|i: int|
            0 <= i < before@.leaves.len() ==> withdrawn_clear_of(
                before@,
                report,
                (#[trigger] before@.leaves[i]).place,
            ),
    ensures
        holds_at(declaration, q, v) && single(v) ==> exists|w: Tree| #[trigger]
            holds_at(after@.root, key + q, w) && canonical_form(w) == canonical_form(v),
        holds_at(declaration, q, Tree::Array(a)) && 0 <= n < a.len() ==> exists|b: Seq<Tree>|
            #[trigger] holds_at(after@.root, key + q, Tree::Array(b)) && exists|m: int|
                0 <= m < b.len() && canonical_form(#[trigger] b[m]) == canonical_form(a[n]),
{
    let t = lemma_run(before, opts, after, Ok((report, output)));
    lemma_trace(t, t.stores.len() - 1);
    law_every_item_is_walked(before@.items(), before@.prior);
    if holds_at(declaration, q, v) && single(v) {
        law_every_value_is_declared(key, declaration, q, v);
        let all = leaves(key, declaration);
        let i = choose|i: int|
            0 <= i < all.len() && (#[trigger] all[i]).place == Place::Key(key + q) && all[i].value
                == v;
        lemma_applied(key, declaration, before, opts, after, report, output, i);
        assert(before@.leaves[i].sound());
        lemma_seen_is_held(after@.root, key + q, canonical_form(v));
    }
    if holds_at(declaration, q, Tree::Array(a)) && 0 <= n < a.len() {
        law_every_element_is_declared(key, declaration, q, a, n);
        let repr = canonical_form(a[n]);
        let place = Place::Element { path: key + q, repr };
        let all = leaves(key, declaration);
        let i = choose|i: int|
            0 <= i < all.len() && (#[trigger] all[i]).place == place && all[i].value == a[n];
        lemma_applied(key, declaration, before, opts, after, report, output, i);
        assert(before@.leaves[i].sound());
        let b = walk(after@.root, key + q, 0)->Found_0->Array_0;
        law_a_walk_finds_what_is_there(after@.root, key + q, Tree::Array(b));
        assert(holds_at(after@.root, key + q, Tree::Array(b)));
        law_a_look_sees_what_is_held(after@.root, key + q, repr, Tree::Null, b);
    }
}

proof fn lemma_applied(
    key: Path,
    declaration: Tree,
    before: JsonDoc,
    opts: Options,
    after: JsonDoc,
    report: Seq<EntryView>,
    output: OutputView,
    j: int,
)
    requires
        manages(before, key, declaration),
        told_apart(before@.leaves),
        ran(before, opts, after, Ok((report, output))),
        forall|i: int| 0 <= i < report.len() ==> !((#[trigger] report[i]).decision is Refuse),
        0 <= j < before@.leaves.len(),
        withdrawn_clear_of(before@, report, before@.leaves[j].place),
    ensures
        look(after@.root, before@.leaves[j].place) == Look::Seen(Some(before@.leaves[j].repr)),
{
    let t = lemma_run(before, opts, after, Ok((report, output)));
    law_every_item_is_walked(before@.items(), before@.prior);
    lemma_walked(before@, j);
    law_an_item_is_where_it_was_declared(before@, j);
    assert(report[j] == t.task().entry(t.order()[j], t.states[j]));
    law_what_is_not_refused_is_applied(
        key,
        declaration,
        before,
        opts,
        after,
        report,
        output,
        j,
    );
}

/// **Law.** The record a run hands back holds, for every address and value: the
/// declared value of what was added, updated or found in place, the old record of
/// what was refused or would have been withdrawn, and nothing else.
pub proof fn law_what_a_run_records(
    before: JsonDoc,
    opts: Options,
    after: JsonDoc,
    report: Seq<EntryView>,
    output: OutputView,
    item: ItemView,
)
    requires
        before.inv(),
        agreeing(before@.prior),
        ran(before, opts, after, Ok((report, output))),
    ensures
        output.prior is Some,
        output.prior->0.contains(item) <==> exists|i: int|
            0 <= i < report.len() && (#[trigger] report[i]).addr == item.addr && (
            if report[i].decision is Refuse || report[i].decision is Skip && report[i].declared
                is None && report[i].overridden {
                before@.prior.contains(item)
            } else {
                !(report[i].decision is Retract) && report[i].declared == Some(item.repr)
            }),
{
    let t = lemma_run(before, opts, after, Ok((report, output)));
    let claims = t.claims();
    assert(output.prior == Some(claims));
    lemma_claims(t.task(), t.order(), t.states);
    assert forall|i: int| 0 <= i < report.len() implies ((#[trigger] report[i]).addr == item.addr
        && (if report[i].decision is Refuse || report[i].decision is Skip && report[i].declared
        is None && report[i].overridden {
        before@.prior.contains(item)
    } else {
        !(report[i].decision is Retract) && report[i].declared == Some(item.repr)
    }) <==> t.task().claim(t.order()[i], t.states[i]) == Some(item)) by {
        assert(report[i] == t.task().entry(t.order()[i], t.states[i]));
        lemma_walked(before@, i);
        lemma_last_item(before@.leaves, t.order()[i]);
        lemma_last_repr(before@.items(), t.order()[i]);
        lemma_recorded_once(before@.prior, t.order()[i], item.repr);
        assert(item == ItemView { addr: item.addr, repr: item.repr });
    }
    if claims.contains(item) {
        let i = choose|i: int|
            0 <= i < t.states.len() && t.task().claim(t.order()[i], #[trigger] t.states[i]) == Some(
                item,
            );
        assert(report[i].addr == item.addr);
    }
    if exists|i: int|
        0 <= i < report.len() && (#[trigger] report[i]).addr == item.addr && (
        if report[i].decision is Refuse || report[i].decision is Skip && report[i].declared is None
            && report[i].overridden {
            before@.prior.contains(item)
        } else {
            !(report[i].decision is Retract) && report[i].declared == Some(item.repr)
        }) {
        let i = choose|i: int|
            0 <= i < report.len() && (#[trigger] report[i]).addr == item.addr && (
            if report[i].decision is Refuse || report[i].decision is Skip && report[i].declared
                is None && report[i].overridden {
                before@.prior.contains(item)
            } else {
                !(report[i].decision is Retract) && report[i].declared == Some(item.repr)
            });
        assert(t.task().claim(t.order()[i], t.states[i]) == Some(item));
    }
}

proof fn lemma_recorded_once(prior: Seq<ItemView>, addr: Seq<char>, repr: Seq<char>)
    requires
        agreeing(prior),
    ensures
        last_repr(prior, addr) == Some(repr) <==> prior.contains(ItemView { addr, repr }),
{
    lemma_last_repr(prior, addr);
    if prior.contains(ItemView { addr, repr }) {
        let k = choose|k: int| 0 <= k < prior.len() && prior[k] == (ItemView { addr, repr });
        assert(prior[k].addr == addr);
        let last = ItemView { addr, repr: last_repr(prior, addr)->0 };
        let m = choose|m: int| 0 <= m < prior.len() && prior[m] == last;
        assert(prior[m].repr == prior[k].repr);
    }
}

} // verus!
