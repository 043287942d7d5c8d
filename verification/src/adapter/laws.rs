//! What holds of a JSON document under management.
//!
//! The laws below say what a write and a retraction do to the item they are for,
//! that they leave everything else alone, and what follows from that for a whole
//! run: a refused value survives, what is not refused is applied, and what is
//! withdrawn is gone. What a second run does is in [`crate::adapter::reruns`].

use crate::adapter::json::{rendered, JsonDoc};
use crate::adapter::model::{
    add_element, element_leaf, elements_in, entry_leaves, first_repr, grounded, holds, key_leaf,
    last_leaf, leaves, lemma_last_leaf, lemma_withdrawn_ok, lemma_written_ok, look, no_array,
    opened, set_key, taken_away, without, DocView, LeafView, Look,
};
use crate::adapter::path::Place;
use crate::adapter::Adapter;
use crate::canon::canonical_form;
use crate::engine::{last_repr, ran, walk_order, EntryView, Options, Task};
use crate::error::Failure;
use crate::layout::pretty_text;
use crate::policy::{alters, Decision, Reason};
use crate::port::{ItemView, OutputView, Ownership, StateView, Store};
use crate::runs::{has_addr, law_every_item_is_walked, lemma_last_repr, lemma_ran};
use crate::tree::{
    apart, lemma_last_step, lemma_planted_apart, lemma_put, lemma_removed, lemma_walk_planted,
    lemma_walk_well_formed, lookup, part_at, planted, removed, site, walk, well_formed, Entries,
    Path, Tree, Walk,
};
use crate::unique::lemma_under_a_key;
use crate::value::{nesting_limit, reads_back};
use vstd::prelude::*;

verus! {

/// The path of a place: that of the value, or of the array holding the element.
pub open spec fn path_of(place: Place) -> Path {
    match place {
        Place::Key(path) => path,
        Place::Element { path, .. } => path,
    }
}

/// Two places that share nothing: neither path leads to or through the other, or
/// they are different elements of the same array.
pub open spec fn clear_of(p: Place, q: Place) -> bool {
    ||| apart(path_of(p), path_of(q))
    ||| p is Element && q is Element && path_of(p) == path_of(q) && p->Element_repr
        != q->Element_repr
}

proof fn lemma_push_holds(a: Seq<Tree>, v: Tree, repr: Seq<char>)
    ensures
        holds(a.push(v), repr) == (holds(a, repr) || canonical_form(v) == repr),
{
    let more = a.push(v);
    if holds(a, repr) {
        let i = choose|i: int| 0 <= i < a.len() && canonical_form(#[trigger] a[i]) == repr;
        assert(more[i] == a[i]);
    }
    if canonical_form(v) == repr {
        assert(canonical_form(more[a.len() as int]) == repr);
    }
    if holds(more, repr) {
        let i = choose|i: int| 0 <= i < more.len() && canonical_form(#[trigger] more[i]) == repr;
        if i < a.len() {
            assert(a[i] == more[i]);
        }
    }
}

proof fn lemma_without_holds(a: Seq<Tree>, gone: Seq<char>, repr: Seq<char>)
    ensures
        holds(without(a, gone), repr) == (repr != gone && holds(a, repr)),
    decreases a.len(),
{
    if a.len() > 0 {
        let head = a.drop_last();
        lemma_without_holds(head, gone, repr);
        assert(head.push(a.last()) =~= a);
        lemma_push_holds(head, a.last(), repr);
        lemma_push_holds(without(head, gone), a.last(), repr);
    }
}

/// **Law.** An item that was written is found with its declared value.
pub proof fn law_a_written_item_is_found(d: DocView, addr: Seq<char>)
    requires
        d.ok(),
        d.written(addr) is Ok,
    ensures
        last_leaf(d.leaves, addr) is Some,
        look(d.written(addr)->Ok_0, last_leaf(d.leaves, addr)->0.place) == Look::Seen(
            Some(last_leaf(d.leaves, addr)->0.repr),
        ),
{
    let leaf = last_leaf(d.leaves, addr)->0;
    lemma_last_leaf(d.leaves, addr);
    assert(leaf.sound());
    let base = grounded(d.root);
    match leaf.place {
        Place::Key(path) => {
            lemma_walk_planted(base, path, 0, leaf.value);
        },
        Place::Element { path, repr } => {
            let a = elements_in(site(base, path, 0));
            lemma_walk_planted(base, path, 0, Tree::Array(a.push(leaf.value)));
            lemma_push_holds(a, leaf.value, repr);
        },
    }
}

/// **Law.** An item that was withdrawn is gone, and where it could not be reached
/// nothing has changed. The document itself is not taken away: it becomes an
/// empty object.
pub proof fn law_a_withdrawn_item_is_gone(d: DocView, addr: Seq<char>)
    requires
        d.ok(),
        d.withdrawn(addr) is Ok,
    ensures
        ({
            let place = d.place(addr)->0;
            let after = d.withdrawn(addr)->Ok_0;
            if place == Place::Key(Seq::empty()) {
                after == Tree::Object(Seq::empty())
            } else {
                ||| look(after, place) == Look::Seen(None)
                ||| after == d.root && look(after, place) is Blocked
            }
        }),
{
    let place = d.place(addr)->0;
    let root = d.root;
    match place {
        Place::Key(path) => {
            if path.len() == 0 {
                assert(path =~= Seq::empty());
            } else {
                let head = path.drop_last();
                lemma_last_step(root, path, 0, Tree::Null);
                if let Walk::Found(Tree::Object(e)) = walk(root, head, 0) {
                    let less = Tree::Object(removed(e, path.last()));
                    lemma_walk_well_formed(root, head, 0);
                    lemma_removed(e, path.last(), path.last());
                    lemma_walk_planted(root, head, 0, less);
                    lemma_last_step(planted(root, head, 0, less), path, 0, Tree::Null);
                }
            }
        },
        Place::Element { path, repr } => {
            if let Walk::Found(Tree::Array(a)) = walk(root, path, 0) {
                lemma_walk_planted(root, path, 0, Tree::Array(without(a, repr)));
                lemma_without_holds(a, repr, repr);
            }
        },
    }
}

proof fn lemma_put_key_clear(root: Tree, path: Path, addr: Seq<char>, value: Tree, q: Place)
    requires
        !(root is Null),
        set_key(root, path, addr, value) is Ok,
        apart(path, path_of(q)),
    ensures
        look(set_key(root, path, addr, value)->Ok_0, q) == look(root, q),
        !(set_key(root, path, addr, value)->Ok_0 is Null),
{
    let k = choose|k: int| part_at(path, path_of(q), k);
    lemma_planted_apart(root, path, path_of(q), 0, k, value);
}

proof fn lemma_add_element_clear(
    root: Tree,
    path: Path,
    repr: Seq<char>,
    value: Tree,
    q: Place,
)
    requires
        !(root is Null),
        add_element(root, path, repr, value) is Ok,
        canonical_form(value) == repr,
        clear_of(Place::Element { path, repr }, q),
    ensures
        look(add_element(root, path, repr, value)->Ok_0, q) == look(root, q),
        !(add_element(root, path, repr, value)->Ok_0 is Null),
{
    let a = elements_in(site(root, path, 0));
    let more = Tree::Array(a.push(value));
    if !holds(a, repr) {
        if apart(path, path_of(q)) {
            let k = choose|k: int| part_at(path, path_of(q), k);
            lemma_planted_apart(root, path, path_of(q), 0, k, more);
        } else {
            lemma_walk_planted(root, path, 0, more);
            lemma_push_holds(a, value, q->Element_repr);
        }
    }
}

/// Taking a key away leaves every path apart from it as it was.
proof fn lemma_removed_apart(t: Tree, p: Path, q: Path, i: int, k: int)
    requires
        0 <= i <= k,
        part_at(p, q, k),
        well_formed(t),
        walk(t, p.drop_last(), i) is Found,
        walk(t, p.drop_last(), i)->Found_0 is Object,
    ensures
        ({
            let e = walk(t, p.drop_last(), i)->Found_0->Object_0;
            walk(
                planted(t, p.drop_last(), i, Tree::Object(removed(e, p.last()))),
                q,
                i,
            ) == walk(t, q, i)
        }),
    decreases p.len() - i,
{
    let head = p.drop_last();
    let e = walk(t, head, i)->Found_0->Object_0;
    let less = Tree::Object(removed(e, p.last()));
    if k < head.len() {
        assert(part_at(head, q, k));
        lemma_planted_apart(t, head, q, i, k, less);
    } else if i == head.len() {
        lemma_removed(e, p.last(), q[i]);
    } else {
        let here = t->Object_0;
        let child = lookup(here, head[i])->0;
        lemma_child_well_formed(here, head[i]);
        lemma_removed_apart(child, p, q, i + 1, k);
        lemma_put(here, head[i], planted(child, head, i + 1, less), q[i]);
        assert(head[i] == q[i]);
    }
}

proof fn lemma_child_well_formed(e: Entries, key: Seq<char>)
    requires
        well_formed(Tree::Object(e)),
        lookup(e, key) is Some,
    ensures
        well_formed(lookup(e, key)->0),
{
    crate::tree::lemma_key_at(e, key);
}

proof fn lemma_taken_away_clear(root: Tree, p: Place, q: Place)
    requires
        well_formed(root),
        clear_of(p, q),
    ensures
        look(taken_away(root, p), q) == look(root, q),
        taken_away(root, p) is Null ==> root is Null,
{
    match p {
        Place::Key(path) => {
            let k = choose|k: int| part_at(path, path_of(q), k);
            let head = path.drop_last();
            if let Walk::Found(Tree::Object(e)) = walk(root, head, 0) {
                lemma_removed_apart(root, path, path_of(q), 0, k);
            }
        },
        Place::Element { path, repr } => {
            if let Walk::Found(Tree::Array(a)) = walk(root, path, 0) {
                let less = Tree::Array(without(a, repr));
                if apart(path, path_of(q)) {
                    let k = choose|k: int| part_at(path, path_of(q), k);
                    lemma_planted_apart(root, path, path_of(q), 0, k, less);
                } else {
                    lemma_walk_planted(root, path, 0, less);
                    lemma_without_holds(a, repr, q->Element_repr);
                }
            }
        },
    }
}

/// **Law.** A write or a retraction leaves everything clear of the item's place
/// as it was. (A bare `null` is no document to write into: the first write turns
/// it into an object.)
pub proof fn law_other_places_are_left_alone(d: DocView, addr: Seq<char>, q: Place)
    requires
        d.ok(),
        d.place(addr) is Some,
        clear_of(d.place(addr)->0, q),
    ensures
        d.written(addr) is Ok && !(d.root is Null) ==> look(d.written(addr)->Ok_0, q) == look(
            d.root,
            q,
        ) && !(d.written(addr)->Ok_0 is Null),
        look(d.withdrawn(addr)->Ok_0, q) == look(d.root, q),
        d.withdrawn(addr)->Ok_0 is Null ==> d.root is Null,
{
    lemma_last_leaf(d.leaves, addr);
    lemma_taken_away_clear(d.root, d.place(addr)->0, q);
    if d.written(addr) is Ok && !(d.root is Null) {
        let leaf = last_leaf(d.leaves, addr)->0;
        assert(leaf.sound());
        match leaf.place {
            Place::Key(path) => {
                lemma_put_key_clear(d.root, path, addr, leaf.value, q);
            },
            Place::Element { path, repr } => {
                lemma_add_element_clear(d.root, path, repr, leaf.value, q);
            },
        }
    }
}

/// What a run over a document has to do.
pub open spec fn task_of(d: DocView, opts: Options) -> Task {
    Task { declared: d.items(), prior: d.prior, opts }
}

/// The addresses a run over a document walks.
pub open spec fn walk_of(d: DocView) -> Seq<Seq<char>> {
    walk_order(d.items(), d.prior)
}

/// The last declared item at an address, by its repr alone.
pub proof fn lemma_last_item(all: Seq<LeafView>, addr: Seq<char>)
    ensures
        last_repr(
            all.map_values(|l: LeafView| ItemView { addr: l.addr, repr: l.repr }),
            addr,
        ) == match last_leaf(all, addr) {
            Some(leaf) => Some(leaf.repr),
            None => None,
        },
    decreases all.len(),
{
    let items = all.map_values(|l: LeafView| ItemView { addr: l.addr, repr: l.repr });
    if all.len() > 0 {
        lemma_last_item(all.drop_last(), addr);
        assert(items.drop_last() =~= all.drop_last().map_values(
            |l: LeafView| ItemView { addr: l.addr, repr: l.repr },
        ));
    }
}

/// The first record at an address, where there is one.
pub proof fn lemma_first_repr(prior: Seq<ItemView>, addr: Seq<char>)
    ensures
        match first_repr(prior, addr) {
            Some(repr) => prior.contains(ItemView { addr, repr }),
            None => !has_addr(prior, addr),
        },
    decreases prior.len(),
{
    if prior.len() > 0 {
        let rest = prior.drop_first();
        lemma_first_repr(rest, addr);
        if prior[0].addr == addr {
            assert(prior[0] == (ItemView { addr, repr: prior[0].repr }));
        } else {
            match first_repr(rest, addr) {
                Some(repr) => {
                    let k = choose|k: int|
                        0 <= k < rest.len() && rest[k] == (ItemView { addr, repr });
                    assert(prior[k + 1] == rest[k]);
                },
                None => {
                    assert forall|i: int| 0 <= i < prior.len() implies (#[trigger] prior[i]).addr
                        != addr by {
                        if i > 0 {
                            assert(prior[i] == rest[i - 1]);
                        }
                    }
                },
            }
        }
    }
}

/// Every address a run walks has a place.
proof fn lemma_walked_has_place(d: DocView, addr: Seq<char>)
    requires
        walk_of(d).contains(addr),
    ensures
        d.place(addr) is Some,
        d.state(addr) is Ok,
        d.withdrawn(addr) is Ok,
{
    law_every_item_is_walked(d.items(), d.prior);
    lemma_last_repr(d.items(), addr);
    lemma_last_item(d.leaves, addr);
    lemma_first_repr(d.prior, addr);
}

/// One step of a run over a document: the document after it.
pub open spec fn stepped(d: DocView, opts: Options, addr: Seq<char>, after: DocView) -> bool {
    let task = task_of(d, opts);
    &&& d.state(addr) is Ok
    &&& match task.verdict(addr, d.state(addr)->Ok_0).0 {
        Decision::Add => d.written(addr) is Ok && after == d.over(d.written(addr)->Ok_0),
        Decision::Update => d.written(addr) is Ok && after == d.over(d.written(addr)->Ok_0),
        Decision::Retract => d.withdrawn(addr) is Ok && after == d.over(d.withdrawn(addr)->Ok_0),
        _ => after == d,
    }
}

/// Whether a run changes the document at an item it meets.
pub open spec fn acts(d: DocView, opts: Options, addr: Seq<char>) -> bool {
    alters(task_of(d, opts).verdict(addr, d.state(addr)->Ok_0).0)
}

/// **Law.** A declared item whose path is blocked is drift like any other,
/// whatever the value in the way: the table refuses it, so it is refused unless
/// the caller forced it, and never skipped.
pub proof fn law_a_blocked_path_is_refused(d: DocView, opts: Options, addr: Seq<char>)
    requires
        last_leaf(d.leaves, addr) is Some,
        look(d.root, d.place(addr)->0) is Blocked,
    ensures
        d.state(addr) is Ok,
        task_of(d, opts).base(addr, d.state(addr)->Ok_0) is Refuse,
        !opts.force ==> task_of(d, opts).verdict(addr, d.state(addr)->Ok_0).0 is Refuse,
        !(task_of(d, opts).verdict(addr, d.state(addr)->Ok_0).0 is Skip),
{
    lemma_last_item(d.leaves, addr);
    let at = look(d.root, d.place(addr)->0)->Blocked_0;
    lemma_under_a_key(at, look(d.root, d.place(addr)->0)->Blocked_1);
}

/// A step keeps the document in order, and leaves everything clear of the item
/// alone.
proof fn lemma_step(d: DocView, opts: Options, addr: Seq<char>, after: DocView, q: Place)
    requires
        d.ok(),
        stepped(d, opts, addr, after),
    ensures
        after.ok(),
        after.leaves == d.leaves,
        after.prior == d.prior,
        (acts(d, opts, addr) ==> clear_of(d.place(addr)->0, q) && (d.root is Null ==> !opts.force
            || last_leaf(d.leaves, addr) is None)) ==> look(after.root, q) == look(d.root, q) && (
        after.root is Null ==> d.root is Null),
{
    let task = task_of(d, opts);
    let state = d.state(addr)->Ok_0;
    lemma_last_item(d.leaves, addr);
    if acts(d, opts, addr) {
        if task.verdict(addr, state).0 is Retract {
            lemma_withdrawn_ok(d, addr);
        } else {
            lemma_written_ok(d, addr);
        }
        if clear_of(d.place(addr)->0, q) && (d.root is Null ==> !opts.force || last_leaf(
            d.leaves,
            addr,
        ) is None) {
            law_other_places_are_left_alone(d, addr, q);
            if d.root is Null && !(task.verdict(addr, state).0 is Retract) {
                // Nothing can be reached inside a bare `null`, and what is in the
                // way is not ours.
                let path = path_of(d.place(addr)->0);
                if path.len() > 0 {
                    assert(walk(d.root, path, 0) is Blocked);
                } else {
                    assert(no_array(grounded(d.root), path) is Some);
                }
            }
        }
    }
}

/// A run over a document: the stores between its steps and the states that were
/// read.
pub struct Trace {
    /// The document as it was.
    pub start: JsonDoc,
    /// The caller's overrides.
    pub opts: Options,
    /// The stores before, between and after the steps.
    pub stores: Seq<JsonDoc>,
    /// The states that were read.
    pub states: Seq<StateView>,
}

impl Trace {
    /// What the run had to do.
    pub open spec fn task(self) -> Task {
        task_of(self.start@, self.opts)
    }

    /// The addresses it walked.
    pub open spec fn order(self) -> Seq<Seq<char>> {
        walk_of(self.start@)
    }

    /// Where the item met at a step lives.
    pub open spec fn place(self, i: int) -> Place {
        self.start@.place(self.order()[i])->0
    }

    /// What was decided at a step.
    pub open spec fn verdict(self, i: int) -> Decision {
        self.task().verdict(self.order()[i], self.states[i]).0
    }

    /// The document after some steps.
    pub open spec fn root(self, k: int) -> Tree {
        self.stores[k]@.root
    }

    /// What the run claims.
    pub open spec fn claims(self) -> Seq<ItemView> {
        self.task().claims(self.order(), self.states)
    }

    /// The steps follow each other from the document as it was.
    pub open spec fn sound(self) -> bool {
        &&& self.start.inv()
        &&& self.task().steps(self.order(), self.stores, self.states)
        &&& self.stores[0] == self.start
    }

    /// The run met every item.
    pub open spec fn complete(self) -> bool {
        self.states.len() == self.order().len()
    }

    /// What the run withdrew shares nothing with a place.
    pub open spec fn withdrew_clear_of(self, q: Place) -> bool {
        forall|i: int|
            0 <= i < self.states.len() && (#[trigger] self.verdict(i)) is Retract ==> clear_of(
                self.place(i),
                q,
            )
    }
}

/// The steps of a run over a document, as steps of documents.
pub proof fn lemma_trace(t: Trace, k: int)
    requires
        t.sound(),
        0 <= k < t.stores.len(),
    ensures
        t.stores[k]@.ok(),
        t.stores[k]@ == t.start@.over(t.root(k)),
        task_of(t.stores[k]@, t.opts) == t.task(),
        k < t.states.len() ==> stepped(t.stores[k]@, t.opts, t.order()[k], t.stores[k + 1]@)
            && t.stores[k]@.state(t.order()[k]) == Ok::<StateView, Failure>(t.states[k]),
    decreases k,
{
    if k > 0 {
        lemma_trace(t, k - 1);
        lemma_step(
            t.stores[k - 1]@,
            t.opts,
            t.order()[k - 1],
            t.stores[k]@,
            Place::Key(Seq::empty()),
        );
    }
    if k < t.states.len() {
        assert(t.task().step(t.stores[k], t.stores[k + 1], t.order()[k], t.states[k]));
    }
}

/// The trace of a run: it leaves behind what its last step left, and where it
/// succeeds it met every item and reports what was decided.
pub proof fn lemma_run(
    before: JsonDoc,
    opts: Options,
    after: JsonDoc,
    result: Result<(Seq<EntryView>, OutputView), Failure>,
) -> (t: Trace)
    requires
        before.inv(),
        ran(before, opts, after, result),
    ensures
        t.start == before,
        t.opts == opts,
        t.sound(),
        t.task().ends(t.order(), t.stores, t.states, after, result),
        after@ == t.stores.last()@,
        result is Ok ==> {
            &&& t.complete()
            &&& result->Ok_0.0.len() == t.states.len()
            &&& forall|i: int|
                0 <= i < t.states.len() ==> (#[trigger] result->Ok_0.0[i]) == t.task().entry(
                    t.order()[i],
                    t.states[i],
                ) && result->Ok_0.0[i].decision == t.verdict(i)
            &&& rendered(after@.root, t.claims(), result->Ok_0.1)
        },
{
    let (stores, states) = lemma_ran(before, opts, after, result);
    let t = Trace { start: before, opts, stores, states };
    lemma_trace(t, stores.len() - 1);
    t
}

/// What is clear of every item a run acts on stays as it was.
pub proof fn lemma_untouched(t: Trace, q: Place, k: int)
    requires
        t.sound(),
        0 <= k < t.stores.len(),
        !(t.start@.root is Null),
        forall|i: int|
            0 <= i < t.states.len() && alters(t.verdict(i)) ==> clear_of(#[trigger] t.place(i), q),
    ensures
        look(t.root(k), q) == look(t.start@.root, q),
        !(t.root(k) is Null),
    decreases k,
{
    if k > 0 {
        lemma_untouched(t, q, k - 1);
        lemma_trace(t, k - 1);
        assert(alters(t.verdict(k - 1)) ==> clear_of(t.place(k - 1), q));
        lemma_step(t.stores[k - 1]@, t.opts, t.order()[k - 1], t.stores[k]@, q);
    }
}

/// **Law.** A run leaves everything alone that is clear of the items it wrote and
/// withdrew: the values of the other program, and the elements it added to an
/// array. A run that fails leaves everything alone that is clear of the items it
/// walks. (The one exception is a bare `null`, where a forced run turned it into
/// an object.)
pub proof fn law_everything_else_is_left_alone(
    before: JsonDoc,
    opts: Options,
    after: JsonDoc,
    result: Result<(Seq<EntryView>, OutputView), Failure>,
    q: Place,
)
    requires
        before.inv(),
        ran(before, opts, after, result),
        before@.root is Null ==> after@.root is Null,
        forall|i: int|
            0 <= i < walk_of(before@).len() && (result is Ok ==> alters(
                result->Ok_0.0[i].decision,
            )) ==> clear_of(before@.place(#[trigger] walk_of(before@)[i])->0, q),
    ensures
        look(after@.root, q) == look(before@.root, q),
{
    let t = lemma_run(before, opts, after, result);
    if !(before@.root is Null) {
        assert forall|i: int|
            0 <= i < t.states.len() && alters(t.verdict(i)) implies clear_of(
            #[trigger] t.place(i),
            q,
        ) by {
            assert(t.order()[i] == walk_of(before@)[i]);
            if result is Ok {
                assert(result->Ok_0.0[i].decision == t.verdict(i));
            }
        }
        lemma_untouched(t, q, t.stores.len() - 1);
    }
}

/// **Law.** A run that only skips and refuses leaves the document as it was.
pub proof fn law_skips_and_refusals_change_nothing(
    before: JsonDoc,
    opts: Options,
    after: JsonDoc,
    report: Seq<EntryView>,
    output: OutputView,
)
    requires
        before.inv(),
        ran(before, opts, after, Ok((report, output))),
        forall|i: int| 0 <= i < report.len() ==> !alters((#[trigger] report[i]).decision),
    ensures
        after@ == before@,
{
    let t = lemma_run(before, opts, after, Ok((report, output)));
    assert forall|i: int| 0 <= i < t.states.len() implies !alters(#[trigger] t.verdict(i)) by {
        assert(report[i].decision == t.verdict(i));
    }
    lemma_still(t, t.stores.len() - 1);
}

/// Where no step acts, a run stays where it is.
pub proof fn lemma_still(t: Trace, k: int)
    requires
        t.sound(),
        0 <= k < t.stores.len(),
        forall|i: int| 0 <= i < t.states.len() ==> !alters(#[trigger] t.verdict(i)),
    ensures
        t.stores[k] == t.start,
    decreases k,
{
    if k > 0 {
        lemma_still(t, k - 1);
        assert(!alters(t.verdict(k - 1)));
        assert(t.task().step(t.stores[k - 1], t.stores[k], t.order()[k - 1], t.states[k - 1]));
    }
}

/// **Law.** An item nothing is recorded of reads as `Unknown`, whatever is there
/// and whatever is in the way. So without provenance every item does.
pub proof fn law_what_is_not_recorded_is_unknown(d: DocView, addr: Seq<char>)
    requires
        d.place(addr) is Some,
        !has_addr(d.prior, addr),
    ensures
        d.state(addr) is Ok,
        d.state(addr)->Ok_0.ownership == Ownership::Unknown,
{
    lemma_first_repr(d.prior, addr);
}

/// **Law.** Without provenance nothing is ours, so a run that is not forced only
/// adds what is absent: it never updates or withdraws, and what it refuses is a
/// conflict.
pub proof fn law_without_provenance_a_run_only_adds(
    before: JsonDoc,
    opts: Options,
    after: JsonDoc,
    report: Seq<EntryView>,
    output: OutputView,
)
    requires
        before.inv(),
        ran(before, opts, after, Ok((report, output))),
        before@.prior.len() == 0,
        !opts.force,
    ensures
        forall|i: int|
            0 <= i < report.len() ==> match (#[trigger] report[i]).decision {
                Decision::Add => report[i].observed is None,
                Decision::Skip => report[i].observed == report[i].declared,
                Decision::Refuse(r) => r == Reason::Conflict && report[i].observed
                    != report[i].declared,
                _ => false,
            },
{
    let t = lemma_run(before, opts, after, Ok((report, output)));
    law_every_item_is_walked(before@.items(), before@.prior);
    assert forall|i: int| 0 <= i < report.len() implies match (#[trigger] report[i]).decision {
        Decision::Add => report[i].observed is None,
        Decision::Skip => report[i].observed == report[i].declared,
        Decision::Refuse(r) => r == Reason::Conflict && report[i].observed != report[i].declared,
        _ => false,
    } by {
        lemma_trace(t, i);
        lemma_walked(before@, i);
        lemma_last_item(before@.leaves, t.order()[i]);
        lemma_last_repr(before@.items(), t.order()[i]);
        assert(report[i] == t.task().entry(t.order()[i], t.states[i]));
    }
}

/// Whether one path begins with another.
pub open spec fn below(path: Path, top: Path) -> bool {
    path.len() >= top.len() && path.take(top.len() as int) == top
}

/// The items a declaration expands into lie below the path it is for.
proof fn lemma_leaves_below(path: Path, value: Tree, i: int)
    requires
        0 <= i < leaves(path, value).len(),
    ensures
        below(path_of(leaves(path, value)[i].place), path),
    decreases value,
{
    match value {
        Tree::Object(e) => {
            if e.len() > 0 {
                lemma_entry_leaves_below(path, e, i);
                assert(leaves(path, value) == entry_leaves(path, e));
            } else {
                assert(leaves(path, value) == seq![key_leaf(path, value)]);
                assert(path.take(path.len() as int) =~= path);
            }
        },
        Tree::Array(a) => {
            assert(path.take(path.len() as int) =~= path);
            if a.len() > 0 {
                assert(leaves(path, value)[i] == element_leaf(path, a[i]));
            }
        },
        _ => {
            assert(path.take(path.len() as int) =~= path);
        },
    }
}

proof fn lemma_entry_leaves_below(path: Path, e: Entries, i: int)
    requires
        0 <= i < entry_leaves(path, e).len(),
    ensures
        below(path_of(entry_leaves(path, e)[i].place), path),
    decreases e,
{
    let before = entry_leaves(path, e.drop_last());
    if i < before.len() {
        lemma_entry_leaves_below(path, e.drop_last(), i);
    } else {
        let child = path.push(e.last().0);
        lemma_leaves_below(child, e.last().1, i - before.len());
        let p = path_of(entry_leaves(path, e)[i].place);
        assert(p.take(path.len() as int) =~= child.take(path.len() as int)) by {
            assert forall|j: int| 0 <= j < path.len() implies p[j] == child[j] by {
                assert(p.take(child.len() as int)[j] == p[j]);
            }
        }
        assert(child.take(path.len() as int) =~= path);
    }
}

/// The items of an object's entries lie below one of its keys.
proof fn lemma_entry_leaf_key(path: Path, e: Entries, i: int)
    requires
        0 <= i < entry_leaves(path, e).len(),
    ensures
        exists|m: int|
            0 <= m < e.len() && below(
                path_of(entry_leaves(path, e)[i].place),
                path.push((#[trigger] e[m]).0),
            ),
    decreases e.len(),
{
    let head = e.drop_last();
    let before = entry_leaves(path, head);
    if i < before.len() {
        lemma_entry_leaf_key(path, head, i);
        let m = choose|m: int|
            0 <= m < head.len() && below(
                path_of(before[i].place),
                path.push((#[trigger] head[m]).0),
            );
        assert(e[m] == head[m]);
    } else {
        lemma_leaves_below(path.push(e.last().0), e.last().1, i - before.len());
        assert(e[e.len() - 1] == e.last());
    }
}

/// Two items that are the same item, or share nothing.
pub open spec fn told_apart(a: LeafView, b: LeafView) -> bool {
    ||| clear_of(a.place, b.place)
    ||| a.place == b.place && a.addr == b.addr
}

/// Any two items of a declaration are the same item or share nothing.
proof fn lemma_leaves_told_apart(path: Path, value: Tree, i: int, j: int)
    requires
        well_formed(value),
        0 <= i < leaves(path, value).len(),
        0 <= j < leaves(path, value).len(),
    ensures
        told_apart(leaves(path, value)[i], leaves(path, value)[j]),
    decreases value,
{
    match value {
        Tree::Object(e) => {
            if e.len() > 0 {
                assert(leaves(path, value) == entry_leaves(path, e));
                lemma_entry_leaves_told_apart(path, e, i, j);
            } else {
                assert(leaves(path, value) == seq![key_leaf(path, value)]);
            }
        },
        Tree::Array(a) => {
            if a.len() > 0 {
                assert(leaves(path, value)[i] == element_leaf(path, a[i]));
                assert(leaves(path, value)[j] == element_leaf(path, a[j]));
            }
        },
        _ => {},
    }
}

proof fn lemma_entry_leaves_told_apart(path: Path, e: Entries, i: int, j: int)
    requires
        well_formed(Tree::Object(e)),
        0 <= i < entry_leaves(path, e).len(),
        0 <= j < entry_leaves(path, e).len(),
    ensures
        told_apart(entry_leaves(path, e)[i], entry_leaves(path, e)[j]),
    decreases e,
{
    let head = e.drop_last();
    let last = e.last();
    let child = path.push(last.0);
    let before = entry_leaves(path, head);
    let here = leaves(child, last.1);
    let all = entry_leaves(path, e);
    assert(all == before + here);
    assert(e[e.len() - 1] == last);
    assert(well_formed(Tree::Object(head))) by {
        assert forall|a: int, b: int| 0 <= a < b < head.len() implies (#[trigger] head[a]).0 != (
        #[trigger] head[b]).0 by {
            assert(e[a].0 != e[b].0);
        }
        assert forall|a: int| 0 <= a < head.len() implies well_formed((#[trigger] head[a]).1) by {
            assert(well_formed(e[a].1));
        }
    }
    if i < before.len() && j < before.len() {
        lemma_entry_leaves_told_apart(path, head, i, j);
    } else if i >= before.len() && j >= before.len() {
        lemma_leaves_told_apart(child, last.1, i - before.len(), j - before.len());
    } else {
        let x = if i < before.len() { i } else { j };
        let y = if i < before.len() { j } else { i };
        let p = path_of(all[x].place);
        let q = path_of(all[y].place);
        lemma_entry_leaf_key(path, head, x);
        let m = choose|m: int|
            0 <= m < head.len() && below(
                path_of(before[x].place),
                path.push((#[trigger] head[m]).0),
            );
        lemma_leaves_below(child, last.1, y - before.len());
        assert(e[m].0 != e[e.len() - 1].0);
        lemma_below_apart(p, q, path, head[m].0, last.0);
    }
}

/// Paths below different keys of the same object part there.
proof fn lemma_below_apart(p: Path, q: Path, top: Path, a: Seq<char>, b: Seq<char>)
    requires
        below(p, top.push(a)),
        below(q, top.push(b)),
        a != b,
    ensures
        apart(p, q),
        apart(q, p),
{
    let n = top.len() as int;
    assert forall|j: int| 0 <= j < n implies p[j] == q[j] by {
        assert(p.take(n + 1)[j] == top.push(a)[j]);
        assert(q.take(n + 1)[j] == top.push(b)[j]);
    }
    assert(p.take(n + 1)[n] == a);
    assert(q.take(n + 1)[n] == b);
    assert(part_at(p, q, n));
    assert(part_at(q, p, n));
}

/// Any two items declared at different addresses have places that share nothing.
pub open spec fn share_nothing(all: Seq<LeafView>) -> bool {
    forall|a: Seq<char>, b: Seq<char>|
        #![trigger last_leaf(all, a), last_leaf(all, b)]
        a != b && last_leaf(all, a) is Some && last_leaf(all, b) is Some ==> clear_of(
            last_leaf(all, a)->0.place,
            last_leaf(all, b)->0.place,
        )
}

/// **Law.** The items of a declaration do not get into each other's way: any two
/// at different addresses have places that share nothing.
pub proof fn law_declared_items_share_nothing(key: Path, declaration: Tree)
    requires
        well_formed(declaration),
    ensures
        share_nothing(leaves(key, declaration)),
{
    let all = leaves(key, declaration);
    assert forall|a: Seq<char>, b: Seq<char>|
        #![trigger last_leaf(all, a), last_leaf(all, b)]
        a != b && last_leaf(all, a) is Some && last_leaf(all, b) is Some implies clear_of(
        last_leaf(all, a)->0.place,
        last_leaf(all, b)->0.place,
    ) by {
        lemma_last_leaf(all, a);
        lemma_last_leaf(all, b);
        let i = choose|i: int| 0 <= i < all.len() && all[i] == last_leaf(all, a)->0;
        let j = choose|j: int| 0 <= j < all.len() && all[j] == last_leaf(all, b)->0;
        lemma_leaves_told_apart(key, declaration, i, j);
    }
}

/// The items a run walks that are declared, and the ones that are not.
pub proof fn lemma_walked(d: DocView, i: int)
    requires
        0 <= i < walk_of(d).len(),
    ensures
        walk_of(d).contains(walk_of(d)[i]),
        d.place(walk_of(d)[i]) is Some,
        d.state(walk_of(d)[i]) is Ok,
        d.withdrawn(walk_of(d)[i]) is Ok,
        last_leaf(d.leaves, walk_of(d)[i]) is Some <==> has_addr(d.items(), walk_of(d)[i]),
        last_leaf(d.leaves, walk_of(d)[i]) is Some <==> i < d.leaves.len(),
        i < d.leaves.len() ==> walk_of(d)[i] == d.leaves[i].addr,
{
    let addr = walk_of(d)[i];
    assert(walk_of(d).contains(addr));
    lemma_walked_has_place(d, addr);
    lemma_last_item(d.leaves, addr);
    lemma_last_repr(d.items(), addr);
    law_every_item_is_walked(d.items(), d.prior);
    if i < d.leaves.len() {
        assert(d.items()[i].addr == addr);
    }
}

/// A place that the step at `k` leaves alone: the item met there is another one,
/// and shares nothing with it where the run acts on it.
pub proof fn lemma_step_elsewhere(t: Trace, addr: Seq<char>, k: int)
    requires
        t.sound(),
        share_nothing(t.start@.leaves),
        0 <= k < t.states.len(),
        last_leaf(t.start@.leaves, addr) is Some,
        t.withdrew_clear_of(t.start@.place(addr)->0),
        t.order()[k] == addr ==> !alters(t.verdict(k)),
        t.root(k) is Null ==> !t.opts.force,
    ensures
        look(t.root(k + 1), t.start@.place(addr)->0) == look(
            t.root(k),
            t.start@.place(addr)->0,
        ),
        t.root(k + 1) is Null ==> t.root(k) is Null,
{
    let q = t.start@.place(addr)->0;
    let met = t.order()[k];
    let d = t.stores[k]@;
    lemma_trace(t, k);
    lemma_walked(t.start@, k);
    lemma_last_item(t.start@.leaves, met);
    assert(d.place(met) == t.start@.place(met));
    assert(t.verdict(k) is Retract ==> clear_of(t.place(k), q));
    lemma_step(d, t.opts, met, t.stores[k + 1]@, q);
}

/// A declared item on which no step acts looks as it did before.
pub proof fn lemma_unacted(t: Trace, addr: Seq<char>, k: int)
    requires
        t.sound(),
        share_nothing(t.start@.leaves),
        0 <= k < t.stores.len(),
        !t.opts.force,
        last_leaf(t.start@.leaves, addr) is Some,
        t.withdrew_clear_of(t.start@.place(addr)->0),
        forall|i: int|
            0 <= i < t.states.len() && t.order()[i] == addr ==> !alters(#[trigger] t.verdict(i)),
    ensures
        look(t.root(k), t.start@.place(addr)->0) == look(
            t.start@.root,
            t.start@.place(addr)->0,
        ),
    decreases k,
{
    if k > 0 {
        lemma_unacted(t, addr, k - 1);
        if t.order()[k - 1] == addr {
            assert(!alters(t.verdict(k - 1)));
        }
        lemma_step_elsewhere(t, addr, k - 1);
    }
}

/// An item that would be refused as things stand is refused whenever it is met.
proof fn lemma_refused_survives(t: Trace, addr: Seq<char>, k: int)
    requires
        t.sound(),
        share_nothing(t.start@.leaves),
        0 <= k < t.stores.len(),
        last_leaf(t.start@.leaves, addr) is Some,
        t.task().verdict(addr, t.start@.state(addr)->Ok_0).0 is Refuse,
        t.withdrew_clear_of(t.start@.place(addr)->0),
    ensures
        look(t.root(k), t.start@.place(addr)->0) == look(
            t.start@.root,
            t.start@.place(addr)->0,
        ),
    decreases k,
{
    if k > 0 {
        lemma_refused_survives(t, addr, k - 1);
        lemma_trace(t, k - 1);
        lemma_last_item(t.start@.leaves, addr);
        if t.order()[k - 1] == addr {
            assert(t.stores[k - 1]@.state(addr) == t.start@.state(addr));
        }
        lemma_step_elsewhere(t, addr, k - 1);
    }
}

/// What a run withdrew, as its report says, shares nothing with a place.
pub open spec fn withdrawn_clear_of(d: DocView, report: Seq<EntryView>, q: Place) -> bool {
    forall|i: int|
        0 <= i < report.len() && (#[trigger] report[i]).decision is Retract ==> clear_of(
            d.place(report[i].addr)->0,
            q,
        )
}

/// **Law.** A value that a run declines to overwrite is still there afterwards,
/// whatever becomes of the other items: a disagreement about one value never
/// costs it, and never blocks the rest. Only what the run withdrew must share
/// nothing with it.
pub proof fn law_a_refused_value_survives(
    before: JsonDoc,
    opts: Options,
    after: JsonDoc,
    result: Result<(Seq<EntryView>, OutputView), Failure>,
    key: Path,
    declaration: Tree,
    addr: Seq<char>,
)
    requires
        before.inv(),
        well_formed(declaration),
        before@.leaves == leaves(key, declaration),
        ran(before, opts, after, result),
        last_leaf(before@.leaves, addr) is Some,
        task_of(before@, opts).verdict(addr, before@.state(addr)->Ok_0).0 is Refuse,
        result is Ok ==> withdrawn_clear_of(
            before@,
            result->Ok_0.0,
            before@.place(addr)->0,
        ),
    ensures
        look(after@.root, before@.place(addr)->0) == look(before@.root, before@.place(addr)->0),
{
    let t = lemma_run(before, opts, after, result);
    law_declared_items_share_nothing(key, declaration);
    lemma_last_item(before@.leaves, addr);
    if result is Ok {
        lemma_withdrew(t, result->Ok_0.0, before@.place(addr)->0);
    } else {
        // Only a write can have failed, and then nothing was withdrawn yet.
        let n = t.states.len() as int;
        lemma_trace(t, n);
        lemma_walked(before@, n);
        let d = t.stores[n]@;
        assert(d.place(t.order()[n]) == before@.place(t.order()[n]));
        lemma_last_item(before@.leaves, t.order()[n]);
        assert forall|i: int| 0 <= i < n && (#[trigger] t.verdict(i)) is Retract implies clear_of(
            t.place(i),
            before@.place(addr)->0,
        ) by {
            lemma_walked(before@, i);
            lemma_last_item(before@.leaves, t.order()[i]);
        }
    }
    lemma_refused_survives(t, addr, t.stores.len() - 1);
}

/// What a report says was withdrawn is what the run withdrew.
pub proof fn lemma_withdrew(t: Trace, report: Seq<EntryView>, q: Place)
    requires
        report.len() == t.states.len(),
        forall|i: int|
            0 <= i < t.states.len() ==> (#[trigger] report[i]) == t.task().entry(
                t.order()[i],
                t.states[i],
            ),
        withdrawn_clear_of(t.start@, report, q),
    ensures
        t.withdrew_clear_of(q),
{
    assert forall|i: int|
        0 <= i < t.states.len() && (#[trigger] t.verdict(i)) is Retract implies clear_of(
        t.place(i),
        q,
    ) by {
        assert(report[i].decision is Retract);
    }
}

/// After the step for a declared item that was not refused, the item holds its
/// declared value.
proof fn lemma_step_settles(d: DocView, opts: Options, addr: Seq<char>, after: DocView)
    requires
        d.ok(),
        stepped(d, opts, addr, after),
        last_leaf(d.leaves, addr) is Some,
        !(task_of(d, opts).verdict(addr, d.state(addr)->Ok_0).0 is Refuse),
    ensures
        look(after.root, d.place(addr)->0) == Look::Seen(
            Some(last_leaf(d.leaves, addr)->0.repr),
        ),
{
    lemma_last_item(d.leaves, addr);
    if acts(d, opts, addr) {
        law_a_written_item_is_found(d, addr);
    } else if look(d.root, d.place(addr)->0) is Blocked {
        law_a_blocked_path_is_refused(d, opts, addr);
    }
}

/// Nothing is found inside a bare `null`.
pub proof fn lemma_null_holds_nothing(q: Place)
    requires
        look(Tree::Null, q) is Seen,
    ensures
        q == Place::Key(Seq::empty()),
{
    assert(path_of(q).len() == 0);
    assert(path_of(q) =~= Seq::empty());
}

/// Once applied, a declared item goes on holding its declared value.
pub proof fn lemma_settled(t: Trace, j: int, k: int)
    requires
        t.sound(),
        share_nothing(t.start@.leaves),
        0 <= j < k < t.stores.len(),
        j < t.start@.leaves.len(),
        !(t.verdict(j) is Refuse),
        t.withdrew_clear_of(t.place(j)),
    ensures
        look(t.root(k), t.place(j)) == Look::Seen(
            Some(last_leaf(t.start@.leaves, t.order()[j])->0.repr),
        ),
    decreases k,
{
    let addr = t.order()[j];
    let met = t.order()[k - 1];
    let d = t.stores[k - 1]@;
    lemma_trace(t, k - 1);
    lemma_walked(t.start@, j);
    lemma_walked(t.start@, k - 1);
    assert(d.place(addr) == t.start@.place(addr));
    if met == addr && !(t.verdict(k - 1) is Refuse) {
        lemma_step_settles(d, t.opts, addr, t.stores[k]@);
    } else {
        assert(j < k - 1);
        lemma_settled(t, j, k - 1);
        if d.root is Null {
            // The item is the document itself, so there is no other to act on.
            lemma_null_holds_nothing(t.place(j));
            lemma_last_item(t.start@.leaves, met);
            assert(d.place(met) == t.start@.place(met));
            assert(t.verdict(k - 1) is Retract ==> clear_of(t.place(k - 1), t.place(j)));
            assert(!acts(d, t.opts, met));
        } else {
            lemma_step_elsewhere(t, addr, k - 1);
        }
    }
}

/// **Law.** Every declared item that a run does not refuse holds its declared
/// value afterwards, whatever becomes of the others. Only what the run withdrew
/// must share nothing with it.
pub proof fn law_what_is_not_refused_is_applied(
    key: Path,
    declaration: Tree,
    before: JsonDoc,
    opts: Options,
    after: JsonDoc,
    report: Seq<EntryView>,
    output: OutputView,
    j: int,
)
    requires
        well_formed(declaration),
        before.inv(),
        before@.leaves == leaves(key, declaration),
        ran(before, opts, after, Ok((report, output))),
        0 <= j < before@.leaves.len(),
        !(report[j].decision is Refuse),
        withdrawn_clear_of(before@, report, before@.place(report[j].addr)->0),
    ensures
        report[j].declared is Some,
        look(after@.root, before@.place(report[j].addr)->0) == Look::Seen(report[j].declared),
{
    let t = lemma_run(before, opts, after, Ok((report, output)));
    law_every_item_is_walked(before@.items(), before@.prior);
    law_declared_items_share_nothing(key, declaration);
    assert(report[j] == t.task().entry(t.order()[j], t.states[j]));
    lemma_walked(before@, j);
    lemma_last_item(before@.leaves, t.order()[j]);
    lemma_withdrew(t, report, t.place(j));
    lemma_settled(t, j, t.stores.len() - 1);
}

/// Whether a walk ends in nothing: a missing key, or an array without an element
/// of this canonical form.
pub open spec fn nothing_at(t: Tree, path: Path, i: int, repr: Option<Seq<char>>) -> bool {
    match walk(t, path, i) {
        Walk::Absent => true,
        Walk::Found(Tree::Array(a)) => repr is Some && !holds(a, repr->0),
        _ => false,
    }
}

/// Whether a container lost some of what it held, and nothing else.
pub open spec fn shrunk(before: Tree, after: Tree) -> bool {
    match (before, after) {
        (Tree::Object(e), Tree::Object(f)) => exists|key: Seq<char>| f == #[trigger] removed(e, key),
        (Tree::Array(a), Tree::Array(b)) => exists|r: Seq<char>| b == #[trigger] without(a, r),
        _ => false,
    }
}

/// Where there was nothing, there is still nothing once some container lost what
/// it held.
proof fn lemma_nothing_stays(
    t: Tree,
    h: Path,
    i: int,
    less: Tree,
    p: Path,
    repr: Option<Seq<char>>,
)
    requires
        0 <= i <= h.len(),
        i <= p.len(),
        well_formed(t),
        walk(t, h, i) is Found,
        shrunk(walk(t, h, i)->Found_0, less),
        nothing_at(t, p, i, repr),
    ensures
        nothing_at(planted(t, h, i, less), p, i, repr),
    decreases h.len() - i,
{
    if i == h.len() {
        match (t, less) {
            (Tree::Object(e), Tree::Object(f)) => {
                let key = choose|key: Seq<char>| f == #[trigger] removed(e, key);
                lemma_removed(e, key, p[i]);
            },
            (Tree::Array(a), Tree::Array(b)) => {
                let r = choose|r: Seq<char>| b == #[trigger] without(a, r);
                if repr is Some {
                    lemma_without_holds(a, r, repr->0);
                }
            },
            _ => {},
        }
    } else {
        let e = t->Object_0;
        let child = lookup(e, h[i])->0;
        lemma_child_well_formed(e, h[i]);
        lemma_put(e, h[i], planted(child, h, i + 1, less), p[i]);
        if p[i] == h[i] {
            lemma_nothing_stays(child, h, i + 1, less, p, repr);
        }
    }
}

/// A retraction brings nothing back.
proof fn lemma_gone_stays_gone(root: Tree, r: Place, p: Place)
    requires
        well_formed(root),
        path_of(p).len() > 0,
        look(root, p) == Look::Seen(None),
    ensures
        look(taken_away(root, r), p) == Look::Seen(None),
{
    let repr = match p {
        Place::Key(_) => None,
        Place::Element { repr, .. } => Some(repr),
    };
    assert(nothing_at(root, path_of(p), 0, repr));
    match r {
        Place::Key(path) => {
            if path.len() > 0 {
                let head = path.drop_last();
                if let Walk::Found(Tree::Object(e)) = walk(root, head, 0) {
                    let less = Tree::Object(removed(e, path.last()));
                    lemma_nothing_stays(root, head, 0, less, path_of(p), repr);
                }
            }
        },
        Place::Element { path, repr: gone } => {
            if let Walk::Found(Tree::Array(a)) = walk(root, path, 0) {
                let less = Tree::Array(without(a, gone));
                lemma_nothing_stays(root, path, 0, less, path_of(p), repr);
            }
        },
    }
}

proof fn lemma_withdrawn_stays_gone(t: Trace, j: int, k: int)
    requires
        t.sound(),
        0 <= j < k < t.stores.len(),
        t.verdict(j) is Retract,
        path_of(t.place(j)).len() > 0,
    ensures
        look(t.root(k), t.place(j)) == Look::Seen(None),
    decreases k,
{
    lemma_trace(t, k - 1);
    let d = t.stores[k - 1]@;
    let met = t.order()[k - 1];
    lemma_walked(t.start@, j);
    lemma_walked(t.start@, k - 1);
    lemma_last_item(t.start@.leaves, t.order()[j]);
    lemma_last_item(t.start@.leaves, met);
    assert(d.place(met) == t.start@.place(met));
    if j == k - 1 {
        law_a_withdrawn_item_is_gone(d, met);
    } else {
        lemma_withdrawn_stays_gone(t, j, k - 1);
        lemma_gone_stays_gone(d.root, t.place(k - 1), t.place(j));
    }
}

/// **Law.** What a run withdraws is gone when the run is over. (The document
/// itself is never gone: withdrawing it leaves an empty object.)
pub proof fn law_what_is_withdrawn_is_gone(
    before: JsonDoc,
    opts: Options,
    after: JsonDoc,
    report: Seq<EntryView>,
    output: OutputView,
    j: int,
)
    requires
        before.inv(),
        ran(before, opts, after, Ok((report, output))),
        0 <= j < report.len(),
        report[j].decision is Retract,
        path_of(before@.place(report[j].addr)->0).len() > 0,
    ensures
        look(after@.root, before@.place(report[j].addr)->0) == Look::Seen(None),
{
    let t = lemma_run(before, opts, after, Ok((report, output)));
    assert(report[j] == t.task().entry(t.order()[j], t.states[j]));
    lemma_withdrawn_stays_gone(t, j, t.stores.len() - 1);
}

/// **Law.** The document a run hands back is its document rendered, never blank,
/// and reading it gives that document again where [`reads_back`] holds of it.
pub proof fn law_the_output_is_the_document(
    before: JsonDoc,
    opts: Options,
    after: JsonDoc,
    report: Seq<EntryView>,
    output: OutputView,
)
    requires
        before.inv(),
        ran(before, opts, after, Ok((report, output))),
    ensures
        output.document == pretty_text(after@.root).push('\n'),
        output.prior is Some,
        reads_back(after@.root, nesting_limit()) ==> opened(output.document) == Ok::<
            Tree,
            Seq<char>,
        >(after@.root),
{
    let t = lemma_run(before, opts, after, Ok((report, output)));
}

/// **Law.** A run that is not forced succeeds: a path that is blocked is refused
/// before anything is written. (An element of an array that is the document
/// itself cannot be written, so such a declaration is left out.)
pub proof fn law_a_run_that_is_not_forced_succeeds(
    before: JsonDoc,
    opts: Options,
    after: JsonDoc,
    result: Result<(Seq<EntryView>, OutputView), Failure>,
)
    requires
        before.inv(),
        ran(before, opts, after, result),
        !opts.force,
        forall|i: int|
            0 <= i < before@.leaves.len() ==> ((#[trigger] before@.leaves[i]).place is Element
                ==> path_of(before@.leaves[i].place).len() > 0),
    ensures
        result is Ok,
{
    let t = lemma_run(before, opts, after, result);
    let n = t.states.len() as int;
    lemma_trace(t, n);
    if n < t.order().len() {
        let addr = t.order()[n];
        let d = t.stores[n]@;
        lemma_walked(before@, n);
        lemma_last_item(before@.leaves, addr);
        lemma_last_leaf(before@.leaves, addr);
        assert(d.place(addr) == before@.place(addr));
        if let Some(leaf) = last_leaf(before@.leaves, addr) {
            let i = choose|i: int| 0 <= i < before@.leaves.len() && before@.leaves[i] == leaf;
            assert(before@.leaves[i].sound());
            lemma_last_step(d.root, path_of(leaf.place), 0, Tree::Null);
        }
    }
}

/// **Law.** A run over an adapter is a run over the document in it, so what holds
/// of runs over documents holds of it.
pub proof fn law_an_adapter_runs_its_document(
    before: JsonDoc,
    opts: Options,
    after: Adapter,
    result: Result<(Seq<EntryView>, OutputView), Failure>,
)
    requires
        ran(Adapter::Json(before), opts, after, result),
    ensures
        ran(before, opts, after->Json_0, result),
{
    let task = task_of(before@, opts);
    let order = walk_of(before@);
    let (outer, states) = lemma_ran(Adapter::Json(before), opts, after, result);
    let stores = outer.map_values(|a: Adapter| a->Json_0);
    assert forall|i: int| 0 <= i < states.len() implies task.step(
        #[trigger] stores[i],
        stores[i + 1],
        order[i],
        states[i],
    ) by {
        assert(task.step(outer[i], outer[i + 1], order[i], states[i]));
    }
    assert(stores.last() == outer.last()->Json_0);
    assert(task.steps(order, stores, states));
    assert(task.ends(order, stores, states, after->Json_0, result));
}

} // verus!
