//! What a second run over the same declaration does.
//!
//! Every decision that changes the target moves ownership to `Ours` with the
//! declared value, which is the `Skip` row of the table on the next run. The laws
//! below say what that comes to for a JSON document: the second run has nothing
//! to do, and it hands the same record back.

use crate::adapter::json::JsonDoc;
use crate::adapter::laws::{
    law_declared_items_share_nothing, law_the_output_is_the_document, lemma_first_repr,
    lemma_last_item, lemma_run, lemma_settled, lemma_still, lemma_trace, lemma_unacted,
    lemma_walked, lemma_withdrew, share_nothing, task_of, walk_of, withdrawn_clear_of, Trace,
};
use crate::adapter::model::{first_repr, last_leaf, leaves, look, opened, DocView, Look};
use crate::engine::{last_repr, ran, EntryView, Options};
use crate::error::Failure;
use crate::policy::alters;
use crate::port::{ItemView, OutputView, StateView, Store};
use crate::prior::{
    amended, in_sorted_order, law_a_record_is_drawn_from_what_is_set,
    law_a_record_is_one_value_per_address, recorded, Ledger,
};
use crate::runs::{
    agreeing, drawn_from, has_addr, law_every_item_is_walked, lemma_claims, lemma_last_repr,
    lemma_no_withdrawal_left, lemma_same_claims,
};
use crate::tree::{well_formed, Path, Tree};
use crate::value::{nesting_limit, reads_back};
use vstd::prelude::*;

verus! {

/// Every record at an address says this, and there is one unless it says nothing.
pub open spec fn records_only(
    prior: Seq<ItemView>,
    addr: Seq<char>,
    repr: Option<Seq<char>>,
) -> bool {
    &&& first_repr(prior, addr) == repr
    &&& last_repr(prior, addr) == repr
}

/// What every record at an address says, the first and the last say.
proof fn lemma_records_only(prior: Seq<ItemView>, addr: Seq<char>, repr: Option<Seq<char>>)
    requires
        has_addr(prior, addr) <==> repr is Some,
        forall|item: ItemView| #[trigger]
            prior.contains(item) && item.addr == addr ==> Some(item.repr) == repr,
    ensures
        records_only(prior, addr, repr),
{
    lemma_first_repr(prior, addr);
    lemma_last_repr(prior, addr);
    if has_addr(prior, addr) {
        assert(prior.contains(ItemView { addr, repr: first_repr(prior, addr)->0 }));
        assert(prior.contains(ItemView { addr, repr: last_repr(prior, addr)->0 }));
    }
}

/// Where the records at an address agree, the first is the last.
proof fn lemma_one_record(prior: Seq<ItemView>, addr: Seq<char>)
    requires
        agreeing(prior),
    ensures
        first_repr(prior, addr) == last_repr(prior, addr),
{
    lemma_first_repr(prior, addr);
    lemma_last_repr(prior, addr);
    if last_repr(prior, addr) is Some {
        let last = ItemView { addr, repr: last_repr(prior, addr)->0 };
        let x = choose|x: int| 0 <= x < prior.len() && prior[x] == last;
        assert(prior[x].addr == addr);
        let first = ItemView { addr, repr: first_repr(prior, addr)->0 };
        let y = choose|y: int| 0 <= y < prior.len() && prior[y] == first;
        assert(prior[x].repr == prior[y].repr);
    }
}

/// Whether a run refused an item every time it met it.
pub open spec fn always_refused(t: Trace, addr: Seq<char>) -> bool {
    forall|i: int|
        0 <= i < t.states.len() && t.order()[i] == addr ==> (#[trigger] t.verdict(i)) is Refuse
}

/// Whether a run refused an item none of the times it met it.
pub open spec fn never_refused(t: Trace, addr: Seq<char>) -> bool {
    forall|i: int|
        0 <= i < t.states.len() && t.order()[i] == addr ==> !((#[trigger] t.verdict(i)) is Refuse)
}

/// A claim comes from a step for that item, and every step with a claim claims.
proof fn lemma_claim(t: Trace, item: ItemView)
    ensures
        t.claims().contains(item) <==> exists|i: int|
            0 <= i < t.states.len() && t.order()[i] == item.addr && t.task().claim(
                item.addr,
                #[trigger] t.states[i],
            ) == Some(item),
{
    lemma_claims(t.task(), t.order(), t.states);
    if t.claims().contains(item) {
        let i = choose|i: int|
            0 <= i < t.states.len() && t.task().claim(t.order()[i], #[trigger] t.states[i])
                == Some(item);
        assert(t.order()[i] == item.addr);
    }
    if exists|i: int|
        0 <= i < t.states.len() && t.order()[i] == item.addr && t.task().claim(
            item.addr,
            #[trigger] t.states[i],
        ) == Some(item) {
        let i = choose|i: int|
            0 <= i < t.states.len() && t.order()[i] == item.addr && t.task().claim(
                item.addr,
                #[trigger] t.states[i],
            ) == Some(item);
        assert(t.task().claim(t.order()[i], t.states[i]) == Some(item));
    }
}

/// A step that claims an item puts it on the record.
proof fn lemma_claimed_is_recorded(t: Trace, i: int, item: ItemView, prior: Seq<ItemView>)
    requires
        0 <= i < t.states.len(),
        t.order()[i] == item.addr,
        t.task().claim(item.addr, t.states[i]) == Some(item),
        drawn_from(prior, t.claims()),
    ensures
        has_addr(prior, item.addr),
{
    lemma_claim(t, item);
    let claims = t.claims();
    let m = choose|m: int| 0 <= m < claims.len() && claims[m] == item;
    assert(claims[m].addr == item.addr);
    assert(has_addr(claims, item.addr));
}

/// What is on the record was claimed by some step.
proof fn lemma_recorded_was_claimed(t: Trace, addr: Seq<char>, prior: Seq<ItemView>) -> (i: int)
    requires
        drawn_from(prior, t.claims()),
        has_addr(prior, addr),
    ensures
        0 <= i < t.states.len(),
        t.order()[i] == addr,
        t.task().claim(addr, t.states[i]) is Some,
{
    let k = choose|k: int| 0 <= k < prior.len() && (#[trigger] prior[k]).addr == addr;
    assert(prior.contains(prior[k]));
    lemma_claim(t, prior[k]);
    choose|i: int|
        0 <= i < t.states.len() && t.order()[i] == addr && t.task().claim(
            addr,
            #[trigger] t.states[i],
        ) == Some(prior[k])
}

/// What comes back of the claims for a declared item that was refused every time:
/// what was recorded before.
proof fn lemma_record_of_refused(t: Trace, addr: Seq<char>, j: int, prior: Seq<ItemView>)
    requires
        0 <= j < t.states.len(),
        t.order()[j] == addr,
        last_leaf(t.start@.leaves, addr) is Some,
        always_refused(t, addr),
        drawn_from(prior, t.claims()),
    ensures
        records_only(prior, addr, last_repr(t.start@.prior, addr)),
{
    let was = last_repr(t.start@.prior, addr);
    lemma_last_item(t.start@.leaves, addr);
    assert(t.verdict(j) is Refuse);
    if was is Some {
        lemma_claimed_is_recorded(t, j, ItemView { addr, repr: was->0 }, prior);
    }
    if has_addr(prior, addr) {
        let i = lemma_recorded_was_claimed(t, addr, prior);
        assert(t.verdict(i) is Refuse);
    }
    assert forall|item: ItemView| #[trigger]
        prior.contains(item) && item.addr == addr implies Some(item.repr) == was by {
        lemma_claim(t, item);
        let i = choose|i: int|
            0 <= i < t.states.len() && t.order()[i] == addr && t.task().claim(
                addr,
                #[trigger] t.states[i],
            ) == Some(item);
        assert(t.verdict(i) is Refuse);
    }
    lemma_records_only(prior, addr, was);
}

/// What comes back of the claims for a declared item that was never refused: the
/// declared value.
proof fn lemma_record_of_applied(t: Trace, addr: Seq<char>, j: int, prior: Seq<ItemView>)
    requires
        0 <= j < t.states.len(),
        t.order()[j] == addr,
        last_leaf(t.start@.leaves, addr) is Some,
        never_refused(t, addr),
        drawn_from(prior, t.claims()),
    ensures
        records_only(prior, addr, Some(last_leaf(t.start@.leaves, addr)->0.repr)),
{
    let repr = last_leaf(t.start@.leaves, addr)->0.repr;
    lemma_last_item(t.start@.leaves, addr);
    assert(!(t.verdict(j) is Refuse));
    lemma_claimed_is_recorded(t, j, ItemView { addr, repr }, prior);
    assert forall|item: ItemView| #[trigger]
        prior.contains(item) && item.addr == addr implies Some(item.repr) == Some(repr) by {
        lemma_claim(t, item);
        let i = choose|i: int|
            0 <= i < t.states.len() && t.order()[i] == addr && t.task().claim(
                addr,
                #[trigger] t.states[i],
            ) == Some(item);
        assert(!(t.verdict(i) is Refuse));
    }
    lemma_records_only(prior, addr, Some(repr));
}

/// What comes back of the claim for an item that is not declared: what was
/// recorded before.
proof fn lemma_record_of_undeclared(t: Trace, addr: Seq<char>, prior: Seq<ItemView>)
    requires
        last_leaf(t.start@.leaves, addr) is None,
        drawn_from(prior, t.claims()),
        has_addr(prior, addr),
    ensures
        records_only(prior, addr, last_repr(t.start@.prior, addr)),
{
    let was = last_repr(t.start@.prior, addr);
    lemma_last_item(t.start@.leaves, addr);
    let i = lemma_recorded_was_claimed(t, addr, prior);
    assert forall|item: ItemView| #[trigger]
        prior.contains(item) && item.addr == addr implies Some(item.repr) == was by {
        lemma_claim(t, item);
        let i = choose|i: int|
            0 <= i < t.states.len() && t.order()[i] == addr && t.task().claim(
                addr,
                #[trigger] t.states[i],
            ) == Some(item);
    }
    lemma_records_only(prior, addr, was);
}

/// A declared item that holds its declared value is skipped or refused, and
/// skipped where the record agrees.
proof fn lemma_nothing_to_do(d: DocView, opts: Options, addr: Seq<char>)
    requires
        last_leaf(d.leaves, addr) is Some,
        look(d.root, d.place(addr)->0) == Look::Seen(Some(last_leaf(d.leaves, addr)->0.repr)),
        opts.force ==> first_repr(d.prior, addr) == Some(last_leaf(d.leaves, addr)->0.repr),
    ensures
        d.state(addr) is Ok,
        !alters(task_of(d, opts).verdict(addr, d.state(addr)->Ok_0).0),
        first_repr(d.prior, addr) == Some(last_leaf(d.leaves, addr)->0.repr) ==> task_of(
            d,
            opts,
        ).verdict(addr, d.state(addr)->Ok_0).0 is Skip,
{
    lemma_last_item(d.leaves, addr);
}

/// The state of an item comes from what is seen and what is recorded.
proof fn lemma_same_state(a: DocView, b: DocView, addr: Seq<char>)
    requires
        a.leaves == b.leaves,
        a.place(addr) is Some,
        first_repr(a.prior, addr) == first_repr(b.prior, addr),
        look(a.root, a.place(addr)->0) == look(b.root, a.place(addr)->0),
    ensures
        a.place(addr) == b.place(addr),
        a.state(addr) == b.state(addr),
{
}

/// What a first run left to a second one: the document, the declaration, and a
/// record drawn from the claims.
pub open spec fn left_to(t: Trace, d: DocView) -> bool {
    &&& t.sound()
    &&& t.complete()
    &&& share_nothing(t.start@.leaves)
    &&& agreeing(t.start@.prior)
    &&& forall|j: int|
        0 <= j < t.start@.leaves.len() ==> t.withdrew_clear_of(#[trigger] t.place(j))
    &&& d.root == t.stores.last()@.root
    &&& d.leaves == t.start@.leaves
    &&& drawn_from(d.prior, t.claims())
}

/// What was refused every time it was met is refused again, in the same state.
proof fn lemma_second_refusal(t: Trace, d: DocView, j: int)
    requires
        left_to(t, d),
        0 <= j < t.start@.leaves.len(),
        always_refused(t, t.order()[j]),
    ensures
        d.state(t.order()[j]) == Ok::<StateView, Failure>(t.states[j]),
        task_of(d, t.opts).verdict(t.order()[j], t.states[j]).0 is Refuse,
{
    let addr = t.order()[j];
    law_every_item_is_walked(t.start@.items(), t.start@.prior);
    lemma_walked(t.start@, j);
    lemma_last_item(t.start@.leaves, addr);
    assert(t.verdict(j) is Refuse);
    assert(t.withdrew_clear_of(t.place(j)));
    lemma_unacted(t, addr, j);
    lemma_unacted(t, addr, t.stores.len() - 1);
    lemma_trace(t, j);
    lemma_one_record(t.start@.prior, addr);
    lemma_record_of_refused(t, addr, j, d.prior);
    lemma_same_state(t.start@, t.stores[j]@, addr);
    lemma_same_state(t.start@, d, addr);
}

/// What the second run reads for a declared item: there is nothing to do about
/// it.
proof fn lemma_second_look(t: Trace, d: DocView, j: int)
    requires
        left_to(t, d),
        0 <= j < t.start@.leaves.len(),
    ensures
        d.state(t.order()[j]) is Ok,
        !alters(task_of(d, t.opts).verdict(t.order()[j], d.state(t.order()[j])->Ok_0).0),
        never_refused(t, t.order()[j]) ==> task_of(d, t.opts).verdict(
            t.order()[j],
            d.state(t.order()[j])->Ok_0,
        ).0 is Skip,
{
    let addr = t.order()[j];
    law_every_item_is_walked(t.start@.items(), t.start@.prior);
    lemma_walked(t.start@, j);
    lemma_last_item(t.start@.leaves, addr);
    if always_refused(t, addr) {
        lemma_second_refusal(t, d, j);
        assert(t.verdict(j) is Refuse);
    } else {
        let i = choose|i: int|
            0 <= i < t.states.len() && t.order()[i] == addr && !((#[trigger] t.verdict(i))
                is Refuse);
        lemma_walked(t.start@, i);
        assert(t.withdrew_clear_of(t.place(i)));
        lemma_settled(t, i, t.stores.len() - 1);
        if t.opts.force {
            assert(never_refused(t, addr));
        }
        if never_refused(t, addr) {
            lemma_record_of_applied(t, addr, j, d.prior);
        }
        lemma_nothing_to_do(d, t.opts, addr);
    }
}

/// What the second run reads for any item it walks.
proof fn lemma_second_walk(t: Trace, d: DocView, m: int)
    requires
        left_to(t, d),
        0 <= m < walk_of(d).len(),
    ensures
        d.state(walk_of(d)[m]) is Ok,
        !alters(task_of(d, t.opts).verdict(walk_of(d)[m], d.state(walk_of(d)[m])->Ok_0).0),
        never_refused(t, walk_of(d)[m]) ==> task_of(d, t.opts).verdict(
            walk_of(d)[m],
            d.state(walk_of(d)[m])->Ok_0,
        ).0 is Skip,
{
    law_every_item_is_walked(t.start@.items(), t.start@.prior);
    lemma_walked(d, m);
    lemma_last_item(d.leaves, walk_of(d)[m]);
    if m < d.leaves.len() {
        lemma_walked(t.start@, m);
        lemma_second_look(t, d, m);
    } else if t.opts.retract {
        lemma_no_withdrawal_left(t.task(), t.states, d.prior, walk_of(d)[m]);
    }
}

/// Once the declared items are met, a run that withdraws nothing leaves the
/// document alone.
proof fn lemma_settled_document(t: Trace, i: int, k: int)
    requires
        t.sound(),
        !t.opts.retract,
        t.start@.leaves.len() <= i <= k < t.stores.len(),
    ensures
        t.root(k) == t.root(i),
    decreases k,
{
    if i < k {
        lemma_settled_document(t, i, k - 1);
        lemma_trace(t, k - 1);
        lemma_walked(t.start@, k - 1);
        lemma_last_item(t.start@.leaves, t.order()[k - 1]);
    }
}

/// An item that is not declared and stayed claimed stays claimed.
proof fn lemma_stays_claimed(t: Trace, d: DocView, i: int)
    requires
        left_to(t, d),
        t.start@.leaves.len() <= i < t.states.len(),
        t.task().claim(t.order()[i], t.states[i]) is Some,
    ensures
        d.state(t.order()[i]) is Ok,
        task_of(d, t.opts).claim(t.order()[i], d.state(t.order()[i])->Ok_0) == t.task().claim(
            t.order()[i],
            t.states[i],
        ),
{
    let addr = t.order()[i];
    lemma_walked(t.start@, i);
    lemma_last_item(t.start@.leaves, addr);
    lemma_trace(t, i);
    lemma_claimed_is_recorded(t, i, t.task().claim(addr, t.states[i])->0, d.prior);
    lemma_record_of_undeclared(t, addr, d.prior);
    lemma_one_record(t.start@.prior, addr);
    lemma_settled_document(t, i, t.stores.len() - 1);
    lemma_same_state(t.stores[i]@, d, addr);
}

/// Whether the entries of a report at one address are all refused, or none.
pub open spec fn refused_alike(report: Seq<EntryView>) -> bool {
    forall|i: int, j: int|
        0 <= i < report.len() && 0 <= j < report.len() && (#[trigger] report[i]).addr == (
        #[trigger] report[j]).addr ==> (report[i].decision is Refuse <==> report[j].decision
            is Refuse)
}

/// The second run claims what the first one did.
proof fn lemma_second_claims(t: Trace, u: Trace)
    requires
        left_to(t, u.start@),
        u.opts == t.opts,
        u.complete(),
        forall|m: int|
            0 <= m < u.states.len() ==> u.start@.state(u.order()[m]) == Ok::<StateView, Failure>(
                #[trigger] u.states[m],
            ),
        forall|j: int|
            0 <= j < t.start@.leaves.len() ==> never_refused(t, #[trigger] t.order()[j])
                || always_refused(t, t.order()[j]),
    ensures
        u.claims() == t.claims(),
{
    let d = u.start@;
    let n = t.start@.leaves.len() as int;
    law_every_item_is_walked(t.start@.items(), t.start@.prior);
    law_every_item_is_walked(d.items(), d.prior);
    assert(d.items() == t.start@.items());
    let items = d.items();
    assert forall|i: int| 0 <= i < n implies t.task().claim(items[i].addr, #[trigger] t.states[i])
        == u.task().claim(items[i].addr, u.states[i]) by {
        let addr = t.order()[i];
        assert(u.order()[i] == addr);
        assert(u.start@.state(u.order()[i]) == Ok::<StateView, Failure>(u.states[i]));
        lemma_walked(t.start@, i);
        lemma_last_item(t.start@.leaves, addr);
        assert(never_refused(t, addr) || always_refused(t, addr));
        lemma_second_look(t, d, i);
        if always_refused(t, addr) {
            lemma_second_refusal(t, d, i);
            lemma_record_of_refused(t, addr, i, d.prior);
            assert(t.verdict(i) is Refuse);
        } else {
            assert(!(t.verdict(i) is Refuse));
        }
    }
    assert forall|i: int, j: int|
        n <= i < t.states.len() && n <= j < u.states.len() && t.order()[i] == u.order()[j]
            && t.task().claim(t.order()[i], #[trigger] t.states[i]) is Some implies u.task().claim(
        u.order()[j],
        #[trigger] u.states[j],
    ) == t.task().claim(t.order()[i], t.states[i]) by {
        lemma_stays_claimed(t, d, i);
        assert(u.start@.state(u.order()[j]) == Ok::<StateView, Failure>(u.states[j]));
    }
    lemma_same_claims(t.task(), u.task(), t.states, u.states);
}

/// What a run withdrew shares nothing with what is declared.
pub open spec fn withdrawn_clear_of_declared(d: DocView, report: Seq<EntryView>) -> bool {
    forall|j: int|
        0 <= j < d.leaves.len() ==> withdrawn_clear_of(
            d,
            report,
            d.place(#[trigger] walk_of(d)[j])->0,
        )
}

/// **Law.** Re-running with an unchanged declaration changes nothing: a second
/// run over the document the first one left and the record it handed back, with
/// the same options, succeeds, writes and withdraws nothing, and leaves the
/// document as it is. Where the first run left no difference in place, the second
/// one produces only `Skip`. And it hands the same record back, where the entries
/// at one address were all refused, or none.
///
/// The record may come back in another order, with one value per address. What
/// was recorded before the first run must be one value per address, and what that
/// run withdrew must share nothing with what is declared.
pub proof fn law_a_second_run_changes_nothing(
    key: Path,
    declaration: Tree,
    before: JsonDoc,
    opts: Options,
    after: JsonDoc,
    report: Seq<EntryView>,
    output: OutputView,
    again: JsonDoc,
    at_last: JsonDoc,
    result: Result<(Seq<EntryView>, OutputView), Failure>,
)
    requires
        well_formed(declaration),
        before.inv(),
        before@.leaves == leaves(key, declaration),
        agreeing(before@.prior),
        ran(before, opts, after, Ok((report, output))),
        withdrawn_clear_of_declared(before@, report),
        again.inv(),
        again@.root == after@.root,
        again@.leaves == leaves(key, declaration),
        drawn_from(again@.prior, output.prior->0),
        ran(again, opts, at_last, result),
    ensures
        result is Ok,
        forall|i: int|
            0 <= i < result->Ok_0.0.len() ==> !alters((#[trigger] result->Ok_0.0[i]).decision),
        (forall|i: int| 0 <= i < report.len() ==> !((#[trigger] report[i]).decision is Refuse))
            ==> forall|i: int|
            0 <= i < result->Ok_0.0.len() ==> (#[trigger] result->Ok_0.0[i]).decision is Skip,
        at_last@ == again@,
        result->Ok_0.1.document == output.document,
        refused_alike(report) ==> result->Ok_0.1.prior == output.prior,
{
    let t = lemma_run(before, opts, after, Ok((report, output)));
    let u = lemma_run(again, opts, at_last, result);
    let d = again@;
    law_declared_items_share_nothing(key, declaration);
    law_every_item_is_walked(before@.items(), before@.prior);
    assert forall|j: int| 0 <= j < before@.leaves.len() implies t.withdrew_clear_of(
        #[trigger] t.place(j),
    ) by {
        assert(withdrawn_clear_of(before@, report, before@.place(walk_of(before@)[j])->0));
        lemma_withdrew(t, report, t.place(j));
    }
    assert(left_to(t, d));
    assert forall|i: int| 0 <= i < u.states.len() implies !alters(#[trigger] u.verdict(i))
        && u.stores[i] == again && d.state(u.order()[i]) == Ok::<StateView, Failure>(u.states[i])
        && (never_refused(t, u.order()[i]) ==> u.verdict(i) is Skip) by {
        lemma_second_steps(t, u, i);
    }
    lemma_still(u, u.stores.len() - 1);
    let n = u.states.len() as int;
    if n < u.order().len() {
        lemma_second_walk(t, d, n);
    }
    law_the_output_is_the_document(before, opts, after, report, output);
    law_the_output_is_the_document(again, opts, at_last, result->Ok_0.0, result->Ok_0.1);
    if forall|i: int| 0 <= i < report.len() ==> !((#[trigger] report[i]).decision is Refuse) {
        assert forall|i: int| 0 <= i < result->Ok_0.0.len() implies (
        #[trigger] result->Ok_0.0[i]).decision is Skip by {
            assert(never_refused(t, u.order()[i])) by {
                assert forall|k: int|
                    0 <= k < t.states.len() && t.order()[k] == u.order()[i] implies !((
                #[trigger] t.verdict(k)) is Refuse) by {
                    assert(report[k].decision == t.verdict(k));
                }
            }
            assert(!alters(u.verdict(i)));
        }
    }
    if refused_alike(report) {
        assert forall|j: int| 0 <= j < before@.leaves.len() implies never_refused(
            t,
            #[trigger] t.order()[j],
        ) || always_refused(t, t.order()[j]) by {
            lemma_alike(t, report, t.order()[j]);
        }
        assert forall|m: int| 0 <= m < u.states.len() implies d.state(u.order()[m]) == Ok::<
            StateView,
            Failure,
        >(#[trigger] u.states[m]) by {
            assert(!alters(u.verdict(m)));
        }
        lemma_second_claims(t, u);
    }
}

/// A report whose entries at one address are all refused or none.
proof fn lemma_alike(t: Trace, report: Seq<EntryView>, addr: Seq<char>)
    requires
        refused_alike(report),
        report.len() == t.states.len(),
        forall|i: int|
            0 <= i < t.states.len() ==> (#[trigger] report[i]) == t.task().entry(
                t.order()[i],
                t.states[i],
            ),
    ensures
        never_refused(t, addr) || always_refused(t, addr),
{
    if !never_refused(t, addr) {
        let k = choose|k: int|
            0 <= k < t.states.len() && t.order()[k] == addr && (#[trigger] t.verdict(k)) is Refuse;
        assert(report[k].decision is Refuse);
        assert forall|i: int|
            0 <= i < t.states.len() && t.order()[i] == addr implies (#[trigger] t.verdict(
            i,
        )) is Refuse by {
            assert(report[i].addr == report[k].addr);
        }
    }
}

/// The steps of the second run: none of them acts.
proof fn lemma_second_steps(t: Trace, u: Trace, k: int)
    requires
        left_to(t, u.start@),
        u.sound(),
        u.opts == t.opts,
        0 <= k < u.states.len(),
    ensures
        u.stores[k] == u.start,
        u.start@.state(u.order()[k]) == Ok::<StateView, Failure>(u.states[k]),
        !alters(u.verdict(k)),
        never_refused(t, u.order()[k]) ==> u.verdict(k) is Skip,
    decreases k,
{
    if k > 0 {
        lemma_second_steps(t, u, k - 1);
        assert(u.task().step(u.stores[k - 1], u.stores[k], u.order()[k - 1], u.states[k - 1]));
    }
    lemma_trace(u, k);
    lemma_second_walk(t, u.start@, k);
}

/// **Law.** A second invocation has nothing to do. The document of the first one
/// was written to the target and its claims to the record. Then a second one over
/// the same declaration, with the document read back from the target and the
/// claims from the record, writes and withdraws nothing, renders the very text
/// that is there already and hands the same claims back, where [`reads_back`]
/// holds of the document. Where the first one left no difference in place, the
/// second one skips every item.
pub proof fn law_a_second_invocation_has_nothing_to_do(
    key: Path,
    declaration: Tree,
    before: JsonDoc,
    opts: Options,
    after: JsonDoc,
    report: Seq<EntryView>,
    output: OutputView,
    ledger: Ledger,
    target: Seq<char>,
    again: JsonDoc,
    at_last: JsonDoc,
    result: Result<(Seq<EntryView>, OutputView), Failure>,
)
    requires
        well_formed(declaration),
        before.inv(),
        before@.leaves == leaves(key, declaration),
        before@.prior == recorded(ledger, target),
        in_sorted_order(ledger),
        ran(before, opts, after, Ok((report, output))),
        withdrawn_clear_of_declared(before@, report),
        again.inv(),
        again@.leaves == leaves(key, declaration),
        again@.prior == recorded(amended(ledger, target, output.prior->0), target),
        ran(again, opts, at_last, result),
    ensures
        reads_back(after@.root, nesting_limit()) && opened(output.document) == Ok::<
            Tree,
            Seq<char>,
        >(again@.root) ==> {
            &&& result is Ok
            &&& forall|i: int|
                0 <= i < result->Ok_0.0.len() ==> !alters((#[trigger] result->Ok_0.0[i]).decision)
            &&& (forall|i: int|
                0 <= i < report.len() ==> !((#[trigger] report[i]).decision is Refuse))
                ==> forall|i: int|
                0 <= i < result->Ok_0.0.len() ==> (#[trigger] result->Ok_0.0[i]).decision is Skip
            &&& result->Ok_0.1.document == output.document
            &&& refused_alike(report) ==> result->Ok_0.1.prior == output.prior
        },
{
    law_the_output_is_the_document(before, opts, after, report, output);
    law_a_record_is_one_value_per_address(ledger, target);
    law_a_record_is_drawn_from_what_is_set(ledger, target, output.prior->0);
    if again@.root == after@.root {
        law_a_second_run_changes_nothing(
            key,
            declaration,
            before,
            opts,
            after,
            report,
            output,
            again,
            at_last,
            result,
        );
    }
}

} // verus!
