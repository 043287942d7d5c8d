//! A second run over any representation whose addresses name independent slots.
//!
//! A representation is of this kind where what is at one address can be read,
//! written and emptied without touching what is at another, and where whose an
//! item is follows from what is recorded and what is there. Then a run settles
//! the target: the same declaration over what the run left, with the record it
//! handed back, has nothing to do.

use crate::engine::{last_repr, ran, walk_order, EntryView, Options, Task};
use crate::error::Failure;
use crate::policy::Decision;
use crate::port::{ItemView, OutputView, Ownership, StateView, Store};
use crate::runs::{
    agreeing, has_addr, law_every_item_is_walked, lemma_claims, lemma_last_repr,
    lemma_no_withdrawal_left, lemma_ran, lemma_same_claims,
};
use crate::text::lemma_precedes_irreflexive;
use vstd::prelude::*;

verus! {

/// Whose an item is, from what is recorded and what is there.
pub open spec fn ownership_of(
    recorded: Option<Seq<char>>,
    observed: Option<Seq<char>>,
) -> Ownership {
    match (recorded, observed) {
        (None, _) => Ownership::Unknown,
        (Some(_), None) => Ownership::Removed,
        (Some(r), Some(o)) => if r == o {
            Ownership::Ours
        } else {
            Ownership::Diverged
        },
    }
}

/// How a store of type `S` is seen as slots of a target of type `T`.
#[verifier::reject_recursive_types(S)]
#[verifier::reject_recursive_types(T)]
pub struct Slots<S, T> {
    /// The target a store holds.
    pub target: spec_fn(S) -> T,
    /// What is at an address of a target.
    pub held: spec_fn(T, Seq<char>) -> Option<Seq<char>>,
    /// The text of a target with the items claimed in it.
    pub text: spec_fn(T, Seq<ItemView>) -> Seq<char>,
}

impl<S: Store, T> Slots<S, T> {
    /// What is at an address of the target a store holds.
    pub open spec fn at(self, s: S, addr: Seq<char>) -> Option<Seq<char>> {
        (self.held)((self.target)(s), addr)
    }

    /// Two stores of the same declaration and the same record.
    pub open spec fn same_task(self, s: S, after: S) -> bool {
        &&& after.inv()
        &&& after.declares() == s.declares()
        &&& after.records() == s.records()
    }

    /// An item reads as what is in its slot, and is owned accordingly, where the
    /// record has one value per address.
    pub open spec fn read(self) -> bool {
        forall|s: S, addr: Seq<char>|
            s.inv() && s.declares() is Ok && agreeing(s.records()) && (has_addr(
                s.declares()->Ok_0,
                addr,
            ) || has_addr(s.records(), addr)) ==> {
                &&& (#[trigger] s.reads(addr)) is Ok
                &&& s.reads(addr)->Ok_0.observed == self.at(s, addr)
                &&& s.reads(addr)->Ok_0.ownership == ownership_of(
                    last_repr(s.records(), addr),
                    self.at(s, addr),
                )
            }
    }

    /// A write sets the slot of a declared item to its declared value, and no
    /// other slot.
    pub open spec fn written(self) -> bool {
        forall|s: S, addr: Seq<char>, after: S|
            s.inv() && s.declares() is Ok && has_addr(s.declares()->Ok_0, addr)
                && #[trigger] s.writes(addr, &after, Ok(())) ==> {
                &&& self.same_task(s, after)
                &&& self.at(after, addr) == last_repr(s.declares()->Ok_0, addr)
                &&& forall|x: Seq<char>| x != addr ==> #[trigger] self.at(after, x) == self.at(s, x)
            }
    }

    /// A withdrawal empties the slot of a recorded item, and no other.
    pub open spec fn emptied(self) -> bool {
        forall|s: S, addr: Seq<char>, after: S|
            s.inv() && has_addr(s.records(), addr) && #[trigger] s.retracts(addr, &after, Ok(()))
                ==> {
                &&& self.same_task(s, after)
                &&& self.at(after, addr) is None
                &&& forall|x: Seq<char>| x != addr ==> #[trigger] self.at(after, x) == self.at(s, x)
            }
    }

    /// Rendering gives the text of the target and the items claimed, and leaves
    /// the target as it is.
    pub open spec fn rendered(self) -> bool {
        forall|s: S, owned: Seq<ItemView>, after: S, result: Result<OutputView, Failure>|
            s.inv() && #[trigger] s.renders(owned, &after, result) ==> {
                &&& result is Ok
                &&& result->Ok_0.document == (self.text)((self.target)(s), owned)
                &&& result->Ok_0.prior == Some(owned)
                &&& (self.target)(after) == (self.target)(s)
            }
    }

    /// Whether the addresses of a representation name independent slots.
    pub open spec fn independent(self) -> bool {
        &&& self.read()
        &&& self.written()
        &&& self.emptied()
        &&& self.rendered()
    }

    /// A run that met every item and refused none.
    spec fn settled(self, task: Task, stores: Seq<S>, states: Seq<StateView>) -> bool {
        let walk = walk_order(task.declared, task.prior);
        &&& self.independent()
        &&& agreeing(task.prior)
        &&& states.len() == walk.len()
        &&& task.steps(walk, stores, states)
        &&& stores[0].inv()
        &&& stores[0].declares() == Ok::<Seq<ItemView>, Failure>(task.declared)
        &&& stores[0].records() == task.prior
        &&& forall|i: int|
            0 <= i < states.len() ==> !((#[trigger] task.verdict(walk[i], states[i])).0 is Refuse)
    }
}

/// What every store of a run has in common, and what a step does to a slot.
proof fn lemma_common<S: Store, T>(
    slots: Slots<S, T>,
    task: Task,
    stores: Seq<S>,
    states: Seq<StateView>,
    k: int,
)
    requires
        slots.settled(task, stores, states),
        0 <= k <= states.len(),
    ensures
        slots.same_task(stores[0], stores[k]),
        k < states.len() ==> {
            let addr = walk_order(task.declared, task.prior)[k];
            &&& states[k].observed == slots.at(stores[k], addr)
            &&& states[k].ownership == ownership_of(
                last_repr(task.prior, addr),
                slots.at(stores[k], addr),
            )
        },
    decreases k,
{
    let walk = walk_order(task.declared, task.prior);
    law_every_item_is_walked(task.declared, task.prior);
    if k > 0 {
        lemma_common(slots, task, stores, states, k - 1);
        assert(task.step(stores[k - 1], stores[k - 1 + 1], walk[k - 1], states[k - 1]));
        assert(walk.contains(walk[k - 1]));
        lemma_last_repr(task.declared, walk[k - 1]);
    }
    if k < states.len() {
        assert(task.step(stores[k], stores[k + 1], walk[k], states[k]));
        assert(walk.contains(walk[k]));
        assert(stores[k].reads(walk[k]) is Ok);
    }
}

/// What a step does to the slots.
proof fn lemma_slot_step<S: Store, T>(
    slots: Slots<S, T>,
    task: Task,
    stores: Seq<S>,
    states: Seq<StateView>,
    k: int,
    addr: Seq<char>,
)
    requires
        slots.settled(task, stores, states),
        0 <= k < states.len(),
    ensures
        walk_order(task.declared, task.prior)[k] != addr ==> slots.at(stores[k + 1], addr)
            == slots.at(stores[k], addr),
        walk_order(task.declared, task.prior)[k] == addr && has_addr(task.declared, addr)
            ==> slots.at(stores[k + 1], addr) == last_repr(task.declared, addr),
        walk_order(task.declared, task.prior)[k] == addr && task.verdict(addr, states[k]).0 is Skip
            ==> slots.at(stores[k + 1], addr) == slots.at(stores[k], addr),
{
    let walk = walk_order(task.declared, task.prior);
    lemma_common(slots, task, stores, states, k);
    law_every_item_is_walked(task.declared, task.prior);
    assert(task.step(stores[k], stores[k + 1], walk[k], states[k]));
    assert(walk.contains(walk[k]));
    lemma_last_repr(task.declared, walk[k]);
    assert(!(task.verdict(walk[k], states[k]).0 is Refuse));
}

/// A declared item holds its value from the step that met it on.
proof fn lemma_declared_slot<S: Store, T>(
    slots: Slots<S, T>,
    task: Task,
    stores: Seq<S>,
    states: Seq<StateView>,
    j: int,
    k: int,
)
    requires
        slots.settled(task, stores, states),
        0 <= j < task.declared.len(),
        j < k <= states.len(),
    ensures
        slots.at(stores[k], task.declared[j].addr) == last_repr(
            task.declared,
            task.declared[j].addr,
        ),
    decreases k,
{
    let addr = task.declared[j].addr;
    law_every_item_is_walked(task.declared, task.prior);
    assert(has_addr(task.declared, addr));
    lemma_slot_step(slots, task, stores, states, k - 1, addr);
    if j < k - 1 {
        lemma_declared_slot(slots, task, stores, states, j, k - 1);
    } else {
        assert(walk_order(task.declared, task.prior)[j] == addr);
    }
}

/// An item that is not declared and was skipped holds what it held.
proof fn lemma_undeclared_slot<S: Store, T>(
    slots: Slots<S, T>,
    task: Task,
    stores: Seq<S>,
    states: Seq<StateView>,
    i: int,
    k: int,
)
    requires
        slots.settled(task, stores, states),
        task.declared.len() <= i < k <= states.len(),
        task.verdict(walk_order(task.declared, task.prior)[i], states[i]).0 is Skip,
    ensures
        slots.at(stores[k], walk_order(task.declared, task.prior)[i]) == slots.at(
            stores[i],
            walk_order(task.declared, task.prior)[i],
        ),
    decreases k,
{
    let walk = walk_order(task.declared, task.prior);
    let addr = walk[i];
    law_every_item_is_walked(task.declared, task.prior);
    lemma_slot_step(slots, task, stores, states, k - 1, addr);
    if i < k - 1 {
        lemma_undeclared_slot(slots, task, stores, states, i, k - 1);
        lemma_precedes_irreflexive(addr);
        assert(walk[k - 1] != addr);
    }
}

/// What a run that refused nothing claims: the declared value of what is
/// declared, and the old record of what is not.
proof fn lemma_claimed_once(task: Task, states: Seq<StateView>)
    requires
        states.len() == walk_order(task.declared, task.prior).len(),
        forall|i: int|
            0 <= i < states.len() ==> !((#[trigger] task.verdict(
                walk_order(task.declared, task.prior)[i],
                states[i],
            )).0 is Refuse),
    ensures
        agreeing(task.claims(walk_order(task.declared, task.prior), states)),
        forall|addr: Seq<char>| #[trigger]
            has_addr(task.claims(walk_order(task.declared, task.prior), states), addr)
                && has_addr(task.declared, addr) ==> last_repr(
                task.claims(walk_order(task.declared, task.prior), states),
                addr,
            ) == last_repr(task.declared, addr),
        forall|addr: Seq<char>| #[trigger]
            has_addr(task.claims(walk_order(task.declared, task.prior), states), addr)
                && !has_addr(task.declared, addr) ==> last_repr(
                task.claims(walk_order(task.declared, task.prior), states),
                addr,
            ) == last_repr(task.prior, addr),
        forall|addr: Seq<char>| #[trigger]
            has_addr(task.declared, addr) ==> has_addr(
                task.claims(walk_order(task.declared, task.prior), states),
                addr,
            ),
{
    let walk = walk_order(task.declared, task.prior);
    let claims = task.claims(walk, states);
    law_every_item_is_walked(task.declared, task.prior);
    lemma_claims(task, walk, states);
    assert forall|item: ItemView| #[trigger] claims.contains(item) implies Some(item.repr) == (
    if has_addr(task.declared, item.addr) {
        last_repr(task.declared, item.addr)
    } else {
        last_repr(task.prior, item.addr)
    }) by {
        let i = choose|i: int|
            0 <= i < states.len() && task.claim(walk[i], #[trigger] states[i]) == Some(item);
        assert(!(task.verdict(walk[i], states[i]).0 is Refuse));
        lemma_last_repr(task.declared, item.addr);
    }
    assert forall|i: int, j: int|
        0 <= i < claims.len() && 0 <= j < claims.len() && (#[trigger] claims[i]).addr == (
        #[trigger] claims[j]).addr implies claims[i].repr == claims[j].repr by {
        assert(claims.contains(claims[i]));
        assert(claims.contains(claims[j]));
    }
    assert forall|addr: Seq<char>| #[trigger] has_addr(claims, addr) implies last_repr(claims, addr)
        == (if has_addr(task.declared, addr) {
        last_repr(task.declared, addr)
    } else {
        last_repr(task.prior, addr)
    }) by {
        lemma_last_repr(claims, addr);
        assert(claims.contains(ItemView { addr, repr: last_repr(claims, addr)->0 }));
    }
    assert forall|addr: Seq<char>| #[trigger] has_addr(task.declared, addr) implies has_addr(
        claims,
        addr,
    ) by {
        let j = choose|j: int|
            0 <= j < task.declared.len() && (#[trigger] task.declared[j]).addr == addr;
        assert(walk[j] == addr);
        assert(!(task.verdict(walk[j], states[j]).0 is Refuse));
        lemma_last_repr(task.declared, addr);
        let item = ItemView { addr, repr: last_repr(task.declared, addr)->0 };
        assert(task.claim(walk[j], states[j]) == Some(item));
        assert(claims.contains(item));
        let c = choose|c: int| 0 <= c < claims.len() && claims[c] == item;
        assert(claims[c].addr == addr);
    }
}

/// What the second run reads of an item: its slot holds what is recorded of it,
/// and that is the declared value where it is declared.
proof fn lemma_second_reading<S: Store, T>(
    slots: Slots<S, T>,
    task: Task,
    stores: Seq<S>,
    states: Seq<StateView>,
    again: S,
    addr: Seq<char>,
)
    requires
        slots.settled(task, stores, states),
        again.inv(),
        again.declares() == Ok::<Seq<ItemView>, Failure>(task.declared),
        again.records() == task.claims(walk_order(task.declared, task.prior), states),
        (slots.target)(again) == (slots.target)(stores.last()),
        walk_order(task.declared, again.records()).contains(addr),
    ensures
        again.reads(addr) is Ok,
        again.reads(addr)->Ok_0.ownership == Ownership::Ours,
        again.reads(addr)->Ok_0.observed == last_repr(again.records(), addr),
        again.reads(addr)->Ok_0.observed is Some,
        has_addr(task.declared, addr) ==> last_repr(again.records(), addr) == last_repr(
            task.declared,
            addr,
        ),
        !has_addr(task.declared, addr) ==> !task.opts.retract && last_repr(again.records(), addr)
            == last_repr(task.prior, addr),
{
    let walk = walk_order(task.declared, task.prior);
    let claims = again.records();
    law_every_item_is_walked(task.declared, task.prior);
    law_every_item_is_walked(task.declared, claims);
    lemma_claimed_once(task, states);
    lemma_claims(task, walk, states);
    lemma_last_repr(task.declared, addr);
    lemma_last_repr(claims, addr);
    assert(has_addr(task.declared, addr) || has_addr(claims, addr));
    assert(has_addr(claims, addr));
    assert(slots.at(again, addr) == slots.at(stores[states.len() as int], addr));
    if has_addr(task.declared, addr) {
        let j = choose|j: int|
            0 <= j < task.declared.len() && (#[trigger] task.declared[j]).addr == addr;
        lemma_declared_slot(slots, task, stores, states, j, states.len() as int);
    } else {
        if task.opts.retract {
            lemma_no_withdrawal_left(task, states, claims, addr);
        }
        let item = ItemView { addr, repr: last_repr(claims, addr)->0 };
        assert(claims.contains(item));
        let i = choose|i: int|
            0 <= i < states.len() && task.claim(walk[i], #[trigger] states[i]) == Some(item);
        if i < task.declared.len() {
            assert(task.declared[i].addr == addr);
        }
        lemma_common(slots, task, stores, states, i);
        lemma_undeclared_slot(slots, task, stores, states, i, states.len() as int);
    }
    assert(again.reads(addr) is Ok);
}

/// The second run acts on nothing.
proof fn lemma_second_step<S: Store, T>(
    slots: Slots<S, T>,
    task: Task,
    stores: Seq<S>,
    states: Seq<StateView>,
    again: S,
    stores2: Seq<S>,
    states2: Seq<StateView>,
    k: int,
)
    requires
        slots.settled(task, stores, states),
        again.inv(),
        again.declares() == Ok::<Seq<ItemView>, Failure>(task.declared),
        again.records() == task.claims(walk_order(task.declared, task.prior), states),
        (slots.target)(again) == (slots.target)(stores.last()),
        stores2[0] == again,
        (Task { prior: again.records(), ..task }).steps(
            walk_order(task.declared, again.records()),
            stores2,
            states2,
        ),
        0 <= k <= states2.len(),
    ensures
        stores2[k] == again,
        k < states2.len() ==> {
            let addr = walk_order(task.declared, again.records())[k];
            &&& again.reads(addr) == Ok::<StateView, Failure>(states2[k])
            &&& (Task { prior: again.records(), ..task }).verdict(addr, states2[k]).0 is Skip
        },
    decreases k,
{
    let second = Task { prior: again.records(), ..task };
    let walk = walk_order(task.declared, again.records());
    if k > 0 {
        lemma_second_step(slots, task, stores, states, again, stores2, states2, k - 1);
        assert(second.step(stores2[k - 1], stores2[k - 1 + 1], walk[k - 1], states2[k - 1]));
    }
    if k < states2.len() {
        assert(second.step(stores2[k], stores2[k + 1], walk[k], states2[k]));
        assert(walk.contains(walk[k]));
        lemma_second_reading(slots, task, stores, states, again, walk[k]);
        lemma_last_repr(task.declared, walk[k]);
    }
}

/// The second run claims what the first one did.
proof fn lemma_second_claims<S: Store, T>(
    slots: Slots<S, T>,
    task: Task,
    stores: Seq<S>,
    states: Seq<StateView>,
    again: S,
    states2: Seq<StateView>,
)
    requires
        slots.settled(task, stores, states),
        again.inv(),
        again.declares() == Ok::<Seq<ItemView>, Failure>(task.declared),
        again.records() == task.claims(walk_order(task.declared, task.prior), states),
        (slots.target)(again) == (slots.target)(stores.last()),
        states2.len() == walk_order(task.declared, again.records()).len(),
        forall|k: int|
            0 <= k < states2.len() ==> again.reads(
                walk_order(task.declared, again.records())[k],
            ) == Ok::<StateView, Failure>(#[trigger] states2[k]),
    ensures
        (Task { prior: again.records(), ..task }).claims(
            walk_order(task.declared, again.records()),
            states2,
        ) == task.claims(walk_order(task.declared, task.prior), states),
{
    let second = Task { prior: again.records(), ..task };
    let x = walk_order(task.declared, task.prior);
    let y = walk_order(task.declared, again.records());
    let n = task.declared.len() as int;
    law_every_item_is_walked(task.declared, task.prior);
    law_every_item_is_walked(task.declared, again.records());
    lemma_claimed_once(task, states);
    assert forall|i: int| 0 <= i < n implies task.claim(
        task.declared[i].addr,
        #[trigger] states[i],
    ) == second.claim(task.declared[i].addr, states2[i]) by {
        let addr = task.declared[i].addr;
        assert(x[i] == addr && y[i] == addr);
        assert(y.contains(y[i]));
        assert(has_addr(task.declared, addr));
        lemma_second_reading(slots, task, stores, states, again, addr);
        assert(again.reads(y[i]) == Ok::<StateView, Failure>(states2[i]));
        assert(!(task.verdict(x[i], states[i]).0 is Refuse));
        lemma_last_repr(task.declared, addr);
    }
    assert forall|i: int, j: int|
        n <= i < states.len() && n <= j < states2.len() && x[i] == y[j] && task.claim(
            x[i],
            #[trigger] states[i],
        ) is Some implies second.claim(y[j], #[trigger] states2[j]) == task.claim(
        x[i],
        states[i],
    ) by {
        assert(y.contains(y[j]));
        lemma_second_reading(slots, task, stores, states, again, y[j]);
        lemma_last_repr(task.declared, y[j]);
    }
    lemma_same_claims(task, second, states, states2);
}

/// **Law.** Where addresses name independent slots, a run settles the target. A
/// first run succeeded and left no difference in place. Then a second one over
/// the same declaration, with the target the first one ended with, the record it
/// handed back and the same options, succeeds, skips every item, renders the same
/// document and hands the same record back.
///
/// What was recorded before the first run must be one value per address.
pub proof fn law_a_second_run_settles<S: Store, T>(
    slots: Slots<S, T>,
    before: S,
    opts: Options,
    after: S,
    report: Seq<EntryView>,
    output: OutputView,
    again: S,
    at_last: S,
    result: Result<(Seq<EntryView>, OutputView), Failure>,
)
    requires
        slots.independent(),
        before.inv(),
        agreeing(before.records()),
        ran(before, opts, after, Ok((report, output))),
        forall|i: int| 0 <= i < report.len() ==> !((#[trigger] report[i]).decision is Refuse),
        again.inv(),
        again.declares() == before.declares(),
        again.records() == output.prior->0,
        (slots.target)(again) == (slots.target)(after),
        ran(again, opts, at_last, result),
    ensures
        result is Ok,
        forall|i: int|
            0 <= i < result->Ok_0.0.len() ==> (#[trigger] result->Ok_0.0[i]).decision
                == Decision::Skip,
        result->Ok_0.1 == output,
        (slots.target)(at_last) == (slots.target)(after),
{
    let declared = before.declares()->Ok_0;
    let task = Task { declared, prior: before.records(), opts };
    let walk = walk_order(declared, before.records());
    let (stores, states) = lemma_ran(before, opts, after, Ok((report, output)));
    assert forall|i: int| 0 <= i < states.len() implies !((#[trigger] task.verdict(
        walk[i],
        states[i],
    )).0 is Refuse) by {
        assert(report[i] == task.entry(walk[i], states[i]));
    }
    assert(slots.settled(task, stores, states));
    lemma_common(slots, task, stores, states, states.len() as int);
    let claims = task.claims(walk, states);
    assert(stores.last().renders(claims, &after, Ok(output)));
    let second = Task { declared, prior: again.records(), opts };
    let order = walk_order(declared, again.records());
    let (stores2, states2) = lemma_ran(again, opts, at_last, result);
    assert(second == Task { prior: again.records(), ..task });
    assert forall|k: int| 0 <= k <= states2.len() implies (#[trigger] stores2[k]) == again && (k
        < states2.len() ==> again.reads(order[k]) == Ok::<StateView, Failure>(states2[k])
        && second.verdict(order[k], states2[k]).0 is Skip) by {
        lemma_second_step(slots, task, stores, states, again, stores2, states2, k);
    }
    assert(stores2[states2.len() as int] == again);
    if states2.len() < order.len() {
        let addr = order[states2.len() as int];
        assert(order.contains(addr));
        lemma_second_reading(slots, task, stores, states, again, addr);
        lemma_last_repr(declared, addr);
        assert(false);
    }
    assert forall|k: int| 0 <= k < states2.len() implies again.reads(order[k]) == Ok::<
        StateView,
        Failure,
    >(#[trigger] states2[k]) by {
        assert(stores2[k] == again);
    }
    lemma_second_claims(slots, task, stores, states, again, states2);
    let answer: Result<OutputView, Failure> = match result {
        Ok(done) => Ok(done.1),
        Err(e) => Err(e),
    };
    assert(again.renders(claims, &at_last, answer));
    assert forall|i: int| 0 <= i < result->Ok_0.0.len() implies (
    #[trigger] result->Ok_0.0[i]).decision == Decision::Skip by {
        assert(stores2[i] == again);
    }
}

} // verus!
