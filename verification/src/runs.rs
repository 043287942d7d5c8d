//! What holds of every run, whatever the representation.
//!
//! [`ran`](crate::engine::ran) says what one run does. The laws below follow
//! from it and from the decision table: which items a run looks at, which it may
//! change, what it reports and what it claims afterwards.

use crate::engine::{
    addrs, count, extras, last_repr, listed, marked, ran, walk_order, EntryView, Options, Task,
};
use crate::error::Failure;
use crate::policy::{alters, table, Decision};
use crate::port::{ItemView, OutputView, Ownership, StateView, Store};
use crate::text::{
    lemma_precedes_irreflexive, lemma_precedes_total, lemma_precedes_transitive, precedes,
};
use vstd::prelude::*;

verus! {

/// Whether a sequence of items has one at an address.
pub open spec fn has_addr(items: Seq<ItemView>, addr: Seq<char>) -> bool {
    exists|i: int| 0 <= i < items.len() && (#[trigger] items[i]).addr == addr
}

/// A list taken from another: it holds none but the other's items, and one at
/// least for every address there.
pub open spec fn drawn_from(a: Seq<ItemView>, b: Seq<ItemView>) -> bool {
    &&& forall|item: ItemView| #[trigger] a.contains(item) ==> b.contains(item)
    &&& forall|addr: Seq<char>| #[trigger] has_addr(b, addr) ==> has_addr(a, addr)
}

/// Items at the same address have the same repr.
pub open spec fn agreeing(items: Seq<ItemView>) -> bool {
    forall|i: int, j: int|
        0 <= i < items.len() && 0 <= j < items.len() && (#[trigger] items[i]).addr == (
        #[trigger] items[j]).addr ==> items[i].repr == items[j].repr
}

/// Texts in dictionary order, none twice.
pub open spec fn sorted(list: Seq<Seq<char>>) -> bool {
    forall|i: int, j: int|
        0 <= i < j < list.len() ==> precedes(#[trigger] list[i], #[trigger] list[j])
}

/// The last item at an address, where there is one.
pub proof fn lemma_last_repr(items: Seq<ItemView>, addr: Seq<char>)
    ensures
        match last_repr(items, addr) {
            Some(repr) => items.contains(ItemView { addr, repr }),
            None => !has_addr(items, addr),
        },
        last_repr(items, addr) is Some <==> has_addr(items, addr),
    decreases items.len(),
{
    if items.len() > 0 {
        let head = items.drop_last();
        lemma_last_repr(head, addr);
        assert(items[items.len() - 1] == items.last());
        if items.last().addr != addr {
            match last_repr(head, addr) {
                Some(repr) => {
                    let k = choose|k: int|
                        0 <= k < head.len() && head[k] == (ItemView { addr, repr });
                    assert(items[k] == head[k]);
                },
                None => {
                    assert forall|i: int| 0 <= i < items.len() implies (#[trigger] items[i]).addr
                        != addr by {
                        if i < head.len() {
                            assert(items[i] == head[i]);
                        }
                    }
                },
            }
        } else {
            assert(items.last() == (ItemView { addr, repr: items.last().repr }));
        }
    }
}

/// Listing an address keeps a list in order and adds that address alone.
pub proof fn lemma_listed(list: Seq<Seq<char>>, addr: Seq<char>)
    requires
        sorted(list),
    ensures
        sorted(listed(list, addr)),
        forall|x: Seq<char>| #[trigger]
            listed(list, addr).contains(x) <==> (list.contains(x) || x == addr),
    decreases list.len(),
{
    let after = listed(list, addr);
    if list.len() == 0 {
        assert(after =~= seq![addr]);
        assert(after[0] == addr);
    } else {
        let head = list.drop_last();
        let last = list.last();
        assert(list[list.len() - 1] == last);
        if last == addr {
        } else if precedes(addr, last) {
            lemma_listed(head, addr);
            let slot = listed(head, addr);
            assert forall|i: int, j: int| 0 <= i < j < after.len() implies precedes(
                #[trigger] after[i],
                #[trigger] after[j],
            ) by {
                assert(slot.contains(slot[i]));
                if j == slot.len() && slot[i] != addr {
                    let k = choose|k: int| 0 <= k < head.len() && head[k] == slot[i];
                    assert(list[k] == slot[i]);
                }
            }
            assert forall|x: Seq<char>| #[trigger] after.contains(x) <==> (list.contains(x) || x
                == addr) by {
                if after.contains(x) && x != last {
                    let k = choose|k: int| 0 <= k < after.len() && after[k] == x;
                    assert(slot[k] == x);
                    assert(slot.contains(x));
                    if x != addr {
                        let m = choose|m: int| 0 <= m < head.len() && head[m] == x;
                        assert(list[m] == x);
                    }
                }
                if x == last {
                    assert(after[after.len() - 1] == x);
                } else if list.contains(x) || x == addr {
                    if list.contains(x) {
                        let m = choose|m: int| 0 <= m < list.len() && list[m] == x;
                        assert(head[m] == x);
                    }
                    assert(slot.contains(x));
                    let k = choose|k: int| 0 <= k < slot.len() && slot[k] == x;
                    assert(after[k] == x);
                }
            }
        } else {
            lemma_precedes_total(addr, last);
            assert forall|i: int, j: int| 0 <= i < j < after.len() implies precedes(
                #[trigger] after[i],
                #[trigger] after[j],
            ) by {
                assert(after[i] == list[i]);
                if j == list.len() {
                    if i < list.len() - 1 {
                        assert(precedes(list[i], list[list.len() - 1]));
                        lemma_precedes_transitive(list[i], last, addr);
                    }
                } else {
                    assert(after[j] == list[j]);
                }
            }
            assert forall|x: Seq<char>| #[trigger] after.contains(x) <==> (list.contains(x) || x
                == addr) by {
                if list.contains(x) {
                    let m = choose|m: int| 0 <= m < list.len() && list[m] == x;
                    assert(after[m] == x);
                }
                if x == addr {
                    assert(after[list.len() as int] == x);
                }
            }
        }
    }
}

/// The addresses only provenance knows: sorted, none twice, and exactly those
/// that are recorded and not declared.
pub proof fn lemma_extras(declared: Seq<ItemView>, prior: Seq<ItemView>)
    ensures
        sorted(extras(declared, prior)),
        forall|x: Seq<char>| #[trigger]
            extras(declared, prior).contains(x) <==> (has_addr(prior, x) && !has_addr(declared, x)),
    decreases prior.len(),
{
    let all = extras(declared, prior);
    if prior.len() > 0 {
        let head = prior.drop_last();
        let addr = prior.last().addr;
        lemma_extras(declared, head);
        lemma_last_repr(declared, addr);
        lemma_listed(extras(declared, head), addr);
        assert(prior[prior.len() - 1].addr == addr);
        assert forall|x: Seq<char>| #[trigger] all.contains(x) <==> (has_addr(prior, x)
            && !has_addr(declared, x)) by {
            assert(extras(declared, head).contains(x) <==> (has_addr(head, x) && !has_addr(
                declared,
                x,
            )));
            if has_addr(head, x) {
                let k = choose|k: int| 0 <= k < head.len() && (#[trigger] head[k]).addr == x;
                assert(prior[k].addr == x);
            }
            if has_addr(prior, x) && x != addr {
                let k = choose|k: int| 0 <= k < prior.len() && (#[trigger] prior[k]).addr == x;
                assert(head[k].addr == x);
            }
            if last_repr(declared, addr) is None {
                assert(listed(extras(declared, head), addr).contains(x) <==> (extras(
                    declared,
                    head,
                ).contains(x) || x == addr));
            }
        }
    }
}

/// **Law.** A run looks at every item that is declared or recorded and at no
/// other: first the declared ones in declaration order, then the ones only
/// provenance knows, in dictionary order and each once.
pub proof fn law_every_item_is_walked(declared: Seq<ItemView>, prior: Seq<ItemView>)
    ensures
        forall|x: Seq<char>| #[trigger]
            walk_order(declared, prior).contains(x) <==> (has_addr(declared, x) || has_addr(
                prior,
                x,
            )),
        walk_order(declared, prior).len() >= declared.len(),
        forall|i: int|
            0 <= i < declared.len() ==> #[trigger] walk_order(declared, prior)[i]
                == declared[i].addr,
        forall|i: int|
            declared.len() <= i < walk_order(declared, prior).len() ==> !has_addr(
                declared,
                #[trigger] walk_order(declared, prior)[i],
            ) && has_addr(prior, walk_order(declared, prior)[i]),
        forall|i: int, j: int|
            declared.len() <= i < j < walk_order(declared, prior).len() ==> precedes(
                #[trigger] walk_order(declared, prior)[i],
                #[trigger] walk_order(declared, prior)[j],
            ),
{
    let walk = walk_order(declared, prior);
    let head = addrs(declared);
    let tail = extras(declared, prior);
    lemma_extras(declared, prior);
    assert(head.len() == declared.len());
    assert forall|x: Seq<char>| #[trigger] walk.contains(x) <==> (has_addr(declared, x)
        || has_addr(prior, x)) by {
        if walk.contains(x) {
            let k = choose|k: int| 0 <= k < walk.len() && walk[k] == x;
            if k < head.len() {
                assert(declared[k].addr == x);
            } else {
                assert(tail[k - head.len()] == x);
                assert(tail.contains(x));
            }
        }
        if has_addr(declared, x) {
            let k = choose|k: int| 0 <= k < declared.len() && (#[trigger] declared[k]).addr == x;
            assert(walk[k] == x);
        } else if has_addr(prior, x) {
            assert(tail.contains(x));
            let k = choose|k: int| 0 <= k < tail.len() && tail[k] == x;
            assert(walk[head.len() + k] == x);
        }
    }
    assert forall|i: int| declared.len() <= i < walk.len() implies !has_addr(
        declared,
        #[trigger] walk[i],
    ) && has_addr(prior, walk[i]) by {
        assert(tail[i - head.len()] == walk[i]);
        assert(tail.contains(walk[i]));
    }
    assert forall|i: int, j: int| declared.len() <= i < j < walk.len() implies precedes(
        #[trigger] walk[i],
        #[trigger] walk[j],
    ) by {
        assert(tail[i - head.len()] == walk[i]);
        assert(tail[j - head.len()] == walk[j]);
    }
}

/// The stores and states of a run whose declaration could be read.
pub proof fn lemma_ran<S: Store>(
    before: S,
    opts: Options,
    after: S,
    result: Result<(Seq<EntryView>, OutputView), Failure>,
) -> (trace: (Seq<S>, Seq<StateView>))
    requires
        ran(before, opts, after, result),
        before.declares() is Ok,
    ensures
        ({
            let task = Task { declared: before.declares()->Ok_0, prior: before.records(), opts };
            let walk = walk_order(task.declared, task.prior);
            &&& task.steps(walk, trace.0, trace.1)
            &&& trace.0[0] == before
            &&& task.ends(walk, trace.0, trace.1, after, result)
        }),
{
    let task = Task { declared: before.declares()->Ok_0, prior: before.records(), opts };
    let walk = walk_order(task.declared, task.prior);
    choose|stores: Seq<S>, states: Seq<StateView>|
        {
            &&& #[trigger] task.steps(walk, stores, states)
            &&& stores[0] == before
            &&& task.ends(walk, stores, states, after, result)
        }
}

/// **Law.** A run that fails hands on the failure of the store: of reading the declaration,
/// and then nothing was touched, or of reading, writing or withdrawing an item, or of
/// rendering the document.
pub proof fn law_a_run_hands_the_failure_on<S: Store>(
    before: S,
    opts: Options,
    after: S,
    e: Failure,
)
    requires
        ran(before, opts, after, Err(e)),
    ensures
        ({
            ||| before.declares() == Err::<Seq<ItemView>, Failure>(e) && after == before
            ||| exists|addr: Seq<char>| #[trigger]
                after.reads(addr) == Err::<StateView, Failure>(e)
            ||| exists|s: S, addr: Seq<char>| #[trigger] s.writes(addr, &after, Err(e))
            ||| exists|s: S, addr: Seq<char>| #[trigger] s.retracts(addr, &after, Err(e))
            ||| exists|s: S, owned: Seq<ItemView>| #[trigger] s.renders(owned, &after, Err(e))
        }),
        before.declares() is Err ==> before.declares()->Err_0 == e && after == before,
{
    if before.declares() is Ok {
        let (stores, states) = lemma_ran(before, opts, after, Err(e));
        let last = stores.last();
        let task = Task { declared: before.declares()->Ok_0, prior: before.records(), opts };
        let walk = walk_order(task.declared, task.prior);
        if states.len() == walk.len() {
            assert(last.renders(task.claims(walk, states), &after, Err(e)));
        } else {
            let addr = walk[states.len() as int];
            if last.reads(addr) is Err {
                assert(after.reads(addr) == Err::<StateView, Failure>(e));
            } else if task.verdict(addr, last.reads(addr)->Ok_0).0 is Retract {
                assert(last.retracts(addr, &after, Err(e)));
            } else {
                assert(last.writes(addr, &after, Err(e)));
            }
        }
    }
}

/// **Law.** A run that succeeds reports one entry per item walked, in that
/// order.
pub proof fn law_one_entry_per_item<S: Store>(
    before: S,
    opts: Options,
    after: S,
    report: Seq<EntryView>,
    output: OutputView,
)
    requires
        ran(before, opts, after, Ok((report, output))),
    ensures
        before.declares() is Ok,
        report.len() == walk_order(before.declares()->Ok_0, before.records()).len(),
        forall|i: int|
            0 <= i < report.len() ==> (#[trigger] report[i]).addr == walk_order(
                before.declares()->Ok_0,
                before.records(),
            )[i],
{
}

/// **Law.** Only a declared item is ever written, and only an item that is
/// recorded, not declared and still ours is ever withdrawn, which the caller must
/// have asked for.
pub proof fn law_what_a_run_may_change(task: Task, addr: Seq<char>, state: StateView)
    requires
        walk_order(task.declared, task.prior).contains(addr),
    ensures
        match task.verdict(addr, state).0 {
            Decision::Add => has_addr(task.declared, addr) && state.observed is None,
            Decision::Update => has_addr(task.declared, addr),
            Decision::Retract => {
                &&& !has_addr(task.declared, addr)
                &&& has_addr(task.prior, addr)
                &&& state.ownership == Ownership::Ours
                &&& state.observed is Some
                &&& task.opts.retract
            },
            _ => true,
        },
{
    lemma_last_repr(task.declared, addr);
    law_every_item_is_walked(task.declared, task.prior);
}

/// **Law.** Nothing that is there is overwritten or removed unless it is ours or
/// the caller forced it.
pub proof fn law_a_disagreement_is_never_overwritten(
    task: Task,
    addr: Seq<char>,
    state: StateView,
)
    requires
        alters(task.verdict(addr, state).0),
        state.observed is Some,
    ensures
        state.ownership == Ownership::Ours || task.opts.force,
        !task.opts.force ==> !task.verdict(addr, state).1,
{
}

/// **Law.** The overrides are the only thing between the table and what is done:
/// a forced refusal becomes a write, a retraction nobody asked for becomes a
/// skip, and every such change is marked in the report. Nothing else is.
pub proof fn law_overrides_are_reported(task: Task, addr: Seq<char>, state: StateView)
    ensures
        task.entry(addr, state).overridden == (task.entry(addr, state).decision != task.base(
            addr,
            state,
        )),
        task.entry(addr, state).overridden ==> {
            ||| task.opts.force && task.base(addr, state) is Refuse
            ||| !task.opts.retract && task.base(addr, state) is Retract && task.entry(
                addr,
                state,
            ).decision is Skip
        },
        !task.opts.force && task.opts.retract ==> !task.entry(addr, state).overridden,
{
}

/// **Law.** A forced run leaves no difference in place, so it reports no drift.
pub proof fn law_force_leaves_no_drift<S: Store>(
    before: S,
    opts: Options,
    after: S,
    report: Seq<EntryView>,
    output: OutputView,
)
    requires
        ran(before, opts, after, Ok((report, output))),
        opts.force,
    ensures
        forall|i: int| 0 <= i < report.len() ==> !((#[trigger] report[i]).decision is Refuse),
{
}

/// **Law.** Where retraction was not asked for, nothing is withdrawn.
pub proof fn law_retraction_is_off_by_default<S: Store>(
    before: S,
    opts: Options,
    after: S,
    report: Seq<EntryView>,
    output: OutputView,
)
    requires
        ran(before, opts, after, Ok((report, output))),
        !opts.retract,
    ensures
        forall|i: int| 0 <= i < report.len() ==> !((#[trigger] report[i]).decision is Retract),
{
}

/// What is claimed comes from an item that was walked, and every item with a
/// claim is claimed.
pub proof fn lemma_claims(task: Task, walk: Seq<Seq<char>>, states: Seq<StateView>)
    ensures
        forall|item: ItemView| #[trigger]
            task.claims(walk, states).contains(item) <==> exists|i: int|
                0 <= i < states.len() && task.claim(walk[i], #[trigger] states[i]) == Some(item),
    decreases states.len(),
{
    let all = task.claims(walk, states);
    if states.len() == 0 {
        assert forall|item: ItemView| #[trigger] all.contains(item) <==> exists|i: int|
            0 <= i < states.len() && task.claim(walk[i], #[trigger] states[i]) == Some(item) by {}
    } else {
        let head = states.drop_last();
        lemma_claims(task, walk, head);
        let before = task.claims(walk, head);
        let here = task.claim(walk[states.len() - 1], states.last());
        assert forall|item: ItemView| #[trigger] all.contains(item) <==> exists|i: int|
            0 <= i < states.len() && task.claim(walk[i], #[trigger] states[i]) == Some(item) by {
            if all.contains(item) {
                let k = choose|k: int| 0 <= k < all.len() && all[k] == item;
                if k < before.len() {
                    assert(before[k] == item);
                    assert(before.contains(item));
                    let i = choose|i: int|
                        0 <= i < head.len() && task.claim(walk[i], #[trigger] head[i]) == Some(item);
                    assert(states[i] == head[i]);
                } else {
                    assert(task.claim(walk[states.len() - 1], states[states.len() - 1]) == Some(
                        item,
                    ));
                }
            }
            if exists|i: int|
                0 <= i < states.len() && task.claim(walk[i], #[trigger] states[i]) == Some(item) {
                let i = choose|i: int|
                    0 <= i < states.len() && task.claim(walk[i], #[trigger] states[i]) == Some(item);
                if i < head.len() {
                    assert(head[i] == states[i]);
                    assert(before.contains(item));
                    let k = choose|k: int| 0 <= k < before.len() && before[k] == item;
                    assert(all[k] == item);
                } else {
                    assert(all[all.len() - 1] == item);
                }
            }
        }
    }
}

/// **Law.** What is claimed after an item was met: the declared value where it
/// was applied or agreed, the old record where a change was refused or a
/// retraction suppressed, and nothing where the item was withdrawn or was never
/// ours.
pub proof fn law_what_is_claimed(task: Task, addr: Seq<char>, state: StateView)
    ensures
        ({
            let declared = last_repr(task.declared, addr);
            let prior = last_repr(task.prior, addr);
            let claim = task.claim(addr, state);
            let entry = task.entry(addr, state);
            &&& claim is Some ==> claim->0.addr == addr
            &&& entry.decision is Add || entry.decision is Update || (entry.decision is Skip
                && declared is Some) ==> claim is Some && claim->0.repr == declared->0
            &&& entry.decision is Refuse ==> (claim is Some <==> prior is Some) && (claim is Some
                ==> claim->0.repr == prior->0)
            &&& entry.decision is Retract ==> claim is None
            &&& entry.decision is Skip && declared is None && !entry.overridden ==> claim is None
            &&& entry.decision is Skip && entry.overridden ==> (claim is Some <==> prior is Some)
                && (claim is Some ==> claim->0.repr == prior->0)
        }),
{
}

/// **Law.** Every entry has one outcome, so the counts of a tally add up to the
/// number of entries.
pub proof fn law_a_tally_counts_every_entry(entries: Seq<EntryView>)
    ensures
        count(entries, |d: Decision| d is Add) + count(entries, |d: Decision| d is Skip) + count(
            entries,
            |d: Decision| d is Update,
        ) + count(entries, |d: Decision| d is Retract) + count(entries, |d: Decision| d is Refuse)
            == entries.len(),
    decreases entries.len(),
{
    if entries.len() > 0 {
        law_a_tally_counts_every_entry(entries.drop_last());
    }
}

/// **Law.** A count counts one by one: over two lists it is the sum of the counts,
/// and a single entry counts once where it is of the kind.
pub proof fn law_counts_add_up(
    a: Seq<EntryView>,
    b: Seq<EntryView>,
    e: EntryView,
    kind: spec_fn(Decision) -> bool,
)
    ensures
        count(Seq::empty(), kind) == 0,
        count(seq![e], kind) == if kind(e.decision) {
            1nat
        } else {
            0nat
        },
        count(a + b, kind) == count(a, kind) + count(b, kind),
    decreases b.len(),
{
    assert(seq![e].drop_last() =~= Seq::<EntryView>::empty());
    assert(count(Seq::<EntryView>::empty(), kind) == 0);
    if b.len() == 0 {
        assert(a + b =~= a);
    } else {
        law_counts_add_up(a, b.drop_last(), e, kind);
        assert((a + b).drop_last() =~= a + b.drop_last());
    }
}

/// **Law.** The marked entries are kept one by one and in order.
pub proof fn law_marked_entries_are_kept_in_order<T>(
    a: Seq<T>,
    b: Seq<T>,
    marks_a: Seq<bool>,
    marks_b: Seq<bool>,
    e: T,
    mark: bool,
)
    requires
        a.len() == marks_a.len(),
        b.len() == marks_b.len(),
    ensures
        marked(seq![e], seq![mark]) == if mark {
            seq![e]
        } else {
            Seq::empty()
        },
        marked(a + b, marks_a + marks_b) == marked(a, marks_a) + marked(b, marks_b),
    decreases b.len(),
{
    assert(seq![e].drop_last() =~= Seq::<T>::empty());
    assert(marked(Seq::<T>::empty(), seq![mark].drop_last()) =~= Seq::<T>::empty());
    assert(marked(seq![e], seq![mark]) =~= if mark {
        seq![e]
    } else {
        Seq::empty()
    });
    if b.len() == 0 {
        assert(a + b =~= a);
        assert(marks_a + marks_b =~= marks_a);
        assert(marked(a, marks_a) + marked(b, marks_b) =~= marked(a, marks_a));
    } else {
        law_marked_entries_are_kept_in_order(
            a,
            b.drop_last(),
            marks_a,
            marks_b.drop_last(),
            e,
            mark,
        );
        assert((a + b).drop_last() =~= a + b.drop_last());
        assert((marks_a + marks_b).drop_last() =~= marks_a + marks_b.drop_last());
        assert(marked(a + b, marks_a + marks_b) =~= marked(a, marks_a) + marked(b, marks_b));
    }
}

/// **Law.** Where items repeat an address, the last one counts.
pub proof fn law_the_last_item_counts(items: Seq<ItemView>, item: ItemView, addr: Seq<char>)
    ensures
        last_repr(Seq::empty(), addr) is None,
        last_repr(items.push(item), addr) == if item.addr == addr {
            Some(item.repr)
        } else {
            last_repr(items, addr)
        },
{
    assert(items.push(item).drop_last() =~= items);
}

/// **Law.** The overrides do what was asked and no more. A forced refusal of a
/// declared item is written: added where there is nothing, and put in place of what
/// is there. A withdrawal takes place where it was asked for and is skipped where it
/// was not. Everything else is done as the table says.
pub proof fn law_overrides_do_what_was_asked(task: Task, addr: Seq<char>, state: StateView)
    ensures
        ({
            let base = table(last_repr(task.declared, addr), state.ownership, state.observed);
            let entry = task.entry(addr, state);
            &&& entry.addr == addr
            &&& entry.observed == state.observed
            &&& entry.note == state.note
            &&& entry.declared == last_repr(task.declared, addr)
            &&& base is Refuse && task.opts.force ==> entry.overridden && entry.decision == (
            if state.observed is None {
                Decision::Add
            } else {
                Decision::Update
            })
            &&& base is Retract && !task.opts.retract ==> entry.overridden && entry.decision is Skip
            &&& !(base is Refuse && task.opts.force) && !(base is Retract && !task.opts.retract)
                ==> !entry.overridden && entry.decision == base
        }),
{
}

proof fn lemma_count_positive(entries: Seq<EntryView>, kind: spec_fn(Decision) -> bool)
    ensures
        count(entries, kind) > 0 <==> exists|i: int|
            0 <= i < entries.len() && kind((#[trigger] entries[i]).decision),
    decreases entries.len(),
{
    if entries.len() > 0 {
        let head = entries.drop_last();
        lemma_count_positive(head, kind);
        if count(head, kind) > 0 {
            let i = choose|i: int| 0 <= i < head.len() && kind((#[trigger] head[i]).decision);
            assert(entries[i] == head[i]);
        }
        if kind(entries.last().decision) {
            assert(kind(entries[entries.len() - 1].decision));
        }
        if exists|i: int| 0 <= i < entries.len() && kind((#[trigger] entries[i]).decision) {
            let i = choose|i: int| 0 <= i < entries.len() && kind((#[trigger] entries[i]).decision);
            if i < head.len() {
                assert(kind(head[i].decision));
            }
        }
    }
}

/// **Law.** A tally shows whether the target changed and whether there is drift.
pub proof fn law_a_tally_shows_change_and_drift(entries: Seq<EntryView>)
    ensures
        (exists|i: int| 0 <= i < entries.len() && alters((#[trigger] entries[i]).decision))
            <==> count(entries, |d: Decision| d is Add) + count(
            entries,
            |d: Decision| d is Update,
        ) + count(entries, |d: Decision| d is Retract) > 0,
        (exists|i: int| 0 <= i < entries.len() && (#[trigger] entries[i]).decision is Refuse)
            <==> count(entries, |d: Decision| d is Refuse) > 0,
{
    let added = |d: Decision| d is Add;
    let update = |d: Decision| d is Update;
    let retract = |d: Decision| d is Retract;
    let refuse = |d: Decision| d is Refuse;
    lemma_count_positive(entries, added);
    lemma_count_positive(entries, update);
    lemma_count_positive(entries, retract);
    lemma_count_positive(entries, refuse);
    if exists|i: int| 0 <= i < entries.len() && alters((#[trigger] entries[i]).decision) {
        let i = choose|i: int| 0 <= i < entries.len() && alters((#[trigger] entries[i]).decision);
        assert(added(entries[i].decision) || update(entries[i].decision) || retract(
            entries[i].decision,
        ));
    }
    if count(entries, added) > 0 {
        let i = choose|i: int| 0 <= i < entries.len() && added((#[trigger] entries[i]).decision);
        assert(alters(entries[i].decision));
    }
    if count(entries, update) > 0 {
        let i = choose|i: int| 0 <= i < entries.len() && update((#[trigger] entries[i]).decision);
        assert(alters(entries[i].decision));
    }
    if count(entries, retract) > 0 {
        let i = choose|i: int| 0 <= i < entries.len() && retract((#[trigger] entries[i]).decision);
        assert(alters(entries[i].decision));
    }
    if exists|i: int| 0 <= i < entries.len() && (#[trigger] entries[i]).decision is Refuse {
        let i = choose|i: int| 0 <= i < entries.len() && (#[trigger] entries[i]).decision is Refuse;
        assert(refuse(entries[i].decision));
    }
    if count(entries, refuse) > 0 {
        let i = choose|i: int| 0 <= i < entries.len() && refuse((#[trigger] entries[i]).decision);
        assert(entries[i].decision is Refuse);
    }
}

/// Items in dictionary order of their addresses, none twice.
pub open spec fn sorted_items(items: Seq<ItemView>) -> bool {
    forall|i: int, j: int|
        0 <= i < j < items.len() ==> precedes(
            (#[trigger] items[i]).addr,
            (#[trigger] items[j]).addr,
        )
}

/// There is only one way to list the same items in order.
proof fn lemma_sorted_items_unique(a: Seq<ItemView>, b: Seq<ItemView>)
    requires
        sorted_items(a),
        sorted_items(b),
        forall|item: ItemView| #[trigger] a.contains(item) <==> b.contains(item),
    ensures
        a == b,
    decreases a.len(),
{
    if a.len() == 0 {
        if b.len() > 0 {
            assert(b.contains(b[0]));
            assert(a.contains(b[0]));
        }
        assert(a =~= b);
    } else {
        assert(a.contains(a[a.len() - 1]));
        let m = choose|m: int| 0 <= m < b.len() && b[m] == a[a.len() - 1];
        assert(b.contains(b[b.len() - 1]));
        assert(a.contains(b[b.len() - 1]));
        let n = choose|n: int| 0 <= n < a.len() && a[n] == b[b.len() - 1];
        if m < b.len() - 1 {
            assert(precedes(b[m].addr, b[b.len() - 1].addr));
            lemma_precedes_irreflexive(a[a.len() - 1].addr);
            assert(n < a.len() - 1);
            assert(precedes(a[n].addr, a[a.len() - 1].addr));
            lemma_precedes_transitive(b[m].addr, a[n].addr, b[m].addr);
        }
        let x = a.drop_last();
        let y = b.drop_last();
        let last = a.last();
        assert forall|item: ItemView| #[trigger] x.contains(item) <==> y.contains(item) by {
            if x.contains(item) {
                let k = choose|k: int| 0 <= k < x.len() && x[k] == item;
                assert(a[k] == item);
                assert(precedes(a[k].addr, a[a.len() - 1].addr));
                lemma_precedes_irreflexive(item.addr);
                assert(a.contains(item));
                let j = choose|j: int| 0 <= j < b.len() && b[j] == item;
                assert(y[j] == item);
            }
            if y.contains(item) {
                let k = choose|k: int| 0 <= k < y.len() && y[k] == item;
                assert(b[k] == item);
                assert(precedes(b[k].addr, b[b.len() - 1].addr));
                lemma_precedes_irreflexive(item.addr);
                assert(b.contains(item));
                assert(a.contains(item));
                let j = choose|j: int| 0 <= j < a.len() && a[j] == item;
                assert(x[j] == item);
            }
        }
        lemma_sorted_items_unique(x, y);
        assert(a =~= x.push(last));
        assert(b =~= y.push(last));
    }
}

/// What is claimed of the items of a walk from the `n`th on.
spec fn later_claims(
    task: Task,
    walk: Seq<Seq<char>>,
    states: Seq<StateView>,
    n: int,
) -> Seq<ItemView>
    decreases states.len(),
{
    if states.len() <= n || states.len() == 0 {
        Seq::empty()
    } else {
        let before = later_claims(task, walk, states.drop_last(), n);
        match task.claim(walk[states.len() - 1], states.last()) {
            Some(item) => before.push(item),
            None => before,
        }
    }
}

proof fn lemma_later_claims(task: Task, walk: Seq<Seq<char>>, states: Seq<StateView>, n: int)
    requires
        0 <= n <= states.len() <= walk.len(),
        forall|i: int, j: int|
            n <= i < j < walk.len() ==> precedes(#[trigger] walk[i], #[trigger] walk[j]),
    ensures
        task.claims(walk, states) == task.claims(walk, states.take(n)) + later_claims(
            task,
            walk,
            states,
            n,
        ),
        sorted_items(later_claims(task, walk, states, n)),
        forall|item: ItemView| #[trigger]
            later_claims(task, walk, states, n).contains(item) <==> exists|i: int|
                n <= i < states.len() && task.claim(walk[i], #[trigger] states[i]) == Some(item),
    decreases states.len(),
{
    let all = later_claims(task, walk, states, n);
    if states.len() == n {
        assert(states.take(n) =~= states);
        assert(task.claims(walk, states) + all =~= task.claims(walk, states));
    } else {
        let head = states.drop_last();
        lemma_later_claims(task, walk, head, n);
        let before = later_claims(task, walk, head, n);
        let at = states.len() - 1;
        let here = task.claim(walk[at], states[at]);
        assert(head.take(n) =~= states.take(n));
        if here is Some {
            assert(task.claims(walk, head.take(n)) + before.push(here->0) =~= (task.claims(
                walk,
                head.take(n),
            ) + before).push(here->0));
            assert forall|i: int, j: int| 0 <= i < j < all.len() implies precedes(
                (#[trigger] all[i]).addr,
                (#[trigger] all[j]).addr,
            ) by {
                assert(all[i] == before[i]);
                if j < before.len() {
                    assert(all[j] == before[j]);
                } else {
                    assert(before.contains(before[i]));
                    let k = choose|k: int|
                        n <= k < head.len() && task.claim(walk[k], #[trigger] head[k]) == Some(
                            before[i],
                        );
                    assert(precedes(walk[k], walk[at]));
                }
            }
        }
        assert forall|item: ItemView| #[trigger] all.contains(item) <==> exists|i: int|
            n <= i < states.len() && task.claim(walk[i], #[trigger] states[i]) == Some(item) by {
            if all.contains(item) {
                let k = choose|k: int| 0 <= k < all.len() && all[k] == item;
                if k < before.len() {
                    assert(before[k] == item);
                    assert(before.contains(item));
                    let i = choose|i: int|
                        n <= i < head.len() && task.claim(walk[i], #[trigger] head[i]) == Some(
                            item,
                        );
                    assert(states[i] == head[i]);
                } else {
                    assert(task.claim(walk[at], states[at]) == Some(item));
                }
            }
            if exists|i: int|
                n <= i < states.len() && task.claim(walk[i], #[trigger] states[i]) == Some(item) {
                let i = choose|i: int|
                    n <= i < states.len() && task.claim(walk[i], #[trigger] states[i]) == Some(
                        item,
                    );
                if i < head.len() {
                    assert(head[i] == states[i]);
                    assert(before.contains(item));
                    let k = choose|k: int| 0 <= k < before.len() && before[k] == item;
                    assert(all[k] == item);
                } else {
                    assert(all[all.len() - 1] == item);
                }
            }
        }
    }
}

proof fn lemma_first_claims(
    a: Task,
    b: Task,
    walk_a: Seq<Seq<char>>,
    walk_b: Seq<Seq<char>>,
    states_a: Seq<StateView>,
    states_b: Seq<StateView>,
)
    requires
        states_a.len() == states_b.len(),
        forall|i: int|
            0 <= i < states_a.len() ==> a.claim(walk_a[i], #[trigger] states_a[i]) == b.claim(
                walk_b[i],
                states_b[i],
            ),
    ensures
        a.claims(walk_a, states_a) == b.claims(walk_b, states_b),
    decreases states_a.len(),
{
    if states_a.len() > 0 {
        let n = states_a.len() - 1;
        assert forall|i: int| 0 <= i < n implies a.claim(
            walk_a[i],
            #[trigger] states_a.drop_last()[i],
        ) == b.claim(walk_b[i], states_b.drop_last()[i]) by {
            assert(states_a.drop_last()[i] == states_a[i]);
        }
        lemma_first_claims(
            a,
            b,
            walk_a,
            walk_b,
            states_a.drop_last(),
            states_b.drop_last(),
        );
        assert(a.claim(walk_a[n], states_a[n]) == b.claim(walk_b[n], states_b[n]));
    }
}

/// Two runs over the same declaration claim the same, where the second takes its
/// record from what the first claimed and claims the same for every item that
/// both meet.
pub proof fn lemma_same_claims(
    a: Task,
    b: Task,
    states_a: Seq<StateView>,
    states_b: Seq<StateView>,
)
    requires
        a.declared == b.declared,
        states_a.len() == walk_order(a.declared, a.prior).len(),
        states_b.len() == walk_order(b.declared, b.prior).len(),
        drawn_from(b.prior, a.claims(walk_order(a.declared, a.prior), states_a)),
        forall|i: int|
            0 <= i < a.declared.len() ==> a.claim(
                a.declared[i].addr,
                #[trigger] states_a[i],
            ) == b.claim(a.declared[i].addr, states_b[i]),
        forall|i: int, j: int|
            a.declared.len() <= i < states_a.len() && a.declared.len() <= j < states_b.len()
                && walk_order(a.declared, a.prior)[i] == walk_order(b.declared, b.prior)[j]
                && a.claim(walk_order(a.declared, a.prior)[i], #[trigger] states_a[i]) is Some
                ==> b.claim(walk_order(b.declared, b.prior)[j], #[trigger] states_b[j]) == a.claim(
                walk_order(a.declared, a.prior)[i],
                states_a[i],
            ),
    ensures
        b.claims(walk_order(b.declared, b.prior), states_b) == a.claims(
            walk_order(a.declared, a.prior),
            states_a,
        ),
{
    let x = walk_order(a.declared, a.prior);
    let y = walk_order(b.declared, b.prior);
    let n = a.declared.len() as int;
    let claims = a.claims(x, states_a);
    law_every_item_is_walked(a.declared, a.prior);
    law_every_item_is_walked(b.declared, b.prior);
    lemma_claims(a, x, states_a);
    lemma_later_claims(a, x, states_a, n);
    lemma_later_claims(b, y, states_b, n);
    assert forall|i: int| 0 <= i < n implies a.claim(x[i], #[trigger] states_a.take(n)[i])
        == b.claim(y[i], states_b.take(n)[i]) by {
        assert(states_a.take(n)[i] == states_a[i]);
    }
    lemma_first_claims(a, b, x, y, states_a.take(n), states_b.take(n));
    let p = later_claims(a, x, states_a, n);
    let q = later_claims(b, y, states_b, n);
    assert forall|item: ItemView| #[trigger] p.contains(item) <==> q.contains(item) by {
        if p.contains(item) {
            let i = choose|i: int|
                n <= i < states_a.len() && a.claim(x[i], #[trigger] states_a[i]) == Some(item);
            assert(x[i] == item.addr);
            assert(claims.contains(item));
            let c = choose|c: int| 0 <= c < claims.len() && claims[c] == item;
            assert(claims[c].addr == item.addr);
            assert(has_addr(claims, item.addr));
            assert(has_addr(b.prior, item.addr));
            assert(y.contains(item.addr));
            let j = choose|j: int| 0 <= j < y.len() && y[j] == item.addr;
            if j < n {
                assert(b.declared[j].addr == item.addr);
                assert(has_addr(a.declared, x[i]));
            }
            assert(b.claim(y[j], states_b[j]) == Some(item));
        }
        if q.contains(item) {
            let j = choose|j: int|
                n <= j < states_b.len() && b.claim(y[j], #[trigger] states_b[j]) == Some(item);
            assert(has_addr(b.prior, y[j]));
            let k = choose|k: int| 0 <= k < b.prior.len() && (#[trigger] b.prior[k]).addr == y[j];
            assert(b.prior.contains(b.prior[k]));
            assert(claims.contains(b.prior[k]));
            let i = choose|i: int|
                0 <= i < states_a.len() && a.claim(x[i], #[trigger] states_a[i]) == Some(
                    b.prior[k],
                );
            assert(x[i] == y[j]);
            if i < n {
                assert(a.declared[i].addr == y[j]);
                assert(has_addr(b.declared, y[j]));
            }
            assert(b.claim(y[j], states_b[j]) == a.claim(x[i], states_a[i]));
        }
    }
    lemma_sorted_items_unique(p, q);
}

/// Where withdrawals are asked for, nothing is claimed that is not declared.
pub proof fn lemma_no_withdrawal_left(
    task: Task,
    states: Seq<StateView>,
    prior: Seq<ItemView>,
    addr: Seq<char>,
)
    requires
        task.opts.retract,
        states.len() == walk_order(task.declared, task.prior).len(),
        drawn_from(prior, task.claims(walk_order(task.declared, task.prior), states)),
        walk_order(task.declared, prior).contains(addr),
    ensures
        has_addr(task.declared, addr),
{
    let order = walk_order(task.declared, task.prior);
    let claims = task.claims(order, states);
    law_every_item_is_walked(task.declared, prior);
    lemma_last_repr(task.declared, addr);
    if !has_addr(task.declared, addr) {
        lemma_claims(task, order, states);
        let k = choose|k: int| 0 <= k < prior.len() && (#[trigger] prior[k]).addr == addr;
        assert(prior.contains(prior[k]));
        assert(claims.contains(prior[k]));
        let i = choose|i: int|
            0 <= i < states.len() && task.claim(order[i], #[trigger] states[i]) == Some(prior[k]);
        assert(order[i] == addr);
    }
}

} // verus!
