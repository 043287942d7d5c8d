//! Walks the items and applies the decisions.
//!
//! [`run`] is the whole execution path: gather the declared items and the ones
//! provenance says were written last time, ask [`crate::policy::decide`] about
//! each, apply the result through the [`Store`], and hand back a [`Report`] and
//! the rendered document.
//!
//! Two caller-facing overrides live here rather than in the policy, so that the
//! decision table stays a statement of what is safe rather than a mixture of
//! that and what the invoker asked for. [`run`] applies them *after* a decision
//! is made, which also means a report can say plainly that a refusal was
//! overridden.

use crate::error::{Error, Failure};
use crate::policy::{alters, decide, optional_repr, table, Decision};
use crate::port::{
    item_views, optional_text, Addr, Item, ItemView, Observed, Output, OutputView, Repr, State,
    StateView, Store,
};
use crate::text::{precedes, text_precedes};
use vstd::prelude::*;

verus! {

/// Caller overrides applied on top of the decision table.
#[derive(Debug, Clone, Copy)]
pub struct Options {
    /// Overwrite values this tool cannot claim, turning every refusal into a
    /// write. This discards whatever the other writer put there, which is why it
    /// is never the default.
    pub force: bool,
    /// Remove items this tool wrote that the declaration no longer mentions.
    ///
    /// Off by default. Retraction only ever touches values whose ownership is
    /// [`Ours`](crate::port::Ownership::Ours), so it cannot reach another
    /// program's data, but it does mean deleting a line from the declaration
    /// deletes a value from the target, and that is a different promise from the
    /// add-only one made when it is off.
    pub retract: bool,
}

impl Default for Options {
    fn default() -> (o: Self)
        ensures
            o == (Options { force: false, retract: false }),
    {
        Options { force: false, retract: false }
    }
}

/// What happened to one item.
#[derive(Debug, Clone, PartialEq, Eq)]
pub struct Entry {
    /// The item's address.
    pub addr: Addr,
    /// What was decided, after any [`Options`] override.
    pub decision: Decision,
    /// The declared value, absent for an item that only provenance knows about.
    pub declared: Option<Repr>,
    /// What was in the target.
    pub observed: Observed,
    /// Adapter detail for reporting, such as what was recorded behind a
    /// hand-edit verdict.
    pub note: Option<String>,
    /// Whether an override changed this outcome from what the table gave.
    pub overridden: bool,
}

/// What an [`Entry`] says.
pub struct EntryView {
    /// The item's address.
    pub addr: Seq<char>,
    /// What was decided, after any override.
    pub decision: Decision,
    /// The declared value.
    pub declared: Option<Seq<char>>,
    /// What was in the target.
    pub observed: Option<Seq<char>>,
    /// Adapter detail for reporting.
    pub note: Option<Seq<char>>,
    /// Whether an override changed this outcome.
    pub overridden: bool,
}

impl View for Entry {
    type V = EntryView;

    open spec fn view(&self) -> EntryView {
        EntryView {
            addr: self.addr@,
            decision: self.decision,
            declared: match self.declared {
                Some(r) => Some(r@),
                None => None,
            },
            observed: self.observed@,
            note: optional_text(self.note),
            overridden: self.overridden,
        }
    }
}

/// What a sequence of entries says.
pub open spec fn entry_views(entries: Seq<Entry>) -> Seq<EntryView> {
    entries.map_values(|e: Entry| e@)
}

/// What a whole run did.
#[derive(Debug, Clone, PartialEq, Eq)]
pub struct Report {
    /// One entry per item considered, in the order they were walked.
    pub entries: Vec<Entry>,
}

impl View for Report {
    type V = Seq<EntryView>;

    open spec fn view(&self) -> Seq<EntryView> {
        entry_views(self.entries@)
    }
}

impl Default for Report {
    fn default() -> (r: Self)
        ensures
            r@ == Seq::<EntryView>::empty(),
    {
        let r = Report { entries: Vec::new() };
        assert(r@ =~= Seq::<EntryView>::empty());
        r
    }
}

/// Counts per outcome.
#[derive(Debug, Clone, Copy, PartialEq, Eq, Structural)]
pub struct Tally {
    /// Items written where nothing was.
    pub added: usize,
    /// Items already in the declared state.
    pub skipped: usize,
    /// Items whose previous value was ours and was replaced.
    pub updated: usize,
    /// Items withdrawn.
    pub retracted: usize,
    /// Differences left in place.
    pub refused: usize,
}

impl Default for Tally {
    fn default() -> (t: Self)
        ensures
            t == (Tally { added: 0, skipped: 0, updated: 0, retracted: 0, refused: 0 }),
    {
        Tally { added: 0, skipped: 0, updated: 0, retracted: 0, refused: 0 }
    }
}

/// How many entries have a decision of a kind.
pub open spec fn count(entries: Seq<EntryView>, kind: spec_fn(Decision) -> bool) -> nat
    decreases entries.len(),
{
    if entries.len() == 0 {
        0
    } else {
        count(entries.drop_last(), kind) + if kind(entries.last().decision) {
            1nat
        } else {
            0nat
        }
    }
}

/// The entries whose mark is set.
pub open spec fn marked<T>(entries: Seq<T>, marks: Seq<bool>) -> Seq<T>
    decreases entries.len(),
{
    if entries.len() == 0 {
        Seq::empty()
    } else {
        let before = marked(entries.drop_last(), marks.drop_last());
        if marks.last() {
            before.push(entries.last())
        } else {
            before
        }
    }
}

impl Report {
    /// Whether anything about the target changed.
    pub fn changed(&self) -> (r: bool)
        ensures
            r == exists|i: int| 0 <= i < self@.len() && alters((#[trigger] self@[i]).decision),
    {
        let mut i: usize = 0;
        while i < self.entries.len()
            invariant
                i <= self.entries@.len(),
                forall|k: int| 0 <= k < i ==> !alters((#[trigger] self@[k]).decision),
            decreases self.entries@.len() - i,
        {
            assert(self@[i as int] == self.entries@[i as int]@);
            if self.entries[i].decision.changes_target() {
                return true;
            }
            i += 1;
        }
        false
    }

    /// Whether any difference was left in place rather than overwritten.
    ///
    /// This is what an exit code of 2 reports, and it is deliberately narrower
    /// than "something went wrong": a failure to parse or read is an
    /// [`Error`](crate::error::Error), never drift. A check that cannot tell a
    /// difference from a crash reports nothing useful.
    pub fn has_drift(&self) -> (r: bool)
        ensures
            r == exists|i: int| 0 <= i < self@.len() && (#[trigger] self@[i]).decision is Refuse,
    {
        let mut i: usize = 0;
        while i < self.entries.len()
            invariant
                i <= self.entries@.len(),
                forall|k: int| 0 <= k < i ==> !((#[trigger] self@[k]).decision is Refuse),
            decreases self.entries@.len() - i,
        {
            assert(self@[i as int] == self.entries@[i as int]@);
            if self.entries[i].decision.is_drift() {
                return true;
            }
            i += 1;
        }
        false
    }

    /// Entries whose decision matches a predicate, in the order they were
    /// walked.
    pub fn matching<'a>(&'a self, f: impl Fn(Decision) -> bool) -> (r: Vec<&'a Entry>)
        requires
            forall|d: Decision| call_requires(f, (d,)),
        ensures
            exists|marks: Seq<bool>| #![trigger marks.len()]
                {
                    &&& marks.len() == self.entries@.len()
                    &&& forall|i: int|
                        0 <= i < marks.len() ==> call_ensures(
                            f,
                            (self.entries@[i].decision,),
                            #[trigger] marks[i],
                        )
                    &&& r@ == marked(self.entries@.map_values(|e: Entry| &e), marks)
                },
    {
        let mut r: Vec<&'a Entry> = Vec::new();
        let ghost all = self.entries@.map_values(|e: Entry| &e);
        let ghost mut marks: Seq<bool> = Seq::empty();
        let mut i: usize = 0;
        while i < self.entries.len()
            invariant
                i <= self.entries@.len(),
                all == self.entries@.map_values(|e: Entry| &e),
                forall|d: Decision| call_requires(f, (d,)),
                marks.len() == i,
                forall|k: int|
                    0 <= k < marks.len() ==> call_ensures(
                        f,
                        (self.entries@[k].decision,),
                        #[trigger] marks[k],
                    ),
                r@ == marked(all.take(i as int), marks),
            decreases self.entries@.len() - i,
        {
            let keep: bool = f(self.entries[i].decision);
            proof {
                assert(all.take(i + 1).drop_last() =~= all.take(i as int));
                assert(marks.push(keep).drop_last() =~= marks);
                marks = marks.push(keep);
            }
            if keep {
                r.push(&self.entries[i]);
            }
            i += 1;
        }
        assert(all.take(i as int) =~= all);
        r
    }

    /// How many items got each outcome, for a summary line.
    pub fn tally(&self) -> (t: Tally)
        ensures
            t.added == count(self@, |d: Decision| d is Add),
            t.skipped == count(self@, |d: Decision| d is Skip),
            t.updated == count(self@, |d: Decision| d is Update),
            t.retracted == count(self@, |d: Decision| d is Retract),
            t.refused == count(self@, |d: Decision| d is Refuse),
    {
        let mut t = Tally { added: 0, skipped: 0, updated: 0, retracted: 0, refused: 0 };
        let mut i: usize = 0;
        assert(self@.take(0).len() == 0);
        while i < self.entries.len()
            invariant
                i <= self.entries@.len(),
                t.added <= i,
                t.skipped <= i,
                t.updated <= i,
                t.retracted <= i,
                t.refused <= i,
                t.added == count(self@.take(i as int), |d: Decision| d is Add),
                t.skipped == count(self@.take(i as int), |d: Decision| d is Skip),
                t.updated == count(self@.take(i as int), |d: Decision| d is Update),
                t.retracted == count(self@.take(i as int), |d: Decision| d is Retract),
                t.refused == count(self@.take(i as int), |d: Decision| d is Refuse),
            decreases self.entries@.len() - i,
        {
            assert(self@.take(i + 1).drop_last() =~= self@.take(i as int));
            assert(self@.take(i + 1).last() == self.entries@[i as int]@);
            match self.entries[i].decision {
                Decision::Add => t.added += 1,
                Decision::Skip => t.skipped += 1,
                Decision::Update => t.updated += 1,
                Decision::Retract => t.retracted += 1,
                Decision::Refuse(_) => t.refused += 1,
            }
            i += 1;
        }
        assert(self@.take(i as int) =~= self@);
        t
    }
}

/// The repr of the last item at an address.
pub open spec fn last_repr(items: Seq<ItemView>, addr: Seq<char>) -> Option<Seq<char>>
    decreases items.len(),
{
    if items.len() == 0 {
        None
    } else if items.last().addr == addr {
        Some(items.last().repr)
    } else {
        last_repr(items.drop_last(), addr)
    }
}

/// The addresses of a sequence of items.
pub open spec fn addrs(items: Seq<ItemView>) -> Seq<Seq<char>> {
    items.map_values(|i: ItemView| i.addr)
}

/// An ordered list of addresses with one more in its place, unless it is there
/// already.
pub open spec fn listed(list: Seq<Seq<char>>, addr: Seq<char>) -> Seq<Seq<char>>
    decreases list.len(),
{
    if list.len() == 0 {
        list.push(addr)
    } else if list.last() == addr {
        list
    } else if precedes(addr, list.last()) {
        listed(list.drop_last(), addr).push(list.last())
    } else {
        list.push(addr)
    }
}

/// The addresses that only provenance knows, in dictionary order.
pub open spec fn extras(declared: Seq<ItemView>, prior: Seq<ItemView>) -> Seq<Seq<char>>
    decreases prior.len(),
{
    if prior.len() == 0 {
        Seq::empty()
    } else {
        let before = extras(declared, prior.drop_last());
        let addr = prior.last().addr;
        if last_repr(declared, addr) is Some {
            before
        } else {
            listed(before, addr)
        }
    }
}

/// The order items are walked in: the declared ones in declaration order, then
/// the ones only provenance knows, sorted.
pub open spec fn walk_order(declared: Seq<ItemView>, prior: Seq<ItemView>) -> Seq<Seq<char>> {
    addrs(declared) + extras(declared, prior)
}

/// A decision after the caller's overrides, and whether they moved it.
pub open spec fn after_overrides(
    base: Decision,
    observed: Option<Seq<char>>,
    is_declared: bool,
    opts: Options,
) -> (Decision, bool) {
    if base is Refuse && opts.force && is_declared {
        (
            if observed is None {
                Decision::Add
            } else {
                Decision::Update
            },
            true,
        )
    } else if base is Retract && !opts.retract {
        (Decision::Skip, true)
    } else {
        (base, false)
    }
}

/// What this tool claims for an item after a decision: the declared value where
/// it was applied or agreed, the old record where a change was refused or a
/// retraction was suppressed, and nothing otherwise.
pub open spec fn claimed(
    addr: Seq<char>,
    decision: Decision,
    base: Decision,
    declared: Option<Seq<char>>,
    prior: Option<Seq<char>>,
) -> Option<ItemView> {
    let kept = match prior {
        Some(r) => Some(ItemView { addr, repr: r }),
        None => None,
    };
    match (declared, decision) {
        (Some(d), Decision::Add) => Some(ItemView { addr, repr: d }),
        (Some(d), Decision::Update) => Some(ItemView { addr, repr: d }),
        (Some(d), Decision::Skip) => Some(ItemView { addr, repr: d }),
        (Some(_), Decision::Refuse(_)) => kept,
        (None, Decision::Skip) => if base is Retract {
            kept
        } else {
            None
        },
        _ => None,
    }
}

/// What a run has to do: the items declared, the ones recorded, and the
/// caller's overrides.
pub struct Task {
    /// The items the declaration asks for.
    pub declared: Seq<ItemView>,
    /// The items provenance records.
    pub prior: Seq<ItemView>,
    /// The caller's overrides.
    pub opts: Options,
}

impl Task {
    /// What the table says about an item in a state.
    pub open spec fn base(self, addr: Seq<char>, state: StateView) -> Decision {
        table(last_repr(self.declared, addr), state.ownership, state.observed)
    }

    /// What is done about an item in a state, and whether an override moved it.
    pub open spec fn verdict(self, addr: Seq<char>, state: StateView) -> (Decision, bool) {
        after_overrides(
            self.base(addr, state),
            state.observed,
            last_repr(self.declared, addr) is Some,
            self.opts,
        )
    }

    /// What is reported of an item in a state.
    pub open spec fn entry(self, addr: Seq<char>, state: StateView) -> EntryView {
        EntryView {
            addr,
            decision: self.verdict(addr, state).0,
            declared: last_repr(self.declared, addr),
            observed: state.observed,
            note: state.note,
            overridden: self.verdict(addr, state).1,
        }
    }

    /// What is claimed of an item in a state.
    pub open spec fn claim(self, addr: Seq<char>, state: StateView) -> Option<ItemView> {
        claimed(
            addr,
            self.verdict(addr, state).0,
            self.base(addr, state),
            last_repr(self.declared, addr),
            last_repr(self.prior, addr),
        )
    }

    /// What is reported of the items of a walk, met in these states.
    pub open spec fn entries(self, walk: Seq<Seq<char>>, states: Seq<StateView>) -> Seq<EntryView> {
        Seq::new(states.len(), |i: int| self.entry(walk[i], states[i]))
    }

    /// What is claimed of the items of a walk, met in these states.
    pub open spec fn claims(self, walk: Seq<Seq<char>>, states: Seq<StateView>) -> Seq<ItemView>
        decreases states.len(),
    {
        if states.len() == 0 {
            Seq::empty()
        } else {
            let before = self.claims(walk, states.drop_last());
            match self.claim(walk[states.len() - 1], states.last()) {
                Some(item) => before.push(item),
                None => before,
            }
        }
    }

    /// One step of a walk: the store is read, and written or not as decided.
    pub open spec fn step<S: Store>(
        self,
        before: S,
        after: S,
        addr: Seq<char>,
        state: StateView,
    ) -> bool {
        &&& before.reads(addr) == Ok::<StateView, Failure>(state)
        &&& match self.verdict(addr, state).0 {
            Decision::Add => before.writes(addr, &after, Ok(())),
            Decision::Update => before.writes(addr, &after, Ok(())),
            Decision::Retract => before.retracts(addr, &after, Ok(())),
            Decision::Skip => after == before,
            Decision::Refuse(_) => after == before,
        }
    }

    /// The first steps of a walk, by the stores between them and the states
    /// that were read.
    pub open spec fn steps<S: Store>(
        self,
        walk: Seq<Seq<char>>,
        stores: Seq<S>,
        states: Seq<StateView>,
    ) -> bool {
        &&& states.len() <= walk.len()
        &&& stores.len() == states.len() + 1
        &&& forall|i: int|
            0 <= i < states.len() ==> self.step(
                #[trigger] stores[i],
                stores[i + 1],
                walk[i],
                states[i],
            )
    }

    /// How a walk ends: every item met and the document rendered, or a store
    /// operation failed.
    pub open spec fn ends<S: Store>(
        self,
        walk: Seq<Seq<char>>,
        stores: Seq<S>,
        states: Seq<StateView>,
        after: S,
        result: Result<(Seq<EntryView>, OutputView), Failure>,
    ) -> bool {
        let last = stores.last();
        if states.len() == walk.len() {
            match result {
                Ok(done) => {
                    &&& done.0 == self.entries(walk, states)
                    &&& last.renders(self.claims(walk, states), &after, Ok(done.1))
                },
                Err(e) => last.renders(self.claims(walk, states), &after, Err(e)),
            }
        } else {
            let addr = walk[states.len() as int];
            match (result, last.reads(addr)) {
                (Err(e), Err(f)) => e == f && after == last,
                (Err(e), Ok(state)) => match self.verdict(addr, state).0 {
                    Decision::Add => last.writes(addr, &after, Err(e)),
                    Decision::Update => last.writes(addr, &after, Err(e)),
                    Decision::Retract => last.retracts(addr, &after, Err(e)),
                    _ => false,
                },
                _ => false,
            }
        }
    }
}

/// What a run does: walks the items from the store as it was, one step after
/// another, until every item is met or an operation of the store fails.
pub open spec fn ran<S: Store>(
    before: S,
    opts: Options,
    after: S,
    result: Result<(Seq<EntryView>, OutputView), Failure>,
) -> bool {
    match before.declares() {
        Err(e) => after == before && result == Err::<(Seq<EntryView>, OutputView), Failure>(e),
        Ok(declared) => {
            let task = Task { declared, prior: before.records(), opts };
            let walk = walk_order(declared, before.records());
            exists|stores: Seq<S>, states: Seq<StateView>|
                {
                    &&& #[trigger] task.steps(walk, stores, states)
                    &&& stores[0] == before
                    &&& task.ends(walk, stores, states, after, result)
                }
        },
    }
}

/// What the result of a run says.
pub open spec fn run_result(r: Result<(Report, Output), Error>) -> Result<
    (Seq<EntryView>, OutputView),
    Failure,
> {
    match r {
        Ok(done) => Ok((done.0@, done.1@)),
        Err(e) => Err(e@),
    }
}

/// The last item at `addr`, by its repr.
fn find_last<'a>(items: &'a Vec<Item>, addr: &Addr) -> (r: Option<&'a Repr>)
    ensures
        optional_repr(r) == last_repr(item_views(items@), addr@),
{
    let ghost all = item_views(items@);
    let mut i: usize = items.len();
    assert(all.take(i as int) =~= all);
    while i > 0
        invariant
            i <= items@.len(),
            all == item_views(items@),
            last_repr(all, addr@) == last_repr(all.take(i as int), addr@),
        decreases i,
    {
        assert(all.take(i as int).last() == items@[i - 1]@);
        assert(all.take(i as int).drop_last() =~= all.take(i - 1));
        if items[i - 1].addr.same(addr) {
            return Some(&items[i - 1].repr);
        }
        i -= 1;
    }
    None
}

/// What a sequence of addresses says.
pub open spec fn addr_views(v: Seq<Addr>) -> Seq<Seq<char>> {
    v.map_values(|a: Addr| a@)
}

/// Put an address in its place in an ordered list, unless it is there already.
fn list_in(list: &mut Vec<Addr>, addr: &Addr)
    ensures
        addr_views(final(list)@) == listed(addr_views(old(list)@), addr@),
{
    let ghost all = addr_views(list@);
    let mut i: usize = list.len();
    assert(all.take(i as int) =~= all);
    assert(listed(all.take(i as int), addr@) + all.skip(i as int) =~= listed(all, addr@));
    while i > 0
        invariant
            i <= list@.len(),
            all == addr_views(list@),
            list@ == old(list)@,
            listed(all, addr@) == listed(all.take(i as int), addr@) + all.skip(i as int),
        ensures
            i <= list@.len(),
            i == 0 || (all.take(i as int).last() != addr@ && !precedes(
                addr@,
                all.take(i as int).last(),
            )),
            listed(all, addr@) == listed(all.take(i as int), addr@) + all.skip(i as int),
        decreases i,
    {
        let ghost head = all.take(i as int);
        assert(head.last() == list@[i - 1]@);
        assert(head.drop_last() =~= all.take(i - 1));
        if list[i - 1].same(addr) {
            assert(head + all.skip(i as int) =~= all);
            return ;
        }
        if !text_precedes(addr.as_str(), list[i - 1].as_str()) {
            break ;
        }
        assert(listed(all.take(i - 1), addr@).push(head.last()) + all.skip(i as int) =~= listed(
            all.take(i - 1),
            addr@,
        ) + all.skip(i - 1));
        i -= 1;
    }
    let a = addr.clone();
    list.insert(i, a);
    assert(addr_views(list@) =~= all.take(i as int).push(addr@) + all.skip(i as int));
}

/// The addresses to walk, in order.
fn walk_list(declared: &Vec<Item>, prior: &Vec<Item>) -> (walk: Vec<Addr>)
    ensures
        addr_views(walk@) == walk_order(item_views(declared@), item_views(prior@)),
{
    let ghost items = item_views(declared@);
    let ghost records = item_views(prior@);
    let mut extra: Vec<Addr> = Vec::new();
    let mut i: usize = 0;
    assert(addr_views(extra@) =~= extras(items, records.take(0)));
    while i < prior.len()
        invariant
            i <= prior@.len(),
            items == item_views(declared@),
            records == item_views(prior@),
            addr_views(extra@) == extras(items, records.take(i as int)),
        decreases prior@.len() - i,
    {
        assert(records.take(i + 1).drop_last() =~= records.take(i as int));
        assert(records.take(i + 1).last() == prior@[i as int]@);
        if find_last(declared, &prior[i].addr).is_none() {
            list_in(&mut extra, &prior[i].addr);
        }
        i += 1;
    }
    assert(records.take(i as int) =~= records);

    let mut walk: Vec<Addr> = Vec::new();
    let mut k: usize = 0;
    while k < declared.len()
        invariant
            k <= declared@.len(),
            items == item_views(declared@),
            addr_views(walk@) == addrs(items).take(k as int),
        decreases declared@.len() - k,
    {
        let a = declared[k].addr.clone();
        assert(addrs(items).take(k + 1) =~= addrs(items).take(k as int).push(a@));
        assert(addr_views(walk@.push(a)) =~= addr_views(walk@).push(a@));
        walk.push(a);
        k += 1;
    }
    assert(addrs(items).take(k as int) =~= addrs(items));
    let ghost head = addr_views(walk@);
    let ghost tail = addr_views(extra@);
    walk.append(&mut extra);
    assert(addr_views(walk@) =~= head + tail);
    walk
}

/// Apply a declaration to a target.
///
/// Items are walked in declaration order, then any addresses known only to
/// provenance, sorted so a run is reproducible.
///
/// The target is mutated in memory only; persisting [`Output`] is the caller's
/// decision, which is what makes a read-only check identical to a real run in
/// everything but the final write.
///
/// # Ownership bookkeeping
///
/// The returned provenance claims exactly the items this tool now stands behind:
///
/// - applied and agreed items are claimed with their declared value, including
///   a [`Skip`](Decision::Skip) over an equal value, which adopts an item
///   written before provenance existed;
/// - a refusal over a value that was ours keeps the *old* record, so the next
///   run can still say precisely that the value was hand-edited rather than
///   losing that history and calling it an ordinary conflict;
/// - a refused conflict over a value that was never ours claims nothing;
/// - a retracted item is dropped, and a retraction suppressed by [`Options`]
///   keeps its claim so that enabling retraction later still works.
pub fn run<S: Store>(store: &mut S, opts: Options) -> (r: Result<(Report, Output), Error>)
    requires
        old(store).inv(),
    ensures
        final(store).inv(),
        ran(*old(store), opts, *final(store), run_result(r)),
{
    let declared = match store.declared() {
        Ok(items) => items,
        Err(e) => {
            return Err(e);
        },
    };
    let prior = store.owned();
    let walk = walk_list(&declared, &prior);

    let ghost start = *store;
    let ghost task = Task { declared: item_views(declared@), prior: item_views(prior@), opts };
    let ghost path = addr_views(walk@);
    let ghost mut stores: Seq<S> = seq![*store];
    let ghost mut states: Seq<StateView> = Seq::empty();

    let mut entries: Vec<Entry> = Vec::new();
    let mut owned: Vec<Item> = Vec::new();
    assert(entry_views(entries@) =~= task.entries(path, states));
    assert(item_views(owned@) =~= task.claims(path, states));

    let mut i: usize = 0;
    while i < walk.len()
        invariant
            i <= walk@.len(),
            start == *old(store),
            start.declares() == Ok::<Seq<ItemView>, Failure>(task.declared),
            start.records() == task.prior,
            task == (Task {
                declared: item_views(declared@),
                prior: item_views(prior@),
                opts,
            }),
            path == addr_views(walk@),
            path == walk_order(task.declared, task.prior),
            states.len() == i,
            store.inv(),
            stores.len() == i + 1,
            stores[0] == start,
            stores.last() == *store,
            task.steps(path, stores, states),
            entry_views(entries@) == task.entries(path, states),
            item_views(owned@) == task.claims(path, states),
        decreases walk@.len() - i,
    {
        let addr = &walk[i];
        let ghost here = *store;
        assert(path[i as int] == addr@);
        let declared_repr = find_last(&declared, addr);
        let state = match store.state(addr) {
            Ok(s) => s,
            Err(e) => {
                assert(task.ends(path, stores, states, *store, Err(e@)));
                return Err(e);
            },
        };
        let base = decide(declared_repr, &state);
        let (decision, overridden) = override_decision(base, &state, declared_repr.is_some(), opts);
        let ghost seen = state@;
        assert(task.base(addr@, seen) == base);
        assert(task.verdict(addr@, seen) == (decision, overridden));

        match decision {
            Decision::Add | Decision::Update => {
                if let Err(e) = store.write(addr) {
                    assert(task.ends(path, stores, states, *store, Err(e@)));
                    return Err(e);
                }
            },
            Decision::Retract => {
                if let Err(e) = store.retract(addr) {
                    assert(task.ends(path, stores, states, *store, Err(e@)));
                    return Err(e);
                }
            },
            Decision::Skip | Decision::Refuse(_) => {},
        }

        let prior_repr = find_last(&prior, addr);
        claim(&mut owned, addr, decision, base, declared_repr, prior_repr);

        let entry = Entry {
            addr: addr.clone(),
            decision,
            declared: match declared_repr {
                Some(r) => Some(r.clone()),
                None => None,
            },
            observed: state.observed,
            note: state.note,
            overridden,
        };
        proof {
            assert(entry@ == task.entry(addr@, seen));
            assert(task.step(here, *store, addr@, seen));
            let more = stores.push(*store);
            let met = states.push(seen);
            assert(met.drop_last() =~= states);
            assert forall|k: int| 0 <= k < met.len() implies task.step(
                #[trigger] more[k],
                more[k + 1],
                path[k],
                met[k],
            ) by {
                if k < states.len() {
                    assert(task.step(stores[k], stores[k + 1], path[k], states[k]));
                    assert(more[k] == stores[k]);
                    assert(more[k + 1] == stores[k + 1]);
                }
            }
            assert(entry_views(entries@.push(entry)) =~= entry_views(entries@).push(entry@));
            assert(task.entries(path, met) =~= task.entries(path, states).push(entry@));
            stores = more;
            states = met;
        }
        entries.push(entry);
        i += 1;
    }

    let ghost last = *store;
    match store.finish(owned.as_slice()) {
        Ok(output) => {
            let report = Report { entries };
            assert(task.ends(path, stores, states, *store, Ok((report@, output@))));
            Ok((report, output))
        },
        Err(e) => {
            assert(task.ends(path, stores, states, *store, Err(e@)));
            Err(e)
        },
    }
}

/// Apply the caller's overrides to a decision, reporting whether it moved.
fn override_decision(base: Decision, state: &State, is_declared: bool, opts: Options) -> (r: (
    Decision,
    bool,
))
    ensures
        r == after_overrides(base, state.observed@, is_declared, opts),
{
    match base {
        Decision::Refuse(_) => {
            if opts.force && is_declared {
                let forced = match state.observed {
                    Observed::Absent => Decision::Add,
                    Observed::Present(_) => Decision::Update,
                };
                (forced, true)
            } else {
                (base, false)
            }
        },
        Decision::Retract => {
            if !opts.retract {
                (Decision::Skip, true)
            } else {
                (base, false)
            }
        },
        other => (other, false),
    }
}

/// Record what this tool now claims for `addr`.
///
/// `base` is the decision before overrides, which is what distinguishes a
/// genuine [`Skip`](Decision::Skip) from a retraction the caller suppressed.
fn claim(
    owned: &mut Vec<Item>,
    addr: &Addr,
    decision: Decision,
    base: Decision,
    declared: Option<&Repr>,
    prior: Option<&Repr>,
)
    ensures
        item_views(final(owned)@) == match claimed(
            addr@,
            decision,
            base,
            optional_repr(declared),
            optional_repr(prior),
        ) {
            Some(item) => item_views(old(owned)@).push(item),
            None => item_views(old(owned)@),
        },
{
    let repr = match (declared, decision) {
        // Applied or agreed: claim the declared value.
        (Some(d), Decision::Add) => Some(d),
        (Some(d), Decision::Update) => Some(d),
        (Some(d), Decision::Skip) => Some(d),
        // Refused over something that was ours: keep the old record so the next
        // run can still name what happened.
        (Some(_), Decision::Refuse(_)) => prior,
        // Suppressed retraction: still ours, still claimed.
        (None, Decision::Skip) => {
            if matches!(base, Decision::Retract) {
                prior
            } else {
                None
            }
        },
        // Withdrawn, or never ours.
        _ => None,
    };
    if let Some(r) = repr {
        let item = Item::new(addr.clone(), r.clone());
        assert(item_views(owned@.push(item)) =~= item_views(owned@).push(item@));
        owned.push(item);
    }
}

} // verus!
