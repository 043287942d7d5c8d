//! The interface a representation implements.
//!
//! A [`Store`] is one target document seen as a set of addressable items. It
//! answers what an item's state is, writes an item, retracts one, and renders
//! the result. Everything about *which* change to make is decided by
//! [`crate::policy`] and driven by [`crate::engine`]; a store never consults the
//! declaration to choose an outcome.
//!
//! Splitting it this way is what keeps the management rules in one place. Two
//! representations as unalike as a JSON document and a marker-delimited span
//! differ only in how they address, read, and write items, not in what should
//! happen when an item is already present.

use crate::error::{Error, Failure};
use crate::text::IntoText;
use vstd::prelude::*;
use vstd::string::*;

verus! {

/// Where an item lives, in whatever notation its representation uses.
///
/// The core treats an address as opaque: it compares addresses for identity and
/// prints them in reports, and never parses one. A JSON document uses dotted key
/// paths (`env.EDITOR`), and another representation may use anything it can
/// render and compare.
///
/// Addresses appear in provenance records, so an address must denote the same
/// item across runs. An index into a sequence does not qualify, since inserting
/// an element renumbers its neighbours, which is why the JSON adapter addresses
/// set elements by value.
#[derive(Debug, PartialEq, Eq, PartialOrd, Ord, Hash)]
pub struct Addr(String);

impl View for Addr {
    type V = Seq<char>;

    closed spec fn view(&self) -> Seq<char> {
        self.0@
    }
}

impl Clone for Addr {
    fn clone(&self) -> (a: Self)
        ensures
            a@ == self@,
    {
        Addr(self.0.clone())
    }
}

impl Addr {
    /// Build an address from its rendered form.
    pub fn new(s: impl IntoText) -> (a: Self)
        ensures
            a@ == s.text(),
    {
        Addr(s.into_text())
    }

    /// The rendered form, as stored in provenance.
    pub fn as_str(&self) -> (s: &str)
        ensures
            s@ == self@,
    {
        self.0.as_str()
    }

    /// The rendered form, on its own.
    pub fn to_string(&self) -> (s: String)
        ensures
            s@ == self@,
    {
        self.0.clone()
    }

    /// Whether two addresses are the same.
    pub fn same(&self, other: &Addr) -> (r: bool)
        ensures
            r == (self@ == other@),
    {
        self.0 == other.0
    }
}

/// An item's value in canonical textual form.
///
/// The core compares reprs for equality and truncates them for display. It never
/// inspects their structure, so each adapter is free to choose its own dialect
/// and is responsible for two properties:
///
/// - **Canonical.** Two values that the representation considers equal produce
///   the same repr. The JSON adapter sorts object keys for this reason: the
///   other program may rewrite a document with its keys in a different order,
///   and that is not a change to the value.
/// - **Round-trippable.** The adapter can recover a value it can write from a
///   repr it produced. This is what lets a retraction find, in the target, the
///   element recorded in provenance.
///
/// Because every repr stays inside the adapter that made it, formats never share
/// a structural type and so never lose what that type cannot hold.
#[derive(Debug, PartialEq, Eq, PartialOrd, Ord, Hash)]
pub struct Repr(String);

impl View for Repr {
    type V = Seq<char>;

    closed spec fn view(&self) -> Seq<char> {
        self.0@
    }
}

impl Clone for Repr {
    fn clone(&self) -> (r: Self)
        ensures
            r@ == self@,
    {
        Repr(self.0.clone())
    }
}

/// A text cut to its first `max` characters, the cut marked with an ellipsis.
pub open spec fn shortened(s: Seq<char>, max: nat) -> Seq<char> {
    if s.len() > max {
        s.take(max as int).push('\u{2026}')
    } else {
        s
    }
}

impl Repr {
    /// Wrap an already-canonical rendering.
    pub fn new(s: impl IntoText) -> (r: Self)
        ensures
            r@ == s.text(),
    {
        Repr(s.into_text())
    }

    /// The canonical text.
    pub fn as_str(&self) -> (s: &str)
        ensures
            s@ == self@,
    {
        self.0.as_str()
    }

    /// The canonical text, on its own.
    pub fn to_string(&self) -> (s: String)
        ensures
            s@ == self@,
    {
        self.0.clone()
    }

    /// Whether two reprs are the same.
    pub fn same(&self, other: &Repr) -> (r: bool)
        ensures
            r == (self@ == other@),
    {
        self.0 == other.0
    }

    /// The text, shortened for a one-line report.
    pub fn truncated(&self, max: usize) -> (s: String)
        ensures
            s@ == shortened(self@, max as nat),
    {
        let text = self.0.as_str();
        if text.unicode_len() > max {
            let mut head = text.substring_char(0, max).to_owned();
            head.push('\u{2026}');
            head
        } else {
            self.0.clone()
        }
    }
}

/// One declared item: an address and the value it should hold.
#[derive(Debug, PartialEq, Eq)]
pub struct Item {
    /// Where the item lives.
    pub addr: Addr,
    /// The canonical form of its value.
    pub repr: Repr,
}

/// What an [`Item`] says.
pub struct ItemView {
    /// Where the item lives.
    pub addr: Seq<char>,
    /// The canonical form of its value.
    pub repr: Seq<char>,
}

impl View for Item {
    type V = ItemView;

    open spec fn view(&self) -> ItemView {
        ItemView { addr: self.addr@, repr: self.repr@ }
    }
}

impl Clone for Item {
    fn clone(&self) -> (i: Self)
        ensures
            i@ == self@,
    {
        Item { addr: self.addr.clone(), repr: self.repr.clone() }
    }
}

impl Item {
    /// Pair an address with a value.
    pub fn new(addr: Addr, repr: Repr) -> (i: Self)
        ensures
            i.addr == addr,
            i.repr == repr,
    {
        Item { addr, repr }
    }
}

/// What a sequence of items says.
pub open spec fn item_views(items: Seq<Item>) -> Seq<ItemView> {
    items.map_values(|i: Item| i@)
}

/// Copy a list of items.
pub fn copy_items(items: &[Item]) -> (r: Vec<Item>)
    ensures
        item_views(r@) == item_views(items@),
{
    let mut r: Vec<Item> = Vec::new();
    let mut i: usize = 0;
    while i < items.len()
        invariant
            i <= items@.len(),
            item_views(r@) == item_views(items@).take(i as int),
        decreases items@.len() - i,
    {
        let item = items[i].clone();
        assert(item_views(items@).take(i + 1) =~= item_views(items@).take(i as int).push(item@));
        assert(item_views(r@.push(item)) =~= item_views(r@).push(item@));
        r.push(item);
        i += 1;
    }
    assert(item_views(items@).take(i as int) =~= item_views(items@));
    r
}

/// What is in the target right now.
#[derive(Debug, PartialEq, Eq)]
pub enum Observed {
    /// No item at this address.
    Absent,
    /// An item holding this value.
    Present(Repr),
}

impl View for Observed {
    type V = Option<Seq<char>>;

    open spec fn view(&self) -> Option<Seq<char>> {
        match self {
            Observed::Absent => None,
            Observed::Present(r) => Some(r@),
        }
    }
}

impl Clone for Observed {
    fn clone(&self) -> (o: Self)
        ensures
            o@ == self@,
    {
        match self {
            Observed::Absent => Observed::Absent,
            Observed::Present(r) => Observed::Present(r.clone()),
        }
    }
}

impl Observed {
    /// Whether the observed value equals `repr`.
    pub fn equals(&self, repr: &Repr) -> (r: bool)
        ensures
            r == (self@ == Some(repr@)),
    {
        match self {
            Observed::Absent => false,
            Observed::Present(o) => o.same(repr),
        }
    }
}

/// How what is in the target relates to what this tool last wrote there.
///
/// This is the adapter's answer to "is this value ours?", and the only thing the
/// policy branches on. How it is determined is the adapter's business: a JSON
/// document compares against a side-car record.
#[derive(Debug, Clone, Copy, PartialEq, Eq, Structural)]
pub enum Ownership {
    /// Nothing was recorded for this address. Either this is the first run, or
    /// provenance is unavailable. Ownership cannot be claimed, so the policy
    /// permits only adding what is absent and agreeing with what matches.
    Unknown,
    /// The value present is exactly what this tool last wrote. It is ours to
    /// update or retract.
    Ours,
    /// Something was recorded, and what is there now differs from it. Another
    /// writer changed it, so it is no longer ours.
    Diverged,
    /// Something was recorded, and the item is now gone. Another writer deleted
    /// it, and a deletion is as deliberate as any other edit.
    Removed,
}

/// An item's state: what is there, and whose it is.
#[derive(Debug, Clone, PartialEq, Eq)]
pub struct State {
    /// What the target holds at this address.
    pub observed: Observed,
    /// How that relates to what this tool last wrote.
    pub ownership: Ownership,
    /// Adapter-supplied detail for human-readable reports, such as what was
    /// recorded behind a [`Ownership::Diverged`] verdict.
    ///
    /// For display only. The core never branches on it, so an adapter that has
    /// nothing useful to say may leave it empty without changing any outcome.
    pub note: Option<String>,
}

/// What a [`State`] says.
pub struct StateView {
    /// What the target holds at this address.
    pub observed: Option<Seq<char>>,
    /// How that relates to what this tool last wrote.
    pub ownership: Ownership,
    /// Adapter-supplied detail.
    pub note: Option<Seq<char>>,
}

/// The characters of an optional string.
pub open spec fn optional_text(s: Option<String>) -> Option<Seq<char>> {
    match s {
        Some(t) => Some(t@),
        None => None,
    }
}

impl View for State {
    type V = StateView;

    open spec fn view(&self) -> StateView {
        StateView {
            observed: self.observed@,
            ownership: self.ownership,
            note: optional_text(self.note),
        }
    }
}

impl State {
    /// A state with no reporting detail.
    pub fn new(observed: Observed, ownership: Ownership) -> (s: Self)
        ensures
            s@ == (StateView { observed: observed@, ownership, note: None }),
    {
        State { observed, ownership, note: None }
    }

    /// Attach reporting detail.
    pub fn with_note(self, note: impl IntoText) -> (s: Self)
        ensures
            s@ == (StateView { note: Some(note.text()), ..self@ }),
    {
        State { observed: self.observed, ownership: self.ownership, note: Some(note.into_text()) }
    }
}

/// What a run produced.
#[derive(Debug, Clone, PartialEq, Eq)]
pub struct Output {
    /// The target document, rendered in full.
    ///
    /// This is always a complete document, including when nothing changed and
    /// when a change was refused. A caller that writes it unconditionally still
    /// cannot destroy anything.
    pub document: String,
    /// Provenance to persist outside the document, for adapters that keep it
    /// there. An adapter recording provenance inline returns `None`: the record
    /// is already in `document`.
    pub prior: Option<Vec<Item>>,
}

/// What an [`Output`] says.
pub struct OutputView {
    /// The target document, rendered in full.
    pub document: Seq<char>,
    /// Provenance to persist outside the document.
    pub prior: Option<Seq<ItemView>>,
}

impl View for Output {
    type V = OutputView;

    open spec fn view(&self) -> OutputView {
        OutputView {
            document: self.document@,
            prior: match self.prior {
                Some(items) => Some(item_views(items@)),
                None => None,
            },
        }
    }
}

/// What the result of an operation on a store says.
pub open spec fn outcome<T: View>(r: Result<T, Error>) -> Result<T::V, Failure> {
    match r {
        Ok(v) => Ok(v@),
        Err(e) => Err(e@),
    }
}

/// One target document, seen as a set of addressable items.
///
/// Implementing this trait is the whole of adding a representation. The six
/// methods divide into three pairs: what is declared and what was owned, how one
/// item reads, and how one item is written or withdrawn.
///
/// # Contract
///
/// - [`declared`](Store::declared) and [`owned`](Store::owned) return items
///   whose addresses are meaningful to [`state`](Store::state).
/// - [`state`](Store::state) is read-only and may be called for any address from
///   either list.
/// - [`write`](Store::write) is called only for an address present in
///   [`declared`](Store::declared), and writes that declared value. The core
///   never supplies a value of its own, so it cannot invent one.
/// - [`retract`](Store::retract) is called only for an address present in
///   [`owned`](Store::owned) whose ownership is [`Ownership::Ours`], and removes
///   the value recorded there.
/// - [`finish`](Store::finish) renders the document and returns the provenance
///   to persist.
///
/// An implementation that upholds these is correct regardless of what the
/// representation is, because every decision about *whether* to call them has
/// already been made.
///
/// The specification functions name what each method does: what a store answers
/// is a function of the store, and what it does to itself is a relation between
/// the store before, the store after, and the outcome. An implementation that is
/// not verified may leave them out; nothing is known of it then.
pub trait Store: Sized {
    /// What holds of the store between calls.
    open spec fn inv(&self) -> bool {
        true
    }

    /// What [`declared`](Store::declared) answers.
    closed spec fn declares(&self) -> Result<Seq<ItemView>, Failure> {
        arbitrary()
    }

    /// What [`owned`](Store::owned) answers.
    closed spec fn records(&self) -> Seq<ItemView> {
        arbitrary()
    }

    /// What [`state`](Store::state) answers.
    closed spec fn reads(&self, addr: Seq<char>) -> Result<StateView, Failure> {
        arbitrary()
    }

    /// How [`write`](Store::write) leaves the store, and with what outcome.
    closed spec fn writes(&self, addr: Seq<char>, after: &Self, result: Result<(), Failure>) -> bool {
        arbitrary()
    }

    /// How [`retract`](Store::retract) leaves the store, and with what outcome.
    closed spec fn retracts(&self, addr: Seq<char>, after: &Self, result: Result<(), Failure>) -> bool {
        arbitrary()
    }

    /// How [`finish`](Store::finish) leaves the store, and with what outcome.
    closed spec fn renders(
        &self,
        owned: Seq<ItemView>,
        after: &Self,
        result: Result<OutputView, Failure>,
    ) -> bool {
        arbitrary()
    }

    /// The items the declaration asks for, in declaration order.
    fn declared(&self) -> (r: Result<Vec<Item>, Error>)
        requires
            self.inv(),
        ensures
            match r {
                Ok(items) => self.declares() == Ok::<Seq<ItemView>, Failure>(item_views(items@)),
                Err(e) => self.declares() == Err::<Seq<ItemView>, Failure>(e@),
            },
    ;

    /// The items this tool wrote on its last run, as recorded in provenance.
    ///
    /// Empty when provenance is unavailable, which leaves every item
    /// [`Ownership::Unknown`] and reduces the run to add-only.
    fn owned(&self) -> (r: Vec<Item>)
        requires
            self.inv(),
        ensures
            item_views(r@) == self.records(),
    ;

    /// What is at `addr`, and whose it is.
    fn state(&self, addr: &Addr) -> (r: Result<State, Error>)
        requires
            self.inv(),
        ensures
            outcome(r) == self.reads(addr@),
    ;

    /// Set `addr` to its declared value.
    fn write(&mut self, addr: &Addr) -> (r: Result<(), Error>)
        requires
            old(self).inv(),
        ensures
            final(self).inv(),
            old(self).writes(addr@, final(self), outcome(r)),
    ;

    /// Remove the value this tool recorded at `addr`.
    fn retract(&mut self, addr: &Addr) -> (r: Result<(), Error>)
        requires
            old(self).inv(),
        ensures
            final(self).inv(),
            old(self).retracts(addr@, final(self), outcome(r)),
    ;

    /// Render the document and hand back the provenance to persist.
    ///
    /// `owned` is the set of items this tool now claims, which the caller has
    /// computed from the decisions it applied.
    fn finish(&mut self, owned: &[Item]) -> (r: Result<Output, Error>)
        requires
            old(self).inv(),
        ensures
            final(self).inv(),
            old(self).renders(item_views(owned@), final(self), outcome(r)),
    ;
}

/// **Law.** A text is shown whole where it is short enough. A longer one is shown by
/// its first characters, as many as fit, with an ellipsis behind them.
pub proof fn law_a_shortened_text_begins_like_the_text(s: Seq<char>, max: nat, i: int)
    ensures
        s.len() <= max ==> shortened(s, max) == s,
        s.len() > max ==> shortened(s, max).len() == max + 1,
        s.len() > max && 0 <= i < max ==> shortened(s, max)[i] == s[i],
        s.len() > max ==> shortened(s, max)[max as int] == '\u{2026}',
{
}

} // verus!
