//! What a JSON document under management is.
//!
//! A [`DocView`] is the document, the items declared in it with the place of
//! each, and what a previous run recorded. The functions below say what reading,
//! writing and withdrawing an item mean for it.

use crate::adapter::path::{element_text, place_of, shown, Place};
use crate::canon::canonical_form;
use crate::error::Failure;
use crate::port::{shortened, ItemView, Ownership, StateView};
use crate::text::blank;
use crate::tree::{
    lemma_planted_well_formed, lemma_removed_well_formed, lemma_walk_well_formed, planted, removed,
    site, walk, well_formed, Entries, Path, Tree, Walk,
};
use crate::value::parsed;
use vstd::prelude::*;

verus! {

/// A declared item: where it lives and what it should hold.
pub struct LeafView {
    /// The item's address.
    pub addr: Seq<char>,
    /// Where it lives.
    pub place: Place,
    /// The canonical form of its value.
    pub repr: Seq<char>,
    /// The value, with the declaration's own key order.
    pub value: Tree,
}

impl LeafView {
    /// The value is a JSON value, and the repr is its canonical form.
    pub open spec fn sound(self) -> bool {
        &&& well_formed(self.value)
        &&& self.repr == canonical_form(self.value)
        &&& self.place matches Place::Element { path, repr } ==> repr == self.repr
    }
}

/// The item a value at a key path is.
pub open spec fn key_leaf(path: Path, value: Tree) -> LeafView {
    LeafView { addr: shown(path), place: Place::Key(path), repr: canonical_form(value), value }
}

/// The item an element of the array at a key path is.
pub open spec fn element_leaf(path: Path, value: Tree) -> LeafView {
    let repr = canonical_form(value);
    LeafView {
        addr: element_text(path, repr),
        place: Place::Element { path, repr },
        repr,
        value,
    }
}

/// The items a declared value expands into: an object contributes the items of
/// its entries, an array one item per element, and anything else is one item.
///
/// An empty object or array is one item too: declaring `{}` asks for an empty
/// object to exist, and expanding it into nothing would silently declare nothing
/// at all.
pub open spec fn leaves(path: Path, value: Tree) -> Seq<LeafView>
    decreases value,
{
    match value {
        Tree::Object(e) => if e.len() == 0 {
            seq![key_leaf(path, value)]
        } else {
            entry_leaves(path, e)
        },
        Tree::Array(a) => if a.len() == 0 {
            seq![key_leaf(path, value)]
        } else {
            a.map_values(|v: Tree| element_leaf(path, v))
        },
        _ => seq![key_leaf(path, value)],
    }
}

/// The items the entries of an object expand into, one entry after another.
pub open spec fn entry_leaves(path: Path, e: Entries) -> Seq<LeafView>
    decreases e,
{
    if e.len() == 0 {
        Seq::empty()
    } else {
        entry_leaves(path, e.drop_last()) + leaves(path.push(e.last().0), e.last().1)
    }
}

/// The last of the items declared at an address.
pub open spec fn last_leaf(all: Seq<LeafView>, addr: Seq<char>) -> Option<LeafView>
    decreases all.len(),
{
    if all.len() == 0 {
        None
    } else if all.last().addr == addr {
        Some(all.last())
    } else {
        last_leaf(all.drop_last(), addr)
    }
}

/// The first of the reprs recorded at an address.
pub open spec fn first_repr(prior: Seq<ItemView>, addr: Seq<char>) -> Option<Seq<char>>
    decreases prior.len(),
{
    if prior.len() == 0 {
        None
    } else if prior[0].addr == addr {
        Some(prior[0].repr)
    } else {
        first_repr(prior.drop_first(), addr)
    }
}

/// Whether an array holds an element with this canonical form.
pub open spec fn holds(a: Seq<Tree>, repr: Seq<char>) -> bool {
    exists|i: int| 0 <= i < a.len() && canonical_form(#[trigger] a[i]) == repr
}

/// An array without the elements of this canonical form.
pub open spec fn without(a: Seq<Tree>, repr: Seq<char>) -> Seq<Tree>
    decreases a.len(),
{
    if a.len() == 0 {
        Seq::empty()
    } else {
        let before = without(a.drop_last(), repr);
        if canonical_form(a.last()) == repr {
            before
        } else {
            before.push(a.last())
        }
    }
}

/// What is found at a place.
pub enum Look {
    /// Nothing, or a value of this canonical form.
    Seen(Option<Seq<char>>),
    /// At the path displayed first there is a value of the wrong kind, so the
    /// place cannot be reached.
    Blocked(Seq<char>, Tree),
}

/// What a document holds at a place.
pub open spec fn look(root: Tree, place: Place) -> Look {
    match place {
        Place::Key(path) => match walk(root, path, 0) {
            Walk::Found(v) => Look::Seen(Some(canonical_form(v))),
            Walk::Absent => Look::Seen(None),
            Walk::Blocked(i, found) => Look::Blocked(shown(path.take(i)), found),
        },
        Place::Element { path, repr } => match walk(root, path, 0) {
            Walk::Found(Tree::Array(a)) => Look::Seen(
                if holds(a, repr) {
                    Some(repr)
                } else {
                    None
                },
            ),
            Walk::Found(other) => Look::Blocked(shown(path), other),
            Walk::Absent => Look::Seen(None),
            Walk::Blocked(i, found) => Look::Blocked(shown(path.take(i)), found),
        },
    }
}

/// The kind of a value, in words.
pub open spec fn kind_name(t: Tree) -> Seq<char> {
    match t {
        Tree::Null => "null"@,
        Tree::Bool(_) => "a bool"@,
        Tree::Number(_) => "a number"@,
        Tree::String(_) => "a string"@,
        Tree::Array(_) => "an array"@,
        Tree::Object(_) => "an object"@,
    }
}

/// A value that blocks a path is reported as a disagreement about that value,
/// not as a failure: the target is telling us it disagrees about the shape, and
/// that is drift like any other. It is observed as the value in the way. One that
/// happens to equal the declared value is not the declared item, so it is observed
/// together with the path it is at, which the declared value is not.
pub open spec fn blocked(
    at: Seq<char>,
    found: Tree,
    declared: Option<Seq<char>>,
) -> StateView {
    StateView {
        observed: Some(
            if declared == Some(canonical_form(found)) {
                canonical_form(Tree::Object(seq![(at, found)]))
            } else {
                canonical_form(found)
            },
        ),
        ownership: Ownership::Unknown,
        note: Some(
            "`"@ + at + "` is "@ + kind_name(found) + ", so the path cannot be followed"@,
        ),
    }
}

/// The state of an item that was seen, by what was recorded for it.
pub open spec fn judged(observed: Option<Seq<char>>, recorded: Option<Seq<char>>) -> StateView {
    match (recorded, observed) {
        (None, _) => StateView { observed, ownership: Ownership::Unknown, note: None },
        (Some(_), None) => StateView { observed, ownership: Ownership::Removed, note: None },
        (Some(p), Some(o)) => if p == o {
            StateView { observed, ownership: Ownership::Ours, note: None }
        } else {
            StateView {
                observed,
                ownership: Ownership::Diverged,
                note: Some("this tool last wrote "@ + shortened(p, 48)),
            }
        },
    }
}

/// The document writing starts from: an object in place of a bare `null`.
pub open spec fn grounded(root: Tree) -> Tree {
    if root is Null {
        Tree::Object(Seq::empty())
    } else {
        root
    }
}

/// The message for a path that is blocked after `i` steps.
pub open spec fn descend_message(path: Path, i: int) -> Seq<char> {
    "cannot descend into `"@ + shown(path.take(i + 1)) + "`: "@ + shown(path.take(i))
        + " is not an object"@
}

/// Put a value at a key path.
pub open spec fn set_key(root: Tree, path: Path, addr: Seq<char>, value: Tree) -> Result<
    Tree,
    Failure,
> {
    if path.len() == 0 {
        Ok(value)
    } else {
        match walk(grounded(root), path, 0) {
            Walk::Blocked(i, _) => if i == path.len() - 1 {
                Err(
                    Failure::Invalid(
                        "cannot write `"@ + addr + "`: `"@ + shown(path.drop_last())
                            + "` is not an object"@,
                    ),
                )
            } else {
                Err(Failure::Invalid(descend_message(path, i)))
            },
            _ => Ok(planted(grounded(root), path, 0, value)),
        }
    }
}

/// The elements of an array, and none for anything else.
pub open spec fn elements_in(t: Tree) -> Seq<Tree> {
    match t {
        Tree::Array(a) => a,
        _ => Seq::empty(),
    }
}

/// Why there can be no array at a path: the path is that of the document itself,
/// it is blocked, or there is something else at its end.
pub open spec fn no_array(root: Tree, path: Path) -> Option<Seq<char>> {
    if path.len() == 0 {
        Some("the document root cannot be an array element"@)
    } else {
        match walk(root, path, 0) {
            Walk::Blocked(i, _) => Some(
                if i == path.len() - 1 {
                    "cannot write into `"@ + shown(path.drop_last()) + "`: it is not an object"@
                } else {
                    descend_message(path, i)
                },
            ),
            Walk::Found(Tree::Array(_)) => None,
            Walk::Found(_) => Some(
                "cannot add to `"@ + shown(path) + "`: it is not an array"@,
            ),
            Walk::Absent => None,
        }
    }
}

/// Put an element into the array at a key path, unless it is there already.
pub open spec fn add_element(root: Tree, path: Path, repr: Seq<char>, value: Tree) -> Result<
    Tree,
    Failure,
> {
    match no_array(grounded(root), path) {
        Some(message) => Err(Failure::Invalid(message)),
        None => {
            let a = elements_in(site(grounded(root), path, 0));
            if holds(a, repr) {
                Ok(root)
            } else {
                Ok(planted(grounded(root), path, 0, Tree::Array(a.push(value))))
            }
        },
    }
}

/// Take the value at a place away, where it can be reached.
pub open spec fn taken_away(root: Tree, place: Place) -> Tree {
    match place {
        Place::Key(path) => if path.len() == 0 {
            Tree::Object(Seq::empty())
        } else {
            match walk(root, path.drop_last(), 0) {
                Walk::Found(Tree::Object(e)) => planted(
                    root,
                    path.drop_last(),
                    0,
                    Tree::Object(removed(e, path.last())),
                ),
                _ => root,
            }
        },
        Place::Element { path, repr } => match walk(root, path, 0) {
            Walk::Found(Tree::Array(a)) => planted(root, path, 0, Tree::Array(without(a, repr))),
            _ => root,
        },
    }
}

/// A JSON document under management.
pub struct DocView {
    /// The document as it now stands.
    pub root: Tree,
    /// The items declared, in declaration order.
    pub leaves: Seq<LeafView>,
    /// What a previous run recorded.
    pub prior: Seq<ItemView>,
}

impl DocView {
    /// The document is a JSON value, and every declared item is what it says.
    pub open spec fn ok(self) -> bool {
        &&& well_formed(self.root)
        &&& forall|i: int| 0 <= i < self.leaves.len() ==> (#[trigger] self.leaves[i]).sound()
    }

    /// The items declared, as address and repr.
    pub open spec fn items(self) -> Seq<ItemView> {
        self.leaves.map_values(|l: LeafView| ItemView { addr: l.addr, repr: l.repr })
    }

    /// Where an item lives: as declared, or as its recorded address says.
    pub open spec fn place(self, addr: Seq<char>) -> Option<Place> {
        match last_leaf(self.leaves, addr) {
            Some(leaf) => Some(leaf.place),
            None => match first_repr(self.prior, addr) {
                Some(repr) => Some(place_of(addr, repr)),
                None => None,
            },
        }
    }

    /// The declared value of an item.
    pub open spec fn declared_repr(self, addr: Seq<char>) -> Option<Seq<char>> {
        match last_leaf(self.leaves, addr) {
            Some(leaf) => Some(leaf.repr),
            None => None,
        }
    }

    /// The state of an item.
    pub open spec fn state(self, addr: Seq<char>) -> Result<StateView, Failure> {
        match self.place(addr) {
            None => Err(Failure::Invalid("no such item: "@ + addr)),
            Some(place) => match look(self.root, place) {
                Look::Seen(observed) => Ok(judged(observed, first_repr(self.prior, addr))),
                Look::Blocked(at, found) => Ok(blocked(at, found, self.declared_repr(addr))),
            },
        }
    }

    /// The document with an item set to its declared value.
    pub open spec fn written(self, addr: Seq<char>) -> Result<Tree, Failure> {
        match last_leaf(self.leaves, addr) {
            Some(leaf) => match leaf.place {
                Place::Key(path) => set_key(self.root, path, addr, leaf.value),
                Place::Element { path, repr } => add_element(self.root, path, repr, leaf.value),
            },
            None => if first_repr(self.prior, addr) is Some {
                Err(Failure::Invalid(addr + " is not declared"@))
            } else {
                Err(Failure::Invalid("no such item: "@ + addr))
            },
        }
    }

    /// The document with the value recorded for an item taken away.
    pub open spec fn withdrawn(self, addr: Seq<char>) -> Result<Tree, Failure> {
        match self.place(addr) {
            None => Err(Failure::Invalid("no such item: "@ + addr)),
            Some(place) => Ok(taken_away(self.root, place)),
        }
    }

    /// The same declaration and record over another document.
    pub open spec fn over(self, root: Tree) -> DocView {
        DocView { root, leaves: self.leaves, prior: self.prior }
    }
}

/// The document a text holds: an empty text is an empty document.
pub open spec fn opened(text: Seq<char>) -> Result<Tree, Seq<char>> {
    if blank(text) {
        Ok(Tree::Object(Seq::empty()))
    } else {
        parsed(text)
    }
}

/// Every item a well-formed declaration expands into is what it says.
pub proof fn lemma_leaves_sound(path: Path, value: Tree)
    requires
        well_formed(value),
    ensures
        forall|i: int|
            0 <= i < leaves(path, value).len() ==> (#[trigger] leaves(path, value)[i]).sound(),
    decreases value,
{
    match value {
        Tree::Object(e) => {
            if e.len() > 0 {
                lemma_entry_leaves_sound(path, e);
                assert(leaves(path, value) == entry_leaves(path, e));
            } else {
                assert(leaves(path, value) == seq![key_leaf(path, value)]);
            }
        },
        Tree::Array(a) => {
            if a.len() > 0 {
                let all = leaves(path, value);
                assert forall|i: int| 0 <= i < all.len() implies (#[trigger] all[i]).sound() by {
                    assert(all[i] == element_leaf(path, a[i]));
                }
            }
        },
        _ => {},
    }
}

proof fn lemma_entry_leaves_sound(path: Path, e: Entries)
    requires
        forall|i: int| 0 <= i < e.len() ==> well_formed((#[trigger] e[i]).1),
    ensures
        forall|i: int|
            0 <= i < entry_leaves(path, e).len() ==> (#[trigger] entry_leaves(path, e)[i]).sound(),
    decreases e,
{
    if e.len() > 0 {
        let head = e.drop_last();
        assert forall|i: int| 0 <= i < head.len() implies well_formed((#[trigger] head[i]).1) by {
            assert(well_formed(e[i].1));
        }
        lemma_entry_leaves_sound(path, head);
        lemma_leaves_sound(path.push(e.last().0), e.last().1);
        let before = entry_leaves(path, head);
        let here = leaves(path.push(e.last().0), e.last().1);
        let all = entry_leaves(path, e);
        assert forall|i: int| 0 <= i < all.len() implies (#[trigger] all[i]).sound() by {
            if i < before.len() {
                assert(all[i] == before[i]);
            } else {
                assert(all[i] == here[i - before.len()]);
            }
        }
    }
}

/// The last item declared at an address is declared there.
pub proof fn lemma_last_leaf(all: Seq<LeafView>, addr: Seq<char>)
    ensures
        match last_leaf(all, addr) {
            Some(leaf) => leaf.addr == addr && all.contains(leaf),
            None => forall|i: int| 0 <= i < all.len() ==> (#[trigger] all[i]).addr != addr,
        },
    decreases all.len(),
{
    if all.len() > 0 {
        let head = all.drop_last();
        lemma_last_leaf(head, addr);
        if all.last().addr == addr {
            assert(all[all.len() - 1] == all.last());
        } else {
            match last_leaf(head, addr) {
                Some(leaf) => {
                    let k = choose|k: int| 0 <= k < head.len() && head[k] == leaf;
                    assert(all[k] == leaf);
                },
                None => {
                    assert forall|i: int| 0 <= i < all.len() implies (#[trigger] all[i]).addr
                        != addr by {
                        if i < head.len() {
                            assert(all[i] == head[i]);
                        }
                    }
                },
            }
        }
    }
}

/// What is left of an array was in it, and is not what was taken away.
pub proof fn lemma_without(a: Seq<Tree>, repr: Seq<char>)
    ensures
        forall|i: int|
            0 <= i < without(a, repr).len() ==> a.contains(#[trigger] without(a, repr)[i])
                && canonical_form(without(a, repr)[i]) != repr,
    decreases a.len(),
{
    if a.len() > 0 {
        let head = a.drop_last();
        lemma_without(head, repr);
        let before = without(head, repr);
        let after = without(a, repr);
        assert forall|i: int| 0 <= i < after.len() implies a.contains(#[trigger] after[i])
            && canonical_form(after[i]) != repr by {
            if i < before.len() {
                assert(after[i] == before[i]);
                let k = choose|k: int| 0 <= k < head.len() && head[k] == before[i];
                assert(a[k] == after[i]);
            } else {
                assert(a[a.len() - 1] == after[i]);
            }
        }
    }
}

/// Writing a declared item keeps the document a JSON value.
pub proof fn lemma_written_ok(d: DocView, addr: Seq<char>)
    requires
        d.ok(),
        d.written(addr) is Ok,
    ensures
        d.over(d.written(addr)->Ok_0).ok(),
{
    lemma_last_leaf(d.leaves, addr);
    let leaf = last_leaf(d.leaves, addr)->0;
    assert(leaf.sound());
    let base = grounded(d.root);
    assert(well_formed(base));
    match leaf.place {
        Place::Key(path) => {
            lemma_planted_well_formed(base, path, 0, leaf.value);
        },
        Place::Element { path, repr } => {
            let a = elements_in(site(base, path, 0));
            if walk(base, path, 0) is Found {
                lemma_walk_well_formed(base, path, 0);
            }
            let more = a.push(leaf.value);
            assert forall|i: int| 0 <= i < more.len() implies well_formed(#[trigger] more[i]) by {
                if i < a.len() {
                    assert(well_formed(a[i]));
                }
            }
            lemma_planted_well_formed(base, path, 0, Tree::Array(more));
        },
    }
}

/// Withdrawing an item keeps the document a JSON value.
pub proof fn lemma_withdrawn_ok(d: DocView, addr: Seq<char>)
    requires
        d.ok(),
        d.withdrawn(addr) is Ok,
    ensures
        d.over(d.withdrawn(addr)->Ok_0).ok(),
{
    match d.place(addr)->0 {
        Place::Key(path) => {
            if path.len() > 0 {
                let head = path.drop_last();
                if let Walk::Found(Tree::Object(e)) = walk(d.root, head, 0) {
                    lemma_walk_well_formed(d.root, head, 0);
                    lemma_removed_well_formed(e, path.last());
                    lemma_planted_well_formed(
                        d.root,
                        head,
                        0,
                        Tree::Object(removed(e, path.last())),
                    );
                }
            }
        },
        Place::Element { path, repr } => {
            if let Walk::Found(Tree::Array(a)) = walk(d.root, path, 0) {
                lemma_walk_well_formed(d.root, path, 0);
                lemma_without(a, repr);
                let less = without(a, repr);
                assert forall|i: int| 0 <= i < less.len() implies well_formed(
                    #[trigger] less[i],
                ) by {
                    let k = choose|k: int| 0 <= k < a.len() && a[k] == less[i];
                    assert(well_formed(a[k]));
                }
                lemma_planted_well_formed(d.root, path, 0, Tree::Array(less));
            }
        },
    }
}

} // verus!
