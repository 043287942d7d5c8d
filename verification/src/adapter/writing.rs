//! What writing and withdrawing an item do to the document.
//!
//! The laws below say it by the values the document holds at its paths: a write
//! puts the declared value there as it was declared, an element goes to the end of
//! its array, and a withdrawal takes away one entry, or the elements of one
//! canonical form.

use crate::adapter::laws::{lemma_first_repr, path_of};
use crate::adapter::model::{
    first_repr, last_leaf, lemma_last_leaf, lemma_withdrawn_ok, lemma_written_ok, look, opened,
    without, DocView, LeafView,
};
use crate::adapter::path::{shown, Place};
use crate::canon::canonical_form;
use crate::error::Failure;
use crate::port::StateView;
use crate::runs::has_addr;
use crate::text::{law_a_blank_text_is_white_space, white_space};
use crate::tree::{
    apart, holds_at, law_a_walk_finds_what_is_there, law_a_walk_is_blocked_by_what_is_in_the_way,
    law_planting_sets_one_path, lemma_key_at, lemma_last_step, lemma_planted_apart, lemma_put,
    lemma_removed, lemma_walk_empty, lemma_walk_planted, lookup, part_at, planted, put, removed,
    walk, well_formed, Entries, Path, Tree, Walk,
};
use crate::value::parsed;
use vstd::prelude::*;

verus! {

/// Whether an item is the last one declared at its address.
pub open spec fn last_at(all: Seq<LeafView>, i: int) -> bool {
    0 <= i < all.len() && forall|j: int| i < j < all.len() ==> (#[trigger] all[j]).addr != all[i].addr
}

/// The last item declared at an address is the one that counts.
proof fn lemma_last_at(all: Seq<LeafView>, i: int)
    requires
        last_at(all, i),
    ensures
        last_leaf(all, all[i].addr) == Some(all[i]),
    decreases all.len(),
{
    if i < all.len() - 1 {
        let head = all.drop_last();
        assert(all[all.len() - 1].addr != all[i].addr);
        assert forall|j: int| i < j < head.len() implies (#[trigger] head[j]).addr
            != head[i].addr by {
            assert(all[j].addr != all[i].addr);
        }
        lemma_last_at(head, i);
    }
}

/// **Law.** An item at a key path is written as it was declared: the document then
/// holds that very value at the path.
pub proof fn law_a_write_sets_the_declared_value(d: DocView, i: int, path: Path)
    requires
        d.ok(),
        last_at(d.leaves, i),
        d.leaves[i].place == Place::Key(path),
        d.written(d.leaves[i].addr) is Ok,
    ensures
        holds_at(d.written(d.leaves[i].addr)->Ok_0, path, d.leaves[i].value),
{
    let leaf = d.leaves[i];
    lemma_last_at(d.leaves, i);
    lemma_written_ok(d, leaf.addr);
    let after = d.written(leaf.addr)->Ok_0;
    if path.len() > 0 {
        let base = if d.root is Null {
            Tree::Object(Seq::empty())
        } else {
            d.root
        };
        lemma_walk_planted(base, path, 0, leaf.value);
        law_a_walk_finds_what_is_there(after, path, leaf.value);
    }
}

/// **Law.** Writing at a path sets the last key of it in the object that holds it,
/// and keeps the order of the other keys there.
pub proof fn law_a_write_keeps_its_neighbours(d: DocView, i: int, path: Path, e: Entries)
    requires
        d.ok(),
        last_at(d.leaves, i),
        d.leaves[i].place == Place::Key(path),
        path.len() > 0,
        holds_at(d.root, path.drop_last(), Tree::Object(e)),
    ensures
        d.written(d.leaves[i].addr) is Ok,
        holds_at(
            d.written(d.leaves[i].addr)->Ok_0,
            path.drop_last(),
            Tree::Object(put(e, path.last(), d.leaves[i].value)),
        ),
{
    let leaf = d.leaves[i];
    let head = path.drop_last();
    let more = Tree::Object(put(e, path.last(), leaf.value));
    lemma_last_at(d.leaves, i);
    law_a_walk_finds_what_is_there(d.root, head, Tree::Object(e));
    lemma_last_step(d.root, path, 0, leaf.value);
    lemma_written_ok(d, leaf.addr);
    lemma_walk_planted(d.root, head, 0, more);
    law_a_walk_finds_what_is_there(d.written(leaf.addr)->Ok_0, head, more);
}

/// **Law.** An element goes to the end of its array, which is made where there is
/// none, and the document stays as it is where the array has the element already.
pub proof fn law_an_element_is_added_at_the_end(
    d: DocView,
    i: int,
    path: Path,
    repr: Seq<char>,
    a: Seq<Tree>,
)
    requires
        d.ok(),
        last_at(d.leaves, i),
        d.leaves[i].place == (Place::Element { path, repr }),
        d.written(d.leaves[i].addr) is Ok,
    ensures
        holds_at(d.root, path, Tree::Array(a)) && (exists|n: int|
            0 <= n < a.len() && canonical_form(#[trigger] a[n]) == repr) ==> d.written(
            d.leaves[i].addr,
        )->Ok_0 == d.root,
        holds_at(d.root, path, Tree::Array(a)) && !(exists|n: int|
            0 <= n < a.len() && canonical_form(#[trigger] a[n]) == repr) ==> holds_at(
            d.written(d.leaves[i].addr)->Ok_0,
            path,
            Tree::Array(a.push(d.leaves[i].value)),
        ),
        (forall|v: Tree| !#[trigger] holds_at(d.root, path, v)) ==> holds_at(
            d.written(d.leaves[i].addr)->Ok_0,
            path,
            Tree::Array(seq![d.leaves[i].value]),
        ),
{
    let leaf = d.leaves[i];
    lemma_last_at(d.leaves, i);
    lemma_written_ok(d, leaf.addr);
    let after = d.written(leaf.addr)->Ok_0;
    let base = if d.root is Null {
        Tree::Object(Seq::empty())
    } else {
        d.root
    };
    law_a_walk_finds_what_is_there(d.root, path, Tree::Array(a));
    if holds_at(d.root, path, Tree::Array(a)) {
        let more = Tree::Array(a.push(leaf.value));
        lemma_walk_planted(base, path, 0, more);
        law_a_walk_finds_what_is_there(after, path, more);
    }
    if forall|v: Tree| !#[trigger] holds_at(d.root, path, v) {
        let one = Tree::Array(seq![leaf.value]);
        if let Walk::Found(v) = walk(d.root, path, 0) {
            law_a_walk_finds_what_is_there(d.root, path, v);
            assert(holds_at(d.root, path, v));
        }
        lemma_walk_empty(path, 0);
        assert(Seq::<Tree>::empty().push(leaf.value) =~= seq![leaf.value]);
        lemma_walk_planted(base, path, 0, one);
        law_a_walk_finds_what_is_there(after, path, one);
    }
}

/// The document a write starts from: an object in place of a bare `null`.
pub open spec fn base_of(root: Tree) -> Tree {
    if root is Null {
        Tree::Object(Seq::empty())
    } else {
        root
    }
}

/// **Law.** A write leaves every other path alone: the document holds what it held at any
/// path apart from that of the item, the very value and no other. Nothing is held in a
/// bare `null` beforehand, so nothing but the item is held afterwards.
pub proof fn law_a_write_leaves_other_paths_alone(d: DocView, i: int, q: Path, w: Tree)
    requires
        d.ok(),
        last_at(d.leaves, i),
        d.written(d.leaves[i].addr) is Ok,
        apart(path_of(d.leaves[i].place), q),
    ensures
        holds_at(d.written(d.leaves[i].addr)->Ok_0, q, w) <==> holds_at(base_of(d.root), q, w),
{
    let leaf = d.leaves[i];
    let path = path_of(leaf.place);
    let base = base_of(d.root);
    lemma_last_at(d.leaves, i);
    assert(leaf.sound());
    lemma_walk_empty(path, 0);
    match leaf.place {
        Place::Key(_) => {
            law_planting_sets_one_path(base, path, leaf.value, q, w);
        },
        Place::Element { .. } => {
            let after = d.written(leaf.addr)->Ok_0;
            lemma_written_ok(d, leaf.addr);
            let k = choose|k: int| part_at(path, q, k);
            if let Walk::Found(Tree::Array(a)) = walk(base, path, 0) {
                lemma_planted_apart(base, path, q, 0, k, Tree::Array(a.push(leaf.value)));
            } else {
                let one = Seq::<Tree>::empty().push(leaf.value);
                lemma_planted_apart(base, path, q, 0, k, Tree::Array(one));
            }
            law_a_walk_finds_what_is_there(after, q, w);
            law_a_walk_finds_what_is_there(base, q, w);
        },
    }
}

/// **Law.** A withdrawal leaves every other path alone: the document holds what it held at
/// any path apart from that of the item.
pub proof fn law_a_withdrawal_leaves_other_paths_alone(
    d: DocView,
    addr: Seq<char>,
    place: Place,
    q: Path,
    w: Tree,
)
    requires
        d.ok(),
        d.place(addr) == Some(place),
        apart(path_of(place), q),
    ensures
        holds_at(d.withdrawn(addr)->Ok_0, q, w) <==> holds_at(d.root, q, w),
{
    let path = path_of(place);
    let after = d.withdrawn(addr)->Ok_0;
    lemma_withdrawn_ok(d, addr);
    law_a_walk_finds_what_is_there(after, q, w);
    law_a_walk_finds_what_is_there(d.root, q, w);
    let k = choose|k: int| part_at(path, q, k);
    match place {
        Place::Key(_) => {
            let head = path.drop_last();
            if let Walk::Found(Tree::Object(e)) = walk(d.root, head, 0) {
                let less = removed(e, path.last());
                if k < head.len() {
                    assert(part_at(head, q, k)) by {
                        assert forall|j: int| 0 <= j < k implies head[j] == q[j] by {
                            assert(path[j] == q[j]);
                        }
                        assert(head[k] == path[k]);
                    }
                    lemma_planted_apart(d.root, head, q, 0, k, Tree::Object(less));
                } else {
                    lemma_beside(d.root, head, q, 0, e, less, path.last());
                }
            }
        },
        Place::Element { repr, .. } => {
            if let Walk::Found(Tree::Array(a)) = walk(d.root, path, 0) {
                lemma_planted_apart(
                    d.root,
                    path,
                    q,
                    0,
                    k,
                    Tree::Array(without(a, repr)),
                );
            }
        },
    }
}

/// Taking one key away from an object leaves what the others lead to.
proof fn lemma_beside(
    t: Tree,
    head: Path,
    q: Path,
    i: int,
    e: Entries,
    less: Entries,
    key: Seq<char>,
)
    requires
        0 <= i <= head.len() < q.len(),
        well_formed(t),
        walk(t, head, i) == Walk::Found(Tree::Object(e)),
        less == removed(e, key),
        q[head.len() as int] != key,
        forall|j: int| 0 <= j < head.len() ==> head[j] == q[j],
    ensures
        walk(planted(t, head, i, Tree::Object(less)), q, i) == walk(t, q, i),
    decreases head.len() - i,
{
    if i == head.len() {
        lemma_removed(e, key, q[i]);
    } else {
        let f = t->Object_0;
        assert(head[i] == q[i]);
        let child = lookup(f, head[i])->0;
        lemma_key_at(f, head[i]);
        lemma_beside(child, head, q, i + 1, e, less, key);
        lemma_put(f, head[i], planted(child, head, i + 1, Tree::Object(less)), q[i]);
    }
}

/// **Law.** A write succeeds where nothing is in the way of the item, and only
/// there. The document itself can always be written, but not an element of it. A
/// bare `null` is no document to write into, so it is in nobody's way.
pub proof fn law_a_write_succeeds_where_nothing_is_in_the_way(d: DocView, i: int)
    requires
        d.ok(),
        last_at(d.leaves, i),
    ensures
        ({
            let place = d.leaves[i].place;
            d.written(d.leaves[i].addr) is Ok <==> if path_of(place).len() == 0 {
                place is Key
            } else {
                d.root is Null || look(d.root, place) is Seen
            }
        }),
{
    let leaf = d.leaves[i];
    lemma_last_at(d.leaves, i);
    lemma_walk_empty(path_of(leaf.place), 0);
}

/// **Law.** A write that fails says what is in the way: the value at the part of the path
/// that leads to it, which is not an object, or the value at the whole path, which is not
/// an array.
pub proof fn law_a_failed_write_says_what_is_in_the_way(d: DocView, i: int, n: int, v: Tree)
    requires
        d.ok(),
        !(d.root is Null),
        last_at(d.leaves, i),
        0 <= n <= path_of(d.leaves[i].place).len(),
        holds_at(d.root, path_of(d.leaves[i].place).take(n), v),
        !(v is Object),
    ensures
        ({
            let leaf = d.leaves[i];
            let path = path_of(leaf.place);
            let at = shown(path.take(n));
            let said = d.written(leaf.addr);
            &&& n < path.len() - 1 ==> said == Err::<Tree, Failure>(
                Failure::Invalid(
                    "cannot descend into `"@ + shown(path.take(n + 1)) + "`: "@ + at
                        + " is not an object"@,
                ),
            )
            &&& n == path.len() - 1 && leaf.place is Key ==> said == Err::<Tree, Failure>(
                Failure::Invalid(
                    "cannot write `"@ + leaf.addr + "`: `"@ + at + "` is not an object"@,
                ),
            )
            &&& n == path.len() - 1 && leaf.place is Element ==> said == Err::<Tree, Failure>(
                Failure::Invalid("cannot write into `"@ + at + "`: it is not an object"@),
            )
            &&& n == path.len() && path.len() > 0 && leaf.place is Element && !(v is Array)
                ==> said == Err::<Tree, Failure>(
                Failure::Invalid("cannot add to `"@ + at + "`: it is not an array"@),
            )
            &&& path.len() == 0 && leaf.place is Element ==> said == Err::<Tree, Failure>(
                Failure::Invalid("the document root cannot be an array element"@),
            )
        }),
{
    let leaf = d.leaves[i];
    let path = path_of(leaf.place);
    lemma_last_at(d.leaves, i);
    if n < path.len() {
        law_a_walk_is_blocked_by_what_is_in_the_way(d.root, path, n, v);
        if n == path.len() - 1 {
            assert(path.take(n) =~= path.drop_last());
        }
    } else {
        assert(path.take(n) =~= path);
        law_a_walk_finds_what_is_there(d.root, path, v);
    }
}

/// **Law.** What is no item is named: an address that is neither declared nor recorded
/// cannot be read, written or withdrawn, and one that is only recorded cannot be written.
pub proof fn law_what_is_no_item_is_named(d: DocView, addr: Seq<char>)
    requires
        forall|i: int| 0 <= i < d.leaves.len() ==> (#[trigger] d.leaves[i]).addr != addr,
    ensures
        !has_addr(d.prior, addr) ==> {
            let said = Failure::Invalid("no such item: "@ + addr);
            &&& d.state(addr) == Err::<StateView, Failure>(said)
            &&& d.written(addr) == Err::<Tree, Failure>(said)
            &&& d.withdrawn(addr) == Err::<Tree, Failure>(said)
        },
        has_addr(d.prior, addr) ==> d.written(addr) == Err::<Tree, Failure>(
            Failure::Invalid(addr + " is not declared"@),
        ),
{
    lemma_last_leaf(d.leaves, addr);
    lemma_first_repr(d.prior, addr);
    if last_leaf(d.leaves, addr) is Some {
        let i = choose|i: int|
            0 <= i < d.leaves.len() && d.leaves[i] == last_leaf(d.leaves, addr)->0;
        assert(d.leaves[i].addr == addr);
    }
    if has_addr(d.prior, addr) && first_repr(d.prior, addr) is None {
        assert(false);
    }
}

/// The elements that are not of a canonical form.
proof fn lemma_without_is_filter(a: Seq<Tree>, repr: Seq<char>)
    ensures
        without(a, repr) == a.filter(|v: Tree| canonical_form(v) != repr),
    decreases a.len(),
{
    reveal(Seq::filter);
    if a.len() > 0 {
        lemma_without_is_filter(a.drop_last(), repr);
    }
}

/// **Law.** Withdrawing an item takes it away and nothing beside it: the entry for
/// the last key of its path, or the elements of its canonical form, the others
/// staying in their order. Withdrawing the document leaves an empty object.
pub proof fn law_a_withdrawal_takes_one_item_away(
    d: DocView,
    addr: Seq<char>,
    place: Place,
    e: Entries,
    a: Seq<Tree>,
)
    requires
        d.ok(),
        d.place(addr) == Some(place),
    ensures
        d.withdrawn(addr) is Ok,
        match place {
            Place::Key(path) => if path.len() == 0 {
                d.withdrawn(addr)->Ok_0 == Tree::Object(Seq::empty())
            } else {
                &&& holds_at(d.root, path.drop_last(), Tree::Object(e)) ==> holds_at(
                    d.withdrawn(addr)->Ok_0,
                    path.drop_last(),
                    Tree::Object(removed(e, path.last())),
                )
                &&& (forall|f: Entries|
                    !#[trigger] holds_at(d.root, path.drop_last(), Tree::Object(f)))
                    ==> d.withdrawn(addr)->Ok_0 == d.root
            },
            Place::Element { path, repr } => {
                &&& holds_at(d.root, path, Tree::Array(a)) ==> holds_at(
                    d.withdrawn(addr)->Ok_0,
                    path,
                    Tree::Array(a.filter(|v: Tree| canonical_form(v) != repr)),
                )
                &&& (forall|b: Seq<Tree>| !#[trigger] holds_at(d.root, path, Tree::Array(b)))
                    ==> d.withdrawn(addr)->Ok_0 == d.root
            },
        },
{
    lemma_withdrawn_ok(d, addr);
    let after = d.withdrawn(addr)->Ok_0;
    match place {
        Place::Key(path) => {
            if path.len() > 0 {
                let head = path.drop_last();
                law_a_walk_finds_what_is_there(d.root, head, Tree::Object(e));
                if holds_at(d.root, head, Tree::Object(e)) {
                    let less = Tree::Object(removed(e, path.last()));
                    lemma_walk_planted(d.root, head, 0, less);
                    law_a_walk_finds_what_is_there(after, head, less);
                }
                if let Walk::Found(Tree::Object(f)) = walk(d.root, head, 0) {
                    law_a_walk_finds_what_is_there(d.root, head, Tree::Object(f));
                    assert(holds_at(d.root, head, Tree::Object(f)));
                }
            } else {
                assert(path =~= Seq::empty());
            }
        },
        Place::Element { path, repr } => {
            law_a_walk_finds_what_is_there(d.root, path, Tree::Array(a));
            if holds_at(d.root, path, Tree::Array(a)) {
                let less = Tree::Array(without(a, repr));
                lemma_without_is_filter(a, repr);
                lemma_walk_planted(d.root, path, 0, less);
                law_a_walk_finds_what_is_there(after, path, less);
            }
            if let Walk::Found(Tree::Array(b)) = walk(d.root, path, 0) {
                law_a_walk_finds_what_is_there(d.root, path, Tree::Array(b));
                assert(holds_at(d.root, path, Tree::Array(b)));
            }
        },
    }
}

/// **Law.** A target of nothing but white space is an empty document, and any other
/// is what it is read as.
pub proof fn law_a_target_is_what_it_is_read_as(text: Seq<char>)
    ensures
        (forall|i: int| 0 <= i < text.len() ==> white_space(#[trigger] text[i])) ==> opened(text)
            == Ok::<Tree, Seq<char>>(Tree::Object(Seq::empty())),
        !(forall|i: int| 0 <= i < text.len() ==> white_space(#[trigger] text[i])) ==> opened(text)
            == parsed(text),
{
    law_a_blank_text_is_white_space(text);
}

} // verus!
