//! What a declaration asks for, item by item.
//!
//! A declaration asks for every scalar and every empty container it holds, at the
//! path it holds it at, and for every element of the arrays it holds. The laws
//! below say that it expands into an item for each of these and into no other,
//! in the order in which it lists them.

use crate::adapter::model::{element_leaf, entry_leaves, key_leaf, leaves, LeafView};
use crate::adapter::path::{shown, Place};
use crate::canon::canonical_form;
use crate::tree::{holds_at, Entries, Path, Tree};
use vstd::prelude::*;

verus! {

/// A value with nothing in it to be declared on its own: a scalar, or an empty
/// array or object.
pub open spec fn single(v: Tree) -> bool {
    match v {
        Tree::Array(a) => a.len() == 0,
        Tree::Object(e) => e.len() == 0,
        _ => true,
    }
}

/// What an entry of an object expands into is among the items of the object.
proof fn lemma_entry_expanded(path: Path, e: Entries, k: int, leaf: LeafView)
    requires
        0 <= k < e.len(),
        leaves(path.push(e[k].0), e[k].1).contains(leaf),
    ensures
        entry_leaves(path, e).contains(leaf),
    decreases e.len(),
{
    let head = e.drop_last();
    let before = entry_leaves(path, head);
    let here = leaves(path.push(e.last().0), e.last().1);
    let all = entry_leaves(path, e);
    assert(all == before + here);
    if k == e.len() - 1 {
        let i = choose|i: int| 0 <= i < here.len() && here[i] == leaf;
        assert(all[before.len() + i] == leaf);
    } else {
        assert(head[k] == e[k]);
        lemma_entry_expanded(path, head, k, leaf);
        let i = choose|i: int| 0 <= i < before.len() && before[i] == leaf;
        assert(all[i] == leaf);
    }
}

/// **Law.** Nothing declared is lost: for every scalar and every empty container
/// that a declaration holds there is an item, at that path below the key.
pub proof fn law_every_value_is_declared(key: Path, declaration: Tree, q: Path, v: Tree)
    requires
        holds_at(declaration, q, v),
        single(v),
    ensures
        exists|i: int|
            0 <= i < leaves(key, declaration).len() && (#[trigger] leaves(key, declaration)[i]).place
                == Place::Key(key + q) && leaves(key, declaration)[i].value == v,
    decreases q.len(),
{
    let leaf = lemma_value_declared(key, declaration, q, v);
    let all = leaves(key, declaration);
    let i = choose|i: int| 0 <= i < all.len() && all[i] == leaf;
    assert(all[i].place == Place::Key(key + q) && all[i].value == v);
}

proof fn lemma_value_declared(key: Path, declaration: Tree, q: Path, v: Tree) -> (leaf: LeafView)
    requires
        holds_at(declaration, q, v),
        single(v),
    ensures
        leaf == key_leaf(key + q, v),
        leaves(key, declaration).contains(leaf),
    decreases q.len(),
{
    let leaf = key_leaf(key + q, v);
    if q.len() == 0 {
        assert(key + q =~= key);
        assert(leaves(key, declaration) =~= seq![leaf]);
        assert(leaves(key, declaration)[0] == leaf);
    } else {
        let e = declaration->Object_0;
        let k = choose|k: int|
            0 <= k < e.len() && (#[trigger] e[k]).0 == q[0] && holds_at(e[k].1, q.drop_first(), v);
        assert(key + q =~= key.push(q[0]) + q.drop_first());
        lemma_value_declared(key.push(q[0]), e[k].1, q.drop_first(), v);
        lemma_entry_expanded(key, e, k, leaf);
    }
    leaf
}

/// **Law.** No element is lost: for every element of an array that a declaration
/// holds there is an item for that element of the array at that path.
pub proof fn law_every_element_is_declared(
    key: Path,
    declaration: Tree,
    q: Path,
    a: Seq<Tree>,
    n: int,
)
    requires
        holds_at(declaration, q, Tree::Array(a)),
        0 <= n < a.len(),
    ensures
        exists|i: int|
            0 <= i < leaves(key, declaration).len() && (#[trigger] leaves(key, declaration)[i]).place
                == (Place::Element { path: key + q, repr: canonical_form(a[n]) }) && leaves(
                key,
                declaration,
            )[i].value == a[n],
{
    let leaf = lemma_element_declared(key, declaration, q, a, n);
    let all = leaves(key, declaration);
    let i = choose|i: int| 0 <= i < all.len() && all[i] == leaf;
    assert(all[i].place == (Place::Element { path: key + q, repr: canonical_form(a[n]) }));
}

proof fn lemma_element_declared(
    key: Path,
    declaration: Tree,
    q: Path,
    a: Seq<Tree>,
    n: int,
) -> (leaf: LeafView)
    requires
        holds_at(declaration, q, Tree::Array(a)),
        0 <= n < a.len(),
    ensures
        leaf == element_leaf(key + q, a[n]),
        leaves(key, declaration).contains(leaf),
    decreases q.len(),
{
    let leaf = element_leaf(key + q, a[n]);
    if q.len() == 0 {
        assert(key + q =~= key);
        assert(leaves(key, declaration)[n] == leaf);
    } else {
        let e = declaration->Object_0;
        let k = choose|k: int|
            0 <= k < e.len() && (#[trigger] e[k]).0 == q[0] && holds_at(
                e[k].1,
                q.drop_first(),
                Tree::Array(a),
            );
        assert(key + q =~= key.push(q[0]) + q.drop_first());
        lemma_element_declared(key.push(q[0]), e[k].1, q.drop_first(), a, n);
        lemma_entry_expanded(key, e, k, leaf);
    }
    leaf
}

/// Where in a declaration an item comes from: the path to its value, or to the
/// array its value is an element of.
pub open spec fn declared_at(key: Path, declaration: Tree, leaf: LeafView, q: Path) -> bool {
    match leaf.place {
        Place::Key(path) => path == key + q && single(leaf.value) && holds_at(
            declaration,
            q,
            leaf.value,
        ),
        Place::Element { path, repr } => path == key + q && repr == canonical_form(leaf.value)
            && exists|a: Seq<Tree>|
            a.contains(leaf.value) && #[trigger] holds_at(declaration, q, Tree::Array(a)),
    }
}

/// **Law.** Nothing is declared that a declaration does not hold: every item is a
/// scalar or an empty container of it, or an element of an array of it.
pub proof fn law_nothing_else_is_declared(key: Path, declaration: Tree, i: int)
    requires
        0 <= i < leaves(key, declaration).len(),
    ensures
        exists|q: Path| #[trigger] declared_at(key, declaration, leaves(key, declaration)[i], q),
    decreases declaration, 1int,
{
    let all = leaves(key, declaration);
    let none: Path = Seq::empty();
    assert(key + none =~= key);
    match declaration {
        Tree::Object(e) => {
            if e.len() > 0 {
                lemma_nothing_else_in_entries(key, e, i);
                let (k, q) = choose|k: int, q: Path|
                    0 <= k < e.len() && #[trigger] declared_at(key.push(e[k].0), e[k].1, all[i], q);
                let whole = seq![e[k].0] + q;
                assert(key + whole =~= key.push(e[k].0) + q);
                lemma_holds_below(e, k, q, all[i].value);
                if let Place::Element { path, repr } = all[i].place {
                    let a = choose|a: Seq<Tree>|
                        a.contains(all[i].value) && #[trigger] holds_at(
                            e[k].1,
                            q,
                            Tree::Array(a),
                        );
                    lemma_holds_below(e, k, q, Tree::Array(a));
                    assert(holds_at(declaration, whole, Tree::Array(a)));
                }
                assert(declared_at(key, declaration, all[i], whole));
            } else {
                assert(all == seq![key_leaf(key, declaration)]);
                assert(declared_at(key, declaration, all[i], none));
            }
        },
        Tree::Array(a) => {
            if a.len() > 0 {
                assert(all[i] == element_leaf(key, a[i]));
                assert(a.contains(a[i]));
                assert(holds_at(declaration, none, Tree::Array(a)));
            } else {
                assert(all == seq![key_leaf(key, declaration)]);
            }
            assert(declared_at(key, declaration, all[i], none));
        },
        _ => {
            assert(declared_at(key, declaration, all[i], none));
        },
    }
}

/// What an entry of an object holds, the object holds one key further down.
proof fn lemma_holds_below(e: Entries, k: int, q: Path, v: Tree)
    requires
        0 <= k < e.len(),
    ensures
        holds_at(e[k].1, q, v) ==> holds_at(Tree::Object(e), seq![e[k].0] + q, v),
{
    let whole = seq![e[k].0] + q;
    assert(whole.drop_first() =~= q);
    assert(whole[0] == e[k].0);
    let t = Tree::Object(e);
    assert(t->Object_0[k] == e[k]);
}

proof fn lemma_nothing_else_in_entries(key: Path, e: Entries, i: int)
    requires
        0 <= i < entry_leaves(key, e).len(),
    ensures
        exists|k: int, q: Path|
            0 <= k < e.len() && #[trigger] declared_at(
                key.push(e[k].0),
                e[k].1,
                entry_leaves(key, e)[i],
                q,
            ),
    decreases e, 0int,
{
    let head = e.drop_last();
    let before = entry_leaves(key, head);
    let here = leaves(key.push(e.last().0), e.last().1);
    let all = entry_leaves(key, e);
    assert(all == before + here);
    if i < before.len() {
        lemma_nothing_else_in_entries(key, head, i);
        let (k, q) = choose|k: int, q: Path|
            0 <= k < head.len() && #[trigger] declared_at(
                key.push(head[k].0),
                head[k].1,
                before[i],
                q,
            );
        assert(head[k] == e[k]);
        assert(declared_at(key.push(e[k].0), e[k].1, all[i], q));
    } else {
        let k = e.len() - 1;
        assert(decreases_to!(e => e[k]));
        assert(decreases_to!(e[k] => e[k].1));
        law_nothing_else_is_declared(key.push(e[k].0), e[k].1, i - before.len());
        let q = choose|q: Path| #[trigger]
            declared_at(key.push(e[k].0), e[k].1, here[i - before.len()], q);
        assert(declared_at(key.push(e[k].0), e[k].1, all[i], q));
    }
}

/// **Law.** The items stand in declaration order: those of the first entries of an
/// object before those of the others, and the elements of an array in their order.
/// A single value is a single item.
pub proof fn law_items_stand_in_declaration_order(
    key: Path,
    first: Entries,
    others: Entries,
    a: Seq<Tree>,
    n: int,
    v: Tree,
)
    ensures
        first.len() > 0 && others.len() > 0 ==> leaves(key, Tree::Object(first + others)) == leaves(
            key,
            Tree::Object(first),
        ) + leaves(key, Tree::Object(others)),
        others.len() == 1 ==> leaves(key, Tree::Object(others)) == leaves(
            key.push(others[0].0),
            others[0].1,
        ),
        a.len() > 0 ==> leaves(key, Tree::Array(a)).len() == a.len(),
        0 <= n < a.len() ==> leaves(key, Tree::Array(a))[n].value == a[n],
        single(v) ==> leaves(key, v).len() == 1,
{
    lemma_entries_in_order(key, first, others);
    if others.len() == 1 {
        assert(entry_leaves(key, others.drop_last()) =~= Seq::empty());
        assert(leaves(key, Tree::Object(others)) =~= leaves(
            key.push(others[0].0),
            others[0].1,
        ));
    }
    if 0 <= n < a.len() {
        assert(leaves(key, Tree::Array(a))[n] == element_leaf(key, a[n]));
    }
}

proof fn lemma_entries_in_order(key: Path, first: Entries, others: Entries)
    ensures
        entry_leaves(key, first + others) == entry_leaves(key, first) + entry_leaves(key, others),
    decreases others.len(),
{
    if others.len() == 0 {
        assert(first + others =~= first);
        assert(entry_leaves(key, first) + entry_leaves(key, others) =~= entry_leaves(key, first));
    } else {
        lemma_entries_in_order(key, first, others.drop_last());
        assert((first + others).drop_last() =~= first + others.drop_last());
        assert(entry_leaves(key, first + others) =~= entry_leaves(key, first) + entry_leaves(
            key,
            others,
        ));
    }
}

/// **Law.** An item is known by where it is: a value by its dotted path, an element
/// by the path of its array with a tag behind it. Its repr is the canonical form of
/// its value, and the tag goes by that repr alone.
pub proof fn law_an_item_is_addressed_by_its_place(
    key: Path,
    declaration: Tree,
    i: int,
    other_key: Path,
    other: Tree,
    j: int,
)
    requires
        0 <= i < leaves(key, declaration).len(),
        0 <= j < leaves(other_key, other).len(),
    ensures
        ({
            let a = leaves(key, declaration)[i];
            let b = leaves(other_key, other)[j];
            &&& a.repr == canonical_form(a.value)
            &&& a.place matches Place::Key(path) ==> a.addr == shown(path)
            &&& a.place matches Place::Element { path, repr } ==> {
                &&& repr == a.repr
                &&& a.addr.len() > shown(path).len() + 2
                &&& a.addr.take(shown(path).len() as int + 2) == shown(path) + seq!['[', '#']
                &&& a.addr.last() == ']'
            }
            &&& a.place == b.place ==> a.addr == b.addr
        }),
{
    lemma_addressed(key, declaration, i);
    lemma_addressed(other_key, other, j);
}

proof fn lemma_addressed(key: Path, declaration: Tree, i: int)
    requires
        0 <= i < leaves(key, declaration).len(),
    ensures
        ({
            let leaf = leaves(key, declaration)[i];
            match leaf.place {
                Place::Key(path) => leaf == key_leaf(path, leaf.value),
                Place::Element { path, repr } => leaf == element_leaf(path, leaf.value)
                    && leaf.addr.len() > shown(path).len() + 2 && leaf.addr.take(
                    shown(path).len() as int + 2,
                ) == shown(path) + seq!['[', '#'] && leaf.addr.last() == ']',
            }
        }),
    decreases declaration, 1int,
{
    let all = leaves(key, declaration);
    match declaration {
        Tree::Object(e) => {
            if e.len() > 0 {
                lemma_entries_addressed(key, e, i);
            } else {
                assert(all == seq![key_leaf(key, declaration)]);
            }
        },
        Tree::Array(a) => {
            if a.len() > 0 {
                assert(all[i] == element_leaf(key, a[i]));
                assert(all[i].addr.take(shown(key).len() as int + 2) =~= shown(key) + seq![
                    '[',
                    '#',
                ]);
            }
        },
        _ => {},
    }
}

proof fn lemma_entries_addressed(key: Path, e: Entries, i: int)
    requires
        0 <= i < entry_leaves(key, e).len(),
    ensures
        ({
            let leaf = entry_leaves(key, e)[i];
            match leaf.place {
                Place::Key(path) => leaf == key_leaf(path, leaf.value),
                Place::Element { path, repr } => leaf == element_leaf(path, leaf.value)
                    && leaf.addr.len() > shown(path).len() + 2 && leaf.addr.take(
                    shown(path).len() as int + 2,
                ) == shown(path) + seq!['[', '#'] && leaf.addr.last() == ']',
            }
        }),
    decreases e, 0int,
{
    let before = entry_leaves(key, e.drop_last());
    let k = e.len() - 1;
    let here = leaves(key.push(e[k].0), e[k].1);
    assert(entry_leaves(key, e) == before + here);
    if i < before.len() {
        lemma_entries_addressed(key, e.drop_last(), i);
    } else {
        assert(decreases_to!(e => e[k]));
        assert(decreases_to!(e[k] => e[k].1));
        lemma_addressed(key.push(e[k].0), e[k].1, i - before.len());
    }
}

} // verus!
