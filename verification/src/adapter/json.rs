//! JSON documents, addressed by key path.
//!
//! A declaration is a JSON value, and it expands into one item per leaf. An
//! object contributes an item per key, recursively; an array contributes an item
//! per element; anything else is a single item. So this declaration
//!
//! ```json
//! { "env": { "EDITOR": "hx" }, "permissions": { "deny": ["rm", "dd"] } }
//! ```
//!
//! declares three items, and each is decided on separately. Adding a key to the
//! declaration therefore has no bearing on any other key, and a disagreement
//! about one value never blocks the rest.
//!
//! # Arrays are sets
//!
//! List-valued settings are combined across configuration layers by the programs
//! that read them, so an element is a membership statement rather than a
//! position: declaring `["rm"]` says *`rm` should be denied*, not *the deny list
//! should be exactly this*. Elements are therefore addressed by value and never
//! by index.
//!
//! Because an element's value *is* its identity, an element can only be present
//! or absent. It cannot be found changed, which is why a changed element reads
//! as one item withdrawn and another added.
//!
//! # Canonical form
//!
//! Values are compared as JSON text with object keys sorted recursively. The
//! other program may rewrite the document with its keys in a different order,
//! and that is not a change to the value; comparing the text as written would
//! report it as one. Sorting is for comparison only: a value is always written
//! from the declaration, so the declaration's own key order is what lands in the
//! file.

use crate::adapter::model::{
    add_element, blocked, descend_message, element_leaf, elements_in, entry_leaves, first_repr,
    grounded, holds, key_leaf, kind_name, last_leaf, leaves, lemma_leaves_sound, lemma_withdrawn_ok,
    lemma_written_ok, no_array, opened, set_key, taken_away, without, DocView, LeafView,
};
use crate::adapter::path::{copy_path, element_addr, parse_addr, shown, Locator, Place};
use crate::canon::canonical_form;
use crate::error::{Error, Failure};
use crate::layout::pretty_text;
use crate::policy::optional_repr;
use crate::port::{
    copy_items, item_views, Addr, Item, ItemView, Observed, Output, OutputView, Ownership, Repr,
    State, StateView, Store,
};
use crate::text::{blank, concat, is_blank, lemma_not_blank, texts};
use crate::tree::{
    lemma_blocked, lemma_key_at, lemma_last_step, lemma_planted_same, lemma_walk_empty, planted,
    put, site, walk, well_formed, Tree, Walk,
};
use crate::value::{
    canonical_text, entries_of, lemma_array_view, lemma_object_view, nesting_limit, position, read,
    reads_as, reads_back, remove_entry, render, set_entry, trees, Json,
};
use vstd::prelude::*;
use vstd::slice::slice_subrange;
use vstd::string::*;

pub use crate::adapter::path::{display_path, split_path};

verus! {

/// Read the value at `segs`, if every segment exists and is reachable.
pub fn get_path<'a>(root: &'a Json, segs: &[String]) -> (r: Option<&'a Json>)
    ensures
        match r {
            Some(v) => walk(root@, texts(segs@), 0) == Walk::Found(v@),
            None => !(walk(root@, texts(segs@), 0) is Found),
        },
{
    match resolve(root, segs) {
        Resolved::Found(v) => Some(v),
        _ => None,
    }
}

/// The canonical form of a value: JSON text with object keys sorted recursively.
pub fn canonical(v: &Json) -> (r: Repr)
    ensures
        r@ == canonical_form(v@),
{
    Repr::new(canonical_text(v))
}

/// Where a walk down a key path ended.
pub enum Resolved<'a> {
    /// The path exists and holds this value.
    Found(&'a Json),
    /// A segment along the way is missing.
    Absent,
    /// A value along the way is not an object, so the path cannot continue.
    Blocked {
        /// The path of the offending value.
        at: String,
        /// What was found there instead of an object.
        found: &'a Json,
    },
}

/// Walk to the container holding `segs`, reporting where the path stops.
pub fn resolve<'a>(root: &'a Json, segs: &[String]) -> (r: Resolved<'a>)
    ensures
        match (r, walk(root@, texts(segs@), 0)) {
            (Resolved::Found(v), Walk::Found(t)) => v@ == t,
            (Resolved::Absent, Walk::Absent) => true,
            (Resolved::Blocked { at, found }, Walk::Blocked(i, t)) => {
                &&& 0 <= i < segs@.len()
                &&& found@ == t
                &&& at@ == shown(texts(segs@).take(i))
            },
            _ => false,
        },
{
    let ghost path = texts(segs@);
    let mut cur = root;
    let mut i: usize = 0;
    while i < segs.len()
        invariant
            i <= segs@.len(),
            path == texts(segs@),
            walk(root@, path, 0) == walk(cur@, path, i as int),
        decreases segs@.len() - i,
    {
        let entries = match cur {
            Json::Object(entries) => entries,
            _ => {
                let before = slice_subrange(segs, 0, i);
                assert(texts(before@) =~= path.take(i as int));
                return Resolved::Blocked { at: display_path(before), found: cur };
            },
        };
        proof {
            lemma_object_view(*cur);
        }
        match position(entries, &segs[i]) {
            Some(k) => {
                assert(entries_of(entries@)[k as int].1 == entries@[k as int].1@);
                cur = &entries[k].1;
            },
            None => {
                return Resolved::Absent;
            },
        }
        i += 1;
    }
    Resolved::Found(cur)
}

/// The kind of a value, in words.
fn kind_of(v: &Json) -> (s: &'static str)
    ensures
        s@ == kind_name(v@),
{
    match v {
        Json::Null => "null",
        Json::Bool(_) => "a bool",
        Json::Number(_) => "a number",
        Json::String(_) => "a string",
        Json::Array(_) => "an array",
        Json::Object(_) => "an object",
    }
}

/// A value that blocks a path is reported as a disagreement about that value,
/// not as a failure, and never as agreement with what is declared: one that equals
/// the declared value is reported together with the path it is at.
fn blocked_state(at: &str, found: &Json, declared: Option<&Repr>) -> (s: State)
    ensures
        s@ == blocked(at@, found@, optional_repr(declared)),
{
    let mut note = "`".to_owned();
    note.append(at);
    note.append("` is ");
    note.append(kind_of(found));
    note.append(", so the path cannot be followed");
    let mut observed = canonical(found);
    if let Some(d) = declared {
        if d.same(&observed) {
            let m: Vec<(String, Json)> = vec![(at.to_owned(), found.clone())];
            let whole = Json::Object(m);
            proof {
                lemma_object_view(whole);
                assert(entries_of(whole->Object_0@) =~= seq![(at@, found@)]);
            }
            observed = canonical(&whole);
        }
    }
    State::new(Observed::Present(observed), Ownership::Unknown).with_note(note)
}

/// Go down `segs[i..]` from `cur`, making the objects that are missing. Where a
/// value is in the way, the number of steps to it is handed back.
fn descend<'a>(cur: &'a mut Json, segs: &[String], i: usize) -> (r: Result<&'a mut Json, usize>)
    requires
        i <= segs@.len(),
    ensures
        match r {
            Ok(node) => {
                &&& !(walk(old(cur)@, texts(segs@), i as int) is Blocked)
                &&& node@ == site(old(cur)@, texts(segs@), i as int)
                &&& final(cur)@ == planted(old(cur)@, texts(segs@), i as int, final(node)@)
            },
            Err(n) => {
                &&& walk(old(cur)@, texts(segs@), i as int) is Blocked
                &&& walk(old(cur)@, texts(segs@), i as int)->Blocked_0 == n
                &&& i <= n < segs@.len()
                &&& final(cur)@ == old(cur)@
            },
        },
    decreases segs@.len() - i,
{
    let ghost path = texts(segs@);
    let ghost before = *cur;
    if i == segs.len() {
        return Ok(cur);
    }
    match cur {
        Json::Object(entries) => {
            proof {
                lemma_object_view(before);
            }
            let ghost was = entries_of(entries@);
            let k: usize = match position(entries, &segs[i]) {
                Some(k) => {
                    assert(was[k as int].1 == entries@[k as int].1@);
                    k
                },
                None => {
                    let fresh = Json::Object(Vec::new());
                    proof {
                        lemma_object_view(fresh);
                        assert(fresh@->Object_0 =~= Seq::empty());
                    }
                    entries.push((segs[i].clone(), fresh));
                    entries.len() - 1
                },
            };
            proof {
                lemma_key_at(was, path[i as int]);
            }
            let ghost now = entries@;
            assert forall|m: Vec<(String, Json)>|
                m@.len() == now.len() && (forall|j: int|
                    0 <= j < now.len() && j != k ==> #[trigger] m@[j] == now[j]) && m@[k as int].0
                    == now[k as int].0 implies (#[trigger] Json::Object(m)@) == Tree::Object(
                put(was, path[i as int], m@[k as int].1@),
            ) by {
                lemma_object_view(Json::Object(m));
                assert(entries_of(m@) =~= put(was, path[i as int], m@[k as int].1@));
            }
            descend(&mut entries[k].1, segs, i + 1)
        },
        _ => Err(i),
    }
}

/// Borrow the container at `segs`, creating missing objects along the way.
///
/// A value that is not an object encountered on the way down is an error rather
/// than something to replace: replacing it would discard the other program's
/// data, which is the one thing this crate never does. Reaching this is not
/// expected, because such a path reads as [`Resolved::Blocked`] and is refused
/// before any write.
pub fn ensure_path<'a>(root: &'a mut Json, segs: &[String]) -> (r: Result<&'a mut Json, Error>)
    ensures
        match r {
            Ok(node) => {
                &&& !(walk(grounded(old(root)@), texts(segs@), 0) is Blocked)
                &&& node@ == site(grounded(old(root)@), texts(segs@), 0)
                &&& final(root)@ == planted(grounded(old(root)@), texts(segs@), 0, final(node)@)
            },
            Err(e) => {
                &&& walk(grounded(old(root)@), texts(segs@), 0) is Blocked
                &&& e@ == Failure::Invalid(
                    descend_message(
                        texts(segs@),
                        walk(grounded(old(root)@), texts(segs@), 0)->Blocked_0,
                    ),
                )
                &&& final(root)@ == old(root)@
            },
        },
{
    let ghost path = texts(segs@);
    if matches!(root, Json::Null) {
        *root = Json::Object(Vec::new());
        proof {
            lemma_object_view(*root);
            assert(root@->Object_0 =~= Seq::empty());
            lemma_walk_empty(path, 0);
        }
    }
    match descend(root, segs, 0) {
        Ok(node) => Ok(node),
        Err(n) => {
            assert(n < segs.len());
            let walked = slice_subrange(segs, 0, n + 1);
            let parents = slice_subrange(segs, 0, n);
            assert(texts(walked@) =~= path.take(n + 1));
            assert(texts(parents@) =~= path.take(n as int));
            let mut message = "cannot descend into `".to_owned();
            message.append(display_path(walked).as_str());
            message.append("`: ");
            message.append(display_path(parents).as_str());
            message.append(" is not an object");
            Err(Error::invalid(message))
        },
    }
}

/// Borrow the value at `segs`, if it is reachable.
fn value_at_mut<'a>(root: &'a mut Json, segs: &[String]) -> (r: Option<&'a mut Json>)
    ensures
        match r {
            Some(node) => {
                &&& walk(old(root)@, texts(segs@), 0) == Walk::Found(node@)
                &&& final(root)@ == planted(old(root)@, texts(segs@), 0, final(node)@)
            },
            None => {
                &&& !(walk(old(root)@, texts(segs@), 0) is Found)
                &&& final(root)@ == old(root)@
            },
        },
{
    if get_path(root, segs).is_none() {
        return None;
    }
    match descend(root, segs, 0) {
        Ok(node) => Some(node),
        Err(_) => None,
    }
}

proof fn lemma_object_views()
    ensures
        forall|m: Vec<(String, Json)>| (#[trigger] Json::Object(m)@) == Tree::Object(entries_of(m@)),
{
    assert forall|m: Vec<(String, Json)>| (#[trigger] Json::Object(m)@) == Tree::Object(
        entries_of(m@),
    ) by {
        lemma_object_view(Json::Object(m));
    }
}

proof fn lemma_array_views()
    ensures
        forall|a: Vec<Json>| (#[trigger] Json::Array(a)@) == Tree::Array(trees(a@)),
{
    assert forall|a: Vec<Json>| (#[trigger] Json::Array(a)@) == Tree::Array(trees(a@)) by {
        lemma_array_view(Json::Array(a));
    }
}

/// Borrow the array at `segs`, creating it and its parents if absent.
fn ensure_array<'a>(root: &'a mut Json, segs: &[String]) -> (r: Result<&'a mut Vec<Json>, Error>)
    ensures
        match r {
            Ok(slot) => {
                &&& no_array(grounded(old(root)@), texts(segs@)) is None
                &&& trees(slot@) == elements_in(site(grounded(old(root)@), texts(segs@), 0))
                &&& final(root)@ == planted(
                    grounded(old(root)@),
                    texts(segs@),
                    0,
                    Tree::Array(trees(final(slot)@)),
                )
            },
            Err(e) => {
                &&& no_array(grounded(old(root)@), texts(segs@)) is Some
                &&& e@ == Failure::Invalid(no_array(grounded(old(root)@), texts(segs@))->0)
                &&& final(root)@ == old(root)@
            },
        },
{
    let ghost path = texts(segs@);
    let ghost base = grounded(root@);
    if segs.len() == 0 {
        return Err(Error::invalid("the document root cannot be an array element"));
    }
    let last = &segs[segs.len() - 1];
    let parents = slice_subrange(segs, 0, segs.len() - 1);
    proof {
        assert(texts(parents@) =~= path.drop_last());
        lemma_last_step(base, path, 0, Tree::Null);
        lemma_walk_empty(path, 0);
        lemma_blocked(base, path.drop_last(), 0);
        if walk(base, path.drop_last(), 0) is Found {
            lemma_planted_same(base, path.drop_last(), 0);
        }
        lemma_array_views();
    }
    let parent = match ensure_path(root, parents) {
        Ok(parent) => parent,
        Err(e) => {
            proof {
                let n = walk(base, path, 0)->Blocked_0;
                assert(path.drop_last().take(n) =~= path.take(n));
                assert(path.drop_last().take(n + 1) =~= path.take(n + 1));
            }
            return Err(e);
        },
    };
    let ghost here = *parent;
    match parent {
        Json::Object(map) => {
            proof {
                lemma_object_view(here);
            }
            let ghost was = entries_of(map@);
            let k: usize = match position(map, last) {
                Some(k) => {
                    assert(was[k as int].1 == map@[k as int].1@);
                    k
                },
                None => {
                    let fresh = Json::Array(Vec::new());
                    proof {
                        lemma_array_view(fresh);
                        assert(fresh@->Array_0 =~= Seq::empty());
                    }
                    map.push((last.clone(), fresh));
                    map.len() - 1
                },
            };
            proof {
                lemma_key_at(was, path.last());
            }
            let ghost now = map@;
            assert forall|m: Vec<(String, Json)>|
                m@.len() == now.len() && (forall|j: int|
                    0 <= j < now.len() && j != k ==> #[trigger] m@[j] == now[j]) && m@[k as int].0
                    == now[k as int].0 implies planted(
                base,
                path.drop_last(),
                0,
                (#[trigger] Json::Object(m)@),
            ) == planted(base, path, 0, m@[k as int].1@) by {
                lemma_object_view(Json::Object(m));
                assert(entries_of(m@) =~= put(was, path.last(), m@[k as int].1@));
                lemma_last_step(base, path, 0, m@[k as int].1@);
            }
            match &mut map[k].1 {
                Json::Array(slot) => Ok(slot),
                _ => {
                    let mut message = "cannot add to `".to_owned();
                    message.append(display_path(segs).as_str());
                    message.append("`: it is not an array");
                    Err(Error::invalid(message))
                },
            }
        },
        _ => {
            let mut message = "cannot write into `".to_owned();
            message.append(display_path(parents).as_str());
            message.append("`: it is not an object");
            Err(Error::invalid(message))
        },
    }
}

/// A declared item: where it lives, and the value as declared, preserving the
/// declaration's key order.
#[derive(Debug)]
pub struct Leaf {
    /// The item's address.
    pub addr: Addr,
    /// Where it lives.
    pub locator: Locator,
    /// The canonical form of its value.
    pub repr: Repr,
    /// The value.
    pub value: Json,
}

impl View for Leaf {
    type V = LeafView;

    open spec fn view(&self) -> LeafView {
        LeafView {
            addr: self.addr@,
            place: self.locator@,
            repr: self.repr@,
            value: self.value@,
        }
    }
}

/// What a sequence of declared items says.
pub open spec fn leaf_views(leaves: Seq<Leaf>) -> Seq<LeafView> {
    leaves.map_values(|l: Leaf| l@)
}

/// Expand a declared value into leaf items, behind the ones already there.
///
/// An empty object or array is a leaf: declaring `{}` asks for an empty object
/// to exist, and expanding it into nothing would silently declare nothing at
/// all.
pub fn expand(path: &[String], value: &Json, out: &mut Vec<Leaf>)
    ensures
        leaf_views(final(out)@) == leaf_views(old(out)@) + leaves(texts(path@), value@),
    decreases value,
{
    let ghost keys = texts(path@);
    let ghost before = leaf_views(out@);
    match value {
        Json::Object(m) if m.len() > 0 => {
            proof {
                lemma_object_view(*value);
            }
            let ghost all = entries_of(m@);
            let mut i: usize = 0;
            assert(before + entry_leaves(keys, all.take(0)) =~= before);
            while i < m.len()
                invariant
                    *value == Json::Object(*m),
                    i <= m@.len(),
                    keys == texts(path@),
                    all == entries_of(m@),
                    leaf_views(out@) == before + entry_leaves(keys, all.take(i as int)),
                decreases m@.len() - i,
            {
                assert(decreases_to!(value => value->Object_0@[i as int].1));
                let mut child = copy_path(path);
                let ghost old_child = child@;
                child.push(m[i].0.clone());
                assert(texts(child@) =~= texts(old_child).push(m@[i as int].0@));
                expand(child.as_slice(), &m[i].1, out);
                assert(all.take(i + 1).drop_last() =~= all.take(i as int));
                assert(all.take(i + 1).last() == (m@[i as int].0@, m@[i as int].1@));
                assert(leaf_views(out@) =~= before + entry_leaves(keys, all.take(i + 1)));
                i += 1;
            }
            assert(all.take(i as int) =~= all);
        },
        Json::Array(elems) if elems.len() > 0 => {
            proof {
                lemma_array_view(*value);
            }
            let ghost all = trees(elems@);
            let ghost made = all.map_values(|v: Tree| element_leaf(keys, v));
            let mut i: usize = 0;
            assert(before + made.take(0) =~= before);
            while i < elems.len()
                invariant
                    i <= elems@.len(),
                    keys == texts(path@),
                    all == trees(elems@),
                    made == all.map_values(|v: Tree| element_leaf(keys, v)),
                    leaf_views(out@) == before + made.take(i as int),
                decreases elems@.len() - i,
            {
                let repr = canonical(&elems[i]);
                let addr = element_addr(path, &repr);
                let locator = Locator::Element { path: copy_path(path), repr: repr.clone() };
                let leaf = Leaf { addr, locator, repr, value: elems[i].clone() };
                assert(leaf@ == made[i as int]);
                assert(leaf_views(out@.push(leaf)) =~= leaf_views(out@).push(leaf@));
                assert(before + made.take(i + 1) =~= (before + made.take(i as int)).push(leaf@));
                out.push(leaf);
                i += 1;
            }
            assert(made.take(i as int) =~= made);
        },
        _ => {
            let leaf = Leaf {
                addr: Addr::new(display_path(path)),
                locator: Locator::Key(copy_path(path)),
                repr: canonical(value),
                value: value.clone(),
            };
            proof {
                if *value is Object {
                    lemma_object_view(*value);
                }
                if *value is Array {
                    lemma_array_view(*value);
                }
                assert(leaf@ == key_leaf(keys, value@));
                assert(leaves(keys, value@) =~= seq![leaf@]);
            }
            assert(leaf_views(out@.push(leaf)) =~= leaf_views(out@) + seq![leaf@]);
            out.push(leaf);
        },
    }
}

/// Whether an array holds an element with this canonical form.
fn has_element(elems: &Vec<Json>, repr: &Repr) -> (r: bool)
    ensures
        r == holds(trees(elems@), repr@),
{
    let mut i: usize = 0;
    while i < elems.len()
        invariant
            i <= elems@.len(),
            forall|k: int|
                0 <= k < i ==> canonical_form(#[trigger] trees(elems@)[k]) != repr@,
        decreases elems@.len() - i,
    {
        assert(trees(elems@)[i as int] == elems@[i as int]@);
        if canonical(&elems[i]).same(repr) {
            return true;
        }
        i += 1;
    }
    false
}

/// Remove the elements with this canonical form from an array.
fn drop_elements(elems: &mut Vec<Json>, repr: &Repr)
    ensures
        trees(final(elems)@) == without(trees(old(elems)@), repr@),
{
    let ghost all = trees(elems@);
    let ghost mut seen: int = 0;
    let mut i: usize = 0;
    assert(without(all.take(0), repr@) + all.skip(0) =~= all);
    while i < elems.len()
        invariant
            0 <= seen <= all.len(),
            i == without(all.take(seen), repr@).len(),
            trees(elems@) == without(all.take(seen), repr@) + all.skip(seen),
        decreases elems@.len() - i,
    {
        let ghost kept = without(all.take(seen), repr@);
        assert(trees(elems@)[i as int] == elems@[i as int]@);
        assert(all.take(seen + 1).drop_last() =~= all.take(seen));
        assert(all.take(seen + 1).last() == all[seen]);
        if canonical(&elems[i]).same(repr) {
            let ghost was = elems@;
            elems.remove(i);
            assert(trees(elems@) =~= trees(was).remove(i as int));
            assert(trees(elems@) =~= kept + all.skip(seen + 1));
        } else {
            assert(trees(elems@) =~= kept.push(all[seen]) + all.skip(seen + 1));
            i += 1;
        }
        proof {
            seen = seen + 1;
        }
    }
    assert(all.take(seen) =~= all);
    assert(trees(elems@) =~= without(all, repr@));
}

/// A JSON document being managed at a key path.
#[derive(Debug)]
pub struct JsonDoc {
    root: Json,
    /// The declared items, with where each lives and what it should hold.
    leaves: Vec<Leaf>,
    prior: Vec<Item>,
}

impl View for JsonDoc {
    type V = DocView;

    closed spec fn view(&self) -> DocView {
        DocView {
            root: self.root@,
            leaves: leaf_views(self.leaves@),
            prior: item_views(self.prior@),
        }
    }
}

impl JsonDoc {
    /// Parse `target` and expand `declaration` into items rooted at `key`.
    ///
    /// An empty target is an empty document, so a first run can create the file.
    /// `prior` is what a previous run recorded for this target; an empty list
    /// leaves every item unowned and reduces the run to add-only.
    pub fn new(
        target: &str,
        target_name: &str,
        declaration: &Json,
        key: &[String],
        prior: Vec<Item>,
    ) -> (r: Result<Self, Error>)
        requires
            well_formed(declaration@),
        ensures
            match r {
                Ok(doc) => {
                    &&& opened(target@) is Ok
                    &&& doc@ == (DocView {
                        root: opened(target@)->Ok_0,
                        leaves: leaves(texts(key@), declaration@),
                        prior: item_views(prior@),
                    })
                    &&& doc@.ok()
                },
                Err(e) => {
                    &&& opened(target@) is Err
                    &&& e@ == (Failure::Parse {
                        path: target_name@,
                        message: opened(target@)->Err_0,
                    })
                },
            },
    {
        let root = if is_blank(target) {
            let empty = Json::Object(Vec::new());
            proof {
                lemma_object_view(empty);
                assert(empty@->Object_0 =~= Seq::empty());
            }
            empty
        } else {
            match read(target) {
                Ok(root) => root,
                Err(message) => {
                    return Err(Error::parse(target_name, message));
                },
            }
        };
        Ok(JsonDoc::over(root, declaration, key, prior))
    }

    /// Expand `declaration` into items rooted at `key`, over a document already
    /// read.
    pub fn over(root: Json, declaration: &Json, key: &[String], prior: Vec<Item>) -> (doc: Self)
        requires
            well_formed(root@),
            well_formed(declaration@),
        ensures
            doc@ == (DocView {
                root: root@,
                leaves: leaves(texts(key@), declaration@),
                prior: item_views(prior@),
            }),
            doc@.ok(),
    {
        let mut found: Vec<Leaf> = Vec::new();
        expand(key, declaration, &mut found);
        proof {
            let all = leaves(texts(key@), declaration@);
            assert(leaf_views(Seq::<Leaf>::empty()) + all =~= all);
            lemma_leaves_sound(texts(key@), declaration@);
        }
        JsonDoc { root, leaves: found, prior }
    }

    /// The document as it now stands, for callers that render it themselves.
    pub fn value(&self) -> (v: &Json)
        ensures
            v@ == self@.root,
    {
        &self.root
    }

    /// The last item declared at `addr`.
    fn leaf(&self, addr: &Addr) -> (r: Option<&Leaf>)
        ensures
            match r {
                Some(leaf) => last_leaf(self@.leaves, addr@) == Some(leaf@),
                None => last_leaf(self@.leaves, addr@) is None,
            },
    {
        let ghost all = leaf_views(self.leaves@);
        let mut i: usize = self.leaves.len();
        assert(all.take(i as int) =~= all);
        while i > 0
            invariant
                i <= self.leaves@.len(),
                all == leaf_views(self.leaves@),
                last_leaf(all, addr@) == last_leaf(all.take(i as int), addr@),
            decreases i,
        {
            assert(all.take(i as int).last() == self.leaves@[i - 1]@);
            assert(all.take(i as int).drop_last() =~= all.take(i - 1));
            if self.leaves[i - 1].addr.same(addr) {
                return Some(&self.leaves[i - 1]);
            }
            i -= 1;
        }
        None
    }

    /// What was recorded at `addr`.
    fn prior_repr(&self, addr: &Addr) -> (r: Option<&Repr>)
        ensures
            optional_repr(r) == first_repr(self@.prior, addr@),
    {
        let ghost all = item_views(self.prior@);
        let mut i: usize = 0;
        assert(all.skip(0) =~= all);
        while i < self.prior.len()
            invariant
                i <= self.prior@.len(),
                all == item_views(self.prior@),
                first_repr(all, addr@) == first_repr(all.skip(i as int), addr@),
            decreases self.prior@.len() - i,
        {
            assert(all.skip(i as int)[0] == self.prior@[i as int]@);
            assert(all.skip(i as int).drop_first() =~= all.skip(i + 1));
            if self.prior[i].addr.same(addr) {
                return Some(&self.prior[i].repr);
            }
            i += 1;
        }
        None
    }

    /// Where the item at `addr` lives: as declared, or as its recorded address
    /// says.
    fn locator(&self, addr: &Addr) -> (r: Result<Locator, Error>)
        ensures
            match r {
                Ok(l) => self@.place(addr@) == Some(l@),
                Err(e) => {
                    &&& self@.place(addr@) is None
                    &&& e@ == Failure::Invalid("no such item: "@ + addr@)
                },
            },
    {
        if let Some(leaf) = self.leaf(addr) {
            return Ok(leaf.locator.clone());
        }
        match self.prior_repr(addr) {
            Some(repr) => Ok(parse_addr(addr, repr)),
            None => Err(Error::invalid(concat("no such item: ", addr.as_str()))),
        }
    }
}

/// What rendering a document gives: its text with a line end behind it, and the
/// record to keep. The text is not blank, and where [`reads_back`] holds of the
/// document it is read as that document again.
pub open spec fn rendered(root: Tree, owned: Seq<ItemView>, output: OutputView) -> bool {
    &&& output.document == pretty_text(root).push('\n')
    &&& output.prior == Some(owned)
    &&& !blank(output.document)
    &&& reads_back(root, nesting_limit()) ==> reads_as(output.document, root)
}

impl Store for JsonDoc {
    open spec fn inv(&self) -> bool {
        self@.ok()
    }

    open spec fn declares(&self) -> Result<Seq<ItemView>, Failure> {
        Ok(self@.items())
    }

    open spec fn records(&self) -> Seq<ItemView> {
        self@.prior
    }

    open spec fn reads(&self, addr: Seq<char>) -> Result<StateView, Failure> {
        self@.state(addr)
    }

    open spec fn writes(&self, addr: Seq<char>, after: &Self, result: Result<(), Failure>) -> bool {
        match self@.written(addr) {
            Ok(root) => result is Ok && after@ == self@.over(root),
            Err(e) => result == Err::<(), Failure>(e) && after@ == self@,
        }
    }

    open spec fn retracts(
        &self,
        addr: Seq<char>,
        after: &Self,
        result: Result<(), Failure>,
    ) -> bool {
        match self@.withdrawn(addr) {
            Ok(root) => result is Ok && after@ == self@.over(root),
            Err(e) => result == Err::<(), Failure>(e) && after@ == self@,
        }
    }

    open spec fn renders(
        &self,
        owned: Seq<ItemView>,
        after: &Self,
        result: Result<OutputView, Failure>,
    ) -> bool {
        &&& after@ == self@
        &&& result is Ok
        &&& rendered(self@.root, owned, result->Ok_0)
    }

    fn declared(&self) -> (r: Result<Vec<Item>, Error>) {
        let mut items: Vec<Item> = Vec::new();
        let mut i: usize = 0;
        while i < self.leaves.len()
            invariant
                i <= self.leaves@.len(),
                item_views(items@) == self@.items().take(i as int),
            decreases self.leaves@.len() - i,
        {
            let item = Item::new(self.leaves[i].addr.clone(), self.leaves[i].repr.clone());
            assert(self@.items().take(i + 1) =~= self@.items().take(i as int).push(item@));
            assert(item_views(items@.push(item)) =~= item_views(items@).push(item@));
            items.push(item);
            i += 1;
        }
        assert(self@.items().take(i as int) =~= self@.items());
        Ok(items)
    }

    fn owned(&self) -> (r: Vec<Item>) {
        copy_items(self.prior.as_slice())
    }

    fn state(&self, addr: &Addr) -> (r: Result<State, Error>) {
        let locator = match self.locator(addr) {
            Ok(l) => l,
            Err(e) => {
                return Err(e);
            },
        };
        let declared = match self.leaf(addr) {
            Some(leaf) => Some(&leaf.repr),
            None => None,
        };
        let observed = match &locator {
            Locator::Key(path) => match resolve(&self.root, path.as_slice()) {
                Resolved::Found(v) => Observed::Present(canonical(v)),
                Resolved::Absent => Observed::Absent,
                Resolved::Blocked { at, found } => {
                    return Ok(blocked_state(at.as_str(), found, declared));
                },
            },
            Locator::Element { path, repr } => match resolve(&self.root, path.as_slice()) {
                Resolved::Found(v) => match v {
                    Json::Array(elems) => {
                        proof {
                            lemma_array_view(*v);
                        }
                        if has_element(elems, repr) {
                            Observed::Present(repr.clone())
                        } else {
                            Observed::Absent
                        }
                    },
                    other => {
                        let at = display_path(path.as_slice());
                        return Ok(blocked_state(at.as_str(), other, declared));
                    },
                },
                Resolved::Absent => Observed::Absent,
                Resolved::Blocked { at, found } => {
                    return Ok(blocked_state(at.as_str(), found, declared));
                },
            },
        };
        let ownership = match (self.prior_repr(addr), &observed) {
            (None, _) => Ownership::Unknown,
            (Some(_), Observed::Absent) => Ownership::Removed,
            (Some(p), Observed::Present(o)) => {
                if p.same(o) {
                    Ownership::Ours
                } else {
                    let note = concat("this tool last wrote ", p.truncated(48).as_str());
                    return Ok(State::new(observed, Ownership::Diverged).with_note(note));
                }
            },
        };
        Ok(State::new(observed, ownership))
    }

    fn write(&mut self, addr: &Addr) -> (r: Result<(), Error>) {
        let ghost before = self@;
        let (locator, value) = match self.leaf(addr) {
            Some(leaf) => (leaf.locator.clone(), leaf.value.clone()),
            None => {
                return match self.locator(addr) {
                    Ok(_) => Err(Error::invalid(concat(addr.as_str(), " is not declared"))),
                    Err(e) => Err(e),
                };
            },
        };
        proof {
            if before.written(addr@) is Ok {
                lemma_written_ok(before, addr@);
            }
        }
        match locator {
            Locator::Key(path) => set_at(&mut self.root, path.as_slice(), addr, value),
            Locator::Element { path, repr } => {
                add_to(&mut self.root, path.as_slice(), &repr, value)
            },
        }
    }

    fn retract(&mut self, addr: &Addr) -> (r: Result<(), Error>) {
        let ghost before = self@;
        let locator = match self.locator(addr) {
            Ok(l) => l,
            Err(e) => {
                return Err(e);
            },
        };
        proof {
            lemma_withdrawn_ok(before, addr@);
        }
        match locator {
            Locator::Key(path) => remove_at(&mut self.root, path.as_slice()),
            Locator::Element { path, repr } => {
                remove_from(&mut self.root, path.as_slice(), &repr)
            },
        }
        Ok(())
    }

    fn finish(&mut self, owned: &[Item]) -> (r: Result<Output, Error>) {
        // Two-space indent with a trailing newline, matching how the programs
        // that own these files write them. Matching the existing style keeps a
        // diff to the items actually touched.
        let mut document = match render(&self.root) {
            Ok(text) => text,
            Err(e) => {
                return Err(Error::invalid(concat("cannot render the document: ", e.as_str())));
            },
        };
        document.push('\n');
        proof {
            lemma_not_blank(document@);
        }
        Ok(Output { document, prior: Some(copy_items(owned)) })
    }
}

/// Set the value at a key path, which is that of the item at `addr`.
fn set_at(root: &mut Json, path: &[String], addr: &Addr, value: Json) -> (r: Result<(), Error>)
    ensures
        match set_key(old(root)@, texts(path@), addr@, value@) {
            Ok(t) => r is Ok && final(root)@ == t,
            Err(e) => r is Err && r->Err_0@ == e && final(root)@ == old(root)@,
        },
{
    let ghost keys = texts(path@);
    let ghost base = grounded(root@);
    let ghost seen = value@;
    if path.len() == 0 {
        // The declaration named the document root, so it replaces the whole
        // document rather than a key within it.
        *root = value;
        return Ok(());
    }
    let last = path[path.len() - 1].clone();
    let parents = slice_subrange(path, 0, path.len() - 1);
    proof {
        assert(texts(parents@) =~= keys.drop_last());
        lemma_last_step(base, keys, 0, seen);
        lemma_walk_empty(keys, 0);
        lemma_blocked(base, keys.drop_last(), 0);
        if walk(base, keys.drop_last(), 0) is Found {
            lemma_planted_same(base, keys.drop_last(), 0);
        }
        lemma_object_views();
    }
    let parent = match ensure_path(root, parents) {
        Ok(parent) => parent,
        Err(e) => {
            proof {
                let n = walk(base, keys, 0)->Blocked_0;
                assert(keys.drop_last().take(n) =~= keys.take(n));
                assert(keys.drop_last().take(n + 1) =~= keys.take(n + 1));
            }
            return Err(e);
        },
    };
    match parent {
        Json::Object(map) => {
            set_entry(map, last, value);
            Ok(())
        },
        _ => {
            let mut message = "cannot write `".to_owned();
            message.append(addr.as_str());
            message.append("`: `");
            message.append(display_path(parents).as_str());
            message.append("` is not an object");
            Err(Error::invalid(message))
        },
    }
}

/// Put an element into the array at a key path, unless it is there already.
fn add_to(root: &mut Json, path: &[String], repr: &Repr, value: Json) -> (r: Result<(), Error>)
    ensures
        match add_element(old(root)@, texts(path@), repr@, value@) {
            Ok(t) => r is Ok && final(root)@ == t,
            Err(e) => r is Err && r->Err_0@ == e && final(root)@ == old(root)@,
        },
{
    let ghost keys = texts(path@);
    let ghost base = grounded(root@);
    let ghost seen = value@;
    proof {
        lemma_walk_empty(keys, 0);
        if walk(base, keys, 0) is Found {
            lemma_planted_same(base, keys, 0);
        }
    }
    let slot = match ensure_array(root, path) {
        Ok(slot) => slot,
        Err(e) => {
            return Err(e);
        },
    };
    let ghost had = trees(slot@);
    if !has_element(slot, repr) {
        slot.push(value);
        assert(trees(slot@) =~= had.push(seen));
    }
    Ok(())
}

/// Take the value at a key path away, where it can be reached.
fn remove_at(root: &mut Json, path: &[String])
    ensures
        final(root)@ == taken_away(old(root)@, Place::Key(texts(path@))),
{
    let ghost keys = texts(path@);
    if path.len() == 0 {
        *root = Json::Object(Vec::new());
        proof {
            lemma_object_view(*root);
            assert(root@->Object_0 =~= Seq::empty());
        }
        return ;
    }
    let last = &path[path.len() - 1];
    let parents = slice_subrange(path, 0, path.len() - 1);
    proof {
        assert(texts(parents@) =~= keys.drop_last());
        if walk(root@, keys.drop_last(), 0) is Found {
            lemma_planted_same(root@, keys.drop_last(), 0);
        }
        lemma_object_views();
    }
    if let Some(parent) = value_at_mut(root, parents) {
        if let Json::Object(map) = parent {
            remove_entry(map, last);
        }
    }
}

/// Take an element out of the array at a key path, where it can be reached.
fn remove_from(root: &mut Json, path: &[String], repr: &Repr)
    ensures
        final(root)@ == taken_away(
            old(root)@,
            Place::Element { path: texts(path@), repr: repr@ },
        ),
{
    let ghost keys = texts(path@);
    proof {
        if walk(root@, keys, 0) is Found {
            lemma_planted_same(root@, keys, 0);
        }
        lemma_array_views();
    }
    if let Some(found) = value_at_mut(root, path) {
        if let Json::Array(elems) = found {
            drop_elements(elems, repr);
        }
    }
}

} // verus!
