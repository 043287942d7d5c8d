//! What a JSON value is.
//!
//! A [`Tree`] is a JSON value seen mathematically: a scalar, a sequence of
//! values, or a sequence of entries in the order they stand in the document.
//! Numbers are taken by the text they are written with. The functions below say
//! what it means to look a path up, to plant a value at one, and to take an entry
//! away.

use vstd::prelude::*;

verus! {

/// A JSON value.
pub enum Tree {
    /// `null`.
    Null,
    /// `true` or `false`.
    Bool(bool),
    /// A number, by its text.
    Number(Seq<char>),
    /// A string, by its characters.
    String(Seq<char>),
    /// An array, by its elements.
    Array(Seq<Tree>),
    /// An object, by its entries in document order.
    Object(Seq<(Seq<char>, Tree)>),
}

/// The entries of an object: keys and values in document order.
pub type Entries = Seq<(Seq<char>, Tree)>;

/// A path from the root of a document: the keys to follow.
pub type Path = Seq<Seq<char>>;

/// The position of the first entry with `key`.
pub open spec fn key_at(entries: Entries, key: Seq<char>) -> Option<int>
    decreases entries.len(),
{
    if entries.len() == 0 {
        None
    } else if entries[0].0 == key {
        Some(0)
    } else {
        match key_at(entries.drop_first(), key) {
            Some(i) => Some(i + 1),
            None => None,
        }
    }
}

/// The value an object holds under `key`.
pub open spec fn lookup(entries: Entries, key: Seq<char>) -> Option<Tree> {
    match key_at(entries, key) {
        Some(i) => Some(entries[i].1),
        None => None,
    }
}

/// The entries with `key` set to `value`: in the place it had, or at the end.
pub open spec fn put(entries: Entries, key: Seq<char>, value: Tree) -> Entries {
    match key_at(entries, key) {
        Some(i) => entries.update(i, (key, value)),
        None => entries.push((key, value)),
    }
}

/// The entries without `key`: the last entry moves into the place it had.
pub open spec fn removed(entries: Entries, key: Seq<char>) -> Entries {
    match key_at(entries, key) {
        Some(i) => entries.update(i, entries.last()).drop_last(),
        None => entries,
    }
}

/// No key occurs twice.
pub open spec fn distinct_keys(entries: Entries) -> bool {
    forall|i: int, j: int|
        0 <= i < j < entries.len() ==> (#[trigger] entries[i]).0 != (#[trigger] entries[j]).0
}

/// No object in the value holds a key twice.
pub open spec fn well_formed(t: Tree) -> bool
    decreases t,
{
    match t {
        Tree::Array(a) => forall|i: int| 0 <= i < a.len() ==> well_formed(#[trigger] a[i]),
        Tree::Object(e) => {
            &&& distinct_keys(e)
            &&& forall|i: int| 0 <= i < e.len() ==> well_formed((#[trigger] e[i]).1)
        },
        _ => true,
    }
}

pub proof fn lemma_key_at(entries: Entries, key: Seq<char>)
    ensures
        match key_at(entries, key) {
            Some(i) => {
                &&& 0 <= i < entries.len()
                &&& entries[i].0 == key
                &&& forall|j: int| 0 <= j < i ==> (#[trigger] entries[j]).0 != key
            },
            None => forall|j: int| 0 <= j < entries.len() ==> (#[trigger] entries[j]).0 != key,
        },
    decreases entries.len(),
{
    if entries.len() > 0 && entries[0].0 != key {
        let rest = entries.drop_first();
        lemma_key_at(rest, key);
        assert forall|j: int| 0 < j < entries.len() implies #[trigger] entries[j] == rest[j - 1] by {}
    }
}

/// The first entry with a key is where the search ends.
pub proof fn lemma_key_at_is(entries: Entries, key: Seq<char>, i: int)
    requires
        0 <= i < entries.len(),
        entries[i].0 == key,
        forall|j: int| 0 <= j < i ==> (#[trigger] entries[j]).0 != key,
    ensures
        key_at(entries, key) == Some(i),
{
    lemma_key_at(entries, key);
}

/// What was put under a key is found there, and nothing else moved.
pub proof fn lemma_put(entries: Entries, key: Seq<char>, value: Tree, other: Seq<char>)
    ensures
        lookup(put(entries, key, value), key) == Some(value),
        other != key ==> lookup(put(entries, key, value), other) == lookup(entries, other),
{
    let after = put(entries, key, value);
    lemma_key_at(entries, key);
    lemma_key_at(entries, other);
    lemma_key_at(after, key);
    lemma_key_at(after, other);
    match key_at(entries, key) {
        Some(i) => {
            lemma_key_at_is(after, key, i);
            if other != key {
                match key_at(entries, other) {
                    Some(j) => {
                        lemma_key_at_is(after, other, j);
                    },
                    None => {
                        if let Some(j) = key_at(after, other) {
                            assert(entries[j].0 == other);
                        }
                    },
                }
            }
        },
        None => {
            lemma_key_at_is(after, key, entries.len() as int);
            if other != key {
                match key_at(entries, other) {
                    Some(j) => {
                        assert forall|k: int| 0 <= k < j implies (#[trigger] after[k]).0 != other by {
                            assert(after[k] == entries[k]);
                        }
                        lemma_key_at_is(after, other, j);
                    },
                    None => {
                        if let Some(j) = key_at(after, other) {
                            if j < entries.len() {
                                assert(entries[j].0 == other);
                            }
                        }
                    },
                }
            }
        },
    }
}

/// Setting a key keeps the keys distinct.
pub proof fn lemma_put_distinct(entries: Entries, key: Seq<char>, value: Tree)
    requires
        distinct_keys(entries),
    ensures
        distinct_keys(put(entries, key, value)),
{
    lemma_key_at(entries, key);
    let after = put(entries, key, value);
    assert forall|i: int, j: int| 0 <= i < j < after.len() implies (#[trigger] after[i]).0 != (
    #[trigger] after[j]).0 by {
        if key_at(entries, key) is Some {
            assert(after[i].0 == entries[i].0);
            assert(after[j].0 == entries[j].0);
        } else {
            assert(after[i] == entries[i]);
            if j < entries.len() {
                assert(after[j] == entries[j]);
            }
        }
    }
}

/// Taking a key away leaves every other one as it was, and the keys distinct.
pub proof fn lemma_removed(entries: Entries, key: Seq<char>, other: Seq<char>)
    requires
        distinct_keys(entries),
    ensures
        distinct_keys(removed(entries, key)),
        lookup(removed(entries, key), key) is None,
        other != key ==> lookup(removed(entries, key), other) == lookup(entries, other),
{
    let after = removed(entries, key);
    lemma_key_at(entries, key);
    lemma_key_at(entries, other);
    lemma_key_at(after, key);
    lemma_key_at(after, other);
    if let Some(i) = key_at(entries, key) {
        let last = entries.len() - 1;
        assert forall|j: int| 0 <= j < after.len() implies #[trigger] after[j] == if j == i {
            entries[last]
        } else {
            entries[j]
        } by {}
        assert forall|a: int, b: int| 0 <= a < b < after.len() implies (#[trigger] after[a]).0 != (
        #[trigger] after[b]).0 by {
            let x = if a == i { last } else { a };
            let y = if b == i { last } else { b };
            assert(after[a] == entries[x]);
            assert(after[b] == entries[y]);
            if x < y {
                assert(entries[x].0 != entries[y].0);
            } else {
                assert(entries[y].0 != entries[x].0);
            }
        }
        if let Some(j) = key_at(after, key) {
            let x = if j == i { last } else { j };
            assert(after[j] == entries[x]);
            if x < i {
                assert(entries[x].0 != entries[i].0);
            } else if x > i {
                assert(entries[i].0 != entries[x].0);
            }
        }
        if other != key {
            match key_at(entries, other) {
                Some(j) => {
                    let x = if j == last { i } else { j };
                    assert(after[x] == entries[j]);
                    assert forall|k: int| 0 <= k < x implies (#[trigger] after[k]).0 != other by {
                        assert(after[k].0 != after[x].0);
                    }
                    lemma_key_at_is(after, other, x);
                },
                None => {
                    if let Some(j) = key_at(after, other) {
                        let x = if j == i { last } else { j };
                        assert(after[j] == entries[x]);
                        assert(entries[x].0 != other);
                    }
                },
            }
        }
    }
}

/// Where a walk down a path ends.
pub enum Walk {
    /// The path exists and holds this value.
    Found(Tree),
    /// A key along the way is missing.
    Absent,
    /// After this many steps there is a value that is not an object, so the
    /// path cannot continue.
    Blocked(int, Tree),
}

/// Walk down `path` from `t`, which stands `i` steps below the root.
pub open spec fn walk(t: Tree, path: Path, i: int) -> Walk
    decreases path.len() - i,
{
    if i >= path.len() {
        Walk::Found(t)
    } else {
        match t {
            Tree::Object(e) => match lookup(e, path[i]) {
                Some(child) => walk(child, path, i + 1),
                None => Walk::Absent,
            },
            _ => Walk::Blocked(i, t),
        }
    }
}

/// `t` with `value` at `path`, the objects missing on the way made, for a path
/// that nothing blocks.
pub open spec fn planted(t: Tree, path: Path, i: int, value: Tree) -> Tree
    decreases path.len() - i,
{
    if i >= path.len() {
        value
    } else {
        match t {
            Tree::Object(e) => {
                let child = match lookup(e, path[i]) {
                    Some(c) => c,
                    None => Tree::Object(Seq::empty()),
                };
                Tree::Object(put(e, path[i], planted(child, path, i + 1, value)))
            },
            _ => t,
        }
    }
}

/// Two paths that part ways after `k` common keys.
pub open spec fn part_at(p: Path, q: Path, k: int) -> bool {
    &&& 0 <= k < p.len()
    &&& k < q.len()
    &&& forall|j: int| 0 <= j < k ==> p[j] == q[j]
    &&& p[k] != q[k]
}

/// Neither path leads to or through the other.
pub open spec fn apart(p: Path, q: Path) -> bool {
    exists|k: int| part_at(p, q, k)
}

/// What was planted at a path is found there.
pub proof fn lemma_walk_planted(t: Tree, path: Path, i: int, value: Tree)
    requires
        0 <= i <= path.len(),
        !(walk(t, path, i) is Blocked),
    ensures
        walk(planted(t, path, i, value), path, i) == Walk::Found(value),
    decreases path.len() - i,
{
    if i < path.len() {
        let e = t->Object_0;
        let child = match lookup(e, path[i]) {
            Some(c) => c,
            None => Tree::Object(Seq::empty()),
        };
        lemma_walk_planted(child, path, i + 1, value);
        lemma_put(e, path[i], planted(child, path, i + 1, value), path[i]);
    }
}

/// Planting a value leaves every path apart from it as it was.
pub proof fn lemma_planted_apart(t: Tree, p: Path, q: Path, i: int, k: int, value: Tree)
    requires
        0 <= i <= k,
        part_at(p, q, k),
        !(walk(t, p, i) is Blocked),
    ensures
        walk(planted(t, p, i, value), q, i) == walk(t, q, i),
    decreases p.len() - i,
{
    let e = t->Object_0;
    let child = match lookup(e, p[i]) {
        Some(c) => c,
        None => Tree::Object(Seq::empty()),
    };
    let below = planted(child, p, i + 1, value);
    lemma_put(e, p[i], below, q[i]);
    if i < k {
        lemma_planted_apart(child, p, q, i + 1, k, value);
        if lookup(e, p[i]) is None {
            lemma_put(Seq::empty(), p[i + 1], Tree::Null, q[i + 1]);
            assert(walk(child, q, i + 1) is Absent);
        }
    }
}

/// What blocks a path stands on it, short of its end, and is not an object.
pub proof fn lemma_blocked(t: Tree, path: Path, i: int)
    requires
        0 <= i <= path.len(),
    ensures
        walk(t, path, i) matches Walk::Blocked(n, found) ==> i <= n < path.len() && !(found
            is Object),
    decreases path.len() - i,
{
    if i < path.len() {
        if let Tree::Object(e) = t {
            if let Some(child) = lookup(e, path[i]) {
                lemma_blocked(child, path, i + 1);
            }
        }
    }
}

/// An empty object blocks nothing: every path into it is free.
pub proof fn lemma_walk_empty(path: Path, i: int)
    requires
        0 <= i <= path.len(),
    ensures
        i < path.len() ==> walk(Tree::Object(Seq::empty()), path, i) is Absent,
{
}

/// Planting where the path exists and putting back the value found there
/// changes nothing.
pub proof fn lemma_planted_same(t: Tree, path: Path, i: int)
    requires
        0 <= i <= path.len(),
        walk(t, path, i) is Found,
    ensures
        planted(t, path, i, walk(t, path, i)->Found_0) == t,
    decreases path.len() - i,
{
    if i < path.len() {
        let e = t->Object_0;
        let child = lookup(e, path[i])->0;
        lemma_key_at(e, path[i]);
        lemma_planted_same(child, path, i + 1);
        let k = key_at(e, path[i])->0;
        assert(e.update(k, (path[i], child)) =~= e);
    }
}

/// Planting a well-formed value keeps the document well-formed.
pub proof fn lemma_planted_well_formed(t: Tree, path: Path, i: int, value: Tree)
    requires
        0 <= i <= path.len(),
        well_formed(t),
        well_formed(value),
    ensures
        well_formed(planted(t, path, i, value)),
    decreases path.len() - i,
{
    if i < path.len() {
        if let Tree::Object(e) = t {
            let child = match lookup(e, path[i]) {
                Some(c) => c,
                None => Tree::Object(Seq::empty()),
            };
            lemma_key_at(e, path[i]);
            assert(well_formed(child));
            lemma_planted_well_formed(child, path, i + 1, value);
            lemma_put_distinct(e, path[i], planted(child, path, i + 1, value));
            let after = put(e, path[i], planted(child, path, i + 1, value));
            assert forall|j: int| 0 <= j < after.len() implies well_formed((#[trigger] after[j]).1) by {
                if j < e.len() && after[j] != e[j] {
                } else if j < e.len() {
                    assert(well_formed(e[j].1));
                }
            }
        }
    }
}

/// What is found in a well-formed value is well-formed.
pub proof fn lemma_walk_well_formed(t: Tree, path: Path, i: int)
    requires
        0 <= i <= path.len(),
        well_formed(t),
        walk(t, path, i) is Found,
    ensures
        well_formed(walk(t, path, i)->Found_0),
    decreases path.len() - i,
{
    if i < path.len() {
        let e = t->Object_0;
        lemma_key_at(e, path[i]);
        lemma_walk_well_formed(lookup(e, path[i])->0, path, i + 1);
    }
}

/// The entries of an object, and none for anything else.
pub open spec fn entries_in(t: Tree) -> Entries {
    match t {
        Tree::Object(e) => e,
        _ => Seq::empty(),
    }
}

/// The value at the end of a path, or an empty object where there is none.
pub open spec fn site(t: Tree, path: Path, i: int) -> Tree {
    match walk(t, path, i) {
        Walk::Found(v) => v,
        _ => Tree::Object(Seq::empty()),
    }
}

/// A walk and a planting, seen from the step before the last.
pub proof fn lemma_last_step(t: Tree, path: Path, i: int, value: Tree)
    requires
        0 <= i < path.len(),
    ensures
        walk(t, path, i) == match walk(t, path.drop_last(), i) {
            Walk::Found(Tree::Object(e)) => match lookup(e, path.last()) {
                Some(v) => Walk::Found(v),
                None => Walk::Absent,
            },
            Walk::Found(other) => Walk::Blocked(path.len() - 1, other),
            stopped => stopped,
        },
        site(t, path.drop_last(), i) is Object && !(walk(t, path.drop_last(), i) is Blocked)
            ==> planted(t, path, i, value) == planted(
            t,
            path.drop_last(),
            i,
            Tree::Object(
                put(entries_in(site(t, path.drop_last(), i)), path.last(), value),
            ),
        ),
    decreases path.len() - i,
{
    let head = path.drop_last();
    if i == head.len() {
        reveal_with_fuel(walk, 2);
        reveal_with_fuel(planted, 2);
    } else {
        assert(head[i] == path[i]);
        if let Tree::Object(e) = t {
            let child = match lookup(e, path[i]) {
                Some(c) => c,
                None => Tree::Object(Seq::empty()),
            };
            lemma_last_step(child, path, i + 1, value);
            lemma_walk_empty(head, i + 1);
        }
    }
}

/// Taking a key away keeps an object well-formed.
pub proof fn lemma_removed_well_formed(e: Entries, key: Seq<char>)
    requires
        well_formed(Tree::Object(e)),
    ensures
        well_formed(Tree::Object(removed(e, key))),
{
    lemma_removed(e, key, key);
    lemma_key_at(e, key);
    let after = removed(e, key);
    assert forall|j: int| 0 <= j < after.len() implies well_formed((#[trigger] after[j]).1) by {
        if key_at(e, key) == Some(j) {
            assert(after[j] == e[e.len() - 1]);
        } else {
            assert(after[j] == e[j]);
        }
    }
}

/// Whether a value holds another one at a path: it is that value where the path
/// is empty, and otherwise an object with an entry for the first key that holds
/// it at the rest of the path.
pub open spec fn holds_at(t: Tree, path: Path, v: Tree) -> bool
    decreases path.len(),
{
    if path.len() == 0 {
        t == v
    } else {
        t is Object && exists|i: int|
            0 <= i < t->Object_0.len() && (#[trigger] t->Object_0[i]).0 == path[0] && holds_at(
                t->Object_0[i].1,
                path.drop_first(),
                v,
            )
    }
}

/// The value under a key is the one in the entry for it.
pub proof fn lemma_lookup(e: Entries, i: int)
    requires
        distinct_keys(e),
        0 <= i < e.len(),
    ensures
        key_at(e, e[i].0) == Some(i),
        lookup(e, e[i].0) == Some(e[i].1),
{
    lemma_key_at(e, e[i].0);
    let k = key_at(e, e[i].0)->0;
    if k < i {
        assert(e[k].0 != e[i].0);
    }
}

/// **Law.** The value under a key is that of the one entry for the key, and there
/// is none where no entry is for it.
pub proof fn law_a_lookup_finds_the_entry(e: Entries, key: Seq<char>, v: Tree)
    requires
        distinct_keys(e),
    ensures
        lookup(e, key) == Some(v) <==> e.contains((key, v)),
        lookup(e, key) is None <==> forall|i: int| 0 <= i < e.len() ==> (#[trigger] e[i]).0 != key,
{
    lemma_key_at(e, key);
    if e.contains((key, v)) {
        let i = choose|i: int| 0 <= i < e.len() && e[i] == (key, v);
        lemma_lookup(e, i);
    }
    if lookup(e, key) == Some(v) {
        assert(e[key_at(e, key)->0] == (key, v));
    }
}

proof fn lemma_walk_holds(t: Tree, path: Path, i: int, v: Tree)
    requires
        well_formed(t),
        0 <= i <= path.len(),
    ensures
        walk(t, path, i) == Walk::Found(v) <==> holds_at(t, path.skip(i), v),
    decreases path.len() - i,
{
    let rest = path.skip(i);
    if i < path.len() {
        assert(rest[0] == path[i]);
        assert(rest.drop_first() =~= path.skip(i + 1));
        if let Tree::Object(e) = t {
            lemma_key_at(e, path[i]);
            if let Some(child) = lookup(e, path[i]) {
                let k = key_at(e, path[i])->0;
                assert(e[k].1 == child);
                lemma_walk_holds(child, path, i + 1, v);
                if holds_at(t, rest, v) {
                    let j = choose|j: int|
                        0 <= j < e.len() && (#[trigger] e[j]).0 == rest[0] && holds_at(
                            e[j].1,
                            rest.drop_first(),
                            v,
                        );
                    lemma_lookup(e, j);
                }
            }
        }
    }
}

/// **Law.** A walk down a path finds a value exactly where the value is held at
/// that path.
pub proof fn law_a_walk_finds_what_is_there(t: Tree, path: Path, v: Tree)
    requires
        well_formed(t),
    ensures
        walk(t, path, 0) == Walk::Found(v) <==> holds_at(t, path, v),
{
    assert(path.skip(0) =~= path);
    lemma_walk_holds(t, path, 0, v);
}

proof fn lemma_walk_blocked(t: Tree, path: Path, i: int, n: int, v: Tree)
    requires
        well_formed(t),
        0 <= i <= path.len(),
    ensures
        walk(t, path, i) == Walk::Blocked(n, v) <==> i <= n < path.len() && !(v is Object)
            && holds_at(t, path.subrange(i, n), v),
    decreases path.len() - i,
{
    if i < path.len() {
        if n == i {
            assert(path.subrange(i, n).len() == 0);
            if let Tree::Object(e) = t {
                if let Some(child) = lookup(e, path[i]) {
                    lemma_key_at(e, path[i]);
                    lemma_walk_blocked(child, path, i + 1, n, v);
                }
            }
        } else if i < n < path.len() {
            let part = path.subrange(i, n);
            assert(part[0] == path[i]);
            assert(part.drop_first() =~= path.subrange(i + 1, n));
            if let Tree::Object(e) = t {
                lemma_key_at(e, path[i]);
                if let Some(child) = lookup(e, path[i]) {
                    let k = key_at(e, path[i])->0;
                    assert(e[k].1 == child);
                    lemma_walk_blocked(child, path, i + 1, n, v);
                    if holds_at(t, part, v) {
                        let j = choose|j: int|
                            0 <= j < e.len() && (#[trigger] e[j]).0 == part[0] && holds_at(
                                e[j].1,
                                part.drop_first(),
                                v,
                            );
                        lemma_lookup(e, j);
                    }
                }
            }
        } else if let Tree::Object(e) = t {
            if let Some(child) = lookup(e, path[i]) {
                lemma_key_at(e, path[i]);
                lemma_walk_blocked(child, path, i + 1, n, v);
            }
        }
    }
}

/// **Law.** A walk is blocked by the value that some part of the path, short of
/// the whole, leads to and that is not an object.
pub proof fn law_a_walk_is_blocked_by_what_is_in_the_way(t: Tree, path: Path, n: int, v: Tree)
    requires
        well_formed(t),
    ensures
        walk(t, path, 0) == Walk::Blocked(n, v) <==> 0 <= n < path.len() && !(v is Object)
            && holds_at(t, path.take(n), v),
{
    lemma_walk_blocked(t, path, 0, n, v);
    if 0 <= n < path.len() {
        assert(path.subrange(0, n) =~= path.take(n));
    }
}

/// **Law.** Setting a key changes the entry for it in its place, or adds one at
/// the end, and leaves every other entry and their order alone.
pub proof fn law_setting_a_key_keeps_the_order(e: Entries, key: Seq<char>, v: Tree, i: int)
    requires
        distinct_keys(e),
    ensures
        0 <= i < e.len() && e[i].0 == key ==> {
            &&& put(e, key, v).len() == e.len()
            &&& put(e, key, v)[i] == (key, v)
            &&& forall|j: int|
                0 <= j < e.len() && j != i ==> #[trigger] put(e, key, v)[j] == e[j]
        },
        (forall|j: int| 0 <= j < e.len() ==> (#[trigger] e[j]).0 != key) ==> put(e, key, v)
            == e.push((key, v)),
{
    lemma_key_at(e, key);
    if 0 <= i < e.len() && e[i].0 == key {
        lemma_lookup(e, i);
    }
}

/// **Law.** Taking a key away takes its entry away and no other. The last entry
/// moves into its place, and every other one stays where it was.
pub proof fn law_taking_a_key_away_takes_one_entry(e: Entries, key: Seq<char>, i: int)
    requires
        distinct_keys(e),
    ensures
        0 <= i < e.len() && e[i].0 == key ==> {
            &&& removed(e, key).len() == e.len() - 1
            &&& i < e.len() - 1 ==> removed(e, key)[i] == e.last()
            &&& forall|j: int|
                0 <= j < e.len() - 1 && j != i ==> #[trigger] removed(e, key)[j] == e[j]
        },
        (forall|j: int| 0 <= j < e.len() ==> (#[trigger] e[j]).0 != key) ==> removed(e, key) == e,
{
    lemma_key_at(e, key);
    if 0 <= i < e.len() && e[i].0 == key {
        lemma_lookup(e, i);
    }
}

/// **Law.** Planting a value at a path that nothing blocks makes the document hold
/// it there, and leaves what every path apart from it leads to.
pub proof fn law_planting_sets_one_path(t: Tree, path: Path, v: Tree, q: Path, w: Tree)
    requires
        well_formed(t),
        well_formed(v),
        !(walk(t, path, 0) is Blocked),
    ensures
        holds_at(planted(t, path, 0, v), path, v),
        apart(path, q) ==> (holds_at(planted(t, path, 0, v), q, w) <==> holds_at(t, q, w)),
{
    let after = planted(t, path, 0, v);
    lemma_planted_well_formed(t, path, 0, v);
    lemma_walk_planted(t, path, 0, v);
    law_a_walk_finds_what_is_there(after, path, v);
    if apart(path, q) {
        let k = choose|k: int| part_at(path, q, k);
        lemma_planted_apart(t, path, q, 0, k, v);
        law_a_walk_finds_what_is_there(after, q, w);
        law_a_walk_finds_what_is_there(t, q, w);
    }
}

} // verus!
