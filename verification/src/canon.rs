//! The canonical form of a JSON value.
//!
//! The canonical form is JSON text with object keys in dictionary order at every
//! level and no white space. The order in which an object happens to list its
//! keys is not part of its value, and [`law_key_order_is_not_part_of_the_value`]
//! states that it is not part of the canonical form either. Everything else is:
//! see [`crate::unique`].

use crate::text::{joined, precedes};
use crate::tree::{key_at, lemma_key_at, lookup, well_formed, Entries, Tree};
use vstd::prelude::*;

verus! {

/// A hexadecimal digit.
pub open spec fn hex_digit(d: nat) -> char {
    if d < 10 {
        ('0' as u32 + d) as u32 as char
    } else {
        ('a' as u32 + d - 10) as u32 as char
    }
}

/// How one character of a JSON string is written.
pub open spec fn escape(c: char) -> Seq<char> {
    if c == '"' {
        seq!['\\', '"']
    } else if c == '\\' {
        seq!['\\', '\\']
    } else if c == '\u{8}' {
        seq!['\\', 'b']
    } else if c == '\u{9}' {
        seq!['\\', 't']
    } else if c == '\u{a}' {
        seq!['\\', 'n']
    } else if c == '\u{c}' {
        seq!['\\', 'f']
    } else if c == '\u{d}' {
        seq!['\\', 'r']
    } else if c <= '\u{1f}' {
        seq!['\\', 'u', '0', '0', hex_digit(c as nat / 16), hex_digit(c as nat % 16)]
    } else {
        seq![c]
    }
}

/// The characters of a JSON string, as written between its quotes.
pub open spec fn escaped(s: Seq<char>) -> Seq<char>
    decreases s.len(),
{
    if s.len() == 0 {
        Seq::empty()
    } else {
        escaped(s.drop_last()) + escape(s.last())
    }
}

/// A JSON string as written.
pub open spec fn quoted(s: Seq<char>) -> Seq<char> {
    seq!['"'] + escaped(s) + seq!['"']
}

/// A key and the text that goes with it.
pub type Pair = (Seq<char>, Seq<char>);

/// Put a pair behind every one whose key does not come after its own.
pub open spec fn slotted(pairs: Seq<Pair>, pair: Pair) -> Seq<Pair>
    decreases pairs.len(),
{
    if pairs.len() > 0 && precedes(pair.0, pairs.last().0) {
        slotted(pairs.drop_last(), pair).push(pairs.last())
    } else {
        pairs.push(pair)
    }
}

/// The pairs in dictionary order of their keys.
pub open spec fn in_order(pairs: Seq<Pair>) -> Seq<Pair>
    decreases pairs.len(),
{
    if pairs.len() == 0 {
        Seq::empty()
    } else {
        slotted(in_order(pairs.drop_last()), pairs.last())
    }
}

/// One entry of an object in canonical form.
pub open spec fn field(pair: Pair) -> Seq<char> {
    quoted(pair.0) + seq![':'] + pair.1
}

/// An object in canonical form, from its keys and the canonical forms under
/// them.
pub open spec fn canonical_object(pairs: Seq<Pair>) -> Seq<char> {
    seq!['{'] + joined(in_order(pairs).map_values(|p: Pair| field(p)), seq![',']) + seq!['}']
}

/// An array in canonical form, from the canonical forms of its elements.
pub open spec fn canonical_array(parts: Seq<Seq<char>>) -> Seq<char> {
    seq!['['] + joined(parts, seq![',']) + seq![']']
}

/// The canonical form of a value.
pub open spec fn canonical_form(t: Tree) -> Seq<char>
    decreases t,
{
    match t {
        Tree::Null => "null"@,
        Tree::Bool(b) => if b {
            "true"@
        } else {
            "false"@
        },
        Tree::Number(text) => text,
        Tree::String(s) => quoted(s),
        Tree::Array(a) => canonical_array(forms(a)),
        Tree::Object(e) => canonical_object(pairs(e)),
    }
}

/// The canonical forms of a sequence of values.
pub open spec fn forms(a: Seq<Tree>) -> Seq<Seq<char>>
    decreases a,
{
    if a.len() == 0 {
        Seq::empty()
    } else {
        forms(a.drop_last()).push(canonical_form(a.last()))
    }
}

/// The keys of an object with the canonical forms under them.
pub open spec fn pairs(e: Entries) -> Seq<Pair>
    decreases e,
{
    if e.len() == 0 {
        Seq::empty()
    } else {
        pairs(e.drop_last()).push((e.last().0, canonical_form(e.last().1)))
    }
}

/// The canonical forms of an array's elements, one for one.
pub proof fn lemma_forms(a: Seq<Tree>)
    ensures
        forms(a).len() == a.len(),
        forall|i: int| 0 <= i < a.len() ==> #[trigger] forms(a)[i] == canonical_form(a[i]),
    decreases a.len(),
{
    if a.len() > 0 {
        lemma_forms(a.drop_last());
    }
}

/// The keys and canonical forms of an object's entries, one for one.
pub proof fn lemma_pairs(e: Entries)
    ensures
        pairs(e).len() == e.len(),
        forall|i: int|
            0 <= i < e.len() ==> #[trigger] pairs(e)[i] == (e[i].0, canonical_form(e[i].1)),
    decreases e.len(),
{
    if e.len() > 0 {
        lemma_pairs(e.drop_last());
    }
}

/// Two values that differ at most in the order in which objects list their
/// keys.
pub open spec fn same_value(a: Tree, b: Tree) -> bool
    decreases a,
{
    match (a, b) {
        (Tree::Array(x), Tree::Array(y)) => {
            &&& x.len() == y.len()
            &&& forall|i: int| 0 <= i < x.len() ==> same_value(#[trigger] x[i], y[i])
        },
        (Tree::Object(x), Tree::Object(y)) => {
            &&& x.len() == y.len()
            &&& forall|i: int|
                0 <= i < x.len() ==> {
                    &&& lookup(y, (#[trigger] x[i]).0) is Some
                    &&& same_value(x[i].1, lookup(y, x[i].0)->0)
                }
        },
        _ => a == b,
    }
}

/// Keys in dictionary order, none twice.
pub open spec fn ascending(pairs: Seq<Pair>) -> bool {
    forall|i: int, j: int|
        0 <= i < j < pairs.len() ==> precedes((#[trigger] pairs[i]).0, (#[trigger] pairs[j]).0)
}

/// Slotting a pair in keeps the order, adds that pair and no other.
proof fn lemma_slotted(pairs: Seq<Pair>, pair: Pair)
    requires
        ascending(pairs),
        forall|i: int| 0 <= i < pairs.len() ==> (#[trigger] pairs[i]).0 != pair.0,
    ensures
        ascending(slotted(pairs, pair)),
        slotted(pairs, pair).len() == pairs.len() + 1,
        forall|x: Pair| #[trigger]
            slotted(pairs, pair).contains(x) <==> (pairs.contains(x) || x == pair),
    decreases pairs.len(),
{
    let after = slotted(pairs, pair);
    if pairs.len() > 0 && precedes(pair.0, pairs.last().0) {
        let head = pairs.drop_last();
        lemma_slotted(head, pair);
        let slot = slotted(head, pair);
        assert forall|i: int, j: int| 0 <= i < j < after.len() implies precedes(
            (#[trigger] after[i]).0,
            (#[trigger] after[j]).0,
        ) by {
            assert(slot.contains(slot[i]));
            if j == slot.len() {
                if slot[i] != pair {
                    let k = choose|k: int| 0 <= k < head.len() && head[k] == slot[i];
                    assert(pairs[k] == slot[i]);
                }
            }
        }
        assert forall|x: Pair| #[trigger] after.contains(x) <==> (pairs.contains(x) || x == pair) by {
            if after.contains(x) {
                let k = choose|k: int| 0 <= k < after.len() && after[k] == x;
                if k < slot.len() {
                    assert(slot.contains(x));
                    if x != pair {
                        let m = choose|m: int| 0 <= m < head.len() && head[m] == x;
                        assert(pairs[m] == x);
                    }
                } else {
                    assert(pairs[pairs.len() - 1] == x);
                }
            }
            if pairs.contains(x) || x == pair {
                if x == pairs.last() {
                    assert(after[after.len() - 1] == x);
                } else {
                    if x != pair {
                        let m = choose|m: int| 0 <= m < pairs.len() && pairs[m] == x;
                        assert(head[m] == x);
                    }
                    assert(slot.contains(x));
                    let k = choose|k: int| 0 <= k < slot.len() && slot[k] == x;
                    assert(after[k] == x);
                }
            }
        }
    } else {
        assert forall|i: int, j: int| 0 <= i < j < after.len() implies precedes(
            (#[trigger] after[i]).0,
            (#[trigger] after[j]).0,
        ) by {
            assert(after[i] == pairs[i]);
            if j == pairs.len() {
                let last = pairs.last().0;
                crate::text::lemma_precedes_total(pair.0, last);
                assert(pairs[pairs.len() - 1].0 != pair.0);
                if i < pairs.len() - 1 {
                    assert(precedes(pairs[i].0, pairs[pairs.len() - 1].0));
                    crate::text::lemma_precedes_transitive(pairs[i].0, last, pair.0);
                }
            } else {
                assert(after[j] == pairs[j]);
            }
        }
        assert forall|x: Pair| #[trigger] after.contains(x) <==> (pairs.contains(x) || x == pair) by {
            if pairs.contains(x) {
                let m = choose|m: int| 0 <= m < pairs.len() && pairs[m] == x;
                assert(after[m] == x);
            }
            if x == pair {
                assert(after[pairs.len() as int] == x);
            }
        }
    }
}

/// No key occurs twice.
pub open spec fn distinct_pairs(pairs: Seq<Pair>) -> bool {
    forall|i: int, j: int|
        0 <= i < j < pairs.len() ==> (#[trigger] pairs[i]).0 != (#[trigger] pairs[j]).0
}

/// Ordering pairs with distinct keys gives them all, in strict order.
pub proof fn lemma_in_order(pairs: Seq<Pair>)
    requires
        distinct_pairs(pairs),
    ensures
        ascending(in_order(pairs)),
        in_order(pairs).len() == pairs.len(),
        forall|x: Pair| #[trigger] in_order(pairs).contains(x) <==> pairs.contains(x),
    decreases pairs.len(),
{
    if pairs.len() > 0 {
        let head = pairs.drop_last();
        let last = pairs.last();
        lemma_in_order(head);
        let done = in_order(head);
        assert forall|i: int| 0 <= i < done.len() implies (#[trigger] done[i]).0 != last.0 by {
            assert(done.contains(done[i]));
            let k = choose|k: int| 0 <= k < head.len() && head[k] == done[i];
            assert(pairs[k].0 != pairs[pairs.len() - 1].0);
        }
        lemma_slotted(done, last);
        assert forall|x: Pair| #[trigger] in_order(pairs).contains(x) <==> pairs.contains(x) by {
            if in_order(pairs).contains(x) && x != last {
                assert(head.contains(x));
                let k = choose|k: int| 0 <= k < head.len() && head[k] == x;
                assert(pairs[k] == x);
            }
            if x == last {
                assert(pairs[pairs.len() - 1] == x);
            } else if pairs.contains(x) {
                let k = choose|k: int| 0 <= k < pairs.len() && pairs[k] == x;
                assert(head[k] == x);
                assert(head.contains(x));
            }
        }
    }
}

/// There is only one way to list the same pairs in strict order.
proof fn lemma_order_is_unique(a: Seq<Pair>, b: Seq<Pair>)
    requires
        ascending(a),
        ascending(b),
        a.len() == b.len(),
        forall|x: Pair| #[trigger] a.contains(x) ==> b.contains(x),
    ensures
        a == b,
    decreases a.len(),
{
    if a.len() > 0 {
        let n = a.len() - 1;
        lemma_ends_alike(a, b);
        let x = a.drop_last();
        let y = b.drop_last();
        assert forall|p: Pair| #[trigger] x.contains(p) implies y.contains(p) by {
            let k = choose|k: int| 0 <= k < x.len() && x[k] == p;
            assert(a[k] == p);
            assert(a.contains(p));
            let m = choose|m: int| 0 <= m < b.len() && b[m] == p;
            if m == n {
                assert(precedes(a[k].0, a[n].0));
                crate::text::lemma_precedes_irreflexive(p.0);
            }
            assert(y[m] == p);
        }
        lemma_order_is_unique(x, y);
        assert(a =~= x.push(a[n]));
        assert(b =~= y.push(b[n]));
    }
}

/// Two strict orders of the same pairs end alike: otherwise every pair of the
/// one would sit before the end of the other.
proof fn lemma_ends_alike(a: Seq<Pair>, b: Seq<Pair>)
    requires
        ascending(a),
        ascending(b),
        a.len() == b.len(),
        a.len() > 0,
        forall|x: Pair| #[trigger] a.contains(x) ==> b.contains(x),
    ensures
        a.last() == b.last(),
{
    if a.last() != b.last() {
        lemma_place(a, b, a.len() - 1);
    }
}

proof fn lemma_place(a: Seq<Pair>, b: Seq<Pair>, i: int)
    requires
        ascending(a),
        ascending(b),
        a.len() == b.len(),
        0 <= i < a.len(),
        forall|x: Pair| #[trigger] a.contains(x) ==> b.contains(x),
        a.last() != b.last(),
    ensures
        exists|m: int| #![trigger b[m]] i <= m < a.len() - 1 && b[m] == a[i],
    decreases i,
{
    let n = a.len() - 1;
    assert(a.contains(a[i]));
    let m = choose|m: int| 0 <= m < b.len() && b[m] == a[i];
    if i > 0 {
        lemma_place(a, b, i - 1);
        let before = choose|k: int| #![trigger b[k]] i - 1 <= k < n && b[k] == a[i - 1];
        assert(precedes(a[i - 1].0, a[i].0));
        if m <= before {
            if m < before {
                assert(precedes(b[m].0, b[before].0));
                crate::text::lemma_precedes_transitive(a[i].0, a[i - 1].0, a[i].0);
            }
            crate::text::lemma_precedes_irreflexive(a[i].0);
        }
    }
    if m == n {
        if i < n {
            // Then the last of `a` would have to come after the last of `b`.
            assert(a.contains(a[n]));
            let k = choose|k: int| 0 <= k < b.len() && b[k] == a[n];
            assert(precedes(a[i].0, a[n].0));
            if k < n {
                assert(precedes(b[k].0, b[n].0));
                crate::text::lemma_precedes_transitive(a[i].0, a[n].0, a[i].0);
            }
            crate::text::lemma_precedes_irreflexive(a[i].0);
        }
    }
    assert(i <= m < n && b[m] == a[i]);
}

/// **Law.** The order in which objects list their keys is not part of a value:
/// two values that differ in nothing else have the same canonical form.
pub proof fn law_key_order_is_not_part_of_the_value(a: Tree, b: Tree)
    requires
        well_formed(a),
        well_formed(b),
        same_value(a, b),
    ensures
        canonical_form(a) == canonical_form(b),
    decreases a,
{
    match (a, b) {
        (Tree::Array(x), Tree::Array(y)) => {
            lemma_forms(x);
            lemma_forms(y);
            assert forall|i: int| 0 <= i < x.len() implies forms(x)[i] == forms(y)[i] by {
                assert(same_value(x[i], y[i]));
                law_key_order_is_not_part_of_the_value(x[i], y[i]);
            }
            assert(forms(x) =~= forms(y));
        },
        (Tree::Object(x), Tree::Object(y)) => {
            lemma_pairs(x);
            lemma_pairs(y);
            let p = pairs(x);
            let q = pairs(y);
            assert(distinct_pairs(p)) by {
                assert forall|i: int, j: int| 0 <= i < j < p.len() implies (#[trigger] p[i]).0 != (
                #[trigger] p[j]).0 by {
                    assert(x[i].0 != x[j].0);
                }
            }
            assert(distinct_pairs(q)) by {
                assert forall|i: int, j: int| 0 <= i < j < q.len() implies (#[trigger] q[i]).0 != (
                #[trigger] q[j]).0 by {
                    assert(y[i].0 != y[j].0);
                }
            }
            assert forall|z: Pair| p.contains(z) implies q.contains(z) by {
                let i = choose|i: int| 0 <= i < p.len() && p[i] == z;
                assert(p[i] == (x[i].0, canonical_form(x[i].1)));
                lemma_key_at(y, x[i].0);
                let j = key_at(y, x[i].0)->0;
                assert(lookup(y, x[i].0) is Some);
                law_key_order_is_not_part_of_the_value(x[i].1, y[j].1);
                assert(q[j] == z);
            }
            lemma_in_order(p);
            lemma_in_order(q);
            assert forall|z: Pair| #[trigger] in_order(p).contains(z) implies in_order(q).contains(
                z,
            ) by {
                assert(p.contains(z));
            }
            lemma_order_is_unique(in_order(p), in_order(q));
        },
        _ => {},
    }
}

} // verus!
