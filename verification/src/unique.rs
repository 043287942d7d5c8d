//! Canonical forms tell values apart.
//!
//! Two values have the same canonical form only where they are the same value up
//! to the order in which objects list their keys. Numbers are taken by the text
//! they are written with, so the text of a number must look like one: it would
//! otherwise be mistaken for another value.

use crate::canon::{
    ascending, canonical_form, canonical_object, distinct_pairs, escape, escaped, field, forms,
    hex_digit, in_order, law_key_order_is_not_part_of_the_value, lemma_forms, lemma_in_order,
    lemma_pairs, pairs, quoted, same_value, Pair,
};
use crate::text::joined;
use crate::tree::{distinct_keys, key_at, lemma_key_at, lookup, well_formed, Entries, Tree};
use vstd::prelude::*;

verus! {

/// A character that occurs in the text of a number.
pub open spec fn number_char(c: char) -> bool {
    '0' <= c <= '9' || c == '-' || c == '+' || c == '.' || c == 'e' || c == 'E'
}

/// A text that looks like a number.
pub open spec fn numeral(text: Seq<char>) -> bool {
    text.len() > 0 && forall|i: int| 0 <= i < text.len() ==> number_char(#[trigger] text[i])
}

/// Every number in a value looks like one.
pub open spec fn numeric(t: Tree) -> bool
    decreases t,
{
    match t {
        Tree::Number(text) => numeral(text),
        Tree::Array(a) => forall|i: int| 0 <= i < a.len() ==> numeric(#[trigger] a[i]),
        Tree::Object(e) => forall|i: int| 0 <= i < e.len() ==> numeric((#[trigger] e[i]).1),
        _ => true,
    }
}

/// What may follow a value inside a canonical form: nothing, or the character
/// that ends an element.
spec fn follows(x: Seq<char>) -> bool {
    x.len() == 0 || x[0] == ',' || x[0] == ']' || x[0] == '}'
}

/// Two texts that begin alike go on alike where they are equal.
proof fn lemma_cancel(p: Seq<char>, q: Seq<char>, x: Seq<char>, y: Seq<char>)
    requires
        p + x == q + y,
        p.len() == q.len(),
    ensures
        p == q,
        x == y,
{
    assert forall|i: int| 0 <= i < p.len() implies p[i] == q[i] by {
        assert((p + x)[i] == p[i]);
        assert((q + y)[i] == q[i]);
    }
    assert(p =~= q);
    assert((p + x).len() == p.len() + x.len());
    assert((q + y).len() == q.len() + y.len());
    assert forall|i: int| 0 <= i < x.len() implies x[i] == y[i] by {
        assert((p + x)[p.len() + i] == x[i]);
        assert((q + y)[p.len() + i] == y[i]);
    }
    assert(x =~= y);
}

/// A number ends where what follows it begins.
proof fn lemma_numeral_ends(u: Seq<char>, v: Seq<char>, x: Seq<char>, y: Seq<char>)
    requires
        numeral(u),
        numeral(v),
        follows(x),
        follows(y),
        u + x == v + y,
    ensures
        u == v,
        x == y,
{
    let whole = u + x;
    assert(whole.len() == u.len() + x.len());
    assert(whole.len() == v.len() + y.len());
    if u.len() < v.len() {
        assert(whole[u.len() as int] == x[0]);
        assert((v + y)[u.len() as int] == v[u.len() as int]);
        assert(number_char(v[u.len() as int]));
    } else if v.len() < u.len() {
        assert((v + y)[v.len() as int] == y[0]);
        assert(whole[v.len() as int] == u[v.len() as int]);
        assert(number_char(u[v.len() as int]));
    }
    lemma_cancel(u, v, x, y);
}

/// Hexadecimal digits tell their values apart.
proof fn lemma_hex_digit(a: nat, b: nat)
    requires
        a < 16,
        b < 16,
        hex_digit(a) == hex_digit(b),
    ensures
        a == b,
{
    assert(hex_digit(a) as u32 == if a < 10 {
        48 + a
    } else {
        87 + a
    });
    assert(hex_digit(b) as u32 == if b < 10 {
        48 + b
    } else {
        87 + b
    });
}

/// An escaped character begins with a backslash or is the character itself.
proof fn lemma_escape_starts(c: char)
    ensures
        escape(c).len() > 0,
        escape(c)[0] != '"',
        escape(c)[0] == '\\' <==> escape(c).len() > 1,
        escape(c).len() == 1 ==> escape(c)[0] == c,
        escape(c).len() == 1 || escape(c).len() == 2 || escape(c).len() == 6,
        escape(c).len() == 6 <==> escape(c).len() > 1 && escape(c)[1] == 'u',
{
}

/// The length of an escaped character shows in its first two.
proof fn lemma_escape_length(c: char, d: char, u: Seq<char>, v: Seq<char>)
    requires
        escape(c) + u == escape(d) + v,
    ensures
        escape(c).len() == escape(d).len(),
{
    lemma_escape_starts(c);
    lemma_escape_starts(d);
    let p = escape(c);
    let q = escape(d);
    assert((p + u)[0] == p[0]);
    assert((q + v)[0] == q[0]);
    if p.len() > 1 && q.len() > 1 {
        assert((p + u)[1] == p[1]);
        assert((q + v)[1] == q[1]);
    }
}

/// Escaped characters tell the characters apart.
proof fn lemma_escape(c: char, d: char)
    requires
        escape(c) == escape(d),
    ensures
        c == d,
{
    lemma_escape_starts(c);
    lemma_escape_starts(d);
    if escape(c).len() == 2 {
        assert(escape(c)[1] == escape(d)[1]);
    } else if escape(c).len() == 6 {
        assert(escape(c)[4] == hex_digit(c as nat / 16));
        assert(escape(d)[4] == hex_digit(d as nat / 16));
        assert(escape(c)[5] == hex_digit(c as nat % 16));
        assert(escape(d)[5] == hex_digit(d as nat % 16));
        lemma_hex_digit(c as nat / 16, d as nat / 16);
        lemma_hex_digit(c as nat % 16, d as nat % 16);
    }
}

/// The escaped characters of a string, from the front.
proof fn lemma_escaped_front(s: Seq<char>)
    requires
        s.len() > 0,
    ensures
        escaped(s) == escape(s[0]) + escaped(s.drop_first()),
    decreases s.len(),
{
    let rest = s.drop_first();
    if s.len() == 1 {
        assert(s.drop_last() =~= Seq::<char>::empty());
        assert(rest =~= Seq::<char>::empty());
        assert(escaped(s) =~= escape(s[0]) + escaped(rest));
    } else {
        lemma_escaped_front(s.drop_last());
        assert(s.drop_last().drop_first() =~= rest.drop_last());
        assert(rest.last() == s.last());
        assert(escaped(s) =~= escape(s[0]) + escaped(rest));
    }
}

/// A string ends at the first quote that is not escaped.
proof fn lemma_string_ends(s: Seq<char>, t: Seq<char>, x: Seq<char>, y: Seq<char>)
    requires
        escaped(s) + (seq!['"'] + x) == escaped(t) + (seq!['"'] + y),
    ensures
        s == t,
        x == y,
    decreases s.len(),
{
    let a = seq!['"'] + x;
    let b = seq!['"'] + y;
    if s.len() == 0 && t.len() == 0 {
        lemma_cancel(escaped(s), escaped(t), a, b);
        lemma_cancel(seq!['"'], seq!['"'], x, y);
        assert(s =~= t);
    } else if s.len() == 0 {
        lemma_escaped_front(t);
        lemma_escape_starts(t[0]);
        assert((escaped(s) + a)[0] == '"');
        assert((escaped(t) + b)[0] == escape(t[0])[0]);
    } else if t.len() == 0 {
        lemma_escaped_front(s);
        lemma_escape_starts(s[0]);
        assert((escaped(t) + b)[0] == '"');
        assert((escaped(s) + a)[0] == escape(s[0])[0]);
    } else {
        lemma_escaped_front(s);
        lemma_escaped_front(t);
        let u = escaped(s.drop_first()) + a;
        let v = escaped(t.drop_first()) + b;
        assert(escaped(s) + a =~= escape(s[0]) + u);
        assert(escaped(t) + b =~= escape(t[0]) + v);
        lemma_escape_length(s[0], t[0], u, v);
        lemma_cancel(escape(s[0]), escape(t[0]), u, v);
        lemma_escape(s[0], t[0]);
        lemma_string_ends(s.drop_first(), t.drop_first(), x, y);
        assert(s =~= seq![s[0]] + s.drop_first());
        assert(t =~= seq![t[0]] + t.drop_first());
    }
}

/// A string as written tells where it ends and what it is.
proof fn lemma_quoted(s: Seq<char>, t: Seq<char>, x: Seq<char>, y: Seq<char>)
    requires
        quoted(s) + x == quoted(t) + y,
    ensures
        s == t,
        x == y,
{
    let u = escaped(s) + (seq!['"'] + x);
    let v = escaped(t) + (seq!['"'] + y);
    assert(quoted(s) + x =~= seq!['"'] + u);
    assert(quoted(t) + y =~= seq!['"'] + v);
    lemma_cancel(seq!['"'], seq!['"'], u, v);
    lemma_string_ends(s, t, x, y);
}

/// The parts from the `i`th on, each behind a comma.
spec fn trail(parts: Seq<Seq<char>>, i: int) -> Seq<char>
    decreases parts.len() - i,
{
    if i < 0 || i >= parts.len() {
        Seq::empty()
    } else {
        seq![','] + (parts[i] + trail(parts, i + 1))
    }
}

/// A trail goes on behind the parts before the last.
proof fn lemma_trail_last(parts: Seq<Seq<char>>, i: int)
    requires
        0 <= i < parts.len(),
    ensures
        trail(parts, i) == trail(parts.drop_last(), i) + (seq![','] + parts.last()),
    decreases parts.len() - i,
{
    let head = parts.drop_last();
    if i == parts.len() - 1 {
        assert(trail(parts, i + 1) =~= Seq::<char>::empty());
        assert(trail(parts, i) =~= seq![','] + parts.last());
        assert(trail(head, i) =~= Seq::<char>::empty());
        assert(trail(head, i) + (seq![','] + parts.last()) =~= seq![','] + parts.last());
    } else {
        lemma_trail_last(parts, i + 1);
        assert(head[i] == parts[i]);
        assert(trail(parts, i) =~= trail(head, i) + (seq![','] + parts.last()));
    }
}

/// Joined parts are the first one and the trail of the others.
proof fn lemma_joined_front(parts: Seq<Seq<char>>)
    requires
        parts.len() > 0,
    ensures
        joined(parts, seq![',']) == parts[0] + trail(parts, 1),
    decreases parts.len(),
{
    if parts.len() == 1 {
        assert(trail(parts, 1) =~= Seq::<char>::empty());
        assert(parts[0] + trail(parts, 1) =~= parts[0]);
    } else {
        let head = parts.drop_last();
        lemma_joined_front(head);
        lemma_trail_last(parts, 1);
        assert(head[0] == parts[0]);
        assert(joined(parts, seq![',']) =~= parts[0] + trail(parts, 1));
    }
}

/// What a trail begins with.
proof fn lemma_trail_starts(parts: Seq<Seq<char>>, i: int, close: char, x: Seq<char>)
    requires
        0 <= i <= parts.len(),
        close == ']' || close == '}',
    ensures
        follows(trail(parts, i) + (seq![close] + x)),
        (trail(parts, i) + (seq![close] + x)).len() > 0,
        (trail(parts, i) + (seq![close] + x))[0] == if i < parts.len() {
            ','
        } else {
            close
        },
{
    let whole = trail(parts, i) + (seq![close] + x);
    if i < parts.len() {
        assert(trail(parts, i)[0] == ',');
        assert(whole[0] == trail(parts, i)[0]);
    } else {
        assert(trail(parts, i) =~= Seq::<char>::empty());
        assert(whole[0] == close);
    }
}

/// What a canonical form begins with tells what sort of value it is of.
pub proof fn lemma_first(t: Tree)
    requires
        numeric(t),
    ensures
        canonical_form(t).len() > 0,
        match t {
            Tree::Null => canonical_form(t)[0] == 'n',
            Tree::Bool(b) => canonical_form(t)[0] == if b {
                't'
            } else {
                'f'
            },
            Tree::Number(_) => number_char(canonical_form(t)[0]),
            Tree::String(_) => canonical_form(t)[0] == '"',
            Tree::Array(_) => canonical_form(t)[0] == '[',
            Tree::Object(_) => canonical_form(t)[0] == '{',
        },
{
    reveal_strlit("null");
    reveal_strlit("true");
    reveal_strlit("false");
}

/// The pairs of an object in order: every one comes from an entry, and every
/// entry is there.
proof fn lemma_ordered(e: Entries)
    requires
        distinct_keys(e),
    ensures
        ascending(in_order(pairs(e))),
        in_order(pairs(e)).len() == e.len(),
        forall|m: int|
            0 <= m < e.len() ==> {
                &&& lookup(e, (#[trigger] in_order(pairs(e))[m]).0) is Some
                &&& in_order(pairs(e))[m].1 == canonical_form(
                    lookup(e, in_order(pairs(e))[m].0)->0,
                )
            },
        forall|i: int|
            0 <= i < e.len() ==> {
                &&& in_order(pairs(e)).contains(((#[trigger] e[i]).0, canonical_form(e[i].1)))
                &&& lookup(e, e[i].0) == Some(e[i].1)
            },
{
    let p = pairs(e);
    lemma_pairs(e);
    assert(distinct_pairs(p)) by {
        assert forall|i: int, j: int| 0 <= i < j < p.len() implies (#[trigger] p[i]).0 != (
        #[trigger] p[j]).0 by {
            assert(e[i].0 != e[j].0);
        }
    }
    lemma_in_order(p);
    let q = in_order(p);
    assert forall|i: int| 0 <= i < e.len() implies q.contains(
        ((#[trigger] e[i]).0, canonical_form(e[i].1)),
    ) && lookup(e, e[i].0) == Some(e[i].1) by {
        assert(p[i] == (e[i].0, canonical_form(e[i].1)));
        assert(p.contains(p[i]));
        lemma_key_at(e, e[i].0);
        let j = key_at(e, e[i].0)->0;
        if j != i {
            assert(e[j].0 == e[i].0);
        }
    }
    assert forall|m: int| 0 <= m < e.len() implies lookup(e, (#[trigger] q[m]).0) is Some
        && q[m].1 == canonical_form(lookup(e, q[m].0)->0) by {
        assert(q.contains(q[m]));
        let i = choose|i: int| 0 <= i < p.len() && p[i] == q[m];
        assert(p[i] == (e[i].0, canonical_form(e[i].1)));
        assert(lookup(e, e[i].0) == Some(e[i].1));
    }
}

/// The texts of the fields of an object, in order.
spec fn fields(e: Entries) -> Seq<Seq<char>> {
    in_order(pairs(e)).map_values(|p: Pair| field(p))
}

/// Values without duplicate keys whose numbers look like numbers.
spec fn readable(a: Seq<Tree>) -> bool {
    forall|i: int| 0 <= i < a.len() ==> well_formed(#[trigger] a[i]) && numeric(a[i])
}

/// Two values whose canonical forms begin two equal texts are the same value, and
/// the texts go on alike.
proof fn lemma_same_form(a: Tree, b: Tree, x: Seq<char>, y: Seq<char>)
    requires
        well_formed(a),
        well_formed(b),
        numeric(a),
        numeric(b),
        follows(x),
        follows(y),
        canonical_form(a) + x == canonical_form(b) + y,
    ensures
        same_value(a, b),
        x == y,
    decreases a, 0int,
{
    let p = canonical_form(a);
    let q = canonical_form(b);
    lemma_first(a);
    lemma_first(b);
    assert((p + x)[0] == p[0]);
    assert((q + y)[0] == q[0]);
    match (a, b) {
        (Tree::Null, Tree::Null) => {
            lemma_cancel(p, q, x, y);
        },
        (Tree::Bool(_), Tree::Bool(_)) => {
            lemma_cancel(p, q, x, y);
        },
        (Tree::Number(_), Tree::Number(_)) => {
            lemma_numeral_ends(p, q, x, y);
        },
        (Tree::String(s), Tree::String(t)) => {
            lemma_quoted(s, t, x, y);
        },
        (Tree::Array(s), Tree::Array(t)) => {
            lemma_forms(s);
            lemma_forms(t);
            let u = joined(forms(s), seq![',']) + (seq![']'] + x);
            let v = joined(forms(t), seq![',']) + (seq![']'] + y);
            assert(p + x =~= seq!['['] + u);
            assert(q + y =~= seq!['['] + v);
            lemma_cancel(seq!['['], seq!['['], u, v);
            lemma_same_arrays(s, t, x, y);
        },
        (Tree::Object(s), Tree::Object(t)) => {
            let u = joined(fields(s), seq![',']) + (seq!['}'] + x);
            let v = joined(fields(t), seq![',']) + (seq!['}'] + y);
            assert(p + x =~= seq!['{'] + u);
            assert(q + y =~= seq!['{'] + v);
            lemma_cancel(seq!['{'], seq!['{'], u, v);
            lemma_same_objects(s, t, x, y);
        },
        _ => {},
    }
}

/// [`lemma_same_form`] for the elements of two arrays.
proof fn lemma_same_arrays(a: Seq<Tree>, b: Seq<Tree>, x: Seq<char>, y: Seq<char>)
    requires
        readable(a),
        readable(b),
        joined(forms(a), seq![',']) + (seq![']'] + x) == joined(forms(b), seq![',']) + (seq![']']
            + y),
    ensures
        same_value(Tree::Array(a), Tree::Array(b)),
        x == y,
    decreases a, a.len() + 1,
{
    lemma_forms(a);
    lemma_forms(b);
    let s = joined(forms(a), seq![',']) + (seq![']'] + x);
    let t = joined(forms(b), seq![',']) + (seq![']'] + y);
    if a.len() > 0 {
        lemma_joined_front(forms(a));
        lemma_first(a[0]);
        assert(forms(a)[0] == canonical_form(a[0]));
        assert(s[0] == canonical_form(a[0])[0]);
    } else {
        assert(s =~= seq![']'] + x);
    }
    if b.len() > 0 {
        lemma_joined_front(forms(b));
        lemma_first(b[0]);
        assert(forms(b)[0] == canonical_form(b[0]));
        assert(t[0] == canonical_form(b[0])[0]);
    } else {
        assert(t =~= seq![']'] + y);
    }
    if a.len() > 0 && b.len() > 0 {
        let u = trail(forms(a), 1) + (seq![']'] + x);
        let v = trail(forms(b), 1) + (seq![']'] + y);
        assert(s =~= canonical_form(a[0]) + u);
        assert(t =~= canonical_form(b[0]) + v);
        lemma_trail_starts(forms(a), 1, ']', x);
        lemma_trail_starts(forms(b), 1, ']', y);
        lemma_same_form(a[0], b[0], u, v);
        lemma_same_elements(a, b, 1, x, y);
    } else if a.len() == 0 && b.len() == 0 {
        lemma_cancel(seq![']'], seq![']'], x, y);
    }
}

/// [`lemma_same_form`] for the elements of two arrays from the `i`th on.
proof fn lemma_same_elements(a: Seq<Tree>, b: Seq<Tree>, i: int, x: Seq<char>, y: Seq<char>)
    requires
        readable(a),
        readable(b),
        0 < i <= a.len(),
        i <= b.len(),
        trail(forms(a), i) + (seq![']'] + x) == trail(forms(b), i) + (seq![']'] + y),
    ensures
        a.len() == b.len(),
        forall|m: int| i <= m < a.len() ==> same_value(#[trigger] a[m], b[m]),
        x == y,
    decreases a, a.len() - i,
{
    lemma_forms(a);
    lemma_forms(b);
    let s = trail(forms(a), i) + (seq![']'] + x);
    let t = trail(forms(b), i) + (seq![']'] + y);
    lemma_trail_starts(forms(a), i, ']', x);
    lemma_trail_starts(forms(b), i, ']', y);
    if i < a.len() {
        let u = trail(forms(a), i + 1) + (seq![']'] + x);
        let v = trail(forms(b), i + 1) + (seq![']'] + y);
        assert(s =~= seq![','] + (canonical_form(a[i]) + u));
        assert(t =~= seq![','] + (canonical_form(b[i]) + v));
        lemma_cancel(seq![','], seq![','], canonical_form(a[i]) + u, canonical_form(b[i]) + v);
        lemma_trail_starts(forms(a), i + 1, ']', x);
        lemma_trail_starts(forms(b), i + 1, ']', y);
        lemma_same_form(a[i], b[i], u, v);
        lemma_same_elements(a, b, i + 1, x, y);
    } else {
        assert(s =~= seq![']'] + x);
        assert(t =~= seq![']'] + y);
        lemma_cancel(seq![']'], seq![']'], x, y);
    }
}

/// Whether two objects have the same key in a place of their order, with the same
/// value under it.
spec fn alike_at(a: Entries, b: Entries, m: int) -> bool {
    let key = in_order(pairs(a))[m].0;
    &&& in_order(pairs(b))[m].0 == key
    &&& same_value(lookup(a, key)->0, lookup(b, key)->0)
}

/// Two fields that begin two equal texts have the same key and the same value.
proof fn lemma_same_field(a: Entries, b: Entries, m: int, x: Seq<char>, y: Seq<char>)
    requires
        well_formed(Tree::Object(a)),
        well_formed(Tree::Object(b)),
        numeric(Tree::Object(a)),
        numeric(Tree::Object(b)),
        0 <= m < a.len(),
        m < b.len(),
        follows(x),
        follows(y),
        fields(a)[m] + x == fields(b)[m] + y,
    ensures
        alike_at(a, b, m),
        x == y,
    decreases a, 0int,
{
    lemma_ordered(a);
    lemma_ordered(b);
    let p = in_order(pairs(a))[m];
    let q = in_order(pairs(b))[m];
    assert(fields(a)[m] == field(p));
    assert(fields(b)[m] == field(q));
    let u = seq![':'] + (p.1 + x);
    let v = seq![':'] + (q.1 + y);
    assert(field(p) + x =~= quoted(p.0) + u);
    assert(field(q) + y =~= quoted(q.0) + v);
    lemma_quoted(p.0, q.0, u, v);
    lemma_cancel(seq![':'], seq![':'], p.1 + x, q.1 + y);
    lemma_key_at(a, p.0);
    lemma_key_at(b, p.0);
    let i = key_at(a, p.0)->0;
    let j = key_at(b, p.0)->0;
    assert(well_formed(a[i].1) && well_formed(b[j].1));
    assert(numeric(a[i].1) && numeric(b[j].1));
    assert(decreases_to!(a => a[i]));
    assert(decreases_to!(a[i] => a[i].1));
    lemma_same_form(a[i].1, b[j].1, x, y);
}

/// [`lemma_same_form`] for the fields of two objects.
proof fn lemma_same_objects(a: Entries, b: Entries, x: Seq<char>, y: Seq<char>)
    requires
        well_formed(Tree::Object(a)),
        well_formed(Tree::Object(b)),
        numeric(Tree::Object(a)),
        numeric(Tree::Object(b)),
        joined(fields(a), seq![',']) + (seq!['}'] + x) == joined(fields(b), seq![',']) + (seq!['}']
            + y),
    ensures
        same_value(Tree::Object(a), Tree::Object(b)),
        x == y,
    decreases a, a.len() + 2,
{
    lemma_ordered(a);
    lemma_ordered(b);
    let s = joined(fields(a), seq![',']) + (seq!['}'] + x);
    let t = joined(fields(b), seq![',']) + (seq!['}'] + y);
    if a.len() > 0 {
        lemma_joined_front(fields(a));
        assert(fields(a)[0] == field(in_order(pairs(a))[0]));
        assert(fields(a)[0][0] == '"');
        assert(s[0] == '"');
    } else {
        assert(s =~= seq!['}'] + x);
    }
    if b.len() > 0 {
        lemma_joined_front(fields(b));
        assert(fields(b)[0] == field(in_order(pairs(b))[0]));
        assert(fields(b)[0][0] == '"');
        assert(t[0] == '"');
    } else {
        assert(t =~= seq!['}'] + y);
    }
    if a.len() > 0 && b.len() > 0 {
        let u = trail(fields(a), 1) + (seq!['}'] + x);
        let v = trail(fields(b), 1) + (seq!['}'] + y);
        assert(s =~= fields(a)[0] + u);
        assert(t =~= fields(b)[0] + v);
        lemma_trail_starts(fields(a), 1, '}', x);
        lemma_trail_starts(fields(b), 1, '}', y);
        lemma_same_field(a, b, 0, u, v);
        lemma_same_fields(a, b, 1, x, y);
        assert forall|i: int| 0 <= i < a.len() implies lookup(b, (#[trigger] a[i]).0) is Some
            && same_value(a[i].1, lookup(b, a[i].0)->0) by {
            let order = in_order(pairs(a));
            let m = choose|m: int|
                0 <= m < order.len() && order[m] == (a[i].0, canonical_form(a[i].1));
            assert(alike_at(a, b, m));
            assert(lookup(b, in_order(pairs(b))[m].0) is Some);
        }
    } else if a.len() == 0 && b.len() == 0 {
        lemma_cancel(seq!['}'], seq!['}'], x, y);
    }
}

/// [`lemma_same_form`] for the fields of two objects from the `i`th on.
proof fn lemma_same_fields(a: Entries, b: Entries, i: int, x: Seq<char>, y: Seq<char>)
    requires
        well_formed(Tree::Object(a)),
        well_formed(Tree::Object(b)),
        numeric(Tree::Object(a)),
        numeric(Tree::Object(b)),
        0 < i <= a.len(),
        i <= b.len(),
        trail(fields(a), i) + (seq!['}'] + x) == trail(fields(b), i) + (seq!['}'] + y),
    ensures
        a.len() == b.len(),
        forall|m: int| i <= m < a.len() ==> #[trigger] alike_at(a, b, m),
        x == y,
    decreases a, a.len() - i + 1,
{
    lemma_ordered(a);
    lemma_ordered(b);
    let s = trail(fields(a), i) + (seq!['}'] + x);
    let t = trail(fields(b), i) + (seq!['}'] + y);
    lemma_trail_starts(fields(a), i, '}', x);
    lemma_trail_starts(fields(b), i, '}', y);
    if i < a.len() {
        let u = trail(fields(a), i + 1) + (seq!['}'] + x);
        let v = trail(fields(b), i + 1) + (seq!['}'] + y);
        assert(s =~= seq![','] + (fields(a)[i] + u));
        assert(t =~= seq![','] + (fields(b)[i] + v));
        lemma_cancel(seq![','], seq![','], fields(a)[i] + u, fields(b)[i] + v);
        lemma_trail_starts(fields(a), i + 1, '}', x);
        lemma_trail_starts(fields(b), i + 1, '}', y);
        lemma_same_field(a, b, i, u, v);
        lemma_same_fields(a, b, i + 1, x, y);
    } else {
        assert(s =~= seq!['}'] + x);
        assert(t =~= seq!['}'] + y);
        lemma_cancel(seq!['}'], seq!['}'], x, y);
    }
}

/// A value under a key is another value than the value itself: its canonical form
/// is longer.
pub proof fn lemma_under_a_key(key: Seq<char>, t: Tree)
    ensures
        canonical_form(Tree::Object(seq![(key, t)])) != canonical_form(t),
{
    let e: Entries = seq![(key, t)];
    let p: Pair = (key, canonical_form(t));
    lemma_pairs(e);
    assert(pairs(e) =~= seq![p]);
    assert(in_order(pairs(e).drop_last()) =~= Seq::<Pair>::empty());
    assert(in_order(pairs(e)) =~= seq![p]);
    let fields = in_order(pairs(e)).map_values(|p: Pair| field(p));
    assert(fields.len() == 1 && fields.last() == field(p));
    assert(joined(fields, seq![',']) == field(p));
    assert(field(p).len() >= p.1.len());
    assert(canonical_form(Tree::Object(e)) == canonical_object(pairs(e)));
    assert(canonical_object(pairs(e)).len() == field(p).len() + 2);
}

/// **Law.** The canonical form is the value: two values have the same canonical
/// form exactly where they are the same up to the order in which objects list
/// their keys, numbers taken by their text.
pub proof fn law_the_canonical_form_is_the_value(a: Tree, b: Tree)
    requires
        well_formed(a),
        well_formed(b),
        numeric(a),
        numeric(b),
    ensures
        canonical_form(a) == canonical_form(b) <==> same_value(a, b),
{
    if same_value(a, b) {
        law_key_order_is_not_part_of_the_value(a, b);
    }
    if canonical_form(a) == canonical_form(b) {
        lemma_same_form(a, b, Seq::empty(), Seq::empty());
    }
}

/// **Law.** In the canonical form of an object the keys stand in strictly
/// ascending order. There is one field for every entry, made of the key and the
/// canonical form of the value under it, to which the same applies.
pub proof fn law_keys_stand_in_order(e: Entries)
    requires
        well_formed(Tree::Object(e)),
    ensures
        canonical_form(Tree::Object(e)) == canonical_object(pairs(e)),
        ascending(in_order(pairs(e))),
        in_order(pairs(e)).len() == e.len(),
        forall|m: int|
            0 <= m < e.len() ==> {
                &&& lookup(e, (#[trigger] in_order(pairs(e))[m]).0) is Some
                &&& in_order(pairs(e))[m].1 == canonical_form(
                    lookup(e, in_order(pairs(e))[m].0)->0,
                )
            },
        forall|i: int|
            0 <= i < e.len() ==> in_order(pairs(e)).contains(
                ((#[trigger] e[i]).0, canonical_form(e[i].1)),
            ),
{
    lemma_ordered(e);
}

} // verus!
