//! The indented text of a JSON value.
//!
//! A scalar is written as in its canonical form. The elements of an array and the
//! entries of an object stand on lines of their own, two blanks further in than
//! the brackets around them, in the order the value lists them. An empty array or
//! object is its two brackets.

use crate::canon::{canonical_form, quoted};
use crate::text::{joined, white_space};
use crate::tree::{Entries, Tree};
use crate::unique::{lemma_first, numeric};
use vstd::prelude::*;

verus! {

/// The start of a line this many levels in.
pub open spec fn line_start(levels: nat) -> Seq<char> {
    seq!['\n'] + Seq::new(2 * levels, |i: int| ' ')
}

/// A value as written this many levels in.
pub open spec fn indented(t: Tree, levels: nat) -> Seq<char>
    decreases t,
{
    match t {
        Tree::Array(a) => if a.len() == 0 {
            seq!['[', ']']
        } else {
            seq!['['] + joined(element_lines(a, levels + 1), seq![',']) + line_start(levels)
                + seq![']']
        },
        Tree::Object(e) => if e.len() == 0 {
            seq!['{', '}']
        } else {
            seq!['{'] + joined(entry_lines(e, levels + 1), seq![',']) + line_start(levels)
                + seq!['}']
        },
        _ => canonical_form(t),
    }
}

/// The elements of an array as written this many levels in.
pub open spec fn element_lines(a: Seq<Tree>, levels: nat) -> Seq<Seq<char>>
    decreases a,
{
    if a.len() == 0 {
        Seq::empty()
    } else {
        element_lines(a.drop_last(), levels).push(line_start(levels) + indented(a.last(), levels))
    }
}

/// The entries of an object as written this many levels in.
pub open spec fn entry_lines(e: Entries, levels: nat) -> Seq<Seq<char>>
    decreases e,
{
    if e.len() == 0 {
        Seq::empty()
    } else {
        entry_lines(e.drop_last(), levels).push(
            line_start(levels) + quoted(e.last().0) + seq![':', ' '] + indented(
                e.last().1,
                levels,
            ),
        )
    }
}

/// The indented text of a value.
pub open spec fn pretty_text(t: Tree) -> Seq<char> {
    indented(t, 0)
}

/// **Law.** The indented text of a value begins with a character of the value
/// itself, never with white space, so it is never blank.
pub proof fn law_pretty_text_is_never_blank(t: Tree)
    requires
        numeric(t),
    ensures
        pretty_text(t).len() > 0,
        !white_space(pretty_text(t)[0]),
{
    lemma_first(t);
}

} // verus!
