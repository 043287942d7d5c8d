//! Addresses of the items of a JSON document.
//!
//! A value is addressed by the keys leading to it, joined by dots. An element of
//! an array is addressed by the path of its array and a digest of its canonical
//! form, as in `permissions.deny[#3f9a1c4e]`: an index would name a different
//! element as soon as a neighbour were inserted.
//!
//! Paths are dotted, so a key containing `.` cannot be addressed, and a key
//! containing `[#` may be misread as an array element when provenance is read
//! back. Neither appears in the configuration formats this addresses. The document
//! itself is addressed as `<root>`, as a single key of that name is, and when
//! provenance is read back the key is what is meant.

use crate::port::{Addr, Repr};
use crate::text::{
    chars_of, join, joined, law_joining_puts_a_separator_between, law_splitting_loses_nothing,
    lemma_pieces_nonempty, lemma_pieces_of_joined, pieces, split, string_of, texts, trim_bounds,
    trimmed, trimmed_end, trimmed_start, white_space, without_leading,
};
use crate::tree::Path;
use vstd::prelude::*;
use vstd::string::*;

verus! {

/// The segments of a dotted path: what is between the dots, without the white
/// space around the path and the dots in front of it.
pub open spec fn segments(path: Seq<char>) -> Path {
    let rest = without_leading(trimmed(path), '.');
    if rest.len() == 0 {
        Seq::empty()
    } else {
        pieces(rest, '.')
    }
}

/// Split a dotted path into segments, tolerating a leading dot.
///
/// Both `env` and `.env` name the same slot; the leading-dot form is what
/// scripts that previously called `jq` will already be passing.
pub fn split_path(path: &str) -> (segs: Vec<String>)
    ensures
        texts(segs@) == segments(path@),
{
    let chars = chars_of(path);
    let (start, to) = trim_bounds(&chars);
    let mut from: usize = start;
    while from < to && chars[from] == '.'
        invariant
            start <= from <= to <= chars@.len(),
            without_leading(trimmed(path@), '.') == without_leading(
                chars@.subrange(from as int, to as int),
                '.',
            ),
        decreases to - from,
    {
        assert(chars@.subrange(from as int, to as int).drop_first() =~= chars@.subrange(
            from + 1,
            to as int,
        ));
        from += 1;
    }
    if from == to {
        let none: Vec<String> = Vec::new();
        assert(texts(none@) =~= Seq::<Seq<char>>::empty());
        return none;
    }
    split(&chars, from, to, '.')
}

/// A path for display, naming the document root when it is empty.
pub open spec fn shown(path: Path) -> Seq<char> {
    if path.len() == 0 {
        "<root>"@
    } else {
        joined(path, seq!['.'])
    }
}

/// Render a path for display, naming the document root when empty.
pub fn display_path(segs: &[String]) -> (s: String)
    ensures
        s@ == shown(texts(segs@)),
{
    if segs.len() == 0 {
        "<root>".to_owned()
    } else {
        proof {
            reveal_strlit(".");
        }
        assert("."@ =~= seq!['.']);
        join(segs, ".")
    }
}

/// The SHA-256 digest of the UTF-8 encoding of a text, in hexadecimal notation.
pub uninterp spec fn sha256_hex(text: Seq<char>) -> Seq<char>;

/// A digit of a number in lower-case hexadecimal notation.
pub open spec fn hex(c: char) -> bool {
    '0' <= c <= '9' || 'a' <= c <= 'f'
}

/// The SHA-256 digest of a text, by way of `sha2::Sha256::digest` on its UTF-8
/// encoding, with its bytes written in lower-case hexadecimal notation. The
/// digest is named [`sha256_hex`]; it has 64 digits.
#[verifier::external_body]
fn digest_text(text: &str) -> (r: String)
    ensures
        r@ == sha256_hex(text@),
        r@.len() == 64,
        forall|i: int| 0 <= i < r@.len() ==> hex(#[trigger] r@[i]),
{
    format!("{:x}", <sha2::Sha256 as sha2::Digest>::digest(text.as_bytes()))
}

/// The address of an array element: the path of the array, and the first eight
/// digits of a digest of the element's canonical form.
pub open spec fn element_text(path: Path, repr: Seq<char>) -> Seq<char> {
    tagged(shown(path), sha256_hex(repr).take(8))
}

/// A path with a tag in brackets behind it.
pub open spec fn tagged(path: Seq<char>, tag: Seq<char>) -> Seq<char> {
    path + seq!['[', '#'] + tag + seq![']']
}

/// The address of an array element: the array's path and a digest of the value.
///
/// Read back from provenance, the address denotes that element of that array
/// again, where the path is [`addressable`].
pub fn element_addr(path: &[String], repr: &Repr) -> (a: Addr)
    ensures
        a@ == element_text(texts(path@), repr@),
        addressable(texts(path@)) ==> place_of(a@, repr@) == (Place::Element {
            path: texts(path@),
            repr: repr@,
        }),
{
    let digest = digest_text(repr.as_str());
    let mut s = display_path(path);
    s.push('[');
    s.push('#');
    s.append(digest.as_str().substring_char(0, 8));
    s.push(']');
    assert(s@ =~= element_text(texts(path@), repr@));
    proof {
        if addressable(texts(path@)) {
            lemma_element_place(texts(path@), digest@.take(8), repr@);
        }
    }
    Addr::new(s)
}

/// Where an item lives inside the document.
pub enum Place {
    /// A value at a key path.
    Key(Path),
    /// An element of the array at a key path, identified by its canonical form.
    Element {
        /// Path of the array holding it.
        path: Path,
        /// The element's canonical form, which is its identity.
        repr: Seq<char>,
    },
}

/// How to reach one item inside the document.
#[derive(Debug)]
pub enum Locator {
    /// A value at a key path.
    Key(Vec<String>),
    /// An element of the array at a key path, identified by its canonical form.
    Element {
        /// Path of the array holding it.
        path: Vec<String>,
        /// The element's canonical form, which is its identity.
        repr: Repr,
    },
}

impl View for Locator {
    type V = Place;

    open spec fn view(&self) -> Place {
        match self {
            Locator::Key(path) => Place::Key(texts(path@)),
            Locator::Element { path, repr } => Place::Element { path: texts(path@), repr: repr@ },
        }
    }
}

/// Copy a path.
pub fn copy_path(path: &[String]) -> (r: Vec<String>)
    ensures
        texts(r@) == texts(path@),
{
    let mut r: Vec<String> = Vec::new();
    let mut i: usize = 0;
    while i < path.len()
        invariant
            i <= path@.len(),
            texts(r@) == texts(path@).take(i as int),
        decreases path@.len() - i,
    {
        let s = path[i].clone();
        assert(texts(path@).take(i + 1) =~= texts(path@).take(i as int).push(s@));
        assert(texts(r@.push(s)) =~= texts(r@).push(s@));
        r.push(s);
        i += 1;
    }
    assert(texts(path@).take(i as int) =~= texts(path@));
    r
}

impl Clone for Locator {
    fn clone(&self) -> (l: Self)
        ensures
            l@ == self@,
    {
        match self {
            Locator::Key(path) => Locator::Key(copy_path(path.as_slice())),
            Locator::Element { path, repr } => Locator::Element {
                path: copy_path(path.as_slice()),
                repr: repr.clone(),
            },
        }
    }
}

/// Where the last `[#` of a text begins.
pub open spec fn last_mark(s: Seq<char>) -> Option<int>
    decreases s.len(),
{
    if s.len() < 2 {
        None
    } else if s[s.len() - 2] == '[' && s.last() == '#' {
        Some(s.len() - 2)
    } else {
        last_mark(s.drop_last())
    }
}

/// The place an address recorded on a previous run denotes.
pub open spec fn place_of(addr: Seq<char>, repr: Seq<char>) -> Place {
    if addr.len() > 0 && addr.last() == ']' {
        match last_mark(addr.drop_last()) {
            Some(i) => Place::Element { path: segments(addr.take(i)), repr },
            None => Place::Key(segments(addr)),
        }
    } else {
        Place::Key(segments(addr))
    }
}

/// Recover a locator from an address recorded on a previous run.
pub fn parse_addr(addr: &Addr, repr: &Repr) -> (l: Locator)
    ensures
        l@ == place_of(addr@, repr@),
{
    let chars = chars_of(addr.as_str());
    if chars.len() > 0 && chars[chars.len() - 1] == ']' {
        let ghost rest = addr@.drop_last();
        let mut n: usize = chars.len() - 1;
        assert(rest.take(n as int) =~= rest);
        while n >= 2
            invariant
                n <= rest.len(),
                rest == addr@.drop_last(),
                chars@ == addr@,
                addr@.len() > 0,
                addr@.last() == ']',
                last_mark(rest) == last_mark(rest.take(n as int)),
            decreases n,
        {
            assert(rest.take(n as int).drop_last() =~= rest.take(n - 1));
            if chars[n - 2] == '[' && chars[n - 1] == '#' {
                let path = string_of(&chars, 0, n - 2);
                assert(chars@.subrange(0, n - 2) =~= addr@.take(n - 2));
                return Locator::Element {
                    path: split_path(path.as_str()),
                    repr: repr.clone(),
                };
            }
            n -= 1;
        }
    }
    Locator::Key(split_path(addr.as_str()))
}

/// The paths that a dotted path can denote: there is a key (the document's own
/// path has none, and is displayed like the key `<root>`), no key holds a dot,
/// the first one is not empty, and there is no white space at either end.
pub open spec fn addressable(path: Path) -> bool {
    &&& path.len() > 0
    &&& forall|i: int| 0 <= i < path.len() ==> !(#[trigger] path[i]).contains('.')
    &&& path[0].len() > 0
    &&& !white_space(path[0][0])
    &&& path.last().len() > 0 ==> !white_space(path.last().last())
}

/// A dotted path begins with the first character of its first segment, and ends
/// with the last of its last segment or with a dot.
proof fn lemma_ends_of_joined(path: Path)
    requires
        path.len() > 0,
        path[0].len() > 0,
    ensures
        joined(path, seq!['.']).len() > 0,
        joined(path, seq!['.'])[0] == path[0][0],
        path.last().len() > 0 ==> joined(path, seq!['.']).last() == path.last().last(),
        path.last().len() == 0 ==> joined(path, seq!['.']).last() == '.',
    decreases path.len(),
{
    let all = joined(path, seq!['.']);
    if path.len() > 1 {
        let head = path.drop_last();
        lemma_ends_of_joined(head);
        let before = joined(head, seq!['.']);
        assert(all == before + seq!['.'] + path.last());
        assert(all[0] == before[0]);
        if path.last().len() > 0 {
            assert(all.last() == path.last().last());
        } else {
            assert(all =~= before + seq!['.']);
        }
    }
}

/// Splitting a displayed path gives the path back.
proof fn lemma_segments_of_shown(path: Path)
    requires
        addressable(path),
    ensures
        segments(shown(path)) == path,
{
    let text = joined(path, seq!['.']);
    lemma_ends_of_joined(path);
    assert(!white_space('.'));
    assert(trimmed_start(text) == text);
    assert(trimmed_end(text) == text);
    assert(text[0] != '.') by {
        assert(!path[0].contains('.'));
    }
    assert(without_leading(trimmed(text), '.') == text);
    lemma_pieces_of_joined(path, '.');
}

/// The last mark stands before a tag that holds none.
proof fn lemma_last_mark_before_tag(path: Seq<char>, tag: Seq<char>)
    requires
        !tag.contains('#'),
    ensures
        last_mark(path + seq!['[', '#'] + tag) == Some(path.len() as int),
    decreases tag.len(),
{
    let text = path + seq!['[', '#'] + tag;
    if tag.len() == 0 {
        assert(text =~= path + seq!['[', '#']);
    } else {
        let less = tag.drop_last();
        assert forall|c: char| less.contains(c) implies tag.contains(c) by {
            let k = choose|k: int| 0 <= k < less.len() && less[k] == c;
            assert(tag[k] == c);
        }
        lemma_last_mark_before_tag(path, less);
        assert(tag.contains(tag.last()));
        assert(text.last() == tag.last());
        assert(text.drop_last() =~= path + seq!['[', '#'] + less);
    }
}

proof fn lemma_element_place(path: Path, tag: Seq<char>, repr: Seq<char>)
    requires
        addressable(path),
        forall|i: int| 0 <= i < tag.len() ==> hex(#[trigger] tag[i]),
    ensures
        place_of(tagged(shown(path), tag), repr) == (Place::Element { path, repr }),
{
    let text = tagged(shown(path), tag);
    assert(!tag.contains('#'));
    lemma_last_mark_before_tag(shown(path), tag);
    assert(text.drop_last() =~= shown(path) + seq!['[', '#'] + tag);
    assert(text.take(shown(path).len() as int) =~= shown(path));
    lemma_segments_of_shown(path);
}

/// **Law.** The address of a value at a key path denotes that path again when it
/// is read back from provenance, where the path is [`addressable`] and its text
/// does not look like the address of an array element.
pub proof fn law_key_address_round_trips(path: Path, repr: Seq<char>)
    requires
        addressable(path),
        shown(path).last() == ']' ==> last_mark(shown(path).drop_last()) is None,
    ensures
        place_of(shown(path), repr) == Place::Key(path),
{
    lemma_segments_of_shown(path);
}

/// **Law.** A leading dot does not change what a path denotes.
pub proof fn law_a_leading_dot_is_tolerated(path: Seq<char>)
    requires
        path.len() > 0 ==> !white_space(path[0]),
    ensures
        segments(seq!['.'] + path) == segments(path),
{
    let dotted = seq!['.'] + path;
    assert(!white_space('.'));
    assert(trimmed_start(dotted) == dotted);
    assert(trimmed_start(path) == path);
    lemma_trimmed_end_of_dotted(path);
    let rest = trimmed_end(path);
    assert((seq!['.'] + rest).drop_first() =~= rest);
}

proof fn lemma_trimmed_end_of_dotted(path: Seq<char>)
    ensures
        trimmed_end(seq!['.'] + path) == seq!['.'] + trimmed_end(path),
    decreases path.len(),
{
    let dotted = seq!['.'] + path;
    assert(!white_space('.'));
    if path.len() > 0 {
        assert(dotted.last() == path.last());
        assert(dotted.drop_last() =~= seq!['.'] + path.drop_last());
        lemma_trimmed_end_of_dotted(path.drop_last());
    } else {
        assert(dotted =~= seq!['.']);
        assert(dotted.last() == '.');
    }
}

/// **Law.** The dotted text of a path denotes that path, with or without a dot in
/// front, where the path is [`addressable`].
pub proof fn law_a_dotted_path_denotes_its_keys(path: Path)
    requires
        addressable(path),
    ensures
        segments(joined(path, seq!['.'])) == path,
        segments(seq!['.'] + joined(path, seq!['.'])) == path,
{
    let text = joined(path, seq!['.']);
    lemma_segments_of_shown(path);
    lemma_ends_of_joined(path);
    law_a_leading_dot_is_tolerated(text);
}

proof fn lemma_without_leading(s: Seq<char>, c: char) -> (n: int)
    ensures
        0 <= n <= s.len(),
        without_leading(s, c) == s.skip(n),
        forall|i: int| 0 <= i < n ==> #[trigger] s[i] == c,
        n < s.len() ==> s[n] != c,
    decreases s.len(),
{
    if s.len() > 0 && s[0] == c {
        let rest = s.drop_first();
        let m = lemma_without_leading(rest, c);
        assert(rest.skip(m) =~= s.skip(m + 1));
        assert forall|i: int| 0 <= i < m + 1 implies #[trigger] s[i] == c by {
            if i > 0 {
                assert(rest[i - 1] == s[i]);
            }
        }
        m + 1
    } else {
        assert(s.skip(0) =~= s);
        0
    }
}

/// **Law.** A path is split at its dots and nowhere else: what is left of the text
/// without the white space around it and the dots in front is the keys joined by
/// dots, and no key holds one. There is no key where nothing is left.
pub proof fn law_a_path_is_split_at_its_dots(text: Seq<char>) -> (n: int)
    ensures
        0 <= n <= trimmed(text).len(),
        forall|i: int| 0 <= i < n ==> #[trigger] trimmed(text)[i] == '.',
        n < trimmed(text).len() ==> trimmed(text)[n] != '.',
        n == trimmed(text).len() <==> segments(text).len() == 0,
        joined(segments(text), seq!['.']) == trimmed(text).skip(n),
        forall|i: int|
            0 <= i < segments(text).len() ==> !(#[trigger] segments(text)[i]).contains('.'),
{
    let s = trimmed(text);
    let n = lemma_without_leading(s, '.');
    let rest = s.skip(n);
    law_splitting_loses_nothing(rest, '.');
    lemma_pieces_nonempty(rest, '.');
    if rest.len() == 0 {
        assert(joined(segments(text), seq!['.']) =~= rest);
    }
    n
}

/// **Law.** A path is displayed key by key with dots between, and the document's own
/// path by a name.
pub proof fn law_a_path_is_displayed_key_by_key(path: Path, key: Seq<char>)
    ensures
        shown(Seq::empty()) == "<root>"@,
        shown(seq![key]) == key,
        path.len() > 0 ==> shown(path.push(key)) == shown(path) + seq!['.'] + key,
{
    law_joining_puts_a_separator_between(path, seq![key], seq!['.'], key);
    assert(path + seq![key] =~= path.push(key));
}

/// **Law.** An element is tagged by the digest of its canonical form, behind the
/// path of its array.
pub proof fn law_an_element_is_tagged_by_its_digest(path: Path, repr: Seq<char>)
    ensures
        element_text(path, repr) == shown(path) + seq!['[', '#'] + sha256_hex(repr).subrange(0, 8)
            + seq![']'],
{
}

/// Whether the mark of an array element stands at a position.
pub open spec fn mark_at(s: Seq<char>, i: int) -> bool {
    0 <= i && i + 1 < s.len() && s[i] == '[' && s[i + 1] == '#'
}

proof fn lemma_last_mark(s: Seq<char>)
    ensures
        match last_mark(s) {
            Some(i) => mark_at(s, i) && forall|j: int| i < j ==> !#[trigger] mark_at(s, j),
            None => forall|j: int| !#[trigger] mark_at(s, j),
        },
    decreases s.len(),
{
    if s.len() >= 2 && !(s[s.len() - 2] == '[' && s.last() == '#') {
        let less = s.drop_last();
        lemma_last_mark(less);
        assert forall|j: int| #[trigger] mark_at(s, j) implies mark_at(less, j) by {}
    }
}

/// **Law.** An address that ends in a bracket with a mark before it denotes an
/// element of the array whose path stands before the last mark, with the recorded
/// canonical form. Every other address denotes the value at the path it spells.
pub proof fn law_what_an_address_denotes(addr: Seq<char>, repr: Seq<char>, i: int)
    ensures
        addr.len() > 0 && addr.last() == ']' && mark_at(addr.drop_last(), i) && (forall|j: int|
            i < j ==> !#[trigger] mark_at(addr.drop_last(), j)) ==> place_of(addr, repr) == (
        Place::Element { path: segments(addr.take(i)), repr }),
        addr.len() == 0 || addr.last() != ']' || (forall|j: int|
            !#[trigger] mark_at(addr.drop_last(), j)) ==> place_of(addr, repr) == Place::Key(
            segments(addr),
        ),
{
    if addr.len() > 0 {
        let s = addr.drop_last();
        lemma_last_mark(s);
        if let Some(k) = last_mark(s) {
            assert(mark_at(s, k));
            if mark_at(s, i) && i != k {
                assert(i < k);
            }
        }
    }
}

} // verus!
