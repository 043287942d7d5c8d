//! JSON values, and the way they are read from and written as text.
//!
//! A [`Json`] is a JSON value held in plain data, with the entries of an object
//! in the order they stand in the document. Its meaning is a
//! [`Tree`](crate::tree::Tree). Reading and writing JSON text is left to
//! `serde_json`: [`read`] and [`render`] go through it and carry values over
//! one layer at a time.

use crate::canon::{
    canonical_array, canonical_form, canonical_object, field, forms, in_order, lemma_forms,
    lemma_pairs, pairs, quoted, same_value, slotted, Pair,
};
use crate::layout::{law_pretty_text_is_never_blank, pretty_text};
use crate::text::{decimal, join, text_precedes, texts, white_space};
use crate::tree::{distinct_keys, key_at, lemma_key_at, put, removed, well_formed, Entries, Tree};
use crate::unique::{numeral, numeric};
use vstd::prelude::*;
use vstd::string::*;

verus! {

/// A number as `serde_json` holds it: an integer or a finite float.
#[verifier::external_type_specification]
#[verifier::external_body]
pub struct ExNumber(serde_json::Number);

/// A value as `serde_json` holds it.
#[verifier::external_type_specification]
#[verifier::external_body]
pub struct ExValue(serde_json::Value);

/// The text `serde_json` writes a number as.
pub uninterp spec fn number_text(n: serde_json::Number) -> Seq<char>;

/// What a `serde_json` value holds.
pub uninterp spec fn content(v: serde_json::Value) -> Tree;

/// What `serde_json` reads from a text: the value, or the message of the error
/// it reports.
pub uninterp spec fn parsed(text: Seq<char>) -> Result<Tree, Seq<char>>;

/// Whether a text is read as this value.
pub open spec fn reads_as(text: Seq<char>, t: Tree) -> bool {
    parsed(text) is Ok && parsed(text)->Ok_0 == t
}

/// A JSON value.
///
/// Two values are equal where their canonical forms are: the order in which
/// objects list their keys does not count, and numbers are compared by the text
/// they are written with.
#[derive(Debug)]
pub enum Json {
    /// `null`.
    Null,
    /// `true` or `false`.
    Bool(bool),
    /// A number.
    Number(serde_json::Number),
    /// A string.
    String(String),
    /// An array.
    Array(Vec<Json>),
    /// An object: its entries in document order.
    Object(Vec<(String, Json)>),
}

impl View for Json {
    type V = Tree;

    open spec fn view(&self) -> Tree {
        self.tree()
    }
}

impl Json {
    /// The value this stands for.
    pub open spec fn tree(&self) -> Tree
        decreases self,
    {
        match self {
            Json::Null => Tree::Null,
            Json::Bool(b) => Tree::Bool(*b),
            Json::Number(n) => Tree::Number(number_text(*n)),
            Json::String(s) => Tree::String(s@),
            Json::Array(a) => Tree::Array(
                Seq::new(
                    a@.len(),
                    |i: int|
                        if 0 <= i < a@.len() {
                            a@[i].tree()
                        } else {
                            Tree::Null
                        },
                ),
            ),
            Json::Object(m) => Tree::Object(
                Seq::new(
                    m@.len(),
                    |i: int|
                        if 0 <= i < m@.len() {
                            (m@[i].0@, m@[i].1.tree())
                        } else {
                            (Seq::empty(), Tree::Null)
                        },
                ),
            ),
        }
    }
}

/// The values of a sequence.
pub open spec fn trees(a: Seq<Json>) -> Seq<Tree> {
    a.map_values(|j: Json| j@)
}

/// The entries of an object.
pub open spec fn entries_of(m: Seq<(String, Json)>) -> Entries {
    m.map_values(|e: (String, Json)| (e.0@, e.1@))
}

/// An array stands for the values of its elements.
pub proof fn lemma_array_view(j: Json)
    requires
        j is Array,
    ensures
        j@ == Tree::Array(trees(j->Array_0@)),
{
    let a = j->Array_0@;
    assert(j@->Array_0.len() == a.len());
    assert forall|i: int| 0 <= i < a.len() implies #[trigger] j@->Array_0[i] == trees(a)[i] by {
        assert(j@->Array_0[i] == a[i].tree());
    }
    assert(j@->Array_0 =~= trees(a));
}

/// An object stands for its entries.
pub proof fn lemma_object_view(j: Json)
    requires
        j is Object,
    ensures
        j@ == Tree::Object(entries_of(j->Object_0@)),
{
    let m = j->Object_0@;
    assert(j@->Object_0.len() == m.len());
    assert forall|i: int| 0 <= i < m.len() implies #[trigger] j@->Object_0[i] == entries_of(m)[i] by {
        assert(j@->Object_0[i] == (m[i].0@, m[i].1.tree()));
    }
    assert(j@->Object_0 =~= entries_of(m));
}

/// One layer of a `serde_json` value.
pub enum Layer {
    /// `null`.
    Null,
    /// `true` or `false`.
    Bool(bool),
    /// A number.
    Number(serde_json::Number),
    /// A string.
    String(String),
    /// The elements of an array.
    Array(Vec<serde_json::Value>),
    /// The entries of an object.
    Object(Vec<(String, serde_json::Value)>),
}

/// What the values of a sequence hold.
pub open spec fn contents(a: Seq<serde_json::Value>) -> Seq<Tree> {
    a.map_values(|v: serde_json::Value| content(v))
}

/// The keys of a sequence of entries and what the values under them hold.
pub open spec fn entry_contents(m: Seq<(String, serde_json::Value)>) -> Entries {
    m.map_values(|e: (String, serde_json::Value)| (e.0@, content(e.1)))
}

impl Layer {
    /// The value this is the top layer of.
    pub open spec fn whole(self) -> Tree {
        match self {
            Layer::Null => Tree::Null,
            Layer::Bool(b) => Tree::Bool(b),
            Layer::Number(n) => Tree::Number(number_text(n)),
            Layer::String(s) => Tree::String(s@),
            Layer::Array(a) => Tree::Array(contents(a@)),
            Layer::Object(m) => Tree::Object(entry_contents(m@)),
        }
    }

    /// No key of the top layer occurs twice.
    pub open spec fn distinct(self) -> bool {
        self matches Layer::Object(m) ==> distinct_keys(entry_contents(m@))
    }
}

/// Takes a `serde_json` value apart, one layer: the variants of
/// `serde_json::Value` one for one, the entries of its `Map` in the order the
/// map iterates in, which is the order they were inserted in. A map holds no
/// key twice. A number is an integer or a finite float, so its text is made of
/// digits, signs, a point and an exponent.
#[verifier::external_body]
fn open_layer(v: serde_json::Value) -> (l: Layer)
    ensures
        l.whole() == content(v),
        l.distinct(),
        l matches Layer::Number(n) ==> numeral(number_text(n)),
{
    match v {
        serde_json::Value::Null => Layer::Null,
        serde_json::Value::Bool(b) => Layer::Bool(b),
        serde_json::Value::Number(n) => Layer::Number(n),
        serde_json::Value::String(s) => Layer::String(s),
        serde_json::Value::Array(a) => Layer::Array(a),
        serde_json::Value::Object(m) => Layer::Object(m.into_iter().collect()),
    }
}

/// Builds a `serde_json` value from its top layer: the variants of
/// `serde_json::Value` one for one, an object by collecting its entries into a
/// `Map`, which keeps them in the order given where no key occurs twice.
#[verifier::external_body]
fn close_layer(l: Layer) -> (v: serde_json::Value)
    requires
        l.distinct(),
    ensures
        content(v) == l.whole(),
{
    match l {
        Layer::Null => serde_json::Value::Null,
        Layer::Bool(b) => serde_json::Value::Bool(b),
        Layer::Number(n) => serde_json::Value::Number(n),
        Layer::String(s) => serde_json::Value::String(s),
        Layer::Array(a) => serde_json::Value::Array(a),
        Layer::Object(m) => serde_json::Value::Object(m.into_iter().collect()),
    }
}

/// Copies a number with `serde_json::Number::clone`: the copy is written as the
/// same text, which is made of digits, signs, a point and an exponent.
#[verifier::external_body]
fn copy_number(n: &serde_json::Number) -> (r: serde_json::Number)
    ensures
        number_text(r) == number_text(*n),
        numeral(number_text(r)),
{
    n.clone()
}

/// The number `serde_json::Number::from` makes of an unsigned integer, which is
/// written in decimal notation.
#[verifier::external_body]
pub(crate) fn number_from(n: u64) -> (r: serde_json::Number)
    ensures
        number_text(r) == decimal(n as nat),
{
    serde_json::Number::from(n)
}

/// Reads JSON text with `serde_json::from_str`, whose outcome is named
/// [`parsed`]. The error is handed back as the message it displays. The canonical
/// form of a value is JSON text for that value, so it is read as the value where
/// [`reads_back`] holds, an object with its keys in the order of the text.
#[verifier::external_body]
fn parse_text(text: &str) -> (r: Result<serde_json::Value, String>)
    ensures
        match r {
            Ok(v) => parsed(text@) is Ok && parsed(text@)->Ok_0 == content(v),
            Err(e) => parsed(text@) is Err && parsed(text@)->Err_0 == e@,
        },
        forall|t: Tree|
            text@ == #[trigger] canonical_form(t) && reads_back(t, nesting_limit()) ==> r is Ok
                && same_value(content(r->Ok_0), t),
{
    match serde_json::from_str::<serde_json::Value>(text) {
        Ok(v) => Ok(v),
        Err(e) => Err(e.to_string()),
    }
}

/// Writes a scalar with `serde_json::to_string`, which cannot fail on one:
/// `null`, `true` and `false` as these words, a number as its text, a string
/// between quotes with its quotes, backslashes and control characters escaped.
/// Nothing is said of arrays and objects.
#[verifier::external_body]
fn compact_text(v: &serde_json::Value) -> (r: Result<String, String>)
    ensures
        match content(*v) {
            Tree::Null => r is Ok && r->Ok_0@ == "null"@,
            Tree::Bool(b) => r is Ok && r->Ok_0@ == (if b { "true"@ } else { "false"@ }),
            Tree::Number(text) => r is Ok && r->Ok_0@ == text,
            Tree::String(s) => r is Ok && r->Ok_0@ == quoted(s),
            _ => true,
        },
{
    match serde_json::to_string(v) {
        Ok(t) => Ok(t),
        Err(e) => Err(e.to_string()),
    }
}

/// An integer in decimal notation that fits the integers `serde_json` holds.
pub open spec fn integer_text(text: Seq<char>) -> bool {
    ||| exists|n: u64| text == #[trigger] decimal(n as nat)
    ||| exists|n: u64|
        0 < n <= 0x8000_0000_0000_0000 && text == seq!['-'] + #[trigger] decimal(n as nat)
}

/// The values whose rendering is read back as the same value: no more than
/// `levels` arrays and objects one inside the other, no key twice in an object,
/// and every number one whose own text is read back as that number. Integers
/// are; a float is not where reading it rounds to another one.
pub open spec fn reads_back(t: Tree, levels: nat) -> bool
    decreases t,
{
    match t {
        Tree::Number(text) => {
            ||| integer_text(text)
            ||| reads_as(text, t)
        },
        Tree::Array(a) => {
            &&& levels > 0
            &&& forall|i: int|
                0 <= i < a.len() ==> reads_back(#[trigger] a[i], (levels - 1) as nat)
        },
        Tree::Object(e) => {
            &&& levels > 0
            &&& distinct_keys(e)
            &&& forall|i: int|
                0 <= i < e.len() ==> reads_back((#[trigger] e[i]).1, (levels - 1) as nat)
        },
        _ => true,
    }
}

/// The number of arrays and objects one inside the other that `serde_json`
/// reads at most.
pub open spec fn nesting_limit() -> nat {
    127
}

/// Writes a value with `serde_json::to_string_pretty`, which cannot fail on a
/// `serde_json::Value`: a line per element or entry, two blanks per level, as
/// [`pretty_text`] says. Reading the text with a line end behind it gives the value
/// back where [`reads_back`] holds.
#[verifier::external_body]
fn indented_text(v: &serde_json::Value) -> (r: Result<String, String>)
    ensures
        r is Ok,
        r->Ok_0@ == pretty_text(content(*v)),
        reads_back(content(*v), nesting_limit()) ==> reads_as(r->Ok_0@.push('\n'), content(*v)),
{
    match serde_json::to_string_pretty(v) {
        Ok(t) => Ok(t),
        Err(e) => Err(e.to_string()),
    }
}

/// Carry a `serde_json` value over.
fn import(v: serde_json::Value) -> (j: Json)
    ensures
        j@ == content(v),
        well_formed(j@),
        numeric(j@),
    decreases content(v),
{
    let ghost whole = content(v);
    match open_layer(v) {
        Layer::Null => Json::Null,
        Layer::Bool(b) => Json::Bool(b),
        Layer::Number(n) => Json::Number(n),
        Layer::String(s) => Json::String(s),
        Layer::Array(a) => {
            let ghost all = a@;
            let mut out: Vec<Json> = Vec::new();
            for e in it: a
                invariant
                    it.seq() == all,
                    out@.len() == it.index(),
                    whole == Tree::Array(contents(all)),
                    whole == content(v),
                    forall|k: int|
                        0 <= k < out@.len() ==> #[trigger] out@[k]@ == content(all[k])
                            && well_formed(out@[k]@) && numeric(out@[k]@),
            {
                assert(whole->Array_0[it.index() as int] == content(e));
                out.push(import(e));
            }
            let j = Json::Array(out);
            proof {
                lemma_array_view(j);
                assert(trees(out@) =~= contents(all));
            }
            j
        },
        Layer::Object(m) => {
            let ghost all = m@;
            let mut out: Vec<(String, Json)> = Vec::new();
            for e in it: m
                invariant
                    it.seq() == all,
                    out@.len() == it.index(),
                    whole == Tree::Object(entry_contents(all)),
                    whole == content(v),
                    forall|k: int|
                        0 <= k < out@.len() ==> (#[trigger] out@[k]).0@ == all[k].0@
                            && out@[k].1@ == content(all[k].1) && well_formed(out@[k].1@)
                            && numeric(out@[k].1@),
            {
                let ghost here = whole->Object_0[it.index() as int];
                assert(here == (e.0@, content(e.1)));
                assert(decreases_to!(whole->Object_0 => here));
                assert(decreases_to!(here => here.1));
                let (key, value) = e;
                out.push((key, import(value)));
            }
            let j = Json::Object(out);
            proof {
                lemma_object_view(j);
                assert(entries_of(out@) =~= entry_contents(all));
                assert forall|k: int| 0 <= k < out@.len() implies well_formed(
                    (#[trigger] j@->Object_0[k]).1,
                ) && numeric(j@->Object_0[k].1) by {
                    assert(well_formed(out@[k].1@));
                }
            }
            j
        },
    }
}

/// Carry a value over to `serde_json`.
fn export(j: &Json) -> (v: serde_json::Value)
    requires
        well_formed(j@),
    ensures
        content(v) == j@,
        numeric(j@),
    decreases j,
{
    match j {
        Json::Null => close_layer(Layer::Null),
        Json::Bool(b) => close_layer(Layer::Bool(*b)),
        Json::Number(n) => close_layer(Layer::Number(copy_number(n))),
        Json::String(s) => close_layer(Layer::String(s.clone())),
        Json::Array(a) => {
            proof {
                lemma_array_view(*j);
            }
            let mut out: Vec<serde_json::Value> = Vec::new();
            let mut i: usize = 0;
            while i < a.len()
                invariant
                    *j == Json::Array(*a),
                    i <= a@.len(),
                    j@ == Tree::Array(trees(a@)),
                    well_formed(j@),
                    contents(out@) == trees(a@).take(i as int),
                    forall|k: int| 0 <= k < i ==> numeric(#[trigger] trees(a@)[k]),
                decreases a@.len() - i,
            {
                assert(well_formed(j@->Array_0[i as int]));
                let v = export(&a[i]);
                assert(trees(a@).take(i + 1) =~= trees(a@).take(i as int).push(content(v)));
                assert(contents(out@.push(v)) =~= contents(out@).push(content(v)));
                out.push(v);
                i += 1;
            }
            assert(trees(a@).take(i as int) =~= trees(a@));
            close_layer(Layer::Array(out))
        },
        Json::Object(m) => {
            proof {
                lemma_object_view(*j);
            }
            let mut out: Vec<(String, serde_json::Value)> = Vec::new();
            let mut i: usize = 0;
            while i < m.len()
                invariant
                    *j == Json::Object(*m),
                    i <= m@.len(),
                    j@ == Tree::Object(entries_of(m@)),
                    well_formed(j@),
                    entry_contents(out@) == entries_of(m@).take(i as int),
                    forall|k: int| 0 <= k < i ==> numeric((#[trigger] entries_of(m@)[k]).1),
                decreases m@.len() - i,
            {
                assert(well_formed(j@->Object_0[i as int].1));
                let v = export(&m[i].1);
                let entry = (m[i].0.clone(), v);
                let ghost seen = (entry.0@, content(entry.1));
                assert(entries_of(m@).take(i + 1) =~= entries_of(m@).take(i as int).push(seen));
                assert(entry_contents(out@.push(entry)) =~= entry_contents(out@).push(seen));
                out.push(entry);
                i += 1;
            }
            assert(entries_of(m@).take(i as int) =~= entries_of(m@));
            close_layer(Layer::Object(out))
        },
    }
}

/// Read a JSON value from text. What [`canonical_text`] writes is read back as
/// the value it was written for, where [`reads_back`] holds.
pub fn read(text: &str) -> (r: Result<Json, String>)
    ensures
        match r {
            Ok(j) => reads_as(text@, j@) && well_formed(j@) && numeric(j@),
            Err(e) => parsed(text@) is Err && parsed(text@)->Err_0 == e@,
        },
        forall|t: Tree|
            text@ == #[trigger] canonical_form(t) && reads_back(t, nesting_limit()) ==> r is Ok
                && same_value(r->Ok_0@, t),
{
    match parse_text(text) {
        Ok(v) => Ok(import(v)),
        Err(e) => Err(e),
    }
}

/// Write a value as indented JSON text.
pub fn render(j: &Json) -> (r: Result<String, String>)
    requires
        well_formed(j@),
    ensures
        r is Ok,
        r->Ok_0@ == pretty_text(j@),
        r->Ok_0@.len() > 0,
        !white_space(r->Ok_0@[0]),
        reads_back(j@, nesting_limit()) ==> reads_as(r->Ok_0@.push('\n'), j@),
{
    let v = export(j);
    proof {
        law_pretty_text_is_never_blank(j@);
    }
    indented_text(&v)
}

impl Json {
    /// A value equal to this one.
    pub fn copy(&self) -> (j: Json)
        ensures
            j@ == self@,
        decreases self,
    {
        match self {
            Json::Null => Json::Null,
            Json::Bool(b) => Json::Bool(*b),
            Json::Number(n) => Json::Number(copy_number(n)),
            Json::String(s) => Json::String(s.clone()),
            Json::Array(a) => {
                let mut out: Vec<Json> = Vec::new();
                let mut i: usize = 0;
                while i < a.len()
                    invariant
                        *self == Json::Array(*a),
                        i <= a@.len(),
                        trees(out@) == trees(a@).take(i as int),
                    decreases a@.len() - i,
                {
                    assert(decreases_to!(self => self->Array_0@[i as int]));
                    let e = a[i].copy();
                    assert(trees(a@).take(i + 1) =~= trees(a@).take(i as int).push(e@));
                    assert(trees(out@.push(e)) =~= trees(out@).push(e@));
                    out.push(e);
                    i += 1;
                }
                let j = Json::Array(out);
                proof {
                    lemma_array_view(*self);
                    lemma_array_view(j);
                    assert(trees(a@).take(i as int) =~= trees(a@));
                }
                j
            },
            Json::Object(m) => {
                let mut out: Vec<(String, Json)> = Vec::new();
                let mut i: usize = 0;
                while i < m.len()
                    invariant
                        *self == Json::Object(*m),
                        i <= m@.len(),
                        entries_of(out@) == entries_of(m@).take(i as int),
                    decreases m@.len() - i,
                {
                    assert(decreases_to!(self => self->Object_0@[i as int].1));
                    let entry = (m[i].0.clone(), m[i].1.copy());
                    let ghost seen = (entry.0@, entry.1@);
                    assert(entries_of(m@).take(i + 1) =~= entries_of(m@).take(i as int).push(seen));
                    assert(entries_of(out@.push(entry)) =~= entries_of(out@).push(seen));
                    out.push(entry);
                    i += 1;
                }
                let j = Json::Object(out);
                proof {
                    lemma_object_view(*self);
                    lemma_object_view(j);
                    assert(entries_of(m@).take(i as int) =~= entries_of(m@));
                }
                j
            },
        }
    }
}

impl Clone for Json {
    fn clone(&self) -> (j: Self)
        ensures
            j@ == self@,
    {
        self.copy()
    }
}

impl PartialEq for Json {
    fn eq(&self, other: &Json) -> (r: bool) {
        canonical_text(self) == canonical_text(other)
    }
}

impl vstd::std_specs::cmp::PartialEqSpecImpl for Json {
    open spec fn obeys_eq_spec() -> bool {
        true
    }

    open spec fn eq_spec(&self, other: &Json) -> bool {
        canonical_form(self@) == canonical_form(other@)
    }
}

/// The keys and texts of a sequence of pairs of strings.
pub open spec fn pair_texts(v: Seq<(String, String)>) -> Seq<Pair> {
    v.map_values(|p: (String, String)| (p.0@, p.1@))
}

/// Put a pair behind every one whose key does not come after its own.
fn slot_in(v: &mut Vec<(String, String)>, pair: (String, String))
    ensures
        pair_texts(final(v)@) == slotted(pair_texts(old(v)@), (pair.0@, pair.1@)),
{
    let mut i: usize = v.len();
    let ghost all = pair_texts(v@);
    let ghost p: Pair = (pair.0@, pair.1@);
    assert(all.take(i as int) =~= all);
    assert(slotted(all.take(i as int), p) + all.skip(i as int) =~= slotted(all, p));
    while i > 0 && text_precedes(pair.0.as_str(), v[i - 1].0.as_str())
        invariant
            i <= v@.len(),
            all == pair_texts(v@),
            p == (pair.0@, pair.1@),
            slotted(all, p) == slotted(all.take(i as int), p) + all.skip(i as int),
        decreases i,
    {
        assert(all.take(i as int).drop_last() =~= all.take(i - 1));
        assert(all.take(i as int).last() == all[i - 1]);
        assert(slotted(all.take(i - 1), p).push(all[i - 1]) + all.skip(i as int) =~= slotted(
            all.take(i - 1),
            p,
        ) + all.skip(i - 1));
        i -= 1;
    }
    assert(slotted(all.take(i as int), p) == all.take(i as int).push(p));
    v.insert(i, pair);
    assert(pair_texts(v@) =~= all.take(i as int).push(p) + all.skip(i as int));
}

/// Write a string the way JSON does.
fn quote(s: &String) -> (r: String)
    ensures
        r@ == quoted(s@),
{
    match compact_text(&close_layer(Layer::String(s.clone()))) {
        Ok(t) => t,
        Err(_) => "null".to_owned(),
    }
}

/// The canonical form of a value: JSON text with object keys sorted at every
/// level.
pub fn canonical_text(j: &Json) -> (r: String)
    ensures
        r@ == canonical_form(j@),
    decreases j, 1nat,
{
    let scalar = match j {
        Json::Object(m) => {
            return canonical_members(j, m);
        },
        Json::Array(a) => {
            return canonical_elements(j, a);
        },
        Json::Null => Layer::Null,
        Json::Bool(b) => Layer::Bool(*b),
        Json::Number(n) => Layer::Number(copy_number(n)),
        Json::String(s) => Layer::String(s.clone()),
    };
    match compact_text(&close_layer(scalar)) {
        Ok(t) => t,
        Err(_) => "null".to_owned(),
    }
}

/// The canonical form of the object `j` made of the entries `m`.
fn canonical_members(j: &Json, m: &Vec<(String, Json)>) -> (r: String)
    requires
        *j == Json::Object(*m),
    ensures
        r@ == canonical_form(j@),
    decreases j, 0nat,
{
    proof {
        lemma_object_view(*j);
        lemma_pairs(entries_of(m@));
    }
    let ghost all = pairs(entries_of(m@));
    let mut sorted: Vec<(String, String)> = Vec::new();
    let mut i: usize = 0;
    assert(pair_texts(sorted@) =~= in_order(all.take(0)));
    while i < m.len()
        invariant
            *j == Json::Object(*m),
            i <= m@.len(),
            all == pairs(entries_of(m@)),
            all.len() == m@.len(),
            forall|k: int|
                0 <= k < m@.len() ==> #[trigger] all[k] == (
                    entries_of(m@)[k].0,
                    canonical_form(entries_of(m@)[k].1),
                ),
            pair_texts(sorted@) == in_order(all.take(i as int)),
        decreases m@.len() - i,
    {
        assert(decreases_to!(j => j->Object_0@[i as int].1));
        let text = canonical_text(&m[i].1);
        assert(all[i as int] == (m@[i as int].0@, text@));
        assert(all.take(i + 1).drop_last() =~= all.take(i as int));
        slot_in(&mut sorted, (m[i].0.clone(), text));
        i += 1;
    }
    assert(all.take(i as int) =~= all);
    let ghost ordered = in_order(all);
    let mut fields: Vec<String> = Vec::new();
    let mut n: usize = 0;
    while n < sorted.len()
        invariant
            n <= sorted@.len(),
            ordered == pair_texts(sorted@),
            texts(fields@) == ordered.map_values(|p: Pair| field(p)).take(n as int),
        decreases sorted@.len() - n,
    {
        let mut f = quote(&sorted[n].0);
        f.push(':');
        f.append(sorted[n].1.as_str());
        let ghost mapped = ordered.map_values(|p: Pair| field(p));
        assert(f@ =~= field(ordered[n as int]));
        assert(mapped.take(n + 1) =~= mapped.take(n as int).push(f@));
        assert(texts(fields@.push(f)) =~= texts(fields@).push(f@));
        fields.push(f);
        n += 1;
    }
    assert(ordered.map_values(|p: Pair| field(p)).take(n as int) =~= ordered.map_values(
        |p: Pair| field(p),
    ));
    let mut r = String::new();
    r.push('{');
    proof {
        reveal_strlit(",");
    }
    assert(","@ =~= seq![',']);
    r.append(join(fields.as_slice(), ",").as_str());
    r.push('}');
    assert(r@ =~= canonical_object(all));
    r
}

/// The canonical form of the array `j` made of the elements `a`.
fn canonical_elements(j: &Json, a: &Vec<Json>) -> (r: String)
    requires
        *j == Json::Array(*a),
    ensures
        r@ == canonical_form(j@),
    decreases j, 0nat,
{
    proof {
        lemma_array_view(*j);
        lemma_forms(trees(a@));
    }
    let ghost all = forms(trees(a@));
    let mut parts: Vec<String> = Vec::new();
    let mut i: usize = 0;
    while i < a.len()
        invariant
            *j == Json::Array(*a),
            i <= a@.len(),
            all == forms(trees(a@)),
            all.len() == a@.len(),
            forall|k: int|
                0 <= k < a@.len() ==> #[trigger] all[k] == canonical_form(trees(a@)[k]),
            texts(parts@) == all.take(i as int),
        decreases a@.len() - i,
    {
        assert(decreases_to!(j => j->Array_0@[i as int]));
        let text = canonical_text(&a[i]);
        assert(all[i as int] == text@);
        assert(all.take(i + 1) =~= all.take(i as int).push(text@));
        assert(texts(parts@.push(text)) =~= texts(parts@).push(text@));
        parts.push(text);
        i += 1;
    }
    assert(all.take(i as int) =~= all);
    let mut r = String::new();
    r.push('[');
    proof {
        reveal_strlit(",");
    }
    assert(","@ =~= seq![',']);
    r.append(join(parts.as_slice(), ",").as_str());
    r.push(']');
    assert(r@ =~= canonical_array(all));
    r
}

/// The position of the first entry with `key`.
pub fn position(m: &Vec<(String, Json)>, key: &String) -> (r: Option<usize>)
    ensures
        match r {
            Some(i) => key_at(entries_of(m@), key@) == Some(i as int) && i < m@.len(),
            None => key_at(entries_of(m@), key@) is None,
        },
{
    let mut i: usize = 0;
    while i < m.len()
        invariant
            i <= m@.len(),
            forall|k: int| 0 <= k < i ==> (#[trigger] entries_of(m@)[k]).0 != key@,
        decreases m@.len() - i,
    {
        if m[i].0 == *key {
            proof {
                crate::tree::lemma_key_at_is(entries_of(m@), key@, i as int);
            }
            return Some(i);
        }
        assert(entries_of(m@)[i as int].0 == m@[i as int].0@);
        i += 1;
    }
    proof {
        lemma_key_at(entries_of(m@), key@);
    }
    None
}

/// Set `key` to `value`: in the place it has, or at the end.
pub fn set_entry(m: &mut Vec<(String, Json)>, key: String, value: Json)
    ensures
        entries_of(final(m)@) == put(entries_of(old(m)@), key@, value@),
{
    let ghost before = entries_of(m@);
    match position(m, &key) {
        Some(i) => {
            let ghost seen = (key@, value@);
            m.set(i, (key, value));
            assert(entries_of(m@) =~= before.update(i as int, seen));
        },
        None => {
            let ghost seen = (key@, value@);
            m.push((key, value));
            assert(entries_of(m@) =~= before.push(seen));
        },
    }
}

/// Take `key` away: the last entry moves into its place.
pub fn remove_entry(m: &mut Vec<(String, Json)>, key: &String)
    ensures
        entries_of(final(m)@) == removed(entries_of(old(m)@), key@),
{
    let ghost before = entries_of(m@);
    if let Some(i) = position(m, key) {
        m.swap_remove(i);
        assert(entries_of(m@) =~= before.update(i as int, before.last()).drop_last());
    }
}

} // verus!
