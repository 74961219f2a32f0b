//! The values that the parser builds, and the parser itself.
use vstd::prelude::*;

use crate::model::{
    continue_step, parse_chunk, state_size, tree_size, value_step,
    lemma_skip_whitespace_bounds, JsonTree, PropertyTree, KeyTree,
};
use crate::parsers::array::{IncJsonArray, JsonArray};
use crate::parsers::bool::{IncJsonBool, JsonBool};
use crate::parsers::null::{IncJsonNull, JsonNull};
use crate::parsers::number::{IncJsonNumber, JsonNumber};
use crate::parsers::object::{
    property_entries, IncJsonObject, IncProperty, JsonObject, PropertyKey, PropertyMap,
};
use crate::parsers::string::{IncJsonString, JsonString};
use crate::string_reader::StringReader;

pub mod array;
pub mod bool;
pub mod null;
pub mod number;
pub mod object;
pub mod string;

verus! {

/// A parser that is fed its input in chunks and keeps the value read so far.
pub struct JsonInk(Option<JsonValue>);

/// A JSON value: complete, still waiting for input (`Inc..`), or `Invalid`
/// with the text that could not be read.
#[derive(PartialEq, Debug)]
pub enum JsonValue {
    IncObject(IncJsonObject),
    IncArray(IncJsonArray),
    IncString(IncJsonString),
    IncNumber(IncJsonNumber),
    IncBool(IncJsonBool),
    IncNull(IncJsonNull),
    Object(JsonObject),
    Array(JsonArray),
    String(JsonString),
    Number(JsonNumber),
    Bool(JsonBool),
    Null(JsonNull),
    Invalid(String),
}

/// The types of the values that may wait for more input.
pub trait JsonParsable: Sized {
    /// What going on with this value from position `p` of `b` gives, as in [`continue_step`].
    spec fn parse_spec(&self, b: Seq<u8>, p: int) -> Option<(JsonTree, int)>;

    /// The value that finishing this one gives.
    spec fn finish_spec(&self) -> JsonTree;

    /// Goes on reading this value.
    fn parse(self, sr: &mut StringReader) -> (r: JsonValue)
        requires
            old(sr).wf(),
            self.parse_spec(old(sr).bytes@, old(sr).pos()) is Some,
        ensures
            final(sr).wf(),
            final(sr).bytes@ == old(sr).bytes@,
            self.parse_spec(old(sr).bytes@, old(sr).pos()) == Some((r@, final(sr).pos())),
    ;

    /// Whether this value can be closed as it stands.
    spec fn finish_requires(&self) -> bool;

    /// Closes this value as it stands.
    fn finish(self) -> (r: JsonValue)
        requires
            self.finish_requires(),
        ensures
            r@ == self.finish_spec(),
    ;
}

/// Whether `r`, with the reader left at `q`, is what the model `m` of a step
/// gives: `None` exactly where the model has no result, else the same value.
pub open spec fn agrees(m: Option<(JsonTree, int)>, r: Option<JsonValue>, q: int) -> bool {
    match r {
        None => m is None,
        Some(v) => m == Some((v@, q)),
    }
}

// ---------------------------------------------------------------------------
// Views.
// ---------------------------------------------------------------------------
/// The model of a value.
pub open spec fn tree_of(v: JsonValue) -> JsonTree
    decreases v,
{
    match v {
        JsonValue::IncObject(o) => JsonTree::IncObject(property_entries(o.map), newest_tree(o.newest_property)),
        JsonValue::IncArray(a) => JsonTree::IncArray(trees_of(a.0@)),
        JsonValue::IncString(s) => JsonTree::IncString(
            match s.0 {
                Some(t) => Some(t@),
                None => None,
            },
        ),
        JsonValue::IncNumber(n) => JsonTree::IncNumber(n),
        JsonValue::IncBool(b) => JsonTree::IncBool(b),
        JsonValue::IncNull(n) => JsonTree::IncNull(n),
        JsonValue::Object(o) => JsonTree::Object(property_entries(o.0)),
        JsonValue::Array(a) => JsonTree::Array(trees_of(a.0@)),
        JsonValue::String(s) => JsonTree::String(s.0@),
        JsonValue::Number(n) => JsonTree::Number(n),
        JsonValue::Bool(b) => JsonTree::Bool(b.0),
        JsonValue::Null(_) => JsonTree::Null,
        JsonValue::Invalid(s) => JsonTree::Invalid(s@),
    }
}

/// The models of a sequence of values.
pub open spec fn trees_of(s: Seq<JsonValue>) -> Seq<JsonTree>
    decreases s,
{
    if s.len() == 0 {
        Seq::empty()
    } else {
        trees_of(s.drop_last()).push(tree_of(s.last()))
    }
}

/// The model of the property being read.
pub open spec fn newest_tree(p: Option<IncProperty>) -> Option<PropertyTree>
    decreases p,
{
    match p {
        None => None,
        Some(prop) => Some(PropertyTree {
            key: key_tree(prop.key),
            value: Box::new(state_tree(*prop.value)),
            found_colon: prop.found_colon,
        }),
    }
}

/// The model of an optional value.
pub open spec fn state_tree(s: Option<JsonValue>) -> Option<JsonTree>
    decreases s,
{
    match s {
        None => None,
        Some(v) => Some(tree_of(v)),
    }
}

pub open spec fn key_tree(k: PropertyKey) -> KeyTree {
    match k {
        PropertyKey::Complete(n) => KeyTree::Complete(n@),
        PropertyKey::Incomplete(ik) => KeyTree::Incomplete(ik.name@, ik.quoted),
    }
}

impl View for JsonValue {
    type V = JsonTree;

    open spec fn view(&self) -> JsonTree {
        tree_of(*self)
    }
}

pub proof fn lemma_trees_of(s: Seq<JsonValue>)
    ensures
        trees_of(s).len() == s.len(),
        forall|i: int| 0 <= i < s.len() ==> #[trigger] trees_of(s)[i] == tree_of(s[i]),
    decreases s.len(),
{
    if s.len() > 0 {
        lemma_trees_of(s.drop_last());
    }
}

pub proof fn lemma_trees_of_push(s: Seq<JsonValue>, v: JsonValue)
    ensures
        trees_of(s.push(v)) == trees_of(s).push(tree_of(v)),
{
    assert(s.push(v).drop_last() =~= s);
}

pub proof fn lemma_trees_of_pop(s: Seq<JsonValue>)
    requires
        s.len() > 0,
    ensures
        trees_of(s.drop_last()) == trees_of(s).drop_last(),
        trees_of(s).last() == tree_of(s.last()),
{
    lemma_trees_of(s);
    lemma_trees_of(s.drop_last());
    assert(trees_of(s.drop_last()) =~= trees_of(s).drop_last());
}

// ---------------------------------------------------------------------------
// The parser.
// ---------------------------------------------------------------------------
impl JsonValue {
    /// Goes on with `value` where it waits for more input; gives it back as it is otherwise.
    pub fn continue_parse(sr: &mut StringReader, value: JsonValue) -> (r: Option<JsonValue>)
        requires
            old(sr).wf(),
            continue_step(old(sr).bytes@, old(sr).pos(), value@) is Some,
        ensures
            final(sr).wf(),
            final(sr).bytes@ == old(sr).bytes@,
            r matches Some(v) && continue_step(old(sr).bytes@, old(sr).pos(), value@) == Some((v@, final(sr).pos())),
    {
        Some(JsonValue::try_continue(sr, value).unwrap())
    }

    /// Goes on with `value` as [`JsonValue::continue_parse`] does; `None`
    /// where the model has no result.
    pub fn try_continue(sr: &mut StringReader, value: JsonValue) -> (r: Option<JsonValue>)
        requires
            old(sr).wf(),
        ensures
            final(sr).wf(),
            final(sr).bytes@ == old(sr).bytes@,
            agrees(continue_step(old(sr).bytes@, old(sr).pos(), value@), r, final(sr).pos()),
        decreases old(sr).bytes@.len() - old(sr).pos(), tree_size(value@),
    {
        match value {
            JsonValue::IncObject(object) => object.try_resume(sr),
            JsonValue::IncArray(array) => array.try_resume(sr),
            JsonValue::IncString(string) => string.try_resume(sr),
            JsonValue::IncNumber(number) => number.try_resume(sr),
            JsonValue::IncBool(b) => b.try_resume(sr),
            JsonValue::IncNull(null) => null.try_resume(sr),
            _ => Some(value),
        }
    }

    /// Reads a value: goes on with `value` where there is one, else starts a
    /// new value after any whitespace. `None` where the input ends first or
    /// no value starts with the byte there.
    pub fn parse(sr: &mut StringReader, value: Option<JsonValue>) -> (r: Option<JsonValue>)
        requires
            old(sr).wf(),
            value_step(old(sr).bytes@, old(sr).pos(), state_tree(value)) is Some,
        ensures
            final(sr).wf(),
            final(sr).bytes@ == old(sr).bytes@,
            value_step(old(sr).bytes@, old(sr).pos(), state_tree(value)) == Some((state_tree(r), final(sr).pos())),
    {
        JsonValue::try_read(sr, value).unwrap()
    }

    /// Reads a value as [`JsonValue::parse`] does; the outer `None` where the
    /// model has no result.
    pub fn try_read(sr: &mut StringReader, value: Option<JsonValue>) -> (r: Option<Option<JsonValue>>)
        requires
            old(sr).wf(),
        ensures
            final(sr).wf(),
            final(sr).bytes@ == old(sr).bytes@,
            match r {
                None => value_step(old(sr).bytes@, old(sr).pos(), state_tree(value)) is None,
                Some(v) => value_step(old(sr).bytes@, old(sr).pos(), state_tree(value))
                    == Some((state_tree(v), final(sr).pos())),
            },
        decreases old(sr).bytes@.len() - old(sr).pos(), state_size(state_tree(value)),
    {
        if let Some(value) = value {
            return match JsonValue::try_continue(sr, value) {
                Some(v) => Some(Some(v)),
                None => None,
            };
        }
        let ghost b = sr.bytes@;
        sr.skip_whitespace();
        proof {
            lemma_skip_whitespace_bounds(b, old(sr).pos());
        }
        let first_char = match sr.next() {
            Some(c) => c,
            None => {
                return Some(None);
            },
        };
        let f = first_char.char;
        let started = if f == 123 {
            IncJsonObject { map: PropertyMap::new(), newest_property: None }.try_resume(sr)
        } else if f == 91 {
            let val = IncJsonArray(Vec::new());
            proof {
                assert(trees_of(val.0@) =~= Seq::<JsonTree>::empty());
            }
            val.try_resume(sr)
        } else if f == 34 {
            IncJsonString(None).try_resume(sr)
        } else if f == 45 || f == 46 || (f >= 48 && f <= 57) {
            JsonNumber::try_start(sr, f)
        } else if f == 116 {
            IncJsonBool::True(1).try_resume(sr)
        } else if f == 102 {
            IncJsonBool::False(1).try_resume(sr)
        } else if f == 110 {
            IncJsonNull(1).try_resume(sr)
        } else {
            return Some(None);
        };
        match started {
            Some(v) => Some(Some(v)),
            None => None,
        }
    }
}

impl JsonInk {
    /// The model of the value read so far.
    pub closed spec fn state(&self) -> Option<JsonTree> {
        state_tree(self.0)
    }

    pub fn new() -> (r: Self)
        ensures
            r.state() is None,
    {
        JsonInk(None)
    }

    /// Parses one whole input.
    pub fn parse(str: &str) -> (r: Option<JsonValue>)
        requires
            parse_chunk(vstd::utf8::encode_utf8(str@), None) is Some,
        ensures
            parse_chunk(vstd::utf8::encode_utf8(str@), None) == Some(state_tree(r)),
    {
        let mut instance = Self::new();
        instance.parse_part(str);
        instance.0
    }

    /// Reads the next chunk of input, going on with the value read so far.
    pub fn parse_part(&mut self, str: &str) -> (r: &Option<JsonValue>)
        requires
            parse_chunk(vstd::utf8::encode_utf8(str@), old(self).state()) is Some,
        ensures
            parse_chunk(vstd::utf8::encode_utf8(str@), old(self).state()) == Some(final(self).state()),
            state_tree(*r) == final(self).state(),
    {
        let mut sr = StringReader::new(str);
        let previous = self.0.take();
        let val = JsonValue::parse(&mut sr, previous);
        self.0 = val;
        &self.0
    }

    /// Reads the next chunk as [`JsonInk::parse_part`] does where the parser
    /// neither panics nor runs forever on it, and gives `true`; gives `false`
    /// where it would, and then keeps no value.
    pub fn try_parse_part(&mut self, str: &str) -> (r: bool)
        ensures
            r == parse_chunk(vstd::utf8::encode_utf8(str@), old(self).state()) is Some,
            r ==> parse_chunk(vstd::utf8::encode_utf8(str@), old(self).state()) == Some(final(self).state()),
            !r ==> final(self).state() is None,
    {
        let mut sr = StringReader::new(str);
        let previous = self.0.take();
        match JsonValue::try_read(&mut sr, previous) {
            Some(val) => {
                self.0 = val;
                true
            },
            None => false,
        }
    }

    /// The value read so far.
    pub fn get(&self) -> (r: &Option<JsonValue>)
        ensures
            state_tree(*r) == self.state(),
    {
        &self.0
    }

    /// The value read so far, taking it out of the parser.
    pub fn take(self) -> (r: Option<JsonValue>)
        ensures
            state_tree(r) == self.state(),
    {
        self.0
    }
}

} // verus!
