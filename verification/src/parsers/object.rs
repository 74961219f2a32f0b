//! Objects.
use indexmap::IndexMap;
use vstd::prelude::*;
use vstd::string::StringExecFns;

use crate::model::{
    bad_key, insert_entry, key_step, lemma_find_byte_bounds, lemma_key_step_bounds,
    lemma_skip_whitespace_bounds, new_property_step, object_loop, property_size, property_step,
    property_value_step, resumed_property_step,
    state_size, JsonTree, PropertyStep, PropertyTree,
};
use crate::parsers::{agrees, key_tree, newest_tree, state_tree, JsonParsable, JsonValue};
use crate::string_reader::{CharWithIndex, StringReader};

verus! {

/// The properties of an object, in the order they were first inserted.
#[verifier::external_body]
#[derive(PartialEq, Debug)]
pub struct PropertyMap(IndexMap<String, JsonValue>);

/// The entries of a [`PropertyMap`] in order, each key with the model of its value.
pub uninterp spec fn property_entries(m: PropertyMap) -> Seq<(Seq<char>, JsonTree)>;

impl PropertyMap {
    /// `IndexMap::new`: a map without entries.
    #[verifier::external_body]
    pub(crate) fn new() -> (r: Self)
        ensures
            property_entries(r) == Seq::<(Seq<char>, JsonTree)>::empty(),
    {
        PropertyMap(IndexMap::new())
    }

    /// `IndexMap::insert`: a key that is in the map keeps its place and gets
    /// the new value; a new key goes last.
    #[verifier::external_body]
    pub(crate) fn insert(&mut self, key: String, value: JsonValue)
        ensures
            property_entries(*final(self)) == insert_entry(property_entries(*old(self)), key@, value@),
    {
        self.0.insert(key, value);
    }

    /// `IndexMap::len`: the number of entries.
    #[verifier::external_body]
    fn map_len(&self) -> (r: usize)
        ensures
            r == property_entries(*self).len(),
    {
        self.0.len()
    }

    /// `IndexMap::get_index`: the entry at position `i`, where there is one.
    #[verifier::external_body]
    fn map_get_index(&self, i: usize) -> (r: Option<(&String, &JsonValue)>)
        ensures
            r is Some <==> i < property_entries(*self).len(),
            r matches Some((k, v)) ==> k@ == property_entries(*self)[i as int].0 && v@ == property_entries(*self)[i as int].1,
    {
        self.0.get_index(i)
    }

    /// The number of properties.
    pub fn len(&self) -> (r: usize)
        ensures
            r == property_entries(*self).len(),
    {
        self.map_len()
    }

    /// The property at position `i` in insertion order, where there is one.
    pub fn get_index(&self, i: usize) -> (r: Option<(&String, &JsonValue)>)
        ensures
            r is Some <==> i < property_entries(*self).len(),
            r matches Some((k, v)) ==> k@ == property_entries(*self)[i as int].0 && v@ == property_entries(*self)[i as int].1,
    {
        self.map_get_index(i)
    }
}

/// A complete object.
#[derive(PartialEq, Debug)]
pub struct JsonObject(pub PropertyMap);

/// An object that may go on in the next chunk: the properties read so far
/// and the property being read.
#[derive(PartialEq, Debug)]
pub struct IncJsonObject {
    pub map: PropertyMap,
    pub newest_property: Option<IncProperty>,
}

/// What reading one property gives.
#[derive(PartialEq, Debug)]
pub enum Property {
    Complete(String, JsonValue),
    Incomplete(IncProperty),
}

/// The key of the property being read.
#[derive(PartialEq, Debug)]
pub enum PropertyKey {
    Complete(String),
    Incomplete(IncPropertyKey),
}

/// A key of which only a part was read, and whether it is in quotes.
#[derive(PartialEq, Debug)]
pub struct IncPropertyKey {
    pub name: String,
    pub quoted: bool,
}

/// The property being read: its key, its value so far, and whether the `:` was seen.
#[derive(PartialEq, Debug)]
pub struct IncProperty {
    pub key: PropertyKey,
    pub value: Box<Option<JsonValue>>,
    pub found_colon: bool,
}

pub open spec fn property_tree(p: IncProperty) -> PropertyTree {
    PropertyTree { key: key_tree(p.key), value: Box::new(state_tree(*p.value)), found_colon: p.found_colon }
}

pub open spec fn step_of(p: Property) -> PropertyStep {
    match p {
        Property::Complete(k, v) => PropertyStep::Complete(k@, v@),
        Property::Incomplete(ip) => PropertyStep::Incomplete(property_tree(ip)),
    }
}

/// Whether `r`, with the reader at `q`, is what the model `m` of reading a
/// property gives: the outer `None` exactly where the model has no result.
pub open spec fn property_agrees(m: Option<(Option<PropertyStep>, int)>, r: Option<Option<Property>>, q: int) -> bool {
    match r {
        None => m is None,
        Some(p) => m == Some((opt_step_of(p), q)),
    }
}

pub open spec fn opt_step_of(p: Option<Property>) -> Option<PropertyStep> {
    match p {
        Some(x) => Some(step_of(x)),
        None => None,
    }
}

/// The entries that inserting `vals` in order into an empty map gives.
pub open spec fn entries_of(vals: Seq<(&str, JsonValue)>) -> Seq<(Seq<char>, JsonTree)>
    decreases vals.len(),
{
    if vals.len() == 0 {
        Seq::empty()
    } else {
        insert_entry(entries_of(vals.drop_last()), vals.last().0@, vals.last().1@)
    }
}

/// Inserts `vals` in order into a new map.
fn map_from(vals: Vec<(&str, JsonValue)>) -> (r: PropertyMap)
    ensures
        property_entries(r) == entries_of(vals@),
{
    let ghost all = vals@;
    let mut vals = vals;
    let mut map = PropertyMap::new();
    let mut k: usize = 0;
    let n = vals.len();
    while vals.len() > 0
        invariant
            n == all.len(),
            vals@ == all.subrange(k as int, n as int),
            k <= n,
            property_entries(map) == entries_of(all.subrange(0, k as int)),
        decreases vals.len(),
    {
        let (key, val) = vals.remove(0);
        proof {
            assert(all.subrange(0, k + 1).drop_last() =~= all.subrange(0, k as int));
            assert(all.subrange(0, k + 1).last() == all[k as int]);
            assert(vals@ =~= all.subrange(k + 1, n as int));
        }
        map.insert(key.to_owned(), val);
        k = k + 1;
    }
    proof {
        assert(all.subrange(0, n as int) =~= all);
    }
    map
}

impl IncJsonObject {
    pub fn new(vals: Vec<(&str, JsonValue)>, newest_property: Option<IncProperty>) -> (r: Self)
        ensures
            property_entries(r.map) == entries_of(vals@),
            r.newest_property == newest_property,
    {
        let map = map_from(vals);
        IncJsonObject { map, newest_property }
    }
}

impl JsonObject {
    pub fn new(vals: Vec<(&str, JsonValue)>) -> (r: Self)
        ensures
            property_entries(r.0) == entries_of(vals@),
    {
        JsonObject(map_from(vals))
    }

    /// Starts an object where `first_char`, the byte read last, is `{`.
    pub fn try_start_parse(sr: &mut StringReader, first_char: &CharWithIndex) -> (r: Option<JsonValue>)
        requires
            old(sr).wf(),
            first_char.char == 123 ==> object_loop(old(sr).bytes@, old(sr).pos(), Seq::empty(), None) is Some,
        ensures
            final(sr).wf(),
            final(sr).bytes@ == old(sr).bytes@,
            first_char.char != 123 ==> r is None && final(sr).pos() == old(sr).pos(),
            first_char.char == 123 ==> (r matches Some(v) && object_loop(old(sr).bytes@, old(sr).pos(), Seq::empty(), None) == Some((v@, final(sr).pos()))),
        decreases old(sr).bytes@.len() - old(sr).pos(), 5nat,
    {
        if first_char.char != 123 {
            return None;
        }
        let val = IncJsonObject { map: PropertyMap::new(), newest_property: None };
        Some(val.try_resume(sr).unwrap())
    }
}

impl IncJsonObject {
    /// Goes on reading the object; `None` where the model has no result.
    #[verifier::rlimit(60)]
    pub fn try_resume(self, sr: &mut StringReader) -> (r: Option<JsonValue>)
        requires
            old(sr).wf(),
        ensures
            final(sr).wf(),
            final(sr).bytes@ == old(sr).bytes@,
            agrees(
                object_loop(old(sr).bytes@, old(sr).pos(), property_entries(self.map), newest_tree(self.newest_property)),
                r,
                final(sr).pos(),
            ),
        decreases old(sr).bytes@.len() - old(sr).pos(), property_size(newest_tree(self.newest_property)) + 4,
    {
        let mut this = self;
        let ghost b = sr.bytes@;
        let ghost p0 = sr.pos();
        let ghost target = object_loop(b, p0, property_entries(this.map), newest_tree(this.newest_property));
        let ghost n0 = newest_tree(this.newest_property);
        let ghost entries0 = property_entries(this.map);
        loop
            invariant
                sr.wf(),
                sr.bytes@ == b,
                b == old(sr).bytes@,
                p0 == old(sr).pos(),
                target == object_loop(b, p0, entries0, n0),
                object_loop(b, sr.pos(), property_entries(this.map), newest_tree(this.newest_property)) == target,
                sr.pos() >= p0,
                sr.pos() == p0 ==> property_size(newest_tree(this.newest_property)) <= property_size(n0),
                n0 == newest_tree(self.newest_property),
                entries0 == property_entries(self.map),
            decreases b.len() - sr.pos(), if this.newest_property is Some { 1int } else { 0int },
        {
            let p = sr.curr_index;
            let ghost entries = property_entries(this.map);
            let ghost newest = newest_tree(this.newest_property);
            let c = match sr.peek() {
                Some(c) => c,
                None => {
                    return Some(JsonValue::IncObject(this));
                },
            };
            if this.newest_property.is_none() && c.char == 125 {
                sr.next();
                return Some(JsonValue::Object(JsonObject(this.map)));
            }
            let had_newest = this.newest_property.is_some();
            let property = match this.parse_property(sr) {
                Some(property) => property,
                None => {
                    return None;
                },
            };
            let q = sr.curr_index;
            if q < p {
                return None;
            }
            match property {
                None => {
                    if q <= p {
                        return None;
                    }
                },
                Some(Property::Complete(key, value)) => {
                    if is_bad_key(&key) || (q <= p && !had_newest) {
                        return None;
                    }
                    this.map.insert(key, value);
                    sr.skip_whitespace();
                    proof {
                        lemma_skip_whitespace_bounds(b, q as int);
                    }
                    if let Some(c) = sr.peek() {
                        if c.char == 44 {
                            sr.curr_index = sr.curr_index + 1;
                            let ghost q1 = sr.pos();
                            sr.skip_whitespace();
                            proof {
                                lemma_skip_whitespace_bounds(b, q1);
                            }
                        }
                    }
                },
                Some(Property::Incomplete(prop)) => {
                    let bad = match &prop.key {
                        PropertyKey::Complete(name) => is_bad_key(name),
                        PropertyKey::Incomplete(ik) => is_bad_key(&ik.name),
                    };
                    if bad || q <= p {
                        return None;
                    }
                    this.newest_property = Some(prop);
                },
            }
        }
    }

    /// Reads a key whose text starts at `first + first_off`; gives the key
    /// and whether the `:` after it was found.
    fn parse_key(&self, sr: &mut StringReader, first: usize, first_off: usize, quoted: bool) -> (r: Option<(PropertyKey, bool)>)
        requires
            old(sr).wf(),
            first + first_off <= old(sr).pos(),
        ensures
            final(sr).wf(),
            final(sr).bytes@ == old(sr).bytes@,
            ({
                let (k, q) = key_step(old(sr).bytes@, old(sr).pos(), first + first_off, quoted);
                &&& final(sr).pos() == q
                &&& match r {
                    None => k is None,
                    Some((key, fc)) => k == Some((key_tree(key), fc)),
                }
            }),
    {
        let ghost b = sr.bytes@;
        let ghost p = sr.pos();
        let start = first + first_off;
        proof {
            lemma_find_byte_bounds(b, p, 34);
            lemma_find_byte_bounds(b, p, 58);
        }
        let prop_end = if quoted {
            match sr.find_byte(34) {
                Some(property_name_end) => property_name_end.index,
                None => {
                    let end = sr.curr_index;
                    if let Ok(name) = sr.get_string(start..end) {
                        return Some((PropertyKey::Incomplete(IncPropertyKey { name, quoted }), false));
                    }
                    return None;
                },
            }
        } else {
            match sr.find_byte(58) {
                Some(property_name_end) => {
                    sr.curr_index = sr.curr_index - 1;
                    property_name_end.index
                },
                None => {
                    let end = sr.curr_index;
                    if let Ok(name) = sr.get_string(start..end) {
                        return Some((PropertyKey::Incomplete(IncPropertyKey { name, quoted }), false));
                    }
                    return None;
                },
            }
        };
        let name = match sr.get_string(start..prop_end) {
            Ok(name) => name,
            Err(_) => {
                return None;
            },
        };
        proof {
            lemma_find_byte_bounds(b, sr.pos(), 58);
        }
        if let Some(_) = sr.find_byte(58) {
            return Some((PropertyKey::Complete(name), true));
        }
        Some((PropertyKey::Complete(name), false))
    }

    /// Reads the value of a property whose key is read.
    fn parse_property_value(sr: &mut StringReader, key: PropertyKey, value: Option<JsonValue>, found_colon: bool) -> (r: Option<Option<Property>>)
        requires
            old(sr).wf(),
        ensures
            final(sr).wf(),
            final(sr).bytes@ == old(sr).bytes@,
            property_agrees(
                property_value_step(old(sr).bytes@, old(sr).pos(), key_tree(key), state_tree(value), found_colon),
                r,
                final(sr).pos(),
            ),
        decreases old(sr).bytes@.len() - old(sr).pos(), state_size(state_tree(value)) + 1,
    {
        let ghost b = sr.bytes@;
        let ghost q = sr.pos();
        sr.skip_whitespace();
        proof {
            lemma_skip_whitespace_bounds(b, q);
        }
        let property_value = match JsonValue::try_read(sr, value) {
            Some(v) => v,
            None => {
                return None;
            },
        };
        match property_value {
            Some(v) => {
                if is_incomplete(&v) {
                    Some(Some(Property::Incomplete(IncProperty { key, value: Box::new(Some(v)), found_colon })))
                } else {
                    let name = match key {
                        PropertyKey::Complete(name) => name,
                        PropertyKey::Incomplete(prop) => prop.name,
                    };
                    Some(Some(Property::Complete(name, v)))
                }
            },
            None => Some(Some(Property::Incomplete(IncProperty { key, value: Box::new(None), found_colon }))),
        }
    }

    /// Reads one property, going on with the property being read where there is one.
    fn parse_property(&mut self, sr: &mut StringReader) -> (r: Option<Option<Property>>)
        requires
            old(sr).wf(),
        ensures
            final(sr).wf(),
            final(sr).bytes@ == old(sr).bytes@,
            final(self).newest_property is None,
            final(self).map == old(self).map,
            property_agrees(property_step(old(sr).bytes@, old(sr).pos(), newest_tree(old(self).newest_property)), r, final(sr).pos()),
        decreases old(sr).bytes@.len() - old(sr).pos(), property_size(newest_tree(old(self).newest_property)) + 3,
    {
        if self.newest_property.is_none() {
            return self.parse_new_property(sr);
        }
        let property = self.newest_property.take().unwrap();
        self.resume_property(sr, property)
    }

    /// Reads a new property, past a `,` that stands at the reader.
    fn parse_new_property(&self, sr: &mut StringReader) -> (r: Option<Option<Property>>)
        requires
            old(sr).wf(),
        ensures
            final(sr).wf(),
            final(sr).bytes@ == old(sr).bytes@,
            property_agrees(new_property_step(old(sr).bytes@, old(sr).pos()), r, final(sr).pos()),
        decreases old(sr).bytes@.len() - old(sr).pos(), 2nat,
    {
        let ghost b = sr.bytes@;
        if let Some(c) = sr.peek() {
            if c.char == 44 {
                sr.next();
            }
        }
        let ghost p0 = sr.pos();
        sr.skip_whitespace();
        proof {
            lemma_skip_whitespace_bounds(b, p0);
        }
        let first = match sr.next() {
            Some(first) => first,
            None => {
                return Some(None);
            },
        };
        let quoted = first.char == 34;
        let first_off: usize = if quoted { 1 } else { 0 };
        proof {
            lemma_key_step_bounds(b, first.index + 1, first.index + first_off, quoted);
        }
        match self.parse_key(sr, first.index, first_off, quoted) {
            None => Some(None),
            Some((key, found_colon)) => Self::parse_property_value(sr, key, None, found_colon),
        }
    }

    /// Goes on with the property `property` that was being read.
    fn resume_property(&self, sr: &mut StringReader, property: IncProperty) -> (r: Option<Option<Property>>)
        requires
            old(sr).wf(),
        ensures
            final(sr).wf(),
            final(sr).bytes@ == old(sr).bytes@,
            property_agrees(resumed_property_step(old(sr).bytes@, old(sr).pos(), property_tree(property)), r, final(sr).pos()),
        decreases old(sr).bytes@.len() - old(sr).pos(), property_size(Some(property_tree(property))) + 2,
    {
        let ghost b = sr.bytes@;
        let ghost p = sr.pos();
        let property_key;
        let found_colon;
        match property.key {
            PropertyKey::Incomplete(orig_prop) => {
                let start_index = sr.curr_index;
                proof {
                    lemma_key_step_bounds(b, p, p, orig_prop.quoted);
                }
                match self.parse_key(sr, start_index, 0, orig_prop.quoted) {
                    None => {
                        return Some(Some(Property::Incomplete(IncProperty {
                            key: PropertyKey::Incomplete(orig_prop),
                            value: property.value,
                            found_colon: property.found_colon,
                        })));
                    },
                    Some((PropertyKey::Complete(name), fc)) => {
                        found_colon = fc;
                        property_key = PropertyKey::Complete(append_string(orig_prop.name, name));
                    },
                    Some((PropertyKey::Incomplete(name), fc)) => {
                        found_colon = fc;
                        property_key = PropertyKey::Incomplete(IncPropertyKey {
                            name: append_string(orig_prop.name, name.name),
                            quoted: orig_prop.quoted,
                        });
                    },
                }
            },
            PropertyKey::Complete(name) => {
                if !property.found_colon {
                    proof {
                        lemma_find_byte_bounds(b, p, 58);
                    }
                    if sr.find_byte(58).is_none() {
                        return Some(Some(Property::Incomplete(IncProperty {
                            key: PropertyKey::Complete(name),
                            value: property.value,
                            found_colon: false,
                        })));
                    }
                }
                property_key = PropertyKey::Complete(name);
                found_colon = true;
            },
        }
        let property_value = *property.value;
        Self::parse_property_value(sr, property_key, property_value, found_colon)
    }
}

/// Whether a property's key starts with `"` or `,`, which the parser's
/// debug assertion does not let through.
fn is_bad_key(name: &String) -> (r: bool)
    ensures
        r == bad_key(name@),
{
    broadcast use vstd::string::group_string_axioms;
    let mut chars = name.as_str().chars();
    match chars.next() {
        Some(c) => c == '"' || c == ',',
        None => false,
    }
}

/// Whether the value waits for more input.
fn is_incomplete(v: &JsonValue) -> (r: bool)
    ensures
        r == v@.is_incomplete(),
{
    match v {
        JsonValue::IncArray(_) | JsonValue::IncBool(_) | JsonValue::IncNull(_) | JsonValue::IncNumber(_)
        | JsonValue::IncObject(_) | JsonValue::IncString(_) => true,
        _ => false,
    }
}

/// Appends the text of `b` to `a`.
fn append_string(a: String, b: String) -> (r: String)
    ensures
        r@ == a@ + b@,
{
    a.concat(b.as_str())
}

impl JsonParsable for IncJsonObject {
    open spec fn parse_spec(&self, b: Seq<u8>, p: int) -> Option<(JsonTree, int)> {
        object_loop(b, p, property_entries(self.map), newest_tree(self.newest_property))
    }

    open spec fn finish_spec(&self) -> JsonTree {
        JsonTree::Object(property_entries(self.map))
    }

    open spec fn finish_requires(&self) -> bool {
        true
    }

    fn parse(self, sr: &mut StringReader) -> (r: JsonValue) {
        self.try_resume(sr).unwrap()
    }

    fn finish(self) -> (r: JsonValue) {
        JsonValue::Object(JsonObject(self.map))
    }
}

impl From<JsonObject> for JsonValue {
    fn from(value: JsonObject) -> (r: JsonValue) {
        JsonValue::Object(value)
    }
}

impl vstd::std_specs::convert::FromSpecImpl<JsonObject> for JsonValue {
    open spec fn obeys_from_spec() -> bool {
        true
    }

    open spec fn from_spec(value: JsonObject) -> JsonValue {
        JsonValue::Object(value)
    }
}

impl From<IncJsonObject> for JsonValue {
    fn from(value: IncJsonObject) -> (r: JsonValue) {
        JsonValue::IncObject(value)
    }
}

impl vstd::std_specs::convert::FromSpecImpl<IncJsonObject> for JsonValue {
    open spec fn obeys_from_spec() -> bool {
        true
    }

    open spec fn from_spec(value: IncJsonObject) -> JsonValue {
        JsonValue::IncObject(value)
    }
}

} // verus!
