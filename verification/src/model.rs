//! The mathematical model of the incremental JSON parser.
//!
//! A parsed (or partly parsed) JSON value is modelled by [`JsonTree`]; the
//! parser itself is modelled by pure spec functions over the input bytes and
//! a position in them. Every spec function that can run into a panic or a
//! loop that never ends returns `None` for those inputs; the executable
//! parser requires that this does not happen and then computes exactly what
//! the spec functions say.
use vstd::prelude::*;
use vstd::utf8::*;

use crate::parsers::bool::IncJsonBool;
use crate::parsers::null::IncJsonNull;
use crate::parsers::number::{DecimalPart, IncJsonNumber, JsonNumber};

verus! {

/// The model of a JSON value, complete (`Object` .. `Invalid`) or still
/// waiting for more input (`Inc..`).
pub enum JsonTree {
    IncObject(Seq<(Seq<char>, JsonTree)>, Option<PropertyTree>),
    IncArray(Seq<JsonTree>),
    IncString(Option<Seq<char>>),
    IncNumber(IncJsonNumber),
    IncBool(IncJsonBool),
    IncNull(IncJsonNull),
    Object(Seq<(Seq<char>, JsonTree)>),
    Array(Seq<JsonTree>),
    String(Seq<char>),
    Number(JsonNumber),
    Bool(bool),
    Null,
    Invalid(Seq<char>),
}

/// The model of the property of an object that is still being read.
pub struct PropertyTree {
    pub key: KeyTree,
    pub value: Box<Option<JsonTree>>,
    pub found_colon: bool,
}

/// The model of a property's key.
pub enum KeyTree {
    Complete(Seq<char>),
    Incomplete(Seq<char>, bool),
}

/// What reading one property of an object gives.
pub enum PropertyStep {
    Complete(Seq<char>, JsonTree),
    Incomplete(PropertyTree),
}

/// What reading the rest of a `true`, `false` or `null` gives.
pub enum LiteralStep {
    Finished,
    Partial(int),
    Invalid(Seq<char>),
}

impl JsonTree {
    /// Whether the value still waits for more input.
    pub open spec fn is_incomplete(self) -> bool {
        ||| self is IncObject
        ||| self is IncArray
        ||| self is IncString
        ||| self is IncNumber
        ||| self is IncBool
        ||| self is IncNull
    }
}

impl KeyTree {
    pub open spec fn name(self) -> Seq<char> {
        match self {
            KeyTree::Complete(n) => n,
            KeyTree::Incomplete(n, _) => n,
        }
    }
}

// ---------------------------------------------------------------------------
// Sizes, used to show that the mutually recursive definitions terminate.
// ---------------------------------------------------------------------------
pub open spec fn tree_size(t: JsonTree) -> nat
    decreases t,
{
    match t {
        JsonTree::IncObject(_, newest) => 5 + property_size(newest),
        JsonTree::IncArray(children) => 2 + children_size(children),
        _ => 1,
    }
}

pub open spec fn children_size(s: Seq<JsonTree>) -> nat
    decreases s,
{
    if s.len() == 0 {
        0
    } else {
        children_size(s.drop_last()) + tree_size(s.last())
    }
}

pub open spec fn property_size(p: Option<PropertyTree>) -> nat
    decreases p,
{
    match p {
        None => 0,
        Some(prop) => 1 + state_size(*prop.value),
    }
}

pub open spec fn state_size(s: Option<JsonTree>) -> nat
    decreases s,
{
    match s {
        None => 0,
        Some(t) => 1 + tree_size(t),
    }
}

// ---------------------------------------------------------------------------
// The byte level: whitespace, searching, text.
// ---------------------------------------------------------------------------
/// The bytes `b` for which `(b as char).is_whitespace()` holds.
pub open spec fn is_whitespace_byte(c: u8) -> bool {
    c == 9 || c == 10 || c == 11 || c == 12 || c == 13 || c == 32 || c == 0x85 || c == 0xa0
}

/// The first position at or after `p` that does not hold whitespace.
pub open spec fn skip_whitespace_from(b: Seq<u8>, p: int) -> int
    decreases b.len() - p,
{
    if 0 <= p < b.len() && is_whitespace_byte(b[p]) {
        skip_whitespace_from(b, p + 1)
    } else {
        p
    }
}

/// The first position at or after `p` that holds `x`.
pub open spec fn find_byte_from(b: Seq<u8>, p: int, x: u8) -> Option<int>
    decreases b.len() - p,
{
    if 0 <= p < b.len() {
        if b[p] == x {
            Some(p)
        } else {
            find_byte_from(b, p + 1, x)
        }
    } else {
        None
    }
}

/// Where a search from `p` that finds nothing leaves the reader: at the end,
/// or where it stood if that is past the end.
pub open spec fn end_from(b: Seq<u8>, p: int) -> int {
    if p > b.len() {
        p
    } else {
        b.len() as int
    }
}

/// The first position at or after `p` holding a `"` that is not preceded by a `\`.
pub open spec fn find_quote_from(b: Seq<u8>, p: int) -> Option<int>
    decreases b.len() - p,
{
    if 0 <= p < b.len() {
        if b[p] == 34 && !(p >= 1 && b[p - 1] == 92) {
            Some(p)
        } else {
            find_quote_from(b, p + 1)
        }
    } else {
        None
    }
}

/// Whether the byte at `p` is one of `}`, `]`, `,` or a newline.
pub open spec fn separator_at(b: Seq<u8>, p: int) -> bool {
    0 <= p < b.len() && (b[p] == 125 || b[p] == 93 || b[p] == 44 || b[p] == 10)
}

/// The text that `std::str::from_utf8` reports for bytes that are not UTF-8.
pub uninterp spec fn utf8_error_text(bytes: Seq<u8>) -> Seq<char>;

/// The text of `b[s..e]`, where those bytes are UTF-8.
pub open spec fn slice_text(b: Seq<u8>, s: int, e: int) -> Option<Seq<char>> {
    if valid_utf8(b.subrange(s, e)) {
        Some(decode_utf8(b.subrange(s, e)))
    } else {
        None
    }
}

/// The text of `b[s..e]`, or the text of the UTF-8 error that those bytes give.
pub open spec fn slice_text_or_error(b: Seq<u8>, s: int, e: int) -> Seq<char> {
    if valid_utf8(b.subrange(s, e)) {
        decode_utf8(b.subrange(s, e))
    } else {
        utf8_error_text(b.subrange(s, e))
    }
}

// ---------------------------------------------------------------------------
// `true`, `false`, `null`.
// ---------------------------------------------------------------------------
pub open spec fn true_bytes() -> Seq<u8> {
    seq![116u8, 114, 117, 101]
}

pub open spec fn false_bytes() -> Seq<u8> {
    seq![102u8, 97, 108, 115, 101]
}

pub open spec fn null_bytes() -> Seq<u8> {
    seq![110u8, 117, 108, 108]
}

/// Reading a literal `lit` of which `count` bytes were read before, from `p` on.
pub open spec fn literal_step(b: Seq<u8>, p: int, count: int, lit: Seq<u8>) -> Option<(LiteralStep, int)> {
    if count >= lit.len() && separator_at(b, p) {
        Some((LiteralStep::Finished, p))
    } else if count > lit.len() {
        None
    } else {
        let rest = lit.subrange(count, lit.len() as int);
        let n = if rest.len() <= b.len() - p { rest.len() as int } else { b.len() - p };
        if b.subrange(p, p + n) == rest.subrange(0, n) {
            if count + n >= lit.len() && separator_at(b, p + n) {
                Some((LiteralStep::Finished, p + n))
            } else {
                Some((LiteralStep::Partial(count + n), p + n))
            }
        } else {
            Some((LiteralStep::Invalid(slice_text_or_error(b, p, b.len() as int)), p))
        }
    }
}

pub open spec fn bool_step(b: Seq<u8>, p: int, state: IncJsonBool) -> Option<(JsonTree, int)> {
    let (value, count, lit) = match state {
        IncJsonBool::True(c) => (true, c, true_bytes()),
        IncJsonBool::False(c) => (false, c, false_bytes()),
    };
    match literal_step(b, p, count as int, lit) {
        None => None,
        Some((LiteralStep::Finished, q)) => Some((JsonTree::Bool(value), q)),
        Some((LiteralStep::Partial(n), q)) => Some((
            JsonTree::IncBool(if value { IncJsonBool::True(n as usize) } else { IncJsonBool::False(n as usize) }),
            q,
        )),
        Some((LiteralStep::Invalid(t), q)) => Some((JsonTree::Invalid(t), q)),
    }
}

pub open spec fn null_step(b: Seq<u8>, p: int, state: IncJsonNull) -> Option<(JsonTree, int)> {
    match literal_step(b, p, state.0 as int, null_bytes()) {
        None => None,
        Some((LiteralStep::Finished, q)) => Some((JsonTree::Null, q)),
        Some((LiteralStep::Partial(n), q)) => Some((JsonTree::IncNull(IncJsonNull(n as usize)), q)),
        Some((LiteralStep::Invalid(t), q)) => Some((JsonTree::Invalid(t), q)),
    }
}

// ---------------------------------------------------------------------------
// Numbers.
// ---------------------------------------------------------------------------
/// Whether `(c as u8)` is a digit, or `c` is `-` or `.`.
pub open spec fn is_number_char(c: char) -> bool {
    let u = (c as u32) % 256;
    (48 <= u <= 57) || c == '-' || c == '.'
}

pub open spec fn is_number_byte(c: u8) -> bool {
    (48 <= c <= 57) || c == 45 || c == 46
}

/// The number that a finished number state holds.
pub open spec fn number_value(st: IncJsonNumber) -> JsonNumber {
    JsonNumber { integer_part: st.integer_part, decimal_part: st.decimal_part, is_negative: st.is_negative }
}

/// The `Invalid` value of a number that turned out not to be one, read up to `end`.
pub open spec fn number_invalid(b: Seq<u8>, st: IncJsonNumber, end: int) -> Option<(JsonTree, int)> {
    if st.start_str_index > end {
        None
    } else {
        Some((JsonTree::Invalid(slice_text_or_error(b, st.start_str_index as int, end)), end))
    }
}

/// Reading the digits of a number from `p` on; `idx` counts the bytes read in this chunk.
pub open spec fn number_loop(b: Seq<u8>, p: int, st: IncJsonNumber, idx: int) -> Option<(JsonTree, int)>
    decreases b.len() - p,
{
    if p < 0 || p >= b.len() {
        Some((JsonTree::IncNumber(st), p))
    } else {
        let c = b[p];
        if !is_number_byte(c) {
            if c == 125 || c == 93 || c == 44 {
                Some((JsonTree::Number(number_value(st)), p))
            } else {
                number_invalid(b, st, p + 1)
            }
        } else if c == 45 {
            number_invalid(b, st, p + 1)
        } else if c == 46 {
            if st.dot_index is Some {
                number_invalid(b, st, p + 1)
            } else {
                number_loop(b, p + 1, IncJsonNumber { dot_index: Some(idx as i32), ..st }, idx + 1)
            }
        } else {
            let d = c - 48;
            if st.dot_index is Some {
                let v = st.decimal_part.value * 10 + d;
                let n = st.decimal_part.digit_count + 1;
                if v > u64::MAX || n > u64::MAX {
                    None
                } else {
                    number_loop(
                        b,
                        p + 1,
                        IncJsonNumber { decimal_part: DecimalPart { value: v as u64, digit_count: n as u64 }, ..st },
                        idx + 1,
                    )
                }
            } else {
                let v = st.integer_part * 10 + d;
                if v > u64::MAX {
                    None
                } else {
                    number_loop(b, p + 1, IncJsonNumber { integer_part: v as u64, ..st }, idx + 1)
                }
            }
        }
    }
}

/// Starting a number whose first byte `f` stands at `p - 1`.
pub open spec fn number_start(b: Seq<u8>, p: int, f: u8) -> Option<(JsonTree, int)> {
    let negative = f == 45;
    let dot: Option<i32> = if !negative && f == 46 { Some(-1i32) } else { None };
    let start = p - 1;
    let from = if !negative && dot is None { p - 1 } else { p };
    number_loop(
        b,
        from,
        IncJsonNumber {
            integer_part: 0,
            decimal_part: DecimalPart { value: 0, digit_count: 0 },
            is_negative: negative,
            dot_index: dot,
            start_str_index: start as usize,
        },
        0,
    )
}

// ---------------------------------------------------------------------------
// Strings.
// ---------------------------------------------------------------------------
pub open spec fn combine_text(acc: Option<Seq<char>>, t: Seq<char>) -> Seq<char> {
    match acc {
        Some(old) => old + t,
        None => t,
    }
}

/// Reading the rest of a string from `p` on; `acc` is what was read before.
pub open spec fn string_step(b: Seq<u8>, p: int, acc: Option<Seq<char>>) -> Option<(JsonTree, int)> {
    match find_quote_from(b, p) {
        Some(j) => match slice_text(b, p, j) {
            Some(t) => Some((JsonTree::String(combine_text(acc, t)), j + 1)),
            None => None,
        },
        None => match slice_text(b, p, b.len() as int) {
            Some(t) => Some((JsonTree::IncString(Some(combine_text(acc, t))), b.len() as int)),
            None => None,
        },
    }
}

// ---------------------------------------------------------------------------
// Object keys.
// ---------------------------------------------------------------------------
/// Inserting into the entries of an object: a key that is there keeps its
/// place and gets the new value; a new key goes last.
pub open spec fn key_index<V>(s: Seq<(Seq<char>, V)>, k: Seq<char>) -> int
    decreases s.len(),
{
    if s.len() == 0 {
        -1
    } else if s.last().0 == k {
        s.len() - 1
    } else {
        key_index(s.drop_last(), k)
    }
}

pub open spec fn insert_entry<V>(s: Seq<(Seq<char>, V)>, k: Seq<char>, v: V) -> Seq<(Seq<char>, V)> {
    let i = key_index(s, k);
    if i >= 0 {
        s.update(i, (k, v))
    } else {
        s.push((k, v))
    }
}

/// Reading a key whose text starts at `start`, with the reader at `q`.
/// Gives the key and whether the `:` after it was found, and the new position.
pub open spec fn key_step(b: Seq<u8>, q: int, start: int, quoted: bool) -> (Option<(KeyTree, bool)>, int) {
    let end = if quoted { find_byte_from(b, q, 34) } else { find_byte_from(b, q, 58) };
    match end {
        None => match slice_text(b, start, b.len() as int) {
            Some(name) => (Some((KeyTree::Incomplete(name, quoted), false)), b.len() as int),
            None => (None, b.len() as int),
        },
        Some(j) => {
            let curr = if quoted { j + 1 } else { j };
            match slice_text(b, start, j) {
                None => (None, curr),
                Some(name) => match find_byte_from(b, curr, 58) {
                    Some(k) => (Some((KeyTree::Complete(name), true)), k + 1),
                    None => (Some((KeyTree::Complete(name), false)), b.len() as int),
                },
            }
        },
    }
}

/// Whether a key would trip the parser's debug assertion on its first character.
pub open spec fn bad_key(name: Seq<char>) -> bool {
    name.len() > 0 && (name[0] == '"' || name[0] == ',')
}

// ---------------------------------------------------------------------------
// The parser.
// ---------------------------------------------------------------------------
/// Going on with a value `v` that was read before, from `p` on.
pub open spec fn continue_step(b: Seq<u8>, p: int, v: JsonTree) -> Option<(JsonTree, int)>
    decreases b.len() - p, tree_size(v),
{
    match v {
        JsonTree::IncObject(entries, newest) => object_loop(b, p, entries, newest),
        JsonTree::IncArray(children) => array_loop(b, p, children),
        JsonTree::IncString(acc) => string_step(b, p, acc),
        JsonTree::IncNumber(st) => number_loop(b, p, st, 0),
        JsonTree::IncBool(st) => bool_step(b, p, st),
        JsonTree::IncNull(st) => null_step(b, p, st),
        _ => Some((v, p)),
    }
}

/// Reading a value from `p` on: going on with `state` where there is one,
/// else starting a new value. `Some((None, q))` says that no value starts there.
pub open spec fn value_step(b: Seq<u8>, p: int, state: Option<JsonTree>) -> Option<(Option<JsonTree>, int)>
    decreases b.len() - p, state_size(state),
{
    match state {
        Some(v) => match continue_step(b, p, v) {
            Some((r, q)) => Some((Some(r), q)),
            None => None,
        },
        None => {
            let p1 = skip_whitespace_from(b, p);
            if p1 < 0 || p1 >= b.len() {
                Some((None, p1))
            } else {
                proof {
                    lemma_skip_whitespace_bounds(b, p);
                }
                let f = b[p1];
                let q = p1 + 1;
                if f == 123 {
                    match object_loop(b, q, Seq::empty(), None) {
                        Some((r, q2)) => Some((Some(r), q2)),
                        None => None,
                    }
                } else if f == 91 {
                    match array_loop(b, q, Seq::empty()) {
                        Some((r, q2)) => Some((Some(r), q2)),
                        None => None,
                    }
                } else if f == 34 {
                    match string_step(b, q, None) {
                        Some((r, q2)) => Some((Some(r), q2)),
                        None => None,
                    }
                } else if is_number_byte(f) {
                    match number_start(b, q, f) {
                        Some((r, q2)) => Some((Some(r), q2)),
                        None => None,
                    }
                } else if f == 116 || f == 102 {
                    let st = if f == 116 { IncJsonBool::True(1) } else { IncJsonBool::False(1) };
                    match bool_step(b, q, st) {
                        Some((r, q2)) => Some((Some(r), q2)),
                        None => None,
                    }
                } else if f == 110 {
                    match null_step(b, q, IncJsonNull(1)) {
                        Some((r, q2)) => Some((Some(r), q2)),
                        None => None,
                    }
                } else {
                    Some((None, q))
                }
            }
        },
    }
}

/// The loop of an array with `children`, from `p` on.
pub open spec fn array_loop(b: Seq<u8>, p: int, children: Seq<JsonTree>) -> Option<(JsonTree, int)>
    decreases b.len() - p, children_size(children) + 1,
{
    let p1 = skip_whitespace_from(b, p);
    if p1 < 0 || p1 >= b.len() {
        Some((JsonTree::IncArray(children), p1))
    } else {
        proof {
            lemma_skip_whitespace_bounds(b, p);
        }
        let resumed = if children.len() > 0 {
            match continue_step(b, p1, children.last()) {
                None => None,
                Some((child, q)) => Some((children.drop_last().push(child), q)),
            }
        } else {
            Some((children, p1))
        };
        match resumed {
            None => None,
            Some((kids, q)) => {
                let p2 = skip_whitespace_from(b, q);
                if q < p1 {
                    None
                } else if p2 < 0 || p2 >= b.len() {
                    Some((JsonTree::IncArray(kids), p2))
                } else {
                    proof {
                        lemma_skip_whitespace_bounds(b, q);
                    }
                    if b[p2] == 93 {
                        Some((JsonTree::Array(kids), p2 + 1))
                    } else if b[p2] == 44 {
                        array_loop(b, p2 + 1, kids)
                    } else {
                        match value_step(b, p2, None) {
                            None => None,
                            Some((child, q2)) => {
                                if q2 <= p || q2 > b.len() {
                                    None
                                } else {
                                    let kids2 = match child {
                                        Some(c) => kids.push(c),
                                        None => kids,
                                    };
                                    array_loop(b, q2, kids2)
                                }
                            },
                        }
                    }
                }
            },
        }
    }
}

/// Reading the value of a property whose key is read, from `q` on.
pub open spec fn property_value_step(
    b: Seq<u8>,
    q: int,
    key: KeyTree,
    value: Option<JsonTree>,
    found_colon: bool,
) -> Option<(Option<PropertyStep>, int)>
    decreases b.len() - q, state_size(value) + 1,
{
    if q < 0 || q > b.len() {
        None
    } else {
        let q1 = skip_whitespace_from(b, q);
        proof {
            lemma_skip_whitespace_bounds(b, q);
        }
        match value_step(b, q1, value) {
            None => None,
            Some((r, q2)) => match r {
                Some(v) => if v.is_incomplete() {
                    Some((Some(PropertyStep::Incomplete(PropertyTree { key, value: Box::new(r), found_colon })), q2))
                } else {
                    Some((Some(PropertyStep::Complete(key.name(), v)), q2))
                },
                None => Some((Some(PropertyStep::Incomplete(PropertyTree { key, value: Box::new(r), found_colon })), q2)),
            },
        }
    }
}

/// Reading one property of an object, from `p` on, going on with `newest` where there is one.
pub open spec fn property_step(b: Seq<u8>, p: int, newest: Option<PropertyTree>) -> Option<(Option<PropertyStep>, int)>
    decreases b.len() - p, property_size(newest) + 3,
{
    match newest {
        None => new_property_step(b, p),
        Some(prop) => resumed_property_step(b, p, prop),
    }
}

/// Reading a new property from `p` on, past a `,` that stands there.
pub open spec fn new_property_step(b: Seq<u8>, p: int) -> Option<(Option<PropertyStep>, int)>
    decreases b.len() - p, 2nat,
{
    if p < 0 || p > b.len() {
        None
    } else {
        let p0 = if p < b.len() && b[p] == 44 { p + 1 } else { p };
        let p1 = skip_whitespace_from(b, p0);
        if p1 < 0 || p1 >= b.len() {
            Some((None, p1))
        } else {
            proof {
                lemma_skip_whitespace_bounds(b, p0);
            }
            let quoted = b[p1] == 34;
            let start = if quoted { p1 + 1 } else { p1 };
            let (key, q) = key_step(b, p1 + 1, start, quoted);
            proof {
                lemma_key_step_bounds(b, p1 + 1, start, quoted);
            }
            match key {
                None => Some((None, q)),
                Some((k, found_colon)) => property_value_step(b, q, k, None, found_colon),
            }
        }
    }
}

/// Going on with the property `prop` from `p` on.
pub open spec fn resumed_property_step(b: Seq<u8>, p: int, prop: PropertyTree) -> Option<(Option<PropertyStep>, int)>
    decreases b.len() - p, property_size(Some(prop)) + 2,
{
    if p < 0 || p > b.len() {
        None
    } else {
        match prop.key {
            KeyTree::Incomplete(name, quoted) => {
                let (key, q) = key_step(b, p, p, quoted);
                proof {
                    lemma_key_step_bounds(b, p, p, quoted);
                }
                match key {
                    None => Some((
                        Some(PropertyStep::Incomplete(PropertyTree {
                            key: KeyTree::Incomplete(name, quoted),
                            value: prop.value,
                            found_colon: prop.found_colon,
                        })),
                        q,
                    )),
                    Some((KeyTree::Complete(more), found_colon)) => property_value_step(
                        b,
                        q,
                        KeyTree::Complete(name + more),
                        *prop.value,
                        found_colon,
                    ),
                    Some((KeyTree::Incomplete(more, _), found_colon)) => property_value_step(
                        b,
                        q,
                        KeyTree::Incomplete(name + more, quoted),
                        *prop.value,
                        found_colon,
                    ),
                }
            },
            KeyTree::Complete(name) => {
                if !prop.found_colon {
                    match find_byte_from(b, p, 58) {
                        None => Some((
                            Some(PropertyStep::Incomplete(PropertyTree {
                                key: KeyTree::Complete(name),
                                value: prop.value,
                                found_colon: false,
                            })),
                            b.len() as int,
                        )),
                        Some(j) => {
                            proof {
                                lemma_find_byte_bounds(b, p, 58);
                            }
                            property_value_step(b, j + 1, KeyTree::Complete(name), *prop.value, true)
                        },
                    }
                } else {
                    property_value_step(b, p, KeyTree::Complete(name), *prop.value, true)
                }
            },
        }
    }
}

/// The loop of an object with `entries` and the property `newest` being read, from `p` on.
pub open spec fn object_loop(
    b: Seq<u8>,
    p: int,
    entries: Seq<(Seq<char>, JsonTree)>,
    newest: Option<PropertyTree>,
) -> Option<(JsonTree, int)>
    decreases b.len() - p, property_size(newest) + 4,
{
    if p < 0 || p >= b.len() {
        Some((JsonTree::IncObject(entries, newest), p))
    } else if newest is None && b[p] == 125 {
        Some((JsonTree::Object(entries), p + 1))
    } else {
        match property_step(b, p, newest) {
            None => None,
            Some((step, q)) => {
                if q < p || q > b.len() {
                    None
                } else {
                    match step {
                        None => if q > p {
                            object_loop(b, q, entries, None)
                        } else {
                            None
                        },
                        Some(PropertyStep::Complete(key, value)) => {
                            if bad_key(key) {
                                None
                            } else if q > p || newest is Some {
                                let entries2 = insert_entry(entries, key, value);
                                let q1 = skip_whitespace_from(b, q);
                                proof {
                                    lemma_skip_whitespace_bounds(b, q);
                                }
                                let q2 = if 0 <= q1 < b.len() && b[q1] == 44 {
                                    proof {
                                        lemma_skip_whitespace_bounds(b, q1 + 1);
                                    }
                                    skip_whitespace_from(b, q1 + 1)
                                } else {
                                    q1
                                };
                                object_loop(b, q2, entries2, None)
                            } else {
                                None
                            }
                        },
                        Some(PropertyStep::Incomplete(prop)) => {
                            if bad_key(prop.key.name()) {
                                None
                            } else if q > p {
                                object_loop(b, q, entries, Some(prop))
                            } else {
                                None
                            }
                        },
                    }
                }
            },
        }
    }
}

/// Parsing one chunk `b` of input, going on with `state`. `None` where the
/// parser would panic or never return.
pub open spec fn parse_chunk(b: Seq<u8>, state: Option<JsonTree>) -> Option<Option<JsonTree>> {
    match value_step(b, 0, state) {
        Some((r, _)) => Some(r),
        None => None,
    }
}

// ---------------------------------------------------------------------------
// Lemmas on the byte-level functions.
// ---------------------------------------------------------------------------
pub proof fn lemma_skip_whitespace_bounds(b: Seq<u8>, p: int)
    ensures
        p <= skip_whitespace_from(b, p),
        p <= b.len() ==> skip_whitespace_from(b, p) <= b.len(),
        0 <= skip_whitespace_from(b, p) < b.len() ==> !is_whitespace_byte(b[skip_whitespace_from(b, p)]),
    decreases b.len() - p,
{
    if 0 <= p < b.len() && is_whitespace_byte(b[p]) {
        lemma_skip_whitespace_bounds(b, p + 1);
    }
}

pub proof fn lemma_find_byte_bounds(b: Seq<u8>, p: int, x: u8)
    ensures
        find_byte_from(b, p, x) matches Some(j) ==> p <= j < b.len() && b[j] == x,
    decreases b.len() - p,
{
    if 0 <= p < b.len() && b[p] != x {
        lemma_find_byte_bounds(b, p + 1, x);
    }
}

pub proof fn lemma_find_quote_bounds(b: Seq<u8>, p: int)
    ensures
        find_quote_from(b, p) matches Some(j) ==> p <= j < b.len() && b[j] == 34,
    decreases b.len() - p,
{
    if 0 <= p < b.len() && !(b[p] == 34 && !(p >= 1 && b[p - 1] == 92)) {
        lemma_find_quote_bounds(b, p + 1);
    }
}

pub proof fn lemma_key_step_bounds(b: Seq<u8>, q: int, start: int, quoted: bool)
    requires
        0 <= q <= b.len(),
    ensures
        q <= key_step(b, q, start, quoted).1 <= b.len(),
{
    lemma_find_byte_bounds(b, q, 34);
    lemma_find_byte_bounds(b, q, 58);
    let end = if quoted { find_byte_from(b, q, 34) } else { find_byte_from(b, q, 58) };
    if let Some(j) = end {
        let curr = if quoted { j + 1 } else { j };
        lemma_find_byte_bounds(b, curr, 58);
    }
}

} // verus!
