//! `true` and `false`.
use vstd::prelude::*;

use crate::json_reader::{read_literal, LiteralResult};
use crate::model::{bool_step, false_bytes, true_bytes, JsonTree};
use crate::parsers::{agrees, JsonParsable, JsonValue};
use crate::string_reader::{CharWithIndex, StringReader};

verus! {

/// A complete boolean.
#[derive(PartialEq, Eq, Debug, Clone, Copy)]
pub struct JsonBool(pub bool);

/// A boolean of which the given number of letters were read.
#[derive(PartialEq, Eq, Debug, Clone, Copy)]
pub enum IncJsonBool {
    True(usize),
    False(usize),
}

impl JsonBool {
    /// Starts a boolean where `first_char`, the byte read last, is `t` or `f`.
    pub fn try_start_parse(sr: &mut StringReader, first_char: &CharWithIndex) -> (r: Option<JsonValue>)
        requires
            old(sr).wf(),
            first_char.char == 116 ==> bool_step(old(sr).bytes@, old(sr).pos(), IncJsonBool::True(1)) is Some,
            first_char.char == 102 ==> bool_step(old(sr).bytes@, old(sr).pos(), IncJsonBool::False(1)) is Some,
        ensures
            final(sr).wf(),
            final(sr).bytes@ == old(sr).bytes@,
            first_char.char != 116 && first_char.char != 102 ==> r is None && final(sr).pos() == old(sr).pos(),
            first_char.char == 116 ==> (r matches Some(v) && bool_step(old(sr).bytes@, old(sr).pos(), IncJsonBool::True(1)) == Some((v@, final(sr).pos()))),
            first_char.char == 102 ==> (r matches Some(v) && bool_step(old(sr).bytes@, old(sr).pos(), IncJsonBool::False(1)) == Some((v@, final(sr).pos()))),
    {
        let val = if first_char.char == 116 {
            IncJsonBool::True(1)
        } else if first_char.char == 102 {
            IncJsonBool::False(1)
        } else {
            return None;
        };
        Some(val.try_resume(sr).unwrap())
    }
}

impl IncJsonBool {
    /// Goes on reading the boolean; `None` where the model has no result.
    pub fn try_resume(self, sr: &mut StringReader) -> (r: Option<JsonValue>)
        requires
            old(sr).wf(),
        ensures
            final(sr).wf(),
            final(sr).bytes@ == old(sr).bytes@,
            agrees(bool_step(old(sr).bytes@, old(sr).pos(), self), r, final(sr).pos()),
    {
        match self {
            IncJsonBool::True(count) => {
                let lit = vec![116u8, 114, 117, 101];
                proof {
                    assert(lit@ =~= true_bytes());
                }
                match read_literal(sr, count, lit.as_slice()) {
                    None => None,
                    Some(LiteralResult::Finished) => Some(JsonValue::Bool(JsonBool(true))),
                    Some(LiteralResult::Partial(n)) => Some(JsonValue::IncBool(IncJsonBool::True(n))),
                    Some(LiteralResult::Invalid(s)) => Some(JsonValue::Invalid(s)),
                }
            },
            IncJsonBool::False(count) => {
                let lit = vec![102u8, 97, 108, 115, 101];
                proof {
                    assert(lit@ =~= false_bytes());
                }
                match read_literal(sr, count, lit.as_slice()) {
                    None => None,
                    Some(LiteralResult::Finished) => Some(JsonValue::Bool(JsonBool(false))),
                    Some(LiteralResult::Partial(n)) => Some(JsonValue::IncBool(IncJsonBool::False(n))),
                    Some(LiteralResult::Invalid(s)) => Some(JsonValue::Invalid(s)),
                }
            },
        }
    }
}

impl JsonParsable for IncJsonBool {
    open spec fn parse_spec(&self, b: Seq<u8>, p: int) -> Option<(JsonTree, int)> {
        bool_step(b, p, *self)
    }

    open spec fn finish_spec(&self) -> JsonTree {
        JsonTree::Bool(*self is True)
    }

    fn parse(self, sr: &mut StringReader) -> (r: JsonValue) {
        self.try_resume(sr).unwrap()
    }

    open spec fn finish_requires(&self) -> bool {
        true
    }

    fn finish(self) -> (r: JsonValue) {
        match self {
            IncJsonBool::True(_) => JsonValue::Bool(JsonBool(true)),
            IncJsonBool::False(_) => JsonValue::Bool(JsonBool(false)),
        }
    }
}

impl From<JsonBool> for JsonValue {
    fn from(value: JsonBool) -> (r: JsonValue) {
        JsonValue::Bool(value)
    }
}

impl vstd::std_specs::convert::FromSpecImpl<JsonBool> for JsonValue {
    open spec fn obeys_from_spec() -> bool {
        true
    }

    open spec fn from_spec(value: JsonBool) -> JsonValue {
        JsonValue::Bool(value)
    }
}

impl From<IncJsonBool> for JsonValue {
    fn from(value: IncJsonBool) -> (r: JsonValue) {
        JsonValue::IncBool(value)
    }
}

impl vstd::std_specs::convert::FromSpecImpl<IncJsonBool> for JsonValue {
    open spec fn obeys_from_spec() -> bool {
        true
    }

    open spec fn from_spec(value: IncJsonBool) -> JsonValue {
        JsonValue::IncBool(value)
    }
}

} // verus!
