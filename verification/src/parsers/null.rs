//! `null`.
use vstd::prelude::*;

use crate::json_reader::{read_literal, LiteralResult};
use crate::model::{null_bytes, null_step, JsonTree};
use crate::parsers::{agrees, JsonParsable, JsonValue};
use crate::string_reader::{CharWithIndex, StringReader};

verus! {

/// A complete `null`.
#[derive(PartialEq, Eq, Debug, Clone, Copy)]
pub struct JsonNull;

/// A `null` of which the given number of letters were read.
#[derive(PartialEq, Eq, Debug, Clone, Copy)]
pub struct IncJsonNull(pub usize);

impl JsonNull {
    /// Starts a `null` where `first_char`, the byte read last, is `n`.
    pub fn try_start_parse(sr: &mut StringReader, first_char: &CharWithIndex) -> (r: Option<JsonValue>)
        requires
            old(sr).wf(),
            first_char.char == 110 ==> null_step(old(sr).bytes@, old(sr).pos(), IncJsonNull(1)) is Some,
        ensures
            final(sr).wf(),
            final(sr).bytes@ == old(sr).bytes@,
            first_char.char != 110 ==> r is None && final(sr).pos() == old(sr).pos(),
            first_char.char == 110 ==> (r matches Some(v) && null_step(old(sr).bytes@, old(sr).pos(), IncJsonNull(1)) == Some((v@, final(sr).pos()))),
    {
        if first_char.char != 110 {
            return None;
        }
        Some(IncJsonNull(1).try_resume(sr).unwrap())
    }
}

impl IncJsonNull {
    /// Goes on reading the `null`; `None` where the model has no result.
    pub fn try_resume(self, sr: &mut StringReader) -> (r: Option<JsonValue>)
        requires
            old(sr).wf(),
        ensures
            final(sr).wf(),
            final(sr).bytes@ == old(sr).bytes@,
            agrees(null_step(old(sr).bytes@, old(sr).pos(), self), r, final(sr).pos()),
    {
        let lit = vec![110u8, 117, 108, 108];
        proof {
            assert(lit@ =~= null_bytes());
        }
        match read_literal(sr, self.0, lit.as_slice()) {
            None => None,
            Some(LiteralResult::Finished) => Some(JsonValue::Null(JsonNull)),
            Some(LiteralResult::Partial(n)) => Some(JsonValue::IncNull(IncJsonNull(n))),
            Some(LiteralResult::Invalid(s)) => Some(JsonValue::Invalid(s)),
        }
    }
}

impl JsonParsable for IncJsonNull {
    open spec fn parse_spec(&self, b: Seq<u8>, p: int) -> Option<(JsonTree, int)> {
        null_step(b, p, *self)
    }

    open spec fn finish_spec(&self) -> JsonTree {
        JsonTree::Null
    }

    fn parse(self, sr: &mut StringReader) -> (r: JsonValue) {
        self.try_resume(sr).unwrap()
    }

    open spec fn finish_requires(&self) -> bool {
        true
    }

    fn finish(self) -> (r: JsonValue) {
        JsonValue::Null(JsonNull)
    }
}

impl From<JsonNull> for JsonValue {
    fn from(value: JsonNull) -> (r: JsonValue) {
        JsonValue::Null(value)
    }
}

impl vstd::std_specs::convert::FromSpecImpl<JsonNull> for JsonValue {
    open spec fn obeys_from_spec() -> bool {
        true
    }

    open spec fn from_spec(value: JsonNull) -> JsonValue {
        JsonValue::Null(value)
    }
}

impl From<IncJsonNull> for JsonValue {
    fn from(value: IncJsonNull) -> (r: JsonValue) {
        JsonValue::IncNull(value)
    }
}

impl vstd::std_specs::convert::FromSpecImpl<IncJsonNull> for JsonValue {
    open spec fn obeys_from_spec() -> bool {
        true
    }

    open spec fn from_spec(value: IncJsonNull) -> JsonValue {
        JsonValue::IncNull(value)
    }
}

} // verus!
