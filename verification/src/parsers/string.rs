//! Strings.
use vstd::prelude::*;
use vstd::string::StringExecFns;

use crate::json_reader::JsonReader;
use crate::model::{combine_text, lemma_find_quote_bounds, string_step, JsonTree};
use crate::parsers::{agrees, JsonParsable, JsonValue};
use crate::string_reader::{CharWithIndex, StringReader};

verus! {

/// A complete string.
#[derive(PartialEq, Eq, Debug)]
pub struct JsonString(pub String);

/// A string that may go on in the next chunk, with the text read so far.
#[derive(PartialEq, Eq, Debug)]
pub struct IncJsonString(pub Option<String>);

/// The model of the text read so far.
pub open spec fn acc_text(acc: Option<String>) -> Option<Seq<char>> {
    match acc {
        Some(s) => Some(s@),
        None => None,
    }
}

impl JsonString {
    /// Starts a string where `first_char`, the byte read last, is `"`.
    pub fn try_start_parse(sr: &mut StringReader, first_char: &CharWithIndex) -> (r: Option<JsonValue>)
        requires
            old(sr).wf(),
            first_char.char == 34 ==> string_step(old(sr).bytes@, old(sr).pos(), None) is Some,
        ensures
            final(sr).wf(),
            final(sr).bytes@ == old(sr).bytes@,
            first_char.char != 34 ==> r is None && final(sr).pos() == old(sr).pos(),
            first_char.char == 34 ==> (r matches Some(v) && string_step(old(sr).bytes@, old(sr).pos(), None) == Some((v@, final(sr).pos()))),
    {
        if first_char.char != 34 {
            return None;
        }
        let val = IncJsonString(None);
        Some(val.try_resume(sr).unwrap())
    }
}

impl IncJsonString {
    /// Appends `other` to the text read so far.
    pub fn combine_strings(self, other: &str) -> (r: Self)
        ensures
            acc_text(r.0) == Some(combine_text(acc_text(self.0), other@)),
    {
        let str = match self.0 {
            Some(old_str) => old_str.concat(other),
            None => other.to_owned(),
        };
        IncJsonString(Some(str))
    }

    /// Goes on reading the string; `None` where the model has no result.
    pub fn try_resume(self, sr: &mut StringReader) -> (r: Option<JsonValue>)
        requires
            old(sr).wf(),
        ensures
            final(sr).wf(),
            final(sr).bytes@ == old(sr).bytes@,
            agrees(string_step(old(sr).bytes@, old(sr).pos(), acc_text(self.0)), r, final(sr).pos()),
    {
        let ghost b = sr.bytes@;
        let start_index = sr.curr_index;
        proof {
            lemma_find_quote_bounds(b, start_index as int);
        }
        if let Some(string_end) = sr.find_quote() {
            match sr.get_str(start_index..string_end.index) {
                Ok(str) => Some(self.combine_strings(str).finish()),
                Err(_) => None,
            }
        } else {
            let end = sr.curr_index;
            match sr.get_str(start_index..end) {
                Ok(str) => Some(JsonValue::IncString(self.combine_strings(str))),
                Err(_) => None,
            }
        }
    }
}

impl JsonParsable for IncJsonString {
    open spec fn parse_spec(&self, b: Seq<u8>, p: int) -> Option<(JsonTree, int)> {
        string_step(b, p, acc_text(self.0))
    }

    open spec fn finish_spec(&self) -> JsonTree {
        JsonTree::String(acc_text(self.0).unwrap())
    }

    fn parse(self, sr: &mut StringReader) -> (r: JsonValue) {
        self.try_resume(sr).unwrap()
    }

    open spec fn finish_requires(&self) -> bool {
        self.0 is Some
    }

    fn finish(self) -> (r: JsonValue) {
        JsonValue::String(JsonString(self.0.unwrap()))
    }
}

impl From<JsonString> for JsonValue {
    fn from(value: JsonString) -> (r: JsonValue) {
        JsonValue::String(value)
    }
}

impl vstd::std_specs::convert::FromSpecImpl<JsonString> for JsonValue {
    open spec fn obeys_from_spec() -> bool {
        true
    }

    open spec fn from_spec(value: JsonString) -> JsonValue {
        JsonValue::String(value)
    }
}

impl From<IncJsonString> for JsonValue {
    fn from(value: IncJsonString) -> (r: JsonValue) {
        JsonValue::IncString(value)
    }
}

impl vstd::std_specs::convert::FromSpecImpl<IncJsonString> for JsonValue {
    open spec fn obeys_from_spec() -> bool {
        true
    }

    open spec fn from_spec(value: IncJsonString) -> JsonValue {
        JsonValue::IncString(value)
    }
}

} // verus!
