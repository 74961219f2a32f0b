//! Numbers.
use vstd::prelude::*;

use crate::model::{
    is_number_byte, is_number_char, number_invalid, number_loop, number_start, number_value, JsonTree,
};
use crate::parsers::{agrees, JsonParsable, JsonValue};
use crate::string_reader::{CharWithIndex, StringReader};

verus! {

/// The digits after the dot: their value as an integer, and how many there are.
#[derive(PartialEq, Eq, Debug, Clone, Copy)]
pub struct DecimalPart {
    pub value: u64,
    pub digit_count: u64,
}

/// A complete number, held as the parts it was written with: its value is
/// `integer_part + decimal_part.value / 10^decimal_part.digit_count`,
/// negated where `is_negative` holds.
#[derive(PartialEq, Eq, Debug, Clone, Copy)]
pub struct JsonNumber {
    pub integer_part: u64,
    pub decimal_part: DecimalPart,
    pub is_negative: bool,
}

/// A number that may go on in the next chunk: the parts read so far, where
/// the dot was seen (counting the bytes read in that chunk, `-1` for a
/// leading dot), and where in its chunk the number started.
#[derive(PartialEq, Eq, Debug, Clone, Copy)]
pub struct IncJsonNumber {
    pub integer_part: u64,
    pub decimal_part: DecimalPart,
    pub is_negative: bool,
    pub dot_index: Option<i32>,
    pub start_str_index: usize,
}

impl JsonNumber {
    /// Whether `char as u8` is a digit, or `char` is `-` or `.`.
    pub fn is_valid_char(char: char) -> (r: bool)
        ensures
            r == is_number_char(char),
    {
        let u = (char as u32) % 256;
        (u >= 48 && u <= 57) || char == '-' || char == '.'
    }

    /// Starts a number where `first_char`, the byte read last, is a digit, `-` or `.`.
    pub fn try_start_parse(sr: &mut StringReader, first_char: &CharWithIndex) -> (r: Option<JsonValue>)
        requires
            old(sr).wf(),
            old(sr).pos() >= 1,
            is_number_byte(first_char.char) ==> number_start(old(sr).bytes@, old(sr).pos(), first_char.char) is Some,
        ensures
            final(sr).wf(),
            final(sr).bytes@ == old(sr).bytes@,
            !is_number_byte(first_char.char) ==> r is None && final(sr).pos() == old(sr).pos(),
            is_number_byte(first_char.char) ==> (r matches Some(v) && number_start(old(sr).bytes@, old(sr).pos(), first_char.char) == Some((v@, final(sr).pos()))),
    {
        if !is_number_byte_exec(first_char.char) {
            return None;
        }
        Some(JsonNumber::try_start(sr, first_char.char).unwrap())
    }

    /// Starts a number whose first byte `c`, a digit, `-` or `.`, was read
    /// last; `None` where the model has no result.
    pub fn try_start(sr: &mut StringReader, c: u8) -> (r: Option<JsonValue>)
        requires
            old(sr).wf(),
            old(sr).pos() >= 1,
            is_number_byte(c),
        ensures
            final(sr).wf(),
            final(sr).bytes@ == old(sr).bytes@,
            agrees(number_start(old(sr).bytes@, old(sr).pos(), c), r, final(sr).pos()),
    {
        let mut negative = false;
        let mut dot_index: Option<i32> = None;
        if c == 45 {
            negative = true;
        } else if c == 46 {
            dot_index = Some(-1);
        }
        let start_index = sr.curr_index - 1;
        if !negative && dot_index.is_none() {
            sr.curr_index = sr.curr_index - 1;
        }
        let val = IncJsonNumber {
            integer_part: 0,
            decimal_part: DecimalPart { value: 0, digit_count: 0 },
            is_negative: negative,
            dot_index,
            start_str_index: start_index,
        };
        val.try_resume(sr)
    }
}

fn is_number_byte_exec(c: u8) -> (r: bool)
    ensures
        r == is_number_byte(c),
{
    (c >= 48 && c <= 57) || c == 45 || c == 46
}

impl IncJsonNumber {
    /// Goes on reading the number; `None` where the model has no result
    /// (a part past `u64::MAX`, or a start past the reader).
    pub fn try_resume(self, sr: &mut StringReader) -> (r: Option<JsonValue>)
        requires
            old(sr).wf(),
        ensures
            final(sr).wf(),
            final(sr).bytes@ == old(sr).bytes@,
            agrees(number_loop(old(sr).bytes@, old(sr).pos(), self, 0), r, final(sr).pos()),
    {
        let mut this = self;
        let ghost b = sr.bytes@;
        let ghost target = number_loop(b, sr.pos(), self, 0);
        let ghost st0 = self;
        let mut index: usize = 0;
        loop
            invariant
                sr.wf(),
                sr.bytes@ == b,
                b == old(sr).bytes@,
                st0 == self,
                target == number_loop(b, old(sr).pos(), st0, 0),
                number_loop(b, sr.pos(), this, index as int) == target,
                index as int + old(sr).pos() == sr.pos(),
            decreases b.len() - sr.pos(),
        {
            let c = match sr.next() {
                Some(c) => c,
                None => {
                    return Some(JsonValue::IncNumber(this));
                },
            };
            let ch = c.char;
            if !is_number_byte_exec(ch) {
                if ch == 125 || ch == 93 || ch == 44 {
                    sr.curr_index = sr.curr_index - 1;
                    return Some(this.finish());
                }
                return this.invalid(sr);
            }
            if ch == 45 {
                return this.invalid(sr);
            }
            if ch == 46 {
                if this.dot_index.is_some() {
                    return this.invalid(sr);
                }
                this.dot_index = Some(#[verifier::truncate] (index as i32));
                index = index + 1;
                continue;
            }
            let digit_val = (ch - 48) as u64;
            if this.dot_index.is_some() {
                let value = match this.decimal_part.value.checked_mul(10) {
                    Some(v) => match v.checked_add(digit_val) {
                        Some(v) => v,
                        None => {
                            return None;
                        },
                    },
                    None => {
                        return None;
                    },
                };
                let digit_count = match this.decimal_part.digit_count.checked_add(1) {
                    Some(n) => n,
                    None => {
                        return None;
                    },
                };
                this.decimal_part.value = value;
                this.decimal_part.digit_count = digit_count;
                index = index + 1;
                continue;
            }
            let value = match this.integer_part.checked_mul(10) {
                Some(v) => match v.checked_add(digit_val) {
                    Some(v) => v,
                    None => {
                        return None;
                    },
                },
                None => {
                    return None;
                },
            };
            this.integer_part = value;
            index = index + 1;
        }
    }

    /// The `Invalid` value of the text from where the number started up to
    /// the reader; `None` where it started past the reader.
    fn invalid(self, sr: &StringReader) -> (r: Option<JsonValue>)
        requires
            sr.wf(),
        ensures
            agrees(number_invalid(sr.bytes@, self, sr.pos()), r, sr.pos()),
    {
        if self.start_str_index > sr.curr_index {
            return None;
        }
        Some(JsonValue::Invalid(sr.text_or_error(self.start_str_index, sr.curr_index)))
    }
}

impl JsonParsable for IncJsonNumber {
    open spec fn parse_spec(&self, b: Seq<u8>, p: int) -> Option<(JsonTree, int)> {
        number_loop(b, p, *self, 0)
    }

    open spec fn finish_spec(&self) -> JsonTree {
        JsonTree::Number(number_value(*self))
    }

    open spec fn finish_requires(&self) -> bool {
        true
    }

    fn parse(self, sr: &mut StringReader) -> (r: JsonValue) {
        self.try_resume(sr).unwrap()
    }

    fn finish(self) -> (r: JsonValue) {
        JsonValue::Number(JsonNumber {
            integer_part: self.integer_part,
            decimal_part: self.decimal_part,
            is_negative: self.is_negative,
        })
    }
}

impl From<JsonNumber> for JsonValue {
    fn from(value: JsonNumber) -> (r: JsonValue) {
        JsonValue::Number(value)
    }
}

impl vstd::std_specs::convert::FromSpecImpl<JsonNumber> for JsonValue {
    open spec fn obeys_from_spec() -> bool {
        true
    }

    open spec fn from_spec(value: JsonNumber) -> JsonValue {
        JsonValue::Number(value)
    }
}

impl From<IncJsonNumber> for JsonValue {
    fn from(value: IncJsonNumber) -> (r: JsonValue) {
        JsonValue::IncNumber(value)
    }
}

impl vstd::std_specs::convert::FromSpecImpl<IncJsonNumber> for JsonValue {
    open spec fn obeys_from_spec() -> bool {
        true
    }

    open spec fn from_spec(value: IncJsonNumber) -> JsonValue {
        JsonValue::IncNumber(value)
    }
}

} // verus!
