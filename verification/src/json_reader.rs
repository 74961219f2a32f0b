//! The reading operations that the value parsers share.
use vstd::prelude::*;

use crate::model::{
    end_from, find_quote_from, lemma_find_byte_bounds, lemma_find_quote_bounds, lemma_skip_whitespace_bounds,
    literal_step, separator_at, skip_whitespace_from, LiteralStep,
};
use crate::string_reader::{CharWithIndex, StrCompareIsMatch, StringReader};

verus! {

/// Where `goto_safe` leaves a reader that stands at `p` after skipping whitespace.
pub open spec fn goto_safe_loop(b: Seq<u8>, p: int) -> int
    decreases b.len() - p,
{
    if p < 0 || p >= b.len() {
        p
    } else if b[p] == 125 || b[p] == 93 {
        p
    } else if b[p] == 44 {
        skip_whitespace_from(b, p + 1)
    } else {
        let q = skip_whitespace_from(b, p + 1);
        proof {
            lemma_skip_whitespace_bounds(b, p + 1);
        }
        goto_safe_loop(b, q)
    }
}

/// Reading operations on the input.
pub trait JsonReader {
    /// Moves to the next `,` (past it and the whitespace after it), or up to the next `}` or `]`.
    fn goto_safe(&mut self);

    /// Whether the next byte is `}`, `]`, `,` or a newline.
    fn next_is_separator(&self) -> bool;

    /// Reads up to and including the next `"` that does not follow a `\`.
    fn find_quote(&mut self) -> Option<CharWithIndex>;
}

impl<'a> JsonReader for StringReader<'a> {
    fn goto_safe(&mut self)
        ensures
            final(self).bytes@ == old(self).bytes@,
            final(self).pos() == goto_safe_loop(old(self).bytes@, skip_whitespace_from(old(self).bytes@, old(self).pos())),
            old(self).wf() ==> final(self).wf(),
    {
        let ghost b = self.bytes@;
        self.skip_whitespace();
        let ghost start = self.pos();
        proof {
            lemma_skip_whitespace_bounds(b, old(self).pos());
        }
        loop
            invariant
                self.bytes@ == b,
                b == old(self).bytes@,
                start == skip_whitespace_from(b, old(self).pos()),
                old(self).wf() ==> self.wf(),
                self.pos() == start || start <= self.pos() <= b.len(),
                goto_safe_loop(b, self.pos()) == goto_safe_loop(b, start),
            decreases b.len() - self.pos(),
        {
            let ghost p = self.pos();
            let c = match self.next() {
                Some(c) => c,
                None => {
                    return;
                },
            };
            let ch = c.char;
            if ch == 125 || ch == 93 {
                self.curr_index = self.curr_index - 1;
                return;
            } else if ch == 44 {
                self.skip_whitespace();
                return;
            } else {
                self.skip_whitespace();
                proof {
                    lemma_skip_whitespace_bounds(b, p + 1);
                }
            }
        }
    }

    fn next_is_separator(&self) -> (r: bool)
        ensures
            r == separator_at(self.bytes@, self.pos()),
    {
        match self.peek() {
            None => false,
            Some(c) => c.char == 125 || c.char == 93 || c.char == 44 || c.char == 10,
        }
    }

    fn find_quote(&mut self) -> (r: Option<CharWithIndex>)
        ensures
            final(self).bytes@ == old(self).bytes@,
            old(self).wf() ==> final(self).wf(),
            match find_quote_from(old(self).bytes@, old(self).pos()) {
                Some(j) => r == Some(CharWithIndex { index: j as usize, char: 34 }) && final(self).pos() == j + 1,
                None => r is None && final(self).pos() == end_from(old(self).bytes@, old(self).pos()),
            },
    {
        let ghost b = self.bytes@;
        let ghost start = self.pos();
        proof {
            lemma_find_quote_bounds(b, start);
        }
        loop
            invariant
                self.bytes@ == b,
                b == old(self).bytes@,
                start == old(self).pos(),
                old(self).wf() ==> self.wf(),
                self.pos() == start || start <= self.pos() <= b.len(),
                find_quote_from(b, self.pos()) == find_quote_from(b, start),
            decreases b.len() - self.pos(),
        {
            let ghost p = self.pos();
            proof {
                lemma_find_quote_via_find_byte(b, p);
                lemma_find_byte_bounds(b, p, 34);
            }
            let c = match self.find_byte(34) {
                Some(c) => c,
                None => {
                    return None;
                },
            };
            if let Some(prev_c) = self.previous() {
                if prev_c.char == 92 {
                    continue;
                }
            }
            return Some(c);
        }
    }
}

/// Searching for an unescaped quote goes from one quote to the next.
pub proof fn lemma_find_quote_via_find_byte(b: Seq<u8>, p: int)
    requires
        0 <= p,
    ensures
        find_quote_from(b, p) == match crate::model::find_byte_from(b, p, 34) {
            None => None,
            Some(j) => find_quote_from(b, j),
        },
    decreases b.len() - p,
{
    if 0 <= p < b.len() && b[p] != 34 {
        lemma_find_quote_via_find_byte(b, p + 1);
    }
}

/// What reading the rest of a literal gives.
pub enum LiteralResult {
    Finished,
    Partial(usize),
    Invalid(String),
}

impl LiteralResult {
    pub open spec fn step(&self) -> LiteralStep {
        match self {
            LiteralResult::Finished => LiteralStep::Finished,
            LiteralResult::Partial(n) => LiteralStep::Partial(*n as int),
            LiteralResult::Invalid(s) => LiteralStep::Invalid(s@),
        }
    }
}

/// Reads the rest of the literal `lit`, of which `count` bytes were read
/// before. `None` where more than the whole literal was read and no separator
/// follows.
pub fn read_literal(sr: &mut StringReader, count: usize, lit: &[u8]) -> (r: Option<LiteralResult>)
    requires
        old(sr).wf(),
    ensures
        final(sr).wf(),
        final(sr).bytes@ == old(sr).bytes@,
        match r {
            None => literal_step(old(sr).bytes@, old(sr).pos(), count as int, lit@) is None,
            Some(x) => literal_step(old(sr).bytes@, old(sr).pos(), count as int, lit@) == Some((x.step(), final(sr).pos())),
        },
{
    if count >= lit.len() && sr.next_is_separator() {
        return Some(LiteralResult::Finished);
    }
    if count > lit.len() {
        return None;
    }
    let len = sr.bytes.len();
    match sr.compare_bytes(lit, count) {
        StrCompareIsMatch::True(n) => {
            sr.curr_index = sr.curr_index + n;
            let total = count + n;
            if total >= lit.len() && sr.next_is_separator() {
                return Some(LiteralResult::Finished);
            }
            Some(LiteralResult::Partial(total))
        },
        StrCompareIsMatch::False => {
            Some(LiteralResult::Invalid(sr.text_or_error(sr.curr_index, len)))
        },
    }
}

} // verus!
