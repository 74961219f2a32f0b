//! A cursor over the bytes of one chunk of input.
use std::ops::Range;
use vstd::prelude::*;
use vstd::utf8::*;

use crate::model::{
    end_from, find_byte_from, is_whitespace_byte, lemma_find_byte_bounds, lemma_skip_whitespace_bounds,
    skip_whitespace_from, slice_text_or_error, utf8_error_text,
};

verus! {

/// A byte of the input and the position it stands at.
#[derive(Debug, Clone, Copy, PartialEq, Eq)]
pub struct CharWithIndex {
    pub index: usize,
    pub char: u8,
}

/// The bytes of a chunk and the position of the next byte to read.
#[derive(Debug)]
pub struct StringReader<'a> {
    pub bytes: &'a [u8],
    pub curr_index: usize,
}

/// The answer of [`StringReader::str_compare`]: how many bytes matched, or that one did not.
#[derive(Debug, Clone, Copy, PartialEq, Eq)]
pub enum StrCompareIsMatch {
    True(usize),
    False,
}

/// Whether `(c as char).is_whitespace()`; for a `char` below 256 that is the
/// White_Space property of Unicode, held by exactly the bytes of
/// [`is_whitespace_byte`].
#[verifier::external_body]
fn byte_is_whitespace(c: u8) -> (r: bool)
    ensures
        r == is_whitespace_byte(c),
{
    (c as char).is_whitespace()
}

/// `std::str::from_utf8` on `b`: `Ok` with the decoded text where `b` is
/// UTF-8, else `Err` with the `Display` text of the error that it returns,
/// a text that depends on the bytes alone and is named by [`utf8_error_text`].
#[verifier::external_body]
pub(crate) fn str_from_utf8(b: &[u8]) -> (r: Result<&str, String>)
    ensures
        r is Ok <==> valid_utf8(b@),
        r matches Ok(s) ==> s@ == decode_utf8(b@),
        r matches Err(t) ==> t@ == utf8_error_text(b@),
{
    match std::str::from_utf8(b) {
        Ok(s) => Ok(s),
        Err(e) => Err(e.to_string()),
    }
}

impl<'a> StringReader<'a> {
    /// The reader points into its bytes or just past them.
    pub open spec fn wf(&self) -> bool {
        &&& self.curr_index <= self.bytes@.len()
        &&& self.bytes@.len() <= usize::MAX
    }

    pub open spec fn pos(&self) -> int {
        self.curr_index as int
    }

    pub fn new(str: &'a str) -> (r: Self)
        ensures
            r.bytes@ == encode_utf8(str@),
            r.curr_index == 0,
            r.wf(),
    {
        let bytes = str.as_bytes();
        let _ = bytes.len();
        StringReader { bytes, curr_index: 0 }
    }

    /// Reads the next byte.
    pub fn next(&mut self) -> (r: Option<CharWithIndex>)
        ensures
            final(self).bytes@ == old(self).bytes@,
            old(self).curr_index < old(self).bytes@.len() ==> {
                &&& r == Some(CharWithIndex { index: old(self).curr_index, char: old(self).bytes@[old(self).curr_index as int] })
                &&& final(self).curr_index == old(self).curr_index + 1
            },
            old(self).curr_index >= old(self).bytes@.len() ==> r is None && final(self).curr_index == old(self).curr_index,
    {
        let length = self.bytes.len();
        let curr_index = self.curr_index;
        if curr_index >= length {
            return None;
        }
        self.curr_index = curr_index + 1;
        Some(CharWithIndex { index: curr_index, char: self.bytes[curr_index] })
    }

    /// The next byte, without reading it.
    pub fn peek(&self) -> (r: Option<CharWithIndex>)
        ensures
            self.curr_index < self.bytes@.len() ==> r == Some(CharWithIndex { index: self.curr_index, char: self.bytes@[self.curr_index as int] }),
            self.curr_index >= self.bytes@.len() ==> r is None,
    {
        let length = self.bytes.len();
        let curr_index = self.curr_index;
        if curr_index >= length {
            return None;
        }
        Some(CharWithIndex { index: curr_index, char: self.bytes[curr_index] })
    }

    /// The byte before the one read last.
    pub fn previous(&self) -> (r: Option<CharWithIndex>)
        ensures
            (self.curr_index < 2 || self.curr_index - 2 >= self.bytes@.len()) ==> r is None,
            !(self.curr_index < 2 || self.curr_index - 2 >= self.bytes@.len()) ==> r == Some(CharWithIndex {
                index: (self.curr_index - 2) as usize,
                char: self.bytes@[self.curr_index - 2],
            }),
    {
        if self.curr_index < 2 || self.curr_index - 2 >= self.bytes.len() {
            return None;
        }
        Some(CharWithIndex { index: self.curr_index - 2, char: self.bytes[self.curr_index - 2] })
    }

    /// Compares the bytes from the reader's position on with `lit[from..]`,
    /// as far as both go.
    pub(crate) fn compare_bytes(&self, lit: &[u8], from: usize) -> (r: StrCompareIsMatch)
        requires
            self.wf(),
            from <= lit@.len(),
        ensures
            ({
                let rest = lit@.subrange(from as int, lit@.len() as int);
                let n = if rest.len() <= self.bytes@.len() - self.curr_index { rest.len() as int } else { self.bytes@.len() - self.curr_index };
                if self.bytes@.subrange(self.pos(), self.pos() + n) == rest.subrange(0, n) {
                    r == StrCompareIsMatch::True(n as usize)
                } else {
                    r == StrCompareIsMatch::False
                }
            }),
            r matches StrCompareIsMatch::True(n) ==> self.curr_index + n <= self.bytes@.len(),
    {
        let bytes_len = self.bytes.len();
        let lit_len = lit.len();
        let rest_len = lit_len - from;
        let avail = bytes_len - self.curr_index;
        let str_len = if rest_len <= avail { rest_len } else { avail };
        let ghost rest = lit@.subrange(from as int, lit@.len() as int);
        let mut i: usize = 0;
        while i < str_len
            invariant
                self.wf(),
                from <= lit@.len(),
                rest == lit@.subrange(from as int, lit@.len() as int),
                str_len <= rest.len(),
                str_len <= self.bytes@.len() - self.curr_index,
                str_len == (if rest.len() <= self.bytes@.len() - self.curr_index { rest.len() as int } else { self.bytes@.len() - self.curr_index }),
                0 <= i <= str_len,
                self.curr_index + str_len <= bytes_len,
                from + str_len <= lit_len,
                lit_len == lit@.len(),
                bytes_len == self.bytes@.len(),
                self.bytes@.subrange(self.pos(), self.pos() + i) == rest.subrange(0, i as int),
            decreases str_len - i,
        {
            if self.bytes[self.curr_index + i] != lit[from + i] {
                assert(self.bytes@.subrange(self.pos(), self.pos() + str_len)[i as int] != rest.subrange(0, str_len as int)[i as int]);
                return StrCompareIsMatch::False;
            }
            assert(self.bytes@.subrange(self.pos(), self.pos() + i + 1) =~= self.bytes@.subrange(self.pos(), self.pos() + i).push(self.bytes@[self.pos() + i]));
            assert(rest.subrange(0, i + 1) =~= rest.subrange(0, i as int).push(rest[i as int]));
            i = i + 1;
        }
        StrCompareIsMatch::True(str_len)
    }

    /// Compares the bytes from the reader's position on with `str`, as far as both go.
    pub fn str_compare(&self, str: &str) -> (r: StrCompareIsMatch)
        requires
            self.wf(),
        ensures
            ({
                let s = encode_utf8(str@);
                let n = if s.len() <= self.bytes@.len() - self.curr_index { s.len() as int } else { self.bytes@.len() - self.curr_index };
                if self.bytes@.subrange(self.pos(), self.pos() + n) == s.subrange(0, n) {
                    r == StrCompareIsMatch::True(n as usize)
                } else {
                    r == StrCompareIsMatch::False
                }
            }),
    {
        let s = str.as_bytes();
        assert(s@.subrange(0, s@.len() as int) =~= s@);
        self.compare_bytes(s, 0)
    }

    /// Moves past whitespace.
    pub fn skip_whitespace(&mut self)
        ensures
            final(self).bytes@ == old(self).bytes@,
            final(self).pos() == skip_whitespace_from(old(self).bytes@, old(self).pos()),
            old(self).wf() ==> final(self).wf(),
    {
        let ghost start = self.pos();
        proof {
            lemma_skip_whitespace_bounds(self.bytes@, start);
        }
        let _ = self.bytes.len();
        while self.curr_index < self.bytes.len() && byte_is_whitespace(self.bytes[self.curr_index])
            invariant
                self.bytes@.len() <= usize::MAX,
                self.bytes@ == old(self).bytes@,
                start == old(self).pos(),
                skip_whitespace_from(self.bytes@, self.pos()) == skip_whitespace_from(self.bytes@, start),
            decreases self.bytes@.len() - self.curr_index,
        {
            self.curr_index = self.curr_index + 1;
        }
    }

    /// Moves past the next byte `char as u8`, or to the end where there is none.
    pub fn goto_after(&mut self, char: char)
        ensures
            final(self).bytes@ == old(self).bytes@,
            old(self).wf() ==> final(self).wf(),
            final(self).pos() == match find_byte_from(old(self).bytes@, old(self).pos(), ((char as u32) % 256) as u8) {
                Some(j) => j + 1,
                None => end_from(old(self).bytes@, old(self).pos()),
            },
    {
        let target = char_low_byte(char);
        let _ = self.find_byte(target);
    }

    /// Reads up to and including the next byte equal to `x`; `None` where
    /// there is none, with the reader at the end.
    pub fn find_byte(&mut self, x: u8) -> (r: Option<CharWithIndex>)
        ensures
            final(self).bytes@ == old(self).bytes@,
            old(self).wf() ==> final(self).wf(),
            match find_byte_from(old(self).bytes@, old(self).pos(), x) {
                Some(j) => r == Some(CharWithIndex { index: j as usize, char: x }) && final(self).pos() == j + 1,
                None => r is None && final(self).pos() == end_from(old(self).bytes@, old(self).pos()),
            },
    {
        let ghost start = self.pos();
        proof {
            lemma_find_byte_bounds(self.bytes@, start, x);
        }
        let _ = self.bytes.len();
        while self.curr_index < self.bytes.len()
            invariant
                self.bytes@.len() <= usize::MAX,
                self.pos() == start || start <= self.pos() <= self.bytes@.len(),
                self.bytes@ == old(self).bytes@,
                start == old(self).pos(),
                find_byte_from(self.bytes@, self.pos(), x) == find_byte_from(self.bytes@, start, x),
            decreases self.bytes@.len() - self.curr_index,
        {
            let at = self.curr_index;
            let c = self.bytes[at];
            assert(find_byte_from(self.bytes@, at as int, x) == if c == x {
                Some(at as int)
            } else {
                find_byte_from(self.bytes@, at + 1, x)
            });
            self.curr_index = at + 1;
            if c == x {
                return Some(CharWithIndex { index: at, char: c });
            }
        }
        None
    }

    /// The text of the bytes in `range`, where they are UTF-8; else the text
    /// of the UTF-8 error.
    pub fn get_str(&self, range: Range<usize>) -> (r: Result<&'a str, String>)
        requires
            range.start <= range.end <= self.bytes@.len(),
        ensures
            r is Ok <==> valid_utf8(self.bytes@.subrange(range.start as int, range.end as int)),
            r matches Ok(s) ==> s@ == decode_utf8(self.bytes@.subrange(range.start as int, range.end as int)),
            r matches Err(t) ==> t@ == utf8_error_text(self.bytes@.subrange(range.start as int, range.end as int)),
    {
        str_from_utf8(vstd::slice::slice_subrange(self.bytes, range.start, range.end))
    }

    /// [`StringReader::get_str`], as an owned `String`.
    pub fn get_string(&self, range: Range<usize>) -> (r: Result<String, String>)
        requires
            range.start <= range.end <= self.bytes@.len(),
        ensures
            r is Ok <==> valid_utf8(self.bytes@.subrange(range.start as int, range.end as int)),
            r matches Ok(s) ==> s@ == decode_utf8(self.bytes@.subrange(range.start as int, range.end as int)),
            r matches Err(t) ==> t@ == utf8_error_text(self.bytes@.subrange(range.start as int, range.end as int)),
    {
        match self.get_str(range) {
            Ok(s) => Ok(s.to_string()),
            Err(e) => Err(e),
        }
    }

    /// The text of `bytes[start..end]`, or the text of its UTF-8 error.
    pub(crate) fn text_or_error(&self, start: usize, end: usize) -> (r: String)
        requires
            start <= end <= self.bytes@.len(),
        ensures
            r@ == slice_text_or_error(self.bytes@, start as int, end as int),
    {
        match self.get_string(start..end) {
            Ok(s) => s,
            Err(e) => e,
        }
    }
}

/// `char as u8`: the low byte of the code point.
fn char_low_byte(c: char) -> (r: u8)
    ensures
        r == ((c as u32) % 256) as u8,
{
    let u = c as u32;
    (u % 256) as u8
}

} // verus!
