//! Properties of the parser as a whole.
use vstd::prelude::*;

use crate::model::{
    array_loop, children_size, continue_step, false_bytes, find_quote_from, is_number_byte,
    is_whitespace_byte, key_step, literal_step, new_property_step, null_bytes, number_loop,
    number_start, number_value, object_loop, parse_chunk, property_size, property_step,
    property_value_step, resumed_property_step, separator_at, skip_whitespace_from, state_size,
    string_step, tree_size, true_bytes, bad_key, find_byte_from, insert_entry, key_index,
    lemma_find_byte_bounds, lemma_find_quote_bounds, lemma_key_step_bounds,
    lemma_skip_whitespace_bounds, value_step, JsonTree, KeyTree, PropertyStep, PropertyTree,
};
use crate::parsers::bool::IncJsonBool;
use crate::parsers::number::{DecimalPart, IncJsonNumber, JsonNumber};
use vstd::utf8::{decode_first_scalar, decode_utf8, pop_first_scalar, valid_utf8, valid_utf8_concat};

verus! {

/// A value that is complete stays as it is, whatever the next chunk holds.
pub proof fn law_complete_value_is_kept(b: Seq<u8>, v: JsonTree)
    requires
        !v.is_incomplete(),
    ensures
        parse_chunk(b, Some(v)) == Some(Some(v)),
{
}

/// The states from which an empty chunk changes nothing: no state, or a
/// value that the parser itself can leave behind.
pub open spec fn resumable(state: Option<JsonTree>) -> bool {
    match state {
        None => true,
        Some(JsonTree::IncString(acc)) => acc is Some,
        Some(JsonTree::IncBool(IncJsonBool::True(c))) => c <= 4,
        Some(JsonTree::IncBool(IncJsonBool::False(c))) => c <= 5,
        Some(JsonTree::IncNull(n)) => n.0 <= 4,
        Some(_) => true,
    }
}

/// An empty chunk leaves the state as it is.
pub proof fn law_empty_chunk_changes_nothing(state: Option<JsonTree>)
    requires
        resumable(state),
    ensures
        parse_chunk(Seq::empty(), state) == Some(state),
{
    let b = Seq::<u8>::empty();
    match state {
        Some(JsonTree::IncString(acc)) => {
            let s = acc.unwrap();
            assert(b.subrange(0, 0) =~= b);
            assert(valid_utf8(b));
            assert(decode_utf8(b) =~= Seq::<char>::empty());
            assert(s + decode_utf8(b) =~= s);
            assert(string_step(b, 0, acc) == Some((JsonTree::IncString(acc), 0int)));
            assert(continue_step(b, 0, JsonTree::IncString(acc)) == Some((JsonTree::IncString(acc), 0int)));
        },
        Some(JsonTree::IncBool(st)) => {
            let (count, lit) = match st {
                IncJsonBool::True(c) => (c, true_bytes()),
                IncJsonBool::False(c) => (c, false_bytes()),
            };
            let rest = lit.subrange(count as int, lit.len() as int);
            assert(b.subrange(0, 0) =~= rest.subrange(0, 0));
            assert(parse_chunk(b, state) == Some(state));
        },
        Some(JsonTree::IncNull(n)) => {
            let rest = null_bytes().subrange(n.0 as int, 4);
            assert(b.subrange(0, 0) =~= rest.subrange(0, 0));
            assert(parse_chunk(b, state) == Some(state));
        },
        Some(v) => {
            assert(continue_step(b, 0, v) == Some((v, 0int)));
            assert(value_step(b, 0, state) == Some((state, 0int)));
        },
        None => {
            assert(value_step(b, 0, state) == Some((state, 0int)));
        },
    }
}

proof fn lemma_skip_all_whitespace(b: Seq<u8>, p: int)
    requires
        0 <= p <= b.len(),
        forall|i: int| 0 <= i < b.len() ==> is_whitespace_byte(#[trigger] b[i]),
    ensures
        skip_whitespace_from(b, p) == b.len(),
    decreases b.len() - p,
{
    if p < b.len() {
        lemma_skip_all_whitespace(b, p + 1);
    }
}

/// Input of whitespace alone holds no value.
pub proof fn law_whitespace_holds_no_value(b: Seq<u8>)
    requires
        forall|i: int| 0 <= i < b.len() ==> is_whitespace_byte(#[trigger] b[i]),
    ensures
        parse_chunk(b, None) == Some(None::<JsonTree>),
{
    lemma_skip_all_whitespace(b, 0);
}

/// The literals `true`, `false` and `null`.
pub enum Literal {
    True,
    False,
    Null,
}

pub open spec fn literal_bytes(l: Literal) -> Seq<u8> {
    match l {
        Literal::True => true_bytes(),
        Literal::False => false_bytes(),
        Literal::Null => null_bytes(),
    }
}

pub open spec fn literal_value(l: Literal) -> JsonTree {
    match l {
        Literal::True => JsonTree::Bool(true),
        Literal::False => JsonTree::Bool(false),
        Literal::Null => JsonTree::Null,
    }
}

/// A literal followed by a separator gives the same value whether it comes
/// in one chunk or is cut in two after its first `k` bytes.
#[verifier::spinoff_prover]
#[verifier::rlimit(40)]
pub proof fn law_literal_split(l: Literal, k: int, rest: Seq<u8>)
    requires
        1 <= k <= literal_bytes(l).len(),
        separator_at(rest, 0),
    ensures
        ({
            let lit = literal_bytes(l);
            &&& parse_chunk(lit + rest, None) == Some(Some(literal_value(l)))
            &&& parse_chunk(lit.subrange(0, k), None) matches Some(Some(state))
            &&& parse_chunk(lit.subrange(k, lit.len() as int) + rest, Some(state)) == Some(Some(literal_value(l)))
        }),
{
    let lit = literal_bytes(l);
    let whole = lit + rest;
    let first = lit.subrange(0, k);
    let second = lit.subrange(k, lit.len() as int) + rest;
    assert(whole[0] == lit[0]);
    assert(first[0] == lit[0]);
    assert(whole.subrange(1, lit.len() as int) =~= lit.subrange(1, lit.len() as int).subrange(0, lit.len() - 1));
    assert(first.subrange(1, k) =~= lit.subrange(1, lit.len() as int).subrange(0, k - 1));
    assert(second.subrange(0, lit.len() - k) =~= lit.subrange(k, lit.len() as int).subrange(0, lit.len() - k));
    assert(whole[lit.len() as int] == rest[0]);
    assert(second[lit.len() - k] == rest[0]);
    assert(skip_whitespace_from(whole, 0) == 0);
    assert(skip_whitespace_from(first, 0) == 0);
    match l {
        Literal::True => {
            assert(lit =~= seq![116u8, 114, 117, 101]);
        },
        Literal::False => {
            assert(lit =~= seq![102u8, 97, 108, 115, 101]);
        },
        Literal::Null => {
            assert(lit =~= seq![110u8, 117, 108, 108]);
        },
    }
}

proof fn lemma_find_quote_at(b: Seq<u8>, p: int, j: int)
    requires
        0 <= p <= j < b.len(),
        forall|i: int| p <= i < j ==> #[trigger] b[i] != 34,
        b[j] == 34,
        !(j >= 1 && b[j - 1] == 92),
    ensures
        find_quote_from(b, p) == Some(j),
    decreases j - p,
{
    if p < j {
        lemma_find_quote_at(b, p + 1, j);
    }
}

proof fn lemma_find_quote_none(b: Seq<u8>, p: int)
    requires
        0 <= p <= b.len(),
        forall|i: int| p <= i < b.len() ==> #[trigger] b[i] != 34,
    ensures
        find_quote_from(b, p) is None,
    decreases b.len() - p,
{
    if p < b.len() {
        lemma_find_quote_none(b, p + 1);
    }
}

/// Decoding two pieces of UTF-8 one after the other decodes their concatenation.
pub proof fn lemma_decode_concat(b1: Seq<u8>, b2: Seq<u8>)
    requires
        valid_utf8(b1),
        valid_utf8(b2),
    ensures
        valid_utf8(b1 + b2),
        decode_utf8(b1 + b2) == decode_utf8(b1) + decode_utf8(b2),
    decreases b1.len(),
{
    valid_utf8_concat(b1, b2);
    if b1.len() == 0 {
        assert(b1 + b2 =~= b2);
        assert(decode_utf8(b1) + decode_utf8(b2) =~= decode_utf8(b2));
    } else {
        let rest = pop_first_scalar(b1);
        assert(rest.len() < b1.len());
        lemma_decode_concat(rest, b2);
        assert(pop_first_scalar(b1 + b2) =~= rest + b2);
        assert(decode_first_scalar(b1 + b2) == decode_first_scalar(b1));
        assert(decode_utf8(b1 + b2) =~= decode_utf8(b1) + decode_utf8(b2));
    }
}

/// A string cut in two, its text `x` in one chunk and the rest `y` with the
/// closing quote in the next, gives the same text as the whole input in one
/// chunk: the text of `x` followed by that of `y`. (A cut right after a `\`
/// is left out: there the quote after the cut counts as escaped in one chunk
/// and not in two.)
pub proof fn law_string_split(x: Seq<u8>, y: Seq<u8>, rest: Seq<u8>)
    requires
        valid_utf8(x),
        valid_utf8(y),
        forall|i: int| 0 <= i < x.len() ==> #[trigger] x[i] != 34,
        forall|i: int| 0 <= i < y.len() ==> #[trigger] y[i] != 34,
        (x + y).len() > 0 ==> (x + y).last() != 92,
    ensures
        ({
            let q = seq![34u8];
            let text = JsonTree::String(decode_utf8(x) + decode_utf8(y));
            &&& decode_utf8(x) + decode_utf8(y) == decode_utf8(x + y)
            &&& parse_chunk(q + x + y + q + rest, None) == Some(Some(text))
            &&& parse_chunk(q + x, None) matches Some(Some(state))
            &&& parse_chunk(y + q + rest, Some(state)) == Some(Some(text))
        }),
{
    let q = seq![34u8];
    let dx = decode_utf8(x);
    let dy = decode_utf8(y);
    lemma_decode_concat(x, y);
    let n: int = (x.len() + y.len()) as int;
    // One chunk.
    let whole = q + x + y + q + rest;
    assert(whole[0] == 34);
    assert(skip_whitespace_from(whole, 0) == 0);
    assert forall|i: int| 1 <= i < 1 + n implies #[trigger] whole[i] != 34 by {
        if i < 1 + x.len() {
            assert(whole[i] == x[i - 1]);
        } else {
            assert(whole[i] == y[i - 1 - x.len()]);
        }
    }
    assert(whole[1 + n] == 34);
    if n > 0 {
        assert(whole[n] == (x + y).last());
    }
    lemma_find_quote_at(whole, 1, 1 + n);
    assert(whole.subrange(1, 1 + n) =~= x + y);
    assert(string_step(whole, 1, None) == Some((JsonTree::String(dx + dy), 2 + n)));
    // The first chunk.
    let first = q + x;
    assert(first[0] == 34);
    assert(skip_whitespace_from(first, 0) == 0);
    assert forall|i: int| 1 <= i < first.len() implies #[trigger] first[i] != 34 by {
        assert(first[i] == x[i - 1]);
    }
    lemma_find_quote_none(first, 1);
    assert(first.subrange(1, first.len() as int) =~= x);
    assert(string_step(first, 1, None) == Some((JsonTree::IncString(Some(dx)), first.len() as int)));
    // The second chunk.
    let second = y + q + rest;
    assert forall|i: int| 0 <= i < y.len() implies #[trigger] second[i] != 34 by {
        assert(second[i] == y[i]);
    }
    assert(second[y.len() as int] == 34);
    if y.len() > 0 {
        assert((x + y).last() == y.last());
        assert(second[y.len() - 1] == y.last());
    }
    lemma_find_quote_at(second, 0, y.len() as int);
    assert(second.subrange(0, y.len() as int) =~= y);
    assert(string_step(second, 0, Some(dx)) == Some((JsonTree::String(dx + dy), (y.len() + 1) as int)));
    assert(continue_step(second, 0, JsonTree::IncString(Some(dx))) == Some((JsonTree::String(dx + dy), (y.len() + 1) as int)));
}

/// The number state after reading `body`, digits and at most one dot, from
/// `st` on, where `idx` counts the bytes read before; `None` where `body` holds
/// another byte, a second dot, or a part would pass `u64::MAX`.
pub open spec fn digits_after(st: IncJsonNumber, body: Seq<u8>, idx: int) -> Option<IncJsonNumber>
    decreases body.len(),
{
    if body.len() == 0 {
        Some(st)
    } else {
        let c = body[0];
        if c == 46 {
            if st.dot_index is Some {
                None
            } else {
                digits_after(IncJsonNumber { dot_index: Some(idx as i32), ..st }, body.skip(1), idx + 1)
            }
        } else if 48 <= c <= 57 {
            let d = c - 48;
            if st.dot_index is Some {
                let v = st.decimal_part.value * 10 + d;
                let n = st.decimal_part.digit_count + 1;
                if v > u64::MAX || n > u64::MAX {
                    None
                } else {
                    digits_after(
                        IncJsonNumber { decimal_part: DecimalPart { value: v as u64, digit_count: n as u64 }, ..st },
                        body.skip(1),
                        idx + 1,
                    )
                }
            } else {
                let v = st.integer_part * 10 + d;
                if v > u64::MAX {
                    None
                } else {
                    digits_after(IncJsonNumber { integer_part: v as u64, ..st }, body.skip(1), idx + 1)
                }
            }
        } else {
            None
        }
    }
}

/// Two number states that give the same number and read on alike.
pub open spec fn same_number(a: IncJsonNumber, b: IncJsonNumber) -> bool {
    &&& a.integer_part == b.integer_part
    &&& a.decimal_part == b.decimal_part
    &&& a.is_negative == b.is_negative
    &&& (a.dot_index is Some) == (b.dot_index is Some)
}

pub(crate) proof fn lemma_digits_after_alike(a: IncJsonNumber, b: IncJsonNumber, body: Seq<u8>, i: int, j: int)
    requires
        same_number(a, b),
    ensures
        (digits_after(a, body, i) is Some) == (digits_after(b, body, j) is Some),
        digits_after(a, body, i) is Some ==> same_number(
            digits_after(a, body, i).unwrap(),
            digits_after(b, body, j).unwrap(),
        ),
    decreases body.len(),
{
    if body.len() > 0 {
        let c = body[0];
        if c == 46 {
            if a.dot_index is None {
                lemma_digits_after_alike(
                    IncJsonNumber { dot_index: Some(i as i32), ..a },
                    IncJsonNumber { dot_index: Some(j as i32), ..b },
                    body.skip(1),
                    i + 1,
                    j + 1,
                );
            }
        } else if 48 <= c <= 57 {
            let d = c - 48;
            if a.dot_index is Some {
                let v = a.decimal_part.value * 10 + d;
                let n = a.decimal_part.digit_count + 1;
                if !(v > u64::MAX || n > u64::MAX) {
                    let dp = DecimalPart { value: v as u64, digit_count: n as u64 };
                    lemma_digits_after_alike(
                        IncJsonNumber { decimal_part: dp, ..a },
                        IncJsonNumber { decimal_part: dp, ..b },
                        body.skip(1),
                        i + 1,
                        j + 1,
                    );
                }
            } else {
                let v = a.integer_part * 10 + d;
                if !(v > u64::MAX) {
                    lemma_digits_after_alike(
                        IncJsonNumber { integer_part: v as u64, ..a },
                        IncJsonNumber { integer_part: v as u64, ..b },
                        body.skip(1),
                        i + 1,
                        j + 1,
                    );
                }
            }
        }
    }
}

pub(crate) proof fn lemma_digits_after_concat(st: IncJsonNumber, x: Seq<u8>, y: Seq<u8>, i: int)
    ensures
        digits_after(st, x + y, i) == match digits_after(st, x, i) {
            None => None,
            Some(s) => digits_after(s, y, i + x.len()),
        },
    decreases x.len(),
{
    if x.len() == 0 {
        assert(x + y =~= y);
    } else {
        assert((x + y)[0] == x[0]);
        assert((x + y).skip(1) =~= x.skip(1) + y);
        let c = x[0];
        if c == 46 {
            if st.dot_index is None {
                lemma_digits_after_concat(IncJsonNumber { dot_index: Some(i as i32), ..st }, x.skip(1), y, i + 1);
            }
        } else if 48 <= c <= 57 {
            let d = c - 48;
            if st.dot_index is Some {
                let v = st.decimal_part.value * 10 + d;
                let n = st.decimal_part.digit_count + 1;
                if !(v > u64::MAX || n > u64::MAX) {
                    lemma_digits_after_concat(
                        IncJsonNumber { decimal_part: DecimalPart { value: v as u64, digit_count: n as u64 }, ..st },
                        x.skip(1),
                        y,
                        i + 1,
                    );
                }
            } else {
                let v = st.integer_part * 10 + d;
                if !(v > u64::MAX) {
                    lemma_digits_after_concat(IncJsonNumber { integer_part: v as u64, ..st }, x.skip(1), y, i + 1);
                }
            }
        }
    }
}

/// Reading digits up to the end of the chunk leaves the number waiting.
pub(crate) proof fn lemma_number_loop_to_end(b: Seq<u8>, p: int, st: IncJsonNumber, idx: int)
    requires
        0 <= p <= b.len(),
        digits_after(st, b.subrange(p, b.len() as int), idx) is Some,
    ensures
        number_loop(b, p, st, idx) == Some((
            JsonTree::IncNumber(digits_after(st, b.subrange(p, b.len() as int), idx).unwrap()),
            b.len() as int,
        )),
    decreases b.len() - p,
{
    let body = b.subrange(p, b.len() as int);
    if p < b.len() {
        assert(body[0] == b[p]);
        assert(body.skip(1) =~= b.subrange(p + 1, b.len() as int));
        let c = b[p];
        if c == 46 {
            lemma_number_loop_to_end(b, p + 1, IncJsonNumber { dot_index: Some(idx as i32), ..st }, idx + 1);
        } else {
            let d = c - 48;
            if st.dot_index is Some {
                let v = st.decimal_part.value * 10 + d;
                let n = st.decimal_part.digit_count + 1;
                lemma_number_loop_to_end(
                    b,
                    p + 1,
                    IncJsonNumber { decimal_part: DecimalPart { value: v as u64, digit_count: n as u64 }, ..st },
                    idx + 1,
                );
            } else {
                let v = st.integer_part * 10 + d;
                lemma_number_loop_to_end(b, p + 1, IncJsonNumber { integer_part: v as u64, ..st }, idx + 1);
            }
        }
    }
}

/// Reading digits up to a `}`, `]` or `,` finishes the number.
pub(crate) proof fn lemma_number_loop_to_separator(b: Seq<u8>, p: int, e: int, st: IncJsonNumber, idx: int)
    requires
        0 <= p <= e < b.len(),
        b[e] == 125 || b[e] == 93 || b[e] == 44,
        digits_after(st, b.subrange(p, e), idx) is Some,
    ensures
        number_loop(b, p, st, idx) == Some((
            JsonTree::Number(number_value(digits_after(st, b.subrange(p, e), idx).unwrap())),
            e,
        )),
    decreases e - p,
{
    let body = b.subrange(p, e);
    if p < e {
        assert(body[0] == b[p]);
        assert(body.skip(1) =~= b.subrange(p + 1, e));
        let c = b[p];
        if c == 46 {
            lemma_number_loop_to_separator(b, p + 1, e, IncJsonNumber { dot_index: Some(idx as i32), ..st }, idx + 1);
        } else {
            let d = c - 48;
            if st.dot_index is Some {
                let v = st.decimal_part.value * 10 + d;
                let n = st.decimal_part.digit_count + 1;
                lemma_number_loop_to_separator(
                    b,
                    p + 1,
                    e,
                    IncJsonNumber { decimal_part: DecimalPart { value: v as u64, digit_count: n as u64 }, ..st },
                    idx + 1,
                );
            } else {
                let v = st.integer_part * 10 + d;
                lemma_number_loop_to_separator(b, p + 1, e, IncJsonNumber { integer_part: v as u64, ..st }, idx + 1);
            }
        }
    }
}

/// The state a number starts in, after its first byte `f`.
pub open spec fn number_start_state(f: u8) -> IncJsonNumber {
    IncJsonNumber {
        integer_part: 0,
        decimal_part: DecimalPart { value: 0, digit_count: 0 },
        is_negative: f == 45,
        dot_index: if f == 46 { Some(-1i32) } else { None },
        start_str_index: 0,
    }
}

/// Where the digits of a number start that begins with the byte `f`.
pub open spec fn number_body_start(f: u8) -> int {
    if f == 45 || f == 46 { 1 } else { 0 }
}

/// The number that a number text `n` (a `-`, a `.` or a digit, then digits
/// and at most one dot) gives.
pub open spec fn number_text_value(n: Seq<u8>) -> Option<JsonNumber> {
    if n.len() == 0 || !is_number_byte(n[0]) {
        None
    } else {
        match digits_after(number_start_state(n[0]), n.subrange(number_body_start(n[0]), n.len() as int), 0) {
            Some(s) => Some(number_value(s)),
            None => None,
        }
    }
}

proof fn lemma_number_chunk_start(c: Seq<u8>)
    requires
        c.len() > 0,
        is_number_byte(c[0]),
    ensures
        skip_whitespace_from(c, 0) == 0,
        value_step(c, 0, None) == match number_start(c, 1, c[0]) {
            Some((r, q)) => Some((Some(r), q)),
            None => None,
        },
        number_start(c, 1, c[0]) == number_loop(c, number_body_start(c[0]), number_start_state(c[0]), 0),
{
}

/// A number text followed by `}`, `]` or `,` gives the same number whether it
/// comes in one chunk or is cut in two after its first `k` bytes.
pub proof fn law_number_split(n: Seq<u8>, k: int, rest: Seq<u8>)
    requires
        number_text_value(n) is Some,
        1 <= k <= n.len(),
        rest.len() > 0,
        rest[0] == 125 || rest[0] == 93 || rest[0] == 44,
    ensures
        ({
            let v = JsonTree::Number(number_text_value(n).unwrap());
            &&& parse_chunk(n + rest, None) == Some(Some(v))
            &&& parse_chunk(n.subrange(0, k), None) matches Some(Some(state))
            &&& parse_chunk(n.subrange(k, n.len() as int) + rest, Some(state)) == Some(Some(v))
        }),
{
    let f = n[0];
    let s0 = number_start_state(f);
    let h = number_body_start(f);
    let body = n.subrange(h, n.len() as int);
    let whole = n + rest;
    let first = n.subrange(0, k);
    let second = n.subrange(k, n.len() as int) + rest;
    let fin = digits_after(s0, body, 0).unwrap();
    // One chunk.
    assert(whole[0] == f);
    lemma_number_chunk_start(whole);
    assert(whole.subrange(h, n.len() as int) =~= body);
    assert(whole[n.len() as int] == rest[0]);
    lemma_number_loop_to_separator(whole, h, n.len() as int, s0, 0);
    // The first chunk.
    assert(first[0] == f);
    lemma_number_chunk_start(first);
    let x = n.subrange(h, k);
    let y = n.subrange(k, n.len() as int);
    assert(body =~= x + y);
    lemma_digits_after_concat(s0, x, y, 0);
    let s1 = digits_after(s0, x, 0).unwrap();
    assert(first.subrange(h, first.len() as int) =~= x);
    lemma_number_loop_to_end(first, h, s0, 0);
    // The second chunk.
    lemma_digits_after_alike(s1, s1, y, x.len() as int, 0);
    assert(second.subrange(0, y.len() as int) =~= y);
    assert(second[y.len() as int] == rest[0]);
    lemma_number_loop_to_separator(second, 0, y.len() as int, s1, 0);
    assert(continue_step(second, 0, JsonTree::IncNumber(s1)) == Some((
        JsonTree::Number(number_value(digits_after(s1, y, 0).unwrap())),
        y.len() as int,
    )));
}

// ---------------------------------------------------------------------------
// The reader only moves forward.
// ---------------------------------------------------------------------------
proof fn lemma_literal_forward(b: Seq<u8>, p: int, count: int, lit: Seq<u8>)
    requires
        0 <= p <= b.len(),
    ensures
        literal_step(b, p, count, lit) matches Some((_, q)) ==> p <= q <= b.len(),
{
}

proof fn lemma_string_forward(b: Seq<u8>, p: int, acc: Option<Seq<char>>)
    requires
        0 <= p <= b.len(),
    ensures
        string_step(b, p, acc) matches Some((_, q)) ==> p <= q <= b.len(),
{
    lemma_find_quote_bounds(b, p);
}

proof fn lemma_number_loop_forward(b: Seq<u8>, p: int, st: IncJsonNumber, idx: int)
    requires
        0 <= p <= b.len(),
    ensures
        number_loop(b, p, st, idx) matches Some((_, q)) ==> p <= q <= b.len(),
    decreases b.len() - p,
{
    if p < b.len() {
        let c = b[p];
        if c == 46 {
            lemma_number_loop_forward(b, p + 1, IncJsonNumber { dot_index: Some(idx as i32), ..st }, idx + 1);
        } else if is_number_byte(c) && c != 45 {
            let d = c - 48;
            if st.dot_index is Some {
                let v = st.decimal_part.value * 10 + d;
                let n = st.decimal_part.digit_count + 1;
                lemma_number_loop_forward(
                    b,
                    p + 1,
                    IncJsonNumber { decimal_part: DecimalPart { value: v as u64, digit_count: n as u64 }, ..st },
                    idx + 1,
                );
            } else {
                let v = st.integer_part * 10 + d;
                lemma_number_loop_forward(b, p + 1, IncJsonNumber { integer_part: v as u64, ..st }, idx + 1);
            }
        }
    }
}

proof fn lemma_number_start_forward(b: Seq<u8>, p: int, f: u8)
    requires
        1 <= p <= b.len(),
        b[p - 1] == f,
        is_number_byte(f),
    ensures
        number_start(b, p, f) matches Some((_, q)) ==> p <= q <= b.len(),
{
    let st = number_start_state(f);
    let st0 = IncJsonNumber { start_str_index: (p - 1) as usize, ..st };
    if f == 45 || f == 46 {
        lemma_number_loop_forward(b, p, st0, 0);
    } else {
        let v = st0.integer_part * 10 + (f - 48);
        lemma_number_loop_forward(b, p, IncJsonNumber { integer_part: v as u64, ..st0 }, 1);
    }
}

proof fn lemma_value_step_forward(b: Seq<u8>, p: int, state: Option<JsonTree>)
    requires
        0 <= p <= b.len(),
    ensures
        value_step(b, p, state) matches Some((r, q)) ==> {
            &&& p <= q <= b.len()
            &&& (state is None && r is Some ==> p < q)
        },
    decreases b.len() - p, state_size(state),
{
    match state {
        Some(v) => {
            lemma_continue_step_forward(b, p, v);
        },
        None => {
            lemma_skip_whitespace_bounds(b, p);
            let p1 = skip_whitespace_from(b, p);
            if p1 < b.len() {
                let f = b[p1];
                let q = p1 + 1;
                if f == 123 {
                    lemma_object_loop_forward(b, q, Seq::empty(), None);
                } else if f == 91 {
                    lemma_array_loop_forward(b, q, Seq::empty());
                } else if f == 34 {
                    lemma_string_forward(b, q, None);
                } else if is_number_byte(f) {
                    lemma_number_start_forward(b, q, f);
                } else if f == 116 || f == 102 {
                    let lit = if f == 116 { true_bytes() } else { false_bytes() };
                    lemma_literal_forward(b, q, 1, lit);
                } else if f == 110 {
                    lemma_literal_forward(b, q, 1, null_bytes());
                }
            }
        },
    }
}

proof fn lemma_continue_step_forward(b: Seq<u8>, p: int, v: JsonTree)
    requires
        0 <= p <= b.len(),
    ensures
        continue_step(b, p, v) matches Some((_, q)) ==> p <= q <= b.len(),
    decreases b.len() - p, tree_size(v),
{
    match v {
        JsonTree::IncObject(entries, newest) => lemma_object_loop_forward(b, p, entries, newest),
        JsonTree::IncArray(children) => lemma_array_loop_forward(b, p, children),
        JsonTree::IncString(acc) => lemma_string_forward(b, p, acc),
        JsonTree::IncNumber(st) => lemma_number_loop_forward(b, p, st, 0),
        JsonTree::IncBool(st) => {
            let (count, lit) = match st {
                IncJsonBool::True(c) => (c, true_bytes()),
                IncJsonBool::False(c) => (c, false_bytes()),
            };
            lemma_literal_forward(b, p, count as int, lit);
        },
        JsonTree::IncNull(st) => lemma_literal_forward(b, p, st.0 as int, null_bytes()),
        _ => {},
    }
}

proof fn lemma_array_loop_forward(b: Seq<u8>, p: int, children: Seq<JsonTree>)
    requires
        0 <= p <= b.len(),
    ensures
        array_loop(b, p, children) matches Some((_, q)) ==> p <= q <= b.len(),
    decreases b.len() - p, children_size(children) + 1,
{
    lemma_skip_whitespace_bounds(b, p);
    let p1 = skip_whitespace_from(b, p);
    if p1 < b.len() {
        if children.len() > 0 {
            assert(tree_size(children.last()) <= children_size(children));
            lemma_continue_step_forward(b, p1, children.last());
        }
        let resumed = if children.len() > 0 {
            match continue_step(b, p1, children.last()) {
                None => None,
                Some((child, q)) => Some((children.drop_last().push(child), q)),
            }
        } else {
            Some((children, p1))
        };
        if let Some((kids, q)) = resumed {
            if p1 <= q {
                lemma_skip_whitespace_bounds(b, q);
                let p2 = skip_whitespace_from(b, q);
                if p2 < b.len() && b[p2] != 93 {
                    if b[p2] == 44 {
                        lemma_array_loop_forward(b, p2 + 1, kids);
                    } else {
                        lemma_value_step_forward(b, p2, None);
                        if let Some((child, q2)) = value_step(b, p2, None) {
                            if p < q2 <= b.len() {
                                let kids2 = match child {
                                    Some(c) => kids.push(c),
                                    None => kids,
                                };
                                lemma_array_loop_forward(b, q2, kids2);
                            }
                        }
                    }
                }
            }
        }
    }
}

proof fn lemma_property_value_step_forward(
    b: Seq<u8>,
    q: int,
    key: KeyTree,
    value: Option<JsonTree>,
    found_colon: bool,
)
    ensures
        property_value_step(b, q, key, value, found_colon) matches Some((_, q2)) ==> q <= q2 <= b.len(),
    decreases b.len() - q, state_size(value) + 1,
{
    if 0 <= q <= b.len() {
        lemma_skip_whitespace_bounds(b, q);
        lemma_value_step_forward(b, skip_whitespace_from(b, q), value);
    }
}

proof fn lemma_new_property_step_forward(b: Seq<u8>, p: int)
    ensures
        new_property_step(b, p) matches Some((_, q)) ==> p <= q <= b.len() && (p < b.len() ==> p < q),
    decreases b.len() - p, 2nat,
{
    if 0 <= p <= b.len() {
        let p0 = if p < b.len() && b[p] == 44 { p + 1 } else { p };
        lemma_skip_whitespace_bounds(b, p0);
        let p1 = skip_whitespace_from(b, p0);
        if p1 < b.len() {
            let quoted = b[p1] == 34;
            let start = if quoted { p1 + 1 } else { p1 };
            lemma_key_step_bounds(b, p1 + 1, start, quoted);
            let (key, q) = key_step(b, p1 + 1, start, quoted);
            if let Some((k, found_colon)) = key {
                lemma_property_value_step_forward(b, q, k, None, found_colon);
            }
        }
    }
}

proof fn lemma_resumed_property_step_forward(b: Seq<u8>, p: int, prop: PropertyTree)
    ensures
        resumed_property_step(b, p, prop) matches Some((_, q)) ==> p <= q <= b.len(),
    decreases b.len() - p, property_size(Some(prop)) + 2,
{
    if 0 <= p <= b.len() {
        match prop.key {
            KeyTree::Incomplete(name, quoted) => {
                lemma_key_step_bounds(b, p, p, quoted);
                let (key, q) = key_step(b, p, p, quoted);
                match key {
                    None => {},
                    Some((KeyTree::Complete(more), found_colon)) => {
                        lemma_property_value_step_forward(b, q, KeyTree::Complete(name + more), *prop.value, found_colon);
                    },
                    Some((KeyTree::Incomplete(more, _), found_colon)) => {
                        lemma_property_value_step_forward(
                            b,
                            q,
                            KeyTree::Incomplete(name + more, quoted),
                            *prop.value,
                            found_colon,
                        );
                    },
                }
            },
            KeyTree::Complete(name) => {
                if !prop.found_colon {
                    lemma_find_byte_bounds(b, p, 58);
                    if let Some(j) = find_byte_from(b, p, 58) {
                        lemma_property_value_step_forward(b, j + 1, KeyTree::Complete(name), *prop.value, true);
                    }
                } else {
                    lemma_property_value_step_forward(b, p, KeyTree::Complete(name), *prop.value, true);
                }
            },
        }
    }
}

proof fn lemma_property_step_forward(b: Seq<u8>, p: int, newest: Option<PropertyTree>)
    ensures
        property_step(b, p, newest) matches Some((_, q)) ==> {
            &&& p <= q <= b.len()
            &&& (newest is None && p < b.len() ==> p < q)
        },
    decreases b.len() - p, property_size(newest) + 3,
{
    match newest {
        None => lemma_new_property_step_forward(b, p),
        Some(prop) => lemma_resumed_property_step_forward(b, p, prop),
    }
}

proof fn lemma_object_loop_forward(
    b: Seq<u8>,
    p: int,
    entries: Seq<(Seq<char>, JsonTree)>,
    newest: Option<PropertyTree>,
)
    requires
        0 <= p <= b.len(),
    ensures
        object_loop(b, p, entries, newest) matches Some((_, q)) ==> p <= q <= b.len(),
    decreases b.len() - p, property_size(newest) + 4,
{
    if p < b.len() && !(newest is None && b[p] == 125) {
        lemma_property_step_forward(b, p, newest);
        if let Some((step, q)) = property_step(b, p, newest) {
            if p <= q <= b.len() {
                match step {
                    None => {
                        if q > p {
                            lemma_object_loop_forward(b, q, entries, None);
                        }
                    },
                    Some(PropertyStep::Complete(key, value)) => {
                        if !bad_key(key) && (q > p || newest is Some) {
                            lemma_skip_whitespace_bounds(b, q);
                            let q1 = skip_whitespace_from(b, q);
                            if 0 <= q1 < b.len() && b[q1] == 44 {
                                lemma_skip_whitespace_bounds(b, q1 + 1);
                            }
                            let q2 = if 0 <= q1 < b.len() && b[q1] == 44 {
                                skip_whitespace_from(b, q1 + 1)
                            } else {
                                q1
                            };
                            lemma_object_loop_forward(b, q2, insert_entry(entries, key, value), None);
                        }
                    },
                    Some(PropertyStep::Incomplete(prop)) => {
                        if !bad_key(prop.key.name()) && q > p {
                            lemma_object_loop_forward(b, q, entries, Some(prop));
                        }
                    },
                }
            }
        }
    }
}

/// A chunk is read forward: the reader never moves back, never past the
/// end, and a value that starts anew takes at least one byte.
pub proof fn law_chunk_is_read_forward(b: Seq<u8>, p: int, state: Option<JsonTree>)
    requires
        0 <= p <= b.len(),
    ensures
        value_step(b, p, state) matches Some((r, q)) ==> {
            &&& p <= q <= b.len()
            &&& (state is None && r is Some ==> p < q)
        },
{
    lemma_value_step_forward(b, p, state);
}


/// Every child but the last of `kids` stands, in its place, in `a`, which
/// has at least as many children: reading on only continues the last child
/// and adds new ones.
pub open spec fn children_kept(kids: Seq<JsonTree>, a: Seq<JsonTree>) -> bool {
    kids.len() == 0 || (a.len() >= kids.len() && a.subrange(0, kids.len() - 1) == kids.drop_last())
}

proof fn lemma_children_kept_trans(kids: Seq<JsonTree>, mid: Seq<JsonTree>, a: Seq<JsonTree>)
    requires
        kids.len() <= mid.len(),
        kids.len() > 0 ==> mid.subrange(0, kids.len() - 1) == kids.drop_last(),
        children_kept(mid, a),
    ensures
        children_kept(kids, a),
{
    if kids.len() > 0 {
        assert(a.subrange(0, kids.len() - 1) =~= mid.subrange(0, kids.len() - 1));
    }
}

/// The shape of what the loop of an array gives: a complete array ends
/// right after a `]`, an incomplete one at the end of the chunk, and both
/// keep the children read before.
proof fn lemma_array_loop_shape(b: Seq<u8>, p: int, kids: Seq<JsonTree>)
    requires
        0 <= p <= b.len(),
    ensures
        array_loop(b, p, kids) matches Some((r, q)) ==> match r {
            JsonTree::Array(a) => children_kept(kids, a) && 1 <= q <= b.len() && b[q - 1] == 93,
            JsonTree::IncArray(a) => children_kept(kids, a) && q >= b.len(),
            _ => false,
        },
    decreases b.len() - p, children_size(kids) + 1,
{
    let p1 = skip_whitespace_from(b, p);
    lemma_skip_whitespace_bounds(b, p);
    if p1 >= b.len() {
        return;
    }
    let resumed = if kids.len() > 0 {
        match continue_step(b, p1, kids.last()) {
            None => None,
            Some((child, q)) => Some((kids.drop_last().push(child), q)),
        }
    } else {
        Some((kids, p1))
    };
    match resumed {
        None => {},
        Some((kids1, q)) => {
            assert(kids.len() > 0 ==> kids1.subrange(0, kids.len() - 1) =~= kids.drop_last());
            let p2 = skip_whitespace_from(b, q);
            lemma_skip_whitespace_bounds(b, q);
            if q < p1 || p2 >= b.len() {
            } else if b[p2] == 93 {
            } else if b[p2] == 44 {
                lemma_array_loop_shape(b, p2 + 1, kids1);
                if let Some((r, _)) = array_loop(b, p2 + 1, kids1) {
                    match r {
                        JsonTree::Array(a) => lemma_children_kept_trans(kids, kids1, a),
                        JsonTree::IncArray(a) => lemma_children_kept_trans(kids, kids1, a),
                        _ => {},
                    }
                }
            } else {
                match value_step(b, p2, None) {
                    None => {},
                    Some((child, q2)) => {
                        if q2 <= p || q2 > b.len() {
                        } else {
                            let kids2 = match child {
                                Some(c) => kids1.push(c),
                                None => kids1,
                            };
                            assert(kids.len() > 0 ==> kids2.subrange(0, kids.len() - 1) =~= kids.drop_last());
                            lemma_array_loop_shape(b, q2, kids2);
                            if let Some((r, _)) = array_loop(b, q2, kids2) {
                                match r {
                                    JsonTree::Array(a) => lemma_children_kept_trans(kids, kids2, a),
                                    JsonTree::IncArray(a) => lemma_children_kept_trans(kids, kids2, a),
                                    _ => {},
                                }
                            }
                        }
                    },
                }
            }
        },
    }
}

/// The keys of `e` stand, in their places, in `e2`, which has at least as
/// many entries: reading on only adds entries or gives a key a new value.
pub open spec fn keys_kept(e: Seq<(Seq<char>, JsonTree)>, e2: Seq<(Seq<char>, JsonTree)>) -> bool {
    e2.len() >= e.len() && forall|i: int| 0 <= i < e.len() ==> #[trigger] e2[i].0 == e[i].0
}

proof fn lemma_key_index(s: Seq<(Seq<char>, JsonTree)>, k: Seq<char>)
    ensures
        key_index(s, k) < s.len(),
        key_index(s, k) >= 0 ==> s[key_index(s, k)].0 == k,
    decreases s.len(),
{
    if s.len() > 0 && s.last().0 != k {
        lemma_key_index(s.drop_last(), k);
    }
}

proof fn lemma_insert_keeps_keys(e: Seq<(Seq<char>, JsonTree)>, k: Seq<char>, v: JsonTree)
    ensures
        keys_kept(e, insert_entry(e, k, v)),
{
    lemma_key_index(e, k);
}

/// The shape of what the loop of an object gives: a complete object ends
/// right after a `}`, an incomplete one at the end of the chunk, and both
/// keep the keys read before.
proof fn lemma_object_loop_shape(
    b: Seq<u8>,
    p: int,
    entries: Seq<(Seq<char>, JsonTree)>,
    newest: Option<PropertyTree>,
)
    requires
        0 <= p <= b.len(),
    ensures
        object_loop(b, p, entries, newest) matches Some((r, q)) ==> match r {
            JsonTree::Object(e) => keys_kept(entries, e) && 1 <= q <= b.len() && b[q - 1] == 125,
            JsonTree::IncObject(e, _) => keys_kept(entries, e) && q >= b.len(),
            _ => false,
        },
    decreases b.len() - p, property_size(newest) + 4,
{
    if p >= b.len() || (newest is None && b[p] == 125) {
        return;
    }
    match property_step(b, p, newest) {
        None => {},
        Some((step, q)) => {
            if q < p || q > b.len() {
                return;
            }
            match step {
                None => if q > p {
                    lemma_object_loop_shape(b, q, entries, None);
                },
                Some(PropertyStep::Complete(key, value)) => {
                    if !bad_key(key) && (q > p || newest is Some) {
                        let entries2 = insert_entry(entries, key, value);
                        lemma_insert_keeps_keys(entries, key, value);
                        let q1 = skip_whitespace_from(b, q);
                        lemma_skip_whitespace_bounds(b, q);
                        let q2 = if 0 <= q1 < b.len() && b[q1] == 44 {
                            lemma_skip_whitespace_bounds(b, q1 + 1);
                            skip_whitespace_from(b, q1 + 1)
                        } else {
                            q1
                        };
                        lemma_object_loop_shape(b, q2, entries2, None);
                    }
                },
                Some(PropertyStep::Incomplete(prop)) => {
                    if !bad_key(prop.key.name()) && q > p {
                        lemma_object_loop_shape(b, q, entries, Some(prop));
                    }
                },
            }
        },
    }
}

proof fn lemma_number_loop_shape(b: Seq<u8>, p: int, st: IncJsonNumber, idx: int)
    ensures
        number_loop(b, p, st, idx) matches Some((r, _)) ==> (r is Number || r is IncNumber || r is Invalid),
    decreases b.len() - p,
{
    if 0 <= p < b.len() {
        let c = b[p];
        if is_number_byte(c) && c != 45 {
            if c == 46 {
                if st.dot_index is None {
                    lemma_number_loop_shape(b, p + 1, IncJsonNumber { dot_index: Some(idx as i32), ..st }, idx + 1);
                }
            } else {
                let d = c - 48;
                if st.dot_index is Some {
                    let v = st.decimal_part.value * 10 + d;
                    let n = st.decimal_part.digit_count + 1;
                    if !(v > u64::MAX || n > u64::MAX) {
                        lemma_number_loop_shape(
                            b,
                            p + 1,
                            IncJsonNumber { decimal_part: DecimalPart { value: v as u64, digit_count: n as u64 }, ..st },
                            idx + 1,
                        );
                    }
                } else {
                    let v = st.integer_part * 10 + d;
                    if v <= u64::MAX {
                        lemma_number_loop_shape(b, p + 1, IncJsonNumber { integer_part: v as u64, ..st }, idx + 1);
                    }
                }
            }
        }
    }
}

/// What going on with a value may turn it into: an object stays an object,
/// an array an array, a string a string, and a number, `true`, `false` or
/// `null` stays what it was or becomes `Invalid`.
pub open spec fn kind_kept(v: JsonTree, r: JsonTree) -> bool {
    match v {
        JsonTree::IncObject(_, _) => r is Object || r is IncObject,
        JsonTree::IncArray(_) => r is Array || r is IncArray,
        JsonTree::IncString(_) => r is String || r is IncString,
        JsonTree::IncNumber(_) => r is Number || r is IncNumber || r is Invalid,
        JsonTree::IncBool(IncJsonBool::True(_)) => r == JsonTree::Bool(true) || r matches JsonTree::IncBool(IncJsonBool::True(_)) || r is Invalid,
        JsonTree::IncBool(IncJsonBool::False(_)) => r == JsonTree::Bool(false) || r matches JsonTree::IncBool(IncJsonBool::False(_)) || r is Invalid,
        JsonTree::IncNull(_) => r is Null || r is IncNull || r is Invalid,
        _ => r == v,
    }
}

/// Going on with a value keeps its kind; a complete value is given back as
/// it is.
pub proof fn law_continue_keeps_kind(b: Seq<u8>, p: int, v: JsonTree)
    requires
        0 <= p <= b.len(),
    ensures
        continue_step(b, p, v) matches Some((r, _)) ==> kind_kept(v, r),
{
    match v {
        JsonTree::IncObject(e, n) => lemma_object_loop_shape(b, p, e, n),
        JsonTree::IncArray(kids) => lemma_array_loop_shape(b, p, kids),
        JsonTree::IncNumber(st) => lemma_number_loop_shape(b, p, st, 0),
        _ => {},
    }
}

/// Reading on in an array keeps every child but the last, which it may
/// continue, and adds children after it; the array is complete just after a
/// `]`, and incomplete only where the chunk has ended.
pub proof fn law_array_keeps_children(b: Seq<u8>, p: int, kids: Seq<JsonTree>)
    requires
        0 <= p <= b.len(),
    ensures
        array_loop(b, p, kids) matches Some((r, q)) ==> match r {
            JsonTree::Array(a) => children_kept(kids, a) && 1 <= q <= b.len() && b[q - 1] == 93,
            JsonTree::IncArray(a) => children_kept(kids, a) && q >= b.len(),
            _ => false,
        },
{
    lemma_array_loop_shape(b, p, kids);
}

/// Reading on in an object keeps every key read before, in its place; the
/// object is complete just after a `}`, and incomplete only where the chunk
/// has ended.
pub proof fn law_object_keeps_keys(
    b: Seq<u8>,
    p: int,
    entries: Seq<(Seq<char>, JsonTree)>,
    newest: Option<PropertyTree>,
)
    requires
        0 <= p <= b.len(),
    ensures
        object_loop(b, p, entries, newest) matches Some((r, q)) ==> match r {
            JsonTree::Object(e) => keys_kept(entries, e) && 1 <= q <= b.len() && b[q - 1] == 125,
            JsonTree::IncObject(e, _) => keys_kept(entries, e) && q >= b.len(),
            _ => false,
        },
{
    lemma_object_loop_shape(b, p, entries, newest);
}


} // verus!
