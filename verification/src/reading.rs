//! What number texts, arrays and objects read to, stated from their bytes.
use vstd::prelude::*;

use crate::laws::{
    digits_after, law_number_split, lemma_digits_after_alike, lemma_digits_after_concat,
    lemma_number_loop_to_end, lemma_number_loop_to_separator, literal_bytes, literal_value,
    number_body_start, number_start_state, Literal,
};
use crate::model::{
    array_loop, bool_step, continue_step, find_byte_from, insert_entry, is_number_byte,
    is_whitespace_byte, key_step, literal_step, null_step, number_loop, number_start, object_loop,
    parse_chunk, separator_at, skip_whitespace_from, slice_text, value_step, JsonTree, LiteralStep,
    bad_key,
};
use crate::parsers::bool::IncJsonBool;
use crate::parsers::null::IncJsonNull;
use crate::parsers::number::{DecimalPart, IncJsonNumber, JsonNumber};
use vstd::utf8::{decode_utf8, valid_utf8};

verus! {

/// Whether every byte of `d` is a decimal digit.
pub open spec fn all_digits(d: Seq<u8>) -> bool {
    forall|i: int| 0 <= i < d.len() ==> 48 <= #[trigger] d[i] <= 57
}

/// The value of the decimal digits `d`.
pub open spec fn digits_value(d: Seq<u8>) -> nat
    decreases d.len(),
{
    if d.len() == 0 {
        0
    } else {
        digits_value(d.drop_last()) * 10 + (d.last() - 48) as nat
    }
}

proof fn lemma_digits_value_prefix(d: Seq<u8>)
    requires
        d.len() > 0,
        all_digits(d),
    ensures
        digits_value(d.drop_last()) <= digits_value(d),
{
    assert(48 <= d[d.len() - 1] <= 57);
}

/// Reading the digits `d` into the integer part of a number state that holds
/// no dot and no integer part yet.
proof fn lemma_digits_integer(st: IncJsonNumber, d: Seq<u8>, i: int)
    requires
        all_digits(d),
        st.dot_index is None,
        st.integer_part == 0,
        digits_value(d) <= u64::MAX,
    ensures
        digits_after(st, d, i) == Some(IncJsonNumber { integer_part: digits_value(d) as u64, ..st }),
    decreases d.len(),
{
    if d.len() > 0 {
        let x = d.drop_last();
        let y = seq![d.last()];
        assert(d =~= x + y);
        assert(all_digits(x));
        lemma_digits_value_prefix(d);
        lemma_digits_integer(st, x, i);
        lemma_digits_after_concat(st, x, y, i);
        let s1 = IncJsonNumber { integer_part: digits_value(x) as u64, ..st };
        assert(48 <= d[d.len() - 1] <= 57);
        assert(y.skip(1) =~= Seq::<u8>::empty());
        assert(y[0] == d.last());
        assert(digits_value(d) == digits_value(x) * 10 + (d.last() - 48) as nat);
        let s2 = IncJsonNumber { integer_part: digits_value(d) as u64, ..st };
        assert(digits_after(s2, y.skip(1), i + x.len() + 1) == Some(s2));
        assert(digits_after(s1, y, i + x.len()) == Some(s2));
    } else {
        assert(IncJsonNumber { integer_part: 0u64, ..st } == st);
    }
}

/// Reading the digits `d` into the decimal part of a number state that holds
/// a dot and no decimal part yet.
proof fn lemma_digits_decimal(st: IncJsonNumber, d: Seq<u8>, i: int)
    requires
        all_digits(d),
        st.dot_index is Some,
        st.decimal_part == (DecimalPart { value: 0, digit_count: 0 }),
        digits_value(d) <= u64::MAX,
        d.len() <= u64::MAX,
    ensures
        digits_after(st, d, i) == Some(IncJsonNumber {
            decimal_part: DecimalPart { value: digits_value(d) as u64, digit_count: d.len() as u64 },
            ..st
        }),
    decreases d.len(),
{
    if d.len() > 0 {
        let x = d.drop_last();
        let y = seq![d.last()];
        assert(d =~= x + y);
        assert(all_digits(x));
        lemma_digits_value_prefix(d);
        lemma_digits_decimal(st, x, i);
        lemma_digits_after_concat(st, x, y, i);
        let s1 = IncJsonNumber {
            decimal_part: DecimalPart { value: digits_value(x) as u64, digit_count: x.len() as u64 },
            ..st
        };
        assert(48 <= d[d.len() - 1] <= 57);
        assert(y.skip(1) =~= Seq::<u8>::empty());
        assert(y[0] == d.last());
        assert(digits_value(d) == digits_value(x) * 10 + (d.last() - 48) as nat);
        let s2 = IncJsonNumber {
            decimal_part: DecimalPart { value: digits_value(d) as u64, digit_count: d.len() as u64 },
            ..st
        };
        assert(digits_after(s2, y.skip(1), i + x.len() + 1) == Some(s2));
        assert(digits_after(s1, y, i + x.len()) == Some(s2));
    } else {
        assert(IncJsonNumber { decimal_part: DecimalPart { value: 0u64, digit_count: 0u64 }, ..st } == st);
    }
}

/// The text of a number: an optional `-`, the integer digits `int_digits`,
/// and, where `has_dot`, a `.` and the decimal digits `dec_digits`.
pub open spec fn number_text(negative: bool, int_digits: Seq<u8>, has_dot: bool, dec_digits: Seq<u8>) -> Seq<u8> {
    (if negative { seq![45u8] } else { Seq::empty() }) + int_digits + (if has_dot { seq![46u8] + dec_digits } else { Seq::empty() })
}

/// The number such a text stands for: its sign from the `-`, its integer part
/// from the integer digits, its decimal part from the decimal digits and how
/// many there are.
pub open spec fn number_of_text(negative: bool, int_digits: Seq<u8>, has_dot: bool, dec_digits: Seq<u8>) -> JsonNumber {
    JsonNumber {
        integer_part: digits_value(int_digits) as u64,
        decimal_part: if has_dot {
            DecimalPart { value: digits_value(dec_digits) as u64, digit_count: dec_digits.len() as u64 }
        } else {
            DecimalPart { value: 0, digit_count: 0 }
        },
        is_negative: negative,
    }
}

/// A number text followed by `}`, `]` or `,` reads to the number it stands
/// for: negative exactly where it starts with `-`, with or without a dot.
pub proof fn law_number_text(negative: bool, int_digits: Seq<u8>, has_dot: bool, dec_digits: Seq<u8>, rest: Seq<u8>)
    requires
        int_digits.len() > 0 || has_dot,
        all_digits(int_digits),
        all_digits(dec_digits),
        digits_value(int_digits) <= u64::MAX,
        digits_value(dec_digits) <= u64::MAX,
        dec_digits.len() <= u64::MAX,
        rest.len() > 0,
        rest[0] == 125 || rest[0] == 93 || rest[0] == 44,
    ensures
        parse_chunk(number_text(negative, int_digits, has_dot, dec_digits) + rest, None)
            == Some(Some(JsonTree::Number(number_of_text(negative, int_digits, has_dot, dec_digits)))),
{
    let n = number_text(negative, int_digits, has_dot, dec_digits);
    let sign = if negative { seq![45u8] } else { Seq::<u8>::empty() };
    let tail = if has_dot { seq![46u8] + dec_digits } else { Seq::<u8>::empty() };
    assert(n =~= sign + int_digits + tail);
    let f = n[0];
    if negative {
        assert(f == 45);
    } else if int_digits.len() > 0 {
        assert(f == int_digits[0]);
        assert(48 <= int_digits[0] <= 57);
    } else {
        assert(f == 46);
    }
    assert(is_number_byte(f));
    let s0 = number_start_state(f);
    let h = number_body_start(f);
    let body = n.subrange(h, n.len() as int);
    // The digits before the dot.
    let (ib, tb) = if !negative && int_digits.len() == 0 {
        (Seq::<u8>::empty(), dec_digits)
    } else {
        (int_digits, tail)
    };
    assert(body =~= ib + tb);
    lemma_digits_after_concat(s0, ib, tb, 0);
    if !negative && int_digits.len() == 0 {
        lemma_digits_decimal(s0, dec_digits, 0);
    } else {
        lemma_digits_integer(s0, int_digits, 0);
        let s1 = IncJsonNumber { integer_part: digits_value(int_digits) as u64, ..s0 };
        if has_dot {
            let dot = seq![46u8];
            assert(tb =~= dot + dec_digits);
            lemma_digits_after_concat(s1, dot, dec_digits, ib.len() as int);
            assert(dot.skip(1) =~= Seq::<u8>::empty());
            let s2 = IncJsonNumber { dot_index: Some(ib.len() as i32), ..s1 };
            assert(digits_after(s2, dot.skip(1), ib.len() as int + 1) == Some(s2));
            assert(digits_after(s1, dot, ib.len() as int) == Some(s2));
            lemma_digits_decimal(s2, dec_digits, ib.len() as int + 1);
        } else {
            assert(tb =~= Seq::<u8>::empty());
        }
    }
    law_number_split(n, n.len() as int, rest);
}

/// A value that stands alone between separators: `true`, `false`, `null`,
/// or the decimal digits of a whole number.
pub enum Item {
    Lit(Literal),
    Digits(Seq<u8>),
}

pub open spec fn item_bytes(it: Item) -> Seq<u8> {
    match it {
        Item::Lit(l) => literal_bytes(l),
        Item::Digits(d) => d,
    }
}

/// Whether the item is one the parser reads: digits that are there and fit
/// in a `u64`.
pub open spec fn item_ok(it: Item) -> bool {
    match it {
        Item::Lit(_) => true,
        Item::Digits(d) => d.len() > 0 && all_digits(d) && digits_value(d) <= u64::MAX,
    }
}

/// The value an item stands for.
pub open spec fn item_value(it: Item) -> JsonTree {
    match it {
        Item::Lit(l) => literal_value(l),
        Item::Digits(d) => JsonTree::Number(JsonNumber {
            integer_part: digits_value(d) as u64,
            decimal_part: DecimalPart { value: 0, digit_count: 0 },
            is_negative: false,
        }),
    }
}

/// The rest of a literal, of which the first byte was read, up to a separator.
proof fn lemma_literal_rest_at(b: Seq<u8>, p: int, lit: Seq<u8>)
    requires
        lit.len() >= 1,
        0 <= p,
        p + lit.len() < b.len(),
        b.subrange(p, p + lit.len()) == lit,
        separator_at(b, p + lit.len()),
    ensures
        literal_step(b, p + 1, 1, lit) == Some((LiteralStep::Finished, p + lit.len())),
{
    let rest = lit.subrange(1, lit.len() as int);
    assert(rest.subrange(0, rest.len() as int) =~= rest);
    assert(b.subrange(p + 1, p + 1 + rest.len()) =~= rest);
}

/// An item at `p`, followed by `}`, `]` or `,`, reads to its value and
/// leaves the reader at that byte.
proof fn lemma_item_at(b: Seq<u8>, p: int, it: Item)
    requires
        item_ok(it),
        0 <= p,
        p + item_bytes(it).len() < b.len(),
        b.subrange(p, p + item_bytes(it).len()) == item_bytes(it),
        b[p + item_bytes(it).len()] == 125 || b[p + item_bytes(it).len()] == 93 || b[p + item_bytes(it).len()] == 44,
    ensures
        value_step(b, p, None) == Some((Some(item_value(it)), p + item_bytes(it).len())),
{
    let t = item_bytes(it);
    let e = p + t.len();
    assert(b[p] == t[0]);
    match it {
        Item::Lit(l) => {
            assert(separator_at(b, e));
            lemma_literal_rest_at(b, p, t);
            match l {
                Literal::True => {
                    assert(t[0] == 116);
                },
                Literal::False => {
                    assert(t[0] == 102);
                },
                Literal::Null => {
                    assert(t[0] == 110);
                },
            }
            assert(skip_whitespace_from(b, p) == p);
        },
        Item::Digits(d) => {
            lemma_digits_at(b, p, d);
        },
    }
}

/// Whole-number digits at `p`, followed by `}`, `]` or `,`, read to their
/// number and leave the reader at that byte.
proof fn lemma_digits_at(b: Seq<u8>, p: int, d: Seq<u8>)
    requires
        item_ok(Item::Digits(d)),
        0 <= p,
        p + d.len() < b.len(),
        b.subrange(p, p + d.len()) == d,
        b[p + d.len()] == 125 || b[p + d.len()] == 93 || b[p + d.len()] == 44,
    ensures
        value_step(b, p, None) == Some((Some(item_value(Item::Digits(d))), p + d.len())),
{
    let e = p + d.len();
    assert(b[p] == d[0]);
    assert(48 <= d[0] <= 57);
    assert(skip_whitespace_from(b, p) == p);
    let st = IncJsonNumber {
        integer_part: 0,
        decimal_part: DecimalPart { value: 0, digit_count: 0 },
        is_negative: false,
        dot_index: None,
        start_str_index: p as usize,
    };
    lemma_digits_integer(st, d, 0);
    lemma_number_loop_to_separator(b, p, e, st, 0);
    assert(number_start(b, p + 1, b[p]) == number_loop(b, p, st, 0));
}

/// The items written one after the other, with a `,` between two of them.
pub open spec fn items_text(items: Seq<Item>) -> Seq<u8>
    decreases items.len(),
{
    if items.len() == 0 {
        Seq::empty()
    } else if items.len() == 1 {
        item_bytes(items[0])
    } else {
        item_bytes(items[0]) + seq![44u8] + items_text(items.skip(1))
    }
}

/// The values the items stand for, in order.
pub open spec fn item_values(items: Seq<Item>) -> Seq<JsonTree> {
    Seq::new(items.len(), |i: int| item_value(items[i]))
}

pub open spec fn items_ok(items: Seq<Item>) -> bool {
    forall|i: int| 0 <= i < items.len() ==> item_ok(#[trigger] items[i])
}

proof fn lemma_item_first_byte(it: Item)
    requires
        item_ok(it),
    ensures
        item_bytes(it).len() > 0,
        !is_whitespace_byte(item_bytes(it)[0]),
        item_bytes(it)[0] != 93 && item_bytes(it)[0] != 44 && item_bytes(it)[0] != 125,
{
    match it {
        Item::Lit(Literal::True) => assert(item_bytes(it) =~= seq![116u8, 114, 117, 101]),
        Item::Lit(Literal::False) => assert(item_bytes(it) =~= seq![102u8, 97, 108, 115, 101]),
        Item::Lit(Literal::Null) => assert(item_bytes(it) =~= seq![110u8, 117, 108, 108]),
        Item::Digits(d) => assert(48 <= d[0] <= 57),
    }
}

/// At a `]` or `,` after a complete last child, the array closes or reads on.
proof fn lemma_array_at_separator(b: Seq<u8>, q: int, kids: Seq<JsonTree>)
    requires
        0 <= q < b.len(),
        b[q] == 93 || b[q] == 44,
        kids.len() > 0,
        !kids.last().is_incomplete(),
    ensures
        array_loop(b, q, kids) == if b[q] == 93 {
            Some((JsonTree::Array(kids), q + 1))
        } else {
            array_loop(b, q + 1, kids)
        },
{
    assert(skip_whitespace_from(b, q) == q);
    assert(continue_step(b, q, kids.last()) == Some((kids.last(), q)));
    assert(kids.drop_last().push(kids.last()) =~= kids);
}

/// Items separated by `,` and closed by `]`, read by the loop of an array
/// whose last child is complete, are added to its children in order.
proof fn lemma_items_in_array(b: Seq<u8>, p: int, kids: Seq<JsonTree>, items: Seq<Item>)
    requires
        items.len() > 0,
        items_ok(items),
        kids.len() > 0 ==> !kids.last().is_incomplete(),
        0 <= p,
        p + items_text(items).len() < b.len(),
        b.subrange(p, p + items_text(items).len()) == items_text(items),
        b[p + items_text(items).len()] == 93,
    ensures
        array_loop(b, p, kids) == Some((JsonTree::Array(kids + item_values(items)), p + items_text(items).len() + 1)),
    decreases items.len(),
{
    let it = items[0];
    let t = item_bytes(it);
    let e0 = p + t.len();
    let text = items_text(items);
    let e = p + text.len();
    lemma_item_first_byte(it);
    if items.len() == 1 {
        assert(text == t);
        assert(e0 == e);
    } else {
        assert(text == t + seq![44u8] + items_text(items.skip(1)));
        assert(text[t.len() as int] == 44);
        assert(b.subrange(p, e)[t.len() as int] == b[e0]);
        assert(text.subrange(t.len() as int + 1, text.len() as int) =~= items_text(items.skip(1)));
        assert(b.subrange(e0 + 1, e) =~= b.subrange(p, e).subrange(t.len() as int + 1, text.len() as int));
    }
    assert(b.subrange(p, e0) =~= b.subrange(p, e).subrange(0, t.len() as int));
    assert(text.subrange(0, t.len() as int) =~= t);
    assert(b[p] == t[0]);
    lemma_item_at(b, p, it);
    let v0 = item_value(it);
    // The first item.
    assert(skip_whitespace_from(b, p) == p);
    if kids.len() > 0 {
        assert(continue_step(b, p, kids.last()) == Some((kids.last(), p)));
        assert(kids.drop_last().push(kids.last()) =~= kids);
    }
    assert(array_loop(b, p, kids) == array_loop(b, e0, kids.push(v0)));
    lemma_array_at_separator(b, e0, kids.push(v0));
    let rest = items.skip(1);
    if items.len() == 1 {
        assert(kids + item_values(items) =~= kids.push(v0));
    } else {
        assert(items_ok(rest));
        let p1 = e0 + 1;
        assert(b.subrange(p1, e) =~= items_text(rest));
        assert(p1 + items_text(rest).len() == e);
        lemma_items_in_array(b, p1, kids.push(v0), rest);
        assert(kids.push(v0) + item_values(rest) =~= kids + item_values(items));
    }
}

/// An array of items, `[` then the items separated by `,` then `]`, reads to
/// an array of exactly the values the items stand for, in order.
pub proof fn law_array_items(items: Seq<Item>)
    requires
        items_ok(items),
    ensures
        parse_chunk(seq![91u8] + items_text(items) + seq![93u8], None)
            == Some(Some(JsonTree::Array(item_values(items)))),
{
    let b = seq![91u8] + items_text(items) + seq![93u8];
    let n = items_text(items).len();
    assert(b[0] == 91);
    assert(skip_whitespace_from(b, 0) == 0);
    assert(b[n as int + 1] == 93);
    if items.len() == 0 {
        assert(n == 0);
        assert(skip_whitespace_from(b, 1) == 1);
        assert(item_values(items) =~= Seq::<JsonTree>::empty());
    } else {
        assert(b.subrange(1, 1 + n as int) =~= items_text(items));
        lemma_items_in_array(b, 1, Seq::empty(), items);
        assert(Seq::<JsonTree>::empty() + item_values(items) =~= item_values(items));
    }
}

/// An array holding one whole number, `[` digits `]`, cut into two chunks
/// anywhere from just after the `[` to just before the `]`, reads to the same
/// array as in one chunk: a number cut by the chunk boundary is continued,
/// not closed.
pub proof fn law_array_number_split(d: Seq<u8>, k: int)
    requires
        item_ok(Item::Digits(d)),
        1 <= k <= d.len() + 1,
    ensures
        ({
            let text = seq![91u8] + d + seq![93u8];
            let v = JsonTree::Array(seq![item_value(Item::Digits(d))]);
            &&& parse_chunk(text, None) == Some(Some(v))
            &&& parse_chunk(text.subrange(0, k), None) matches Some(Some(state))
            &&& parse_chunk(text.subrange(k, text.len() as int), Some(state)) == Some(Some(v))
        }),
{
    let it = Item::Digits(d);
    let items = seq![it];
    let text = seq![91u8] + d + seq![93u8];
    let n = d.len();
    let v0 = item_value(it);
    assert(items_text(items) == d);
    assert(items_ok(items));
    assert(item_values(items) =~= seq![v0]);
    law_array_items(items);
    assert(text == seq![91u8] + items_text(items) + seq![93u8]);
    let c1 = text.subrange(0, k);
    let c2 = text.subrange(k, text.len() as int);
    assert(c1[0] == 91);
    assert(skip_whitespace_from(c1, 0) == 0);
    if k == 1 {
        assert(skip_whitespace_from(c1, 1) == 1);
        assert(parse_chunk(c1, None) == Some(Some(JsonTree::IncArray(Seq::empty()))));
        assert(c2 =~= d + seq![93u8]);
        assert(c2.subrange(0, n as int) =~= items_text(items));
        lemma_items_in_array(c2, 0, Seq::empty(), items);
        assert(Seq::<JsonTree>::empty() + item_values(items) =~= seq![v0]);
        assert(continue_step(c2, 0, JsonTree::IncArray(Seq::empty())) == Some((JsonTree::Array(seq![v0]), n as int + 1)));
    } else {
        let x = d.subrange(0, k - 1);
        let y = d.subrange(k - 1, n as int);
        assert(d =~= x + y);
        let st = IncJsonNumber {
            integer_part: 0,
            decimal_part: DecimalPart { value: 0, digit_count: 0 },
            is_negative: false,
            dot_index: None,
            start_str_index: 1usize,
        };
        lemma_digits_integer(st, d, 0);
        lemma_digits_after_concat(st, x, y, 0);
        let s1 = digits_after(st, x, 0).unwrap();
        // The first chunk: an array waiting in a number.
        assert(c1 =~= seq![91u8] + x);
        assert(c1.subrange(1, c1.len() as int) =~= x);
        assert(48 <= d[0] <= 57);
        assert(c1[1] == d[0]);
        assert(skip_whitespace_from(c1, 1) == 1);
        lemma_number_loop_to_end(c1, 1, st, 0);
        assert(number_start(c1, 2, c1[1]) == number_loop(c1, 1, st, 0));
        assert(value_step(c1, 1, None) == Some((Some(JsonTree::IncNumber(s1)), k)));
        assert(skip_whitespace_from(c1, k) == k);
        let kids1 = seq![JsonTree::IncNumber(s1)];
        assert(Seq::<JsonTree>::empty().push(JsonTree::IncNumber(s1)) == kids1);
        assert(array_loop(c1, k, kids1) == Some((JsonTree::IncArray(kids1), k)));
        assert(array_loop(c1, 1, Seq::empty()) == Some((JsonTree::IncArray(kids1), k)));
        assert(parse_chunk(c1, None) == Some(Some(JsonTree::IncArray(kids1))));
        // The second chunk: the number goes on, then the array closes.
        assert(c2 =~= y + seq![93u8]);
        assert(c2.subrange(0, y.len() as int) =~= y);
        lemma_digits_after_alike(s1, s1, y, x.len() as int, 0);
        lemma_number_loop_to_separator(c2, 0, y.len() as int, s1, 0);
        let fin = digits_after(s1, y, 0).unwrap();
        assert(JsonTree::Number(crate::model::number_value(fin)) == v0);
        if y.len() > 0 {
            assert(c2[0] == d[k - 1]);
            assert(48 <= d[k - 1] <= 57);
        }
        assert(skip_whitespace_from(c2, 0) == 0);
        assert(continue_step(c2, 0, JsonTree::IncNumber(s1)) == Some((v0, y.len() as int)));
        assert(kids1.drop_last().push(v0) =~= seq![v0]);
        assert(skip_whitespace_from(c2, y.len() as int) == y.len());
        assert(array_loop(c2, 0, kids1) == Some((JsonTree::Array(seq![v0]), y.len() as int + 1)));
        assert(continue_step(c2, 0, JsonTree::IncArray(kids1)) == Some((JsonTree::Array(seq![v0]), y.len() as int + 1)));
    }
}

proof fn lemma_find_byte_at(b: Seq<u8>, p: int, j: int, x: u8)
    requires
        0 <= p <= j < b.len(),
        forall|i: int| p <= i < j ==> #[trigger] b[i] != x,
        b[j] == x,
    ensures
        find_byte_from(b, p, x) == Some(j),
    decreases j - p,
{
    if p < j {
        lemma_find_byte_at(b, p + 1, j, x);
    }
}

/// Whether every byte of `w` is whitespace.
pub open spec fn all_whitespace(w: Seq<u8>) -> bool {
    forall|i: int| 0 <= i < w.len() ==> is_whitespace_byte(#[trigger] w[i])
}

proof fn lemma_skip_run(b: Seq<u8>, p: int, e: int)
    requires
        0 <= p <= e < b.len(),
        forall|i: int| p <= i < e ==> is_whitespace_byte(#[trigger] b[i]),
        !is_whitespace_byte(b[e]),
    ensures
        skip_whitespace_from(b, p) == e,
    decreases e - p,
{
    if p < e {
        lemma_skip_run(b, p + 1, e);
    }
}

/// The text of a property: the key `k` in quotes, whitespace `ws1`, a `:`,
/// whitespace `ws2`, and an item.
pub open spec fn property_text(k: Seq<u8>, ws1: Seq<u8>, ws2: Seq<u8>, it: Item) -> Seq<u8> {
    seq![34u8] + k + seq![34u8] + ws1 + seq![58u8] + ws2 + item_bytes(it)
}

/// What a property text needs to be read: a key that is UTF-8 without a `"`
/// and that the parser lets through, whitespace around the `:`, and an item.
pub open spec fn property_ok(k: Seq<u8>, ws1: Seq<u8>, ws2: Seq<u8>, it: Item) -> bool {
    &&& valid_utf8(k)
    &&& forall|i: int| 0 <= i < k.len() ==> #[trigger] k[i] != 34
    &&& !bad_key(decode_utf8(k))
    &&& all_whitespace(ws1)
    &&& all_whitespace(ws2)
    &&& item_ok(it)
}

/// Where the parts of a property text stand, with the text at `p`.
proof fn lemma_property_layout(b: Seq<u8>, p: int, k: Seq<u8>, ws1: Seq<u8>, ws2: Seq<u8>, it: Item)
    requires
        property_ok(k, ws1, ws2, it),
        0 <= p,
        p + property_text(k, ws1, ws2, it).len() < b.len(),
        b.subrange(p, p + property_text(k, ws1, ws2, it).len()) == property_text(k, ws1, ws2, it),
    ensures
        ({
            let j = p + 1 + k.len();
            let c = j + 1 + ws1.len();
            let q1 = c + 1 + ws2.len();
            let e = q1 + item_bytes(it).len();
            &&& e == p + property_text(k, ws1, ws2, it).len()
            &&& b[p] == 34
            &&& (forall|i: int| p + 1 <= i < j ==> #[trigger] b[i] != 34)
            &&& b[j] == 34
            &&& b.subrange(p + 1, j) == k
            &&& (forall|i: int| j + 1 <= i < c ==> #[trigger] b[i] != 58 && is_whitespace_byte(b[i]))
            &&& b[c] == 58
            &&& (forall|i: int| c + 1 <= i < q1 ==> is_whitespace_byte(#[trigger] b[i]))
            &&& b.subrange(q1, e) == item_bytes(it)
        }),
{
    let t = property_text(k, ws1, ws2, it);
    let sub = b.subrange(p, p + t.len());
    let j = p + 1 + k.len();
    let c = j + 1 + ws1.len();
    let q1 = c + 1 + ws2.len();
    let e = q1 + item_bytes(it).len();
    assert(b[p] == sub[0]);
    assert forall|i: int| p + 1 <= i < j implies #[trigger] b[i] != 34 by {
        assert(b[i] == sub[i - p]);
        assert(sub[i - p] == k[i - p - 1]);
    }
    assert(b[j] == sub[j - p]);
    assert(b.subrange(p + 1, j) =~= k) by {
        assert forall|i: int| 0 <= i < k.len() implies b.subrange(p + 1, j)[i] == k[i] by {
            assert(b[p + 1 + i] == sub[1 + i]);
        }
    }
    assert forall|i: int| j + 1 <= i < c implies #[trigger] b[i] != 58 && is_whitespace_byte(b[i]) by {
        assert(b[i] == sub[i - p]);
        assert(sub[i - p] == ws1[i - j - 1]);
        assert(is_whitespace_byte(ws1[i - j - 1]));
    }
    assert(b[c] == sub[c - p]);
    assert forall|i: int| c + 1 <= i < q1 implies is_whitespace_byte(#[trigger] b[i]) by {
        assert(b[i] == sub[i - p]);
        assert(sub[i - p] == ws2[i - c - 1]);
        assert(is_whitespace_byte(ws2[i - c - 1]));
    }
    assert(b.subrange(q1, e) =~= item_bytes(it)) by {
        assert forall|i: int| 0 <= i < item_bytes(it).len() implies b.subrange(q1, e)[i] == item_bytes(it)[i] by {
            assert(b[q1 + i] == sub[q1 - p + i]);
        }
    }
}

/// Reading a new property from a property text closed by `}` gives the key's
/// text with the item's value, and leaves the reader at the `}`.
proof fn lemma_new_property_at(b: Seq<u8>, p: int, k: Seq<u8>, ws1: Seq<u8>, ws2: Seq<u8>, it: Item)
    requires
        property_ok(k, ws1, ws2, it),
        0 <= p,
        p + property_text(k, ws1, ws2, it).len() < b.len(),
        b.subrange(p, p + property_text(k, ws1, ws2, it).len()) == property_text(k, ws1, ws2, it),
        b[p + property_text(k, ws1, ws2, it).len()] == 125,
    ensures
        crate::model::new_property_step(b, p) == Some((
            Some(crate::model::PropertyStep::Complete(decode_utf8(k), item_value(it))),
            p + property_text(k, ws1, ws2, it).len(),
        )),
{
    lemma_property_layout(b, p, k, ws1, ws2, it);
    let j = p + 1 + k.len();
    let c = j + 1 + ws1.len();
    let q1 = c + 1 + ws2.len();
    let e = q1 + item_bytes(it).len();
    lemma_item_first_byte(it);
    assert(b[q1] == item_bytes(it)[0]) by {
        assert(b.subrange(q1, e)[0] == b[q1]);
    }
    assert(skip_whitespace_from(b, p) == p);
    lemma_find_byte_at(b, p + 1, j, 34);
    lemma_find_byte_at(b, j + 1, c, 58);
    let name = decode_utf8(k);
    assert(slice_text(b, p + 1, j) == Some(name));
    assert(key_step(b, p + 1, p + 1, true) == (Some((crate::model::KeyTree::Complete(name), true)), c + 1));
    lemma_skip_run(b, c + 1, q1);
    lemma_item_at(b, q1, it);
    let v = item_value(it);
    assert(!v.is_incomplete());
    assert(crate::model::property_value_step(b, c + 1, crate::model::KeyTree::Complete(name), None, true)
        == Some((Some(crate::model::PropertyStep::Complete(name, v)), e)));
}

/// A property closed by `}`, read by the loop of an object with `entries`,
/// puts the item's value under the key's text, as inserting into the
/// entries does: a key that is there keeps its place, a new key goes last.
/// The object is then complete.
pub proof fn law_object_property(
    b: Seq<u8>,
    p: int,
    entries: Seq<(Seq<char>, JsonTree)>,
    k: Seq<u8>,
    ws1: Seq<u8>,
    ws2: Seq<u8>,
    it: Item,
)
    requires
        property_ok(k, ws1, ws2, it),
        0 <= p,
        p + property_text(k, ws1, ws2, it).len() < b.len(),
        b.subrange(p, p + property_text(k, ws1, ws2, it).len()) == property_text(k, ws1, ws2, it),
        b[p + property_text(k, ws1, ws2, it).len()] == 125,
    ensures
        object_loop(b, p, entries, None) == Some((
            JsonTree::Object(insert_entry(entries, decode_utf8(k), item_value(it))),
            p + property_text(k, ws1, ws2, it).len() + 1,
        )),
{
    let e = p + property_text(k, ws1, ws2, it).len();
    lemma_property_layout(b, p, k, ws1, ws2, it);
    lemma_new_property_at(b, p, k, ws1, ws2, it);
    let name = decode_utf8(k);
    let v = item_value(it);
    assert(crate::model::property_step(b, p, None) == Some((Some(crate::model::PropertyStep::Complete(name, v)), e)));
    let entries2 = insert_entry(entries, name, v);
    assert(skip_whitespace_from(b, e) == e);
    assert(object_loop(b, e, entries2, None) == Some((JsonTree::Object(entries2), e + 1)));
}

/// An object of one property, `{` property `}`, reads to an object holding
/// exactly that key with the item's value.
pub proof fn law_object_one_property(k: Seq<u8>, ws1: Seq<u8>, ws2: Seq<u8>, it: Item)
    requires
        property_ok(k, ws1, ws2, it),
    ensures
        parse_chunk(seq![123u8] + property_text(k, ws1, ws2, it) + seq![125u8], None)
            == Some(Some(JsonTree::Object(seq![(decode_utf8(k), item_value(it))]))),
{
    let t = property_text(k, ws1, ws2, it);
    let b = seq![123u8] + t + seq![125u8];
    assert(b[0] == 123);
    assert(skip_whitespace_from(b, 0) == 0);
    assert(b.subrange(1, 1 + t.len() as int) =~= t);
    assert(b[t.len() as int + 1] == 125);
    law_object_property(b, 1, Seq::empty(), k, ws1, ws2, it);
    assert(t[0] == 34);
    assert(b[1] == 34);
    let entry = (decode_utf8(k), item_value(it));
    assert(crate::model::key_index(Seq::<(Seq<char>, JsonTree)>::empty(), entry.0) == -1);
    assert(insert_entry(Seq::empty(), entry.0, entry.1) =~= seq![entry]);
}
} // verus!
