//! Arrays.
use vstd::prelude::*;

use crate::model::{
    array_loop, children_size, lemma_skip_whitespace_bounds, skip_whitespace_from,
    tree_size, value_step, JsonTree,
};
use crate::parsers::{
    agrees, lemma_trees_of_pop, lemma_trees_of_push, trees_of,
    JsonParsable, JsonValue,
};
use crate::string_reader::{CharWithIndex, StringReader};

verus! {

/// A complete array.
#[derive(PartialEq, Debug)]
pub struct JsonArray(pub Vec<JsonValue>);

/// An array that may go on in the next chunk.
#[derive(PartialEq, Debug)]
pub struct IncJsonArray(pub Vec<JsonValue>);

impl JsonArray {
    pub fn new(arr: Vec<JsonValue>) -> (r: Self)
        ensures
            r.0 == arr,
    {
        JsonArray(arr)
    }

    /// Starts an array where `first_char`, the byte read last, is `[`.
    pub fn try_start_parse(sr: &mut StringReader, first_char: &CharWithIndex) -> (r: Option<JsonValue>)
        requires
            old(sr).wf(),
            first_char.char == 91 ==> array_loop(old(sr).bytes@, old(sr).pos(), Seq::empty()) is Some,
        ensures
            final(sr).wf(),
            final(sr).bytes@ == old(sr).bytes@,
            first_char.char != 91 ==> r is None && final(sr).pos() == old(sr).pos(),
            first_char.char == 91 ==> (r matches Some(v) && array_loop(old(sr).bytes@, old(sr).pos(), Seq::empty()) == Some((v@, final(sr).pos()))),
        decreases old(sr).bytes@.len() - old(sr).pos(), 4nat,
    {
        if first_char.char != 91 {
            return None;
        }
        let val = IncJsonArray(Vec::new());
        proof {
            assert(trees_of(val.0@) =~= Seq::<JsonTree>::empty());
        }
        Some(val.try_resume(sr).unwrap())
    }

    /// The values of the array.
    pub fn take_children(self) -> (r: Vec<JsonValue>)
        ensures
            r == self.0,
    {
        self.0
    }
}

impl IncJsonArray {
    /// Goes on reading the array; `None` where the model has no result.
    pub fn try_resume(self, sr: &mut StringReader) -> (r: Option<JsonValue>)
        requires
            old(sr).wf(),
        ensures
            final(sr).wf(),
            final(sr).bytes@ == old(sr).bytes@,
            agrees(array_loop(old(sr).bytes@, old(sr).pos(), trees_of(self.0@)), r, final(sr).pos()),
        decreases old(sr).bytes@.len() - old(sr).pos(), children_size(trees_of(self.0@)) + 1,
    {
        let mut this = self;
        let ghost b = sr.bytes@;
        let ghost p0 = sr.pos();
        let ghost init = trees_of(this.0@);
        let ghost target = array_loop(b, p0, init);
        loop
            invariant
                sr.wf(),
                sr.bytes@ == b,
                b == old(sr).bytes@,
                p0 == old(sr).pos(),
                init == trees_of(self.0@),
                target == array_loop(b, p0, init),
                array_loop(b, sr.pos(), trees_of(this.0@)) == target,
                sr.pos() >= p0,
                sr.pos() == p0 ==> trees_of(this.0@) == init,
            decreases b.len() - sr.pos(),
        {
            let p = sr.curr_index;
            let ghost kids0 = trees_of(this.0@);
            sr.skip_whitespace();
            let p1 = sr.curr_index;
            proof {
                lemma_skip_whitespace_bounds(b, p as int);
            }
            let mut c = match sr.peek() {
                Some(c) => c,
                None => {
                    return Some(JsonValue::IncArray(this));
                },
            };
            proof {
                lemma_skip_whitespace_bounds(b, p1 as int);
                assert(skip_whitespace_from(b, p1 as int) == p1);
            }
            if this.0.len() > 0 {
                let last = this.0.len() - 1;
                let ghost before = this.0@;
                proof {
                    lemma_trees_of_pop(before);
                    assert(tree_size(kids0.last()) <= children_size(kids0));
                }
                let child = this.0.swap_remove(last);
                proof {
                    assert(this.0@ =~= before.drop_last());
                }
                let new_child = match JsonValue::try_continue(sr, child) {
                    Some(v) => v,
                    None => {
                        return None;
                    },
                };
                let q = sr.curr_index;
                if q < p1 {
                    return None;
                }
                proof {
                    lemma_trees_of_push(this.0@, new_child);
                }
                this.0.push(new_child);
                sr.skip_whitespace();
                proof {
                    lemma_skip_whitespace_bounds(b, q as int);
                }
                c = match sr.peek() {
                    Some(c) => c,
                    None => {
                        return Some(JsonValue::IncArray(this));
                    },
                };
            }
            let ghost p2 = sr.pos();
            let ghost kids = trees_of(this.0@);
            assert(array_loop(b, p as int, kids0) == if c.char == 93 {
                Some((JsonTree::Array(kids), p2 + 1))
            } else if c.char == 44 {
                array_loop(b, p2 + 1, kids)
            } else {
                match value_step(b, p2, None) {
                    None => None,
                    Some((child, q2)) => {
                        if q2 <= p || q2 > b.len() {
                            None
                        } else {
                            let kids2 = match child {
                                Some(c) => kids.push(c),
                                None => kids,
                            };
                            array_loop(b, q2, kids2)
                        }
                    },
                }
            });
            if c.char == 93 {
                sr.next();
                return Some(JsonValue::Array(JsonArray(this.0)));
            }
            if c.char == 44 {
                sr.next();
                continue;
            }
            let child = match JsonValue::try_read(sr, None) {
                Some(child) => child,
                None => {
                    return None;
                },
            };
            if sr.curr_index <= p {
                return None;
            }
            match child {
                Some(child) => {
                    proof {
                        lemma_trees_of_push(this.0@, child);
                    }
                    this.0.push(child);
                },
                None => {},
            }
        }
    }
}

impl JsonParsable for IncJsonArray {
    open spec fn parse_spec(&self, b: Seq<u8>, p: int) -> Option<(JsonTree, int)> {
        array_loop(b, p, trees_of(self.0@))
    }

    open spec fn finish_spec(&self) -> JsonTree {
        JsonTree::Array(trees_of(self.0@))
    }

    fn parse(self, sr: &mut StringReader) -> (r: JsonValue) {
        self.try_resume(sr).unwrap()
    }

    open spec fn finish_requires(&self) -> bool {
        true
    }

    fn finish(self) -> (r: JsonValue) {
        JsonValue::Array(JsonArray(self.0))
    }
}

impl From<JsonArray> for JsonValue {
    fn from(value: JsonArray) -> (r: JsonValue) {
        JsonValue::Array(value)
    }
}

impl vstd::std_specs::convert::FromSpecImpl<JsonArray> for JsonValue {
    open spec fn obeys_from_spec() -> bool {
        true
    }

    open spec fn from_spec(value: JsonArray) -> JsonValue {
        JsonValue::Array(value)
    }
}

impl From<IncJsonArray> for JsonValue {
    fn from(value: IncJsonArray) -> (r: JsonValue) {
        JsonValue::IncArray(value)
    }
}

impl vstd::std_specs::convert::FromSpecImpl<IncJsonArray> for JsonValue {
    open spec fn obeys_from_spec() -> bool {
        true
    }

    open spec fn from_spec(value: IncJsonArray) -> JsonValue {
        JsonValue::IncArray(value)
    }
}

} // verus!
