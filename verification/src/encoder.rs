//! The head/tail layout of values, and the encoder that produces it.

use vstd::prelude::*;
use vstd::utf8::encode_utf8;
use crate::token::{Token, Value, all_wf, lemma_tokens_wf, values_of};
use crate::word::{
    append_bytes,
    append_zeros,
    lemma_be_bytes_len,
    padded_len,
    size_word,
    word,
    zeros,
};

verus! {

/// The bytes that a fixed-length byte string of `len` bytes occupies: one
/// word up to 32 bytes, whole words beyond.
pub open spec fn fixed_width(len: nat) -> nat {
    if len <= 32 {
        32
    } else {
        padded_len(len)
    }
}

/// A byte string behind its length: the length word, the bytes, and zeros up
/// to the next word boundary.
pub open spec fn packed(bytes: Seq<u8>) -> Seq<u8> {
    word(bytes.len()) + bytes + zeros((padded_len(bytes.len()) - bytes.len()) as nat)
}

/// The bytes that stand for a value: in the head where the value is static,
/// as a block of the tail where it is dynamic.
pub open spec fn body(value: Value) -> Seq<u8>
    decreases value, 0nat,
{
    match value {
        Value::Bool(flag) => word(
            if flag {
                1
            } else {
                0
            },
        ),
        Value::Address(bytes) => zeros(12) + bytes,
        Value::Uint(bytes) => bytes,
        Value::Int(bytes) => bytes,
        Value::FixedBytes(bytes) => bytes + zeros((fixed_width(bytes.len()) - bytes.len()) as nat),
        Value::Bytes(bytes) => packed(bytes),
        Value::String(text) => packed(encode_utf8(text)),
        Value::Array(items) => word(items.len()) + encoding(items),
        Value::FixedArray(items) => encoding(items),
        Value::Tuple(items) => encoding(items),
    }
}

/// The bytes that a value takes in the head: an offset word where it is
/// dynamic, its own bytes where it is static.
pub open spec fn slot_len(value: Value) -> nat
    decreases value, 1nat,
{
    if value.is_dynamic() {
        32
    } else {
        body(value).len()
    }
}

/// The length of the head of a sequence of values.
pub open spec fn head_size(values: Seq<Value>) -> nat
    decreases values, 0nat,
{
    if values.len() == 0 {
        0
    } else {
        head_size(values.drop_last()) + slot_len(values.last())
    }
}

/// The tail of a sequence of values: the bodies of the dynamic ones, in order.
pub open spec fn tails(values: Seq<Value>) -> Seq<u8>
    decreases values, 0nat,
{
    if values.len() == 0 {
        Seq::empty()
    } else if values.last().is_dynamic() {
        tails(values.drop_last()) + body(values.last())
    } else {
        tails(values.drop_last())
    }
}

/// The head of a sequence of values whose tail starts at byte `base`: for a
/// static value its body, for a dynamic one the offset of its block.
pub open spec fn heads(values: Seq<Value>, base: nat) -> Seq<u8>
    decreases values, 0nat,
{
    if values.len() == 0 {
        Seq::empty()
    } else if values.last().is_dynamic() {
        heads(values.drop_last(), base) + word(base + tails(values.drop_last()).len())
    } else {
        heads(values.drop_last(), base) + body(values.last())
    }
}

/// The encoding of a sequence of values: the head, then the tail, with
/// offsets counted from the first byte of the head.
pub open spec fn encoding(values: Seq<Value>) -> Seq<u8>
    decreases values, 1nat,
{
    heads(values, head_size(values)) + tails(values)
}

/// The head is as long as the slots of its values.
pub proof fn lemma_heads_len(values: Seq<Value>, base: nat)
    ensures
        heads(values, base).len() == head_size(values),
    decreases values.len(),
{
    if values.len() > 0 {
        let front = values.drop_last();
        lemma_heads_len(front, base);
        lemma_be_bytes_len(base + tails(front).len(), 32);
        if values.last().is_dynamic() {
            assert(heads(values, base) == heads(front, base) + word(base + tails(front).len()));
        } else {
            assert(heads(values, base) == heads(front, base) + body(values.last()));
        }
        assert(head_size(values) == head_size(front) + slot_len(values.last()));
    }
}

/// Taking one more value adds its slot to the head and, where it is
/// dynamic, its body to the tail.
pub proof fn lemma_take_next(values: Seq<Value>, i: int, base: nat)
    requires
        0 <= i < values.len(),
    ensures
        head_size(values.take(i + 1)) == head_size(values.take(i)) + slot_len(values[i]),
        tails(values.take(i + 1)) == if values[i].is_dynamic() {
            tails(values.take(i)) + body(values[i])
        } else {
            tails(values.take(i))
        },
        heads(values.take(i + 1), base) == if values[i].is_dynamic() {
            heads(values.take(i), base) + word(base + tails(values.take(i)).len())
        } else {
            heads(values.take(i), base) + body(values[i])
        },
{
    assert(values.take(i + 1).drop_last() =~= values.take(i));
    assert(values.take(i + 1).last() == values[i]);
}

/// The bytes that stand for a well-formed value are whole words.
pub proof fn lemma_body_aligned(value: Value)
    requires
        value.wf(),
    ensures
        body(value).len() % 32 == 0,
    decreases value,
{
    match value {
        Value::Bool(flag) => {
            lemma_be_bytes_len(
                if flag {
                    1
                } else {
                    0
                },
                32,
            );
        },
        Value::Bytes(bytes) => {
            lemma_be_bytes_len(bytes.len(), 32);
        },
        Value::String(text) => {
            lemma_be_bytes_len(encode_utf8(text).len(), 32);
        },
        Value::Array(items) => {
            lemma_be_bytes_len(items.len(), 32);
            lemma_encoding_aligned(items);
        },
        Value::FixedArray(items) => {
            lemma_encoding_aligned(items);
        },
        Value::Tuple(items) => {
            lemma_encoding_aligned(items);
        },
        _ => {},
    }
}

/// The encoding of well-formed values is made of whole words: its length,
/// and the lengths of its head and of its tail, are multiples of 32. The
/// encoding of no values is empty.
pub proof fn lemma_encoding_aligned(values: Seq<Value>)
    requires
        all_wf(values),
    ensures
        encoding(values).len() % 32 == 0,
        head_size(values) % 32 == 0,
        tails(values).len() % 32 == 0,
        values.len() == 0 ==> encoding(values).len() == 0,
    decreases values,
{
    lemma_heads_len(values, head_size(values));
    if values.len() > 0 {
        let front = values.drop_last();
        let last = values.last();
        assert(all_wf(front)) by {
            assert forall|i: int| 0 <= i < front.len() implies (#[trigger] front[i]).wf() by {
                assert(front[i] == values[i]);
            }
        }
        assert(last.wf()) by {
            assert(values[values.len() - 1].wf());
        }
        lemma_encoding_aligned(front);
        lemma_body_aligned(last);
        let slot = slot_len(last);
        let block = body(last).len();
        assert(slot % 32 == 0);
        assert(head_size(values) == head_size(front) + slot);
        assert(tails(values).len() == tails(front).len() + block || tails(values).len()
            == tails(front).len());
        lemma_sum_aligned(head_size(front), slot);
        lemma_sum_aligned(tails(front).len(), block);
        lemma_sum_aligned(head_size(values), tails(values).len());
    }
}

proof fn lemma_sum_aligned(a: nat, b: nat)
    requires
        a % 32 == 0,
        b % 32 == 0,
    ensures
        (a + b) % 32 == 0,
{
}

/// Encodes `tokens` as one head/tail region: for each token in order a
/// slot in the head, then the blocks of the dynamic tokens in order.
pub fn encode(tokens: &[Token]) -> (bytes: Vec<u8>)
    ensures
        bytes@ == encoding(values_of(tokens@)),
        bytes@.len() % 32 == 0,
    decreases tokens@,
{
    let ghost values = values_of(tokens@);
    proof {
        assert(tokens@.len() == tokens.len());
        lemma_tokens_wf(tokens@);
        lemma_encoding_aligned(values);
    }
    let ghost top = usize::MAX as int;
    let mut bodies: Vec<Vec<u8>> = Vec::new();
    let mut head: u128 = 0;
    let mut i: usize = 0;
    while i < tokens.len()
        invariant
            i <= tokens.len(),
            values == values_of(tokens@),
            top == usize::MAX,
            bodies@.len() == i,
            forall|j: int| 0 <= j < i ==> (#[trigger] bodies@[j])@ == body(values[j]),
            head == head_size(values.take(i as int)),
            head <= i * top,
        decreases tokens.len() - i,
    {
        proof {
            lemma_take_next(values, i as int, 0);
            assert((i + 1) * top == i * top + top) by (nonlinear_arith);
            assert(i * top + top <= top * top + top) by (nonlinear_arith)
                requires
                    0 <= i <= top,
            ;
            assert(top * top + top <= u128::MAX) by (nonlinear_arith)
                requires
                    0 <= top <= 0xffff_ffff_ffff_ffff,
            ;
            assert(values[i as int] == tokens@[i as int]@);
        }
        let block = encode_token(&tokens[i]);
        let slot: usize = if tokens[i].is_dynamic() {
            32
        } else {
            block.len()
        };
        head = head + slot as u128;
        bodies.push(block);
        i += 1;
    }
    assert(values.take(tokens.len() as int) =~= values);
    assert(i * top <= top * top) by (nonlinear_arith)
        requires
            0 <= i <= top,
    ;
    let mut out: Vec<u8> = Vec::new();
    let mut tail: Vec<u8> = Vec::new();
    i = 0;
    while i < tokens.len()
        invariant
            i <= tokens.len(),
            values == values_of(tokens@),
            top == usize::MAX,
            bodies@.len() == tokens.len(),
            forall|j: int| 0 <= j < bodies@.len() ==> (#[trigger] bodies@[j])@ == body(values[j]),
            head == head_size(values),
            head <= top * top,
            out@ == heads(values.take(i as int), head as nat),
            tail@ == tails(values.take(i as int)),
        decreases tokens.len() - i,
    {
        proof {
            lemma_take_next(values, i as int, head as nat);
            assert(values[i as int] == tokens@[i as int]@);
            assert(top * top + top <= u128::MAX) by (nonlinear_arith)
                requires
                    0 <= top <= 0xffff_ffff_ffff_ffff,
            ;
        }
        if tokens[i].is_dynamic() {
            let offset = size_word(head + tail.len() as u128);
            append_bytes(&mut out, offset.as_slice());
            append_bytes(&mut tail, bodies[i].as_slice());
        } else {
            append_bytes(&mut out, bodies[i].as_slice());
        }
        i += 1;
    }
    assert(values.take(tokens.len() as int) =~= values);
    append_bytes(&mut out, tail.as_slice());
    out
}

/// Encodes the bytes that stand for one token.
pub fn encode_token(token: &Token) -> (bytes: Vec<u8>)
    ensures
        bytes@ == body(token@),
    decreases token,
{
    let mut out: Vec<u8> = Vec::new();
    match token {
        Token::Bool(flag) => {
            let w = size_word(
                if *flag {
                    1
                } else {
                    0
                },
            );
            append_bytes(&mut out, w.as_slice());
        },
        Token::Address(bytes) => {
            append_zeros(&mut out, 12);
            append_bytes(&mut out, bytes.as_slice());
        },
        Token::Uint(bytes) => {
            append_bytes(&mut out, bytes.as_slice());
        },
        Token::Int(bytes) => {
            append_bytes(&mut out, bytes.as_slice());
        },
        Token::FixedBytes(bytes) => {
            append_bytes(&mut out, bytes.as_slice());
            let gap: usize = if bytes.len() <= 32 {
                32 - bytes.len()
            } else {
                (32 - bytes.len() % 32) % 32
            };
            append_zeros(&mut out, gap);
        },
        Token::Bytes(bytes) => {
            append_packed(&mut out, bytes.as_slice());
        },
        Token::String(text) => {
            append_packed(&mut out, text.as_str().as_bytes());
        },
        Token::Array(items) => {
            assert(decreases_to!(token => token->Array_0));
            assert(decreases_to!(items => items@));
            let count = size_word(items.len() as u128);
            append_bytes(&mut out, count.as_slice());
            let region = encode(items.as_slice());
            append_bytes(&mut out, region.as_slice());
        },
        Token::FixedArray(items) => {
            assert(decreases_to!(token => token->FixedArray_0));
            assert(decreases_to!(items => items@));
            let region = encode(items.as_slice());
            append_bytes(&mut out, region.as_slice());
        },
        Token::Tuple(items) => {
            assert(decreases_to!(token => token->Tuple_0));
            assert(decreases_to!(items => items@));
            let region = encode(items.as_slice());
            append_bytes(&mut out, region.as_slice());
        },
    }
    out
}

/// Appends to `out` the length of `bytes`, the bytes, and zeros up to the
/// next word boundary.
fn append_packed(out: &mut Vec<u8>, bytes: &[u8])
    ensures
        final(out)@ == old(out)@ + packed(bytes@),
{
    let len = size_word(bytes.len() as u128);
    append_bytes(out, len.as_slice());
    append_bytes(out, bytes);
    append_zeros(out, (32 - bytes.len() % 32) % 32);
    assert(out@ =~= old(out)@ + packed(bytes@));
}

} // verus!
