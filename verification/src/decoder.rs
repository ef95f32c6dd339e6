//! What a byte buffer decodes to, and the decoder that computes it.

use vstd::prelude::*;
use vstd::slice::slice_subrange;
use vstd::utf8::{decode_utf8, valid_utf8};
use crate::encoder::fixed_width;
use crate::error::Error;
use crate::param_type::{Kind, ParamType, kinds_of};
use crate::token::{Token, Value, values_of};
use crate::word::{be_value, copy_range, read_size, read_word, size_at, word_at};

verus! {

/// How deep the arrays and tuples of a type nest.
pub open spec fn rank(kind: Kind) -> nat
    decreases kind,
{
    match kind {
        Kind::FixedArray(elem, _) => rank(*elem) + 1,
        Kind::Array(elem) => rank(*elem) + 1,
        Kind::Tuple(members) => list_rank(members) + 1,
        _ => 0,
    }
}

/// The greatest rank among the types of a sequence.
pub open spec fn list_rank(kinds: Seq<Kind>) -> nat
    decreases kinds,
{
    if kinds.len() == 0 {
        0
    } else if list_rank(kinds.drop_last()) >= rank(kinds.last()) {
        list_rank(kinds.drop_last())
    } else {
        rank(kinds.last())
    }
}

/// `count` times the same type: the member types of an array.
pub open spec fn repeat(kind: Kind, count: nat) -> Seq<Kind> {
    Seq::new(count, |i: int| kind)
}

pub proof fn lemma_rank_repeat(kind: Kind, count: nat)
    ensures
        list_rank(repeat(kind, count)) <= rank(kind),
    decreases count,
{
    if count > 0 {
        lemma_rank_repeat(kind, (count - 1) as nat);
        assert(repeat(kind, count).drop_last() =~= repeat(kind, (count - 1) as nat));
    }
}

/// The byte string behind the offset word at byte `at`: the word at that
/// offset is its length, and the bytes follow it. `None` where a word or the
/// bytes do not lie within `region`.
pub open spec fn bytes_behind(region: Seq<u8>, at: nat) -> Option<Seq<u8>> {
    match size_at(region, at) {
        Some(start) => match size_at(region, start) {
            Some(len) => if start + 32 + len <= region.len() {
                Some(region.subrange(start as int + 32, start as int + 32 + len))
            } else {
                None
            },
            None => None,
        },
        None => None,
    }
}

/// The value of type `kind` whose slot is at byte `at` of the head of
/// `region`, and the byte at which the next slot starts. `None` where a read
/// would leave `region`, a boolean is neither 0 nor 1, text is not UTF-8, or
/// an offset, length or count does not fit the machine.
pub open spec fn decode_kind(kind: Kind, region: Seq<u8>, at: nat) -> Option<(Value, nat)>
    decreases rank(kind), 0nat,
{
    match kind {
        Kind::Bool => if at + 32 <= region.len() && be_value(word_at(region, at)) <= 1 {
            Some((Value::Bool(be_value(word_at(region, at)) == 1), at + 32))
        } else {
            None
        },
        Kind::Address => if at + 32 <= region.len() {
            Some((Value::Address(word_at(region, at).skip(12)), at + 32))
        } else {
            None
        },
        Kind::Uint(_) => if at + 32 <= region.len() {
            Some((Value::Uint(word_at(region, at)), at + 32))
        } else {
            None
        },
        Kind::Int(_) => if at + 32 <= region.len() {
            Some((Value::Int(word_at(region, at)), at + 32))
        } else {
            None
        },
        Kind::FixedBytes(len) => if at + fixed_width(len) <= region.len() {
            Some(
                (
                    Value::FixedBytes(region.subrange(at as int, at as int + len)),
                    at + fixed_width(len),
                ),
            )
        } else {
            None
        },
        Kind::Bytes => match bytes_behind(region, at) {
            Some(bytes) => Some((Value::Bytes(bytes), at + 32)),
            None => None,
        },
        Kind::String => match bytes_behind(region, at) {
            Some(bytes) => if valid_utf8(bytes) {
                Some((Value::String(decode_utf8(bytes)), at + 32))
            } else {
                None
            },
            None => None,
        },
        Kind::Array(elem) => match size_at(region, at) {
            Some(start) => match size_at(region, start) {
                Some(count) => {
                    proof {
                        lemma_rank_repeat(*elem, count);
                    }
                    match decode_list(repeat(*elem, count), region.skip(start as int + 32), 0) {
                        Some((items, _)) => Some((Value::Array(items), at + 32)),
                        None => None,
                    }
                },
                None => None,
            },
            None => None,
        },
        Kind::FixedArray(elem, len) => {
            proof {
                lemma_rank_repeat(*elem, len);
            }
            match decode_group(elem.is_dynamic(), repeat(*elem, len), region, at) {
                Some((items, next)) => Some((Value::FixedArray(items), next)),
                None => None,
            }
        },
        Kind::Tuple(members) => match decode_group(kind.is_dynamic(), members, region, at) {
            Some((items, next)) => Some((Value::Tuple(items), next)),
            None => None,
        },
    }
}

/// The members of a fixed array or tuple whose slot is at byte `at`: in
/// place where the type is static, in a region of their own behind an offset
/// word where it is dynamic.
pub open spec fn decode_group(dynamic: bool, kinds: Seq<Kind>, region: Seq<u8>, at: nat) -> Option<
    (Seq<Value>, nat),
>
    decreases list_rank(kinds), kinds.len() + 1,
{
    if dynamic {
        match size_at(region, at) {
            Some(start) => if start <= region.len() {
                match decode_list(kinds, region.skip(start as int), 0) {
                    Some((items, _)) => Some((items, at + 32)),
                    None => None,
                }
            } else {
                None
            },
            None => None,
        }
    } else {
        decode_list(kinds, region, at)
    }
}

/// The values of types `kinds` whose slots follow one another from byte `at`
/// of the head of `region`, and the byte after the last slot.
pub open spec fn decode_list(kinds: Seq<Kind>, region: Seq<u8>, at: nat) -> Option<
    (Seq<Value>, nat),
>
    decreases list_rank(kinds), kinds.len(),
{
    if kinds.len() == 0 {
        Some((Seq::empty(), at))
    } else {
        match decode_list(kinds.drop_last(), region, at) {
            Some((items, next)) => match decode_kind(kinds.last(), region, next) {
                Some((item, after)) => Some((items.push(item), after)),
                None => None,
            },
            None => None,
        }
    }
}

/// The values of types `kinds` that `data` encodes, where it encodes any.
pub open spec fn decoding(kinds: Seq<Kind>, data: Seq<u8>) -> Option<Seq<Value>> {
    match decode_list(kinds, data, 0) {
        Some((values, _)) => Some(values),
        None => None,
    }
}

/// Decoding one more type goes on from where the types before it ended.
pub proof fn lemma_decode_list_next(kinds: Seq<Kind>, region: Seq<u8>, at: nat, i: int)
    requires
        0 <= i < kinds.len(),
    ensures
        decode_list(kinds.take(i + 1), region, at) == match decode_list(
            kinds.take(i),
            region,
            at,
        ) {
            Some((items, next)) => match decode_kind(kinds[i], region, next) {
                Some((item, after)) => Some((items.push(item), after)),
                None => None,
            },
            None => None,
        },
{
    assert(kinds.take(i + 1).drop_last() =~= kinds.take(i));
    assert(kinds.take(i + 1).last() == kinds[i]);
}

/// Where the first types of a sequence fail to decode, the sequence fails.
pub proof fn lemma_decode_list_prefix(kinds: Seq<Kind>, region: Seq<u8>, at: nat, i: int)
    requires
        0 <= i <= kinds.len(),
        decode_list(kinds.take(i), region, at) is None,
    ensures
        decode_list(kinds, region, at) is None,
    decreases kinds.len() - i,
{
    if i == kinds.len() {
        assert(kinds.take(i) =~= kinds);
    } else {
        lemma_decode_list_next(kinds, region, at, i);
        lemma_decode_list_prefix(kinds, region, at, i + 1);
    }
}

/// The model of what the decoder found for one type.
pub open spec fn item_found(found: Option<(Token, usize)>) -> Option<(Value, nat)> {
    match found {
        Some((token, next)) => Some((token@, next as nat)),
        None => None,
    }
}

/// The model of what the decoder found for a sequence of types.
pub open spec fn items_found(found: Option<(Vec<Token>, usize)>) -> Option<(Seq<Value>, nat)> {
    match found {
        Some((tokens, next)) => Some((values_of(tokens@), next as nat)),
        None => None,
    }
}

/// `String::from_utf8` of std: the text that `bytes` spell where they are
/// well-formed UTF-8, and nothing where they are not.
#[verifier::external_body]
fn text_from_utf8(bytes: Vec<u8>) -> (text: Option<String>)
    ensures
        match text {
            Some(s) => valid_utf8(bytes@) && s@ == decode_utf8(bytes@),
            None => !valid_utf8(bytes@),
        },
{
    String::from_utf8(bytes).ok()
}

/// Copies the low 20 bytes of the word at byte `at` of `data`.
fn read_address(data: &[u8], at: usize) -> (address: [u8; 20])
    requires
        at + 32 <= data.len(),
    ensures
        address@ == word_at(data@, at as nat).skip(12),
{
    let mut address = [0u8;20];
    let mut i: usize = 0;
    while i < 20
        invariant
            i <= 20,
            at + 32 <= data.len(),
            forall|j: int| 0 <= j < i ==> address@[j] == data@[at + 12 + j],
        decreases 20 - i,
    {
        address[i] = data[at + 12 + i];
        i += 1;
    }
    assert(address@ =~= word_at(data@, at as nat).skip(12));
    address
}

/// Reads the byte string behind the offset word at byte `at` of `data`.
fn read_bytes_behind(data: &[u8], at: usize) -> (bytes: Option<Vec<u8>>)
    ensures
        match bytes {
            Some(b) => bytes_behind(data@, at as nat) == Some(b@),
            None => bytes_behind(data@, at as nat) is None,
        },
{
    let start = match read_size(data, at) {
        Some(start) => start,
        None => {
            return None;
        },
    };
    let len = match read_size(data, start) {
        Some(len) => len,
        None => {
            return None;
        },
    };
    if len > data.len() - (start + 32) {
        return None;
    }
    Some(copy_range(data, start + 32, len))
}

/// Decodes the value of type `kind` whose slot is at byte `at` of the head
/// of `data`, and tells where the next slot starts.
fn decode_param(kind: &ParamType, data: &[u8], at: usize) -> (found: Option<(Token, usize)>)
    ensures
        item_found(found) == decode_kind(kind@, data@, at as nat),
    decreases kind, 0nat,
{
    assert(data@.len() == data.len());
    match kind {
        ParamType::Bool => match read_size(data, at) {
            Some(n) => if n <= 1 {
                Some((Token::Bool(n == 1), at + 32))
            } else {
                None
            },
            None => None,
        },
        ParamType::Address => {
            if data.len() < 32 || at > data.len() - 32 {
                return None;
            }
            Some((Token::Address(read_address(data, at)), at + 32))
        },
        ParamType::Uint(_) => {
            if data.len() < 32 || at > data.len() - 32 {
                return None;
            }
            Some((Token::Uint(read_word(data, at)), at + 32))
        },
        ParamType::Int(_) => {
            if data.len() < 32 || at > data.len() - 32 {
                return None;
            }
            Some((Token::Int(read_word(data, at)), at + 32))
        },
        ParamType::FixedBytes(len) => decode_fixed_bytes(*len, data, at),
        ParamType::Bytes => match read_bytes_behind(data, at) {
            Some(bytes) => Some((Token::Bytes(bytes), at + 32)),
            None => None,
        },
        ParamType::String => match read_bytes_behind(data, at) {
            Some(bytes) => match text_from_utf8(bytes) {
                Some(text) => Some((Token::String(text), at + 32)),
                None => None,
            },
            None => None,
        },
        ParamType::Array(elem) => decode_array(elem, data, at),
        ParamType::FixedArray(elem, len) => decode_fixed_array(elem, *len, data, at),
        ParamType::Tuple(members) => {
            assert(decreases_to!(kind => kind->Tuple_0));
            decode_tuple(members, kind.is_dynamic(), data, at)
        },
    }
}

/// Decodes the fixed byte string of `len` bytes whose slot is at byte `at`.
fn decode_fixed_bytes(len: usize, data: &[u8], at: usize) -> (found: Option<(Token, usize)>)
    ensures
        item_found(found) == decode_kind(Kind::FixedBytes(len as nat), data@, at as nat),
{
    if len > data.len() {
        return None;
    }
    let over: usize = len % 32;
    let width: usize = if len <= 32 {
        32
    } else if over == 0 {
        len
    } else if len - over > usize::MAX - 32 {
        return None;
    } else {
        len - over + 32
    };
    if width > data.len() || at > data.len() - width {
        return None;
    }
    Some((Token::FixedBytes(copy_range(data, at, len)), at + width))
}

/// Decodes the array of elements of type `elem` whose offset word is at
/// byte `at`: behind the offset stands the count, then the elements in a
/// region of their own.
fn decode_array(elem: &ParamType, data: &[u8], at: usize) -> (found: Option<(Token, usize)>)
    ensures
        item_found(found) == decode_kind(Kind::Array(Box::new(elem@)), data@, at as nat),
    decreases elem, 2nat,
{
    assert(data@.len() == data.len());
    let start = match read_size(data, at) {
        Some(start) => start,
        None => {
            return None;
        },
    };
    let count = match read_size(data, start) {
        Some(count) => count,
        None => {
            return None;
        },
    };
    let inner = slice_subrange(data, start + 32, data.len());
    match decode_repeated(elem, count, inner, 0) {
        Some((items, _)) => Some((Token::Array(items), at + 32)),
        None => None,
    }
}

/// Decodes the fixed array of `len` elements of type `elem` whose slot is
/// at byte `at`: in place where `elem` is static, behind an offset word
/// where it is dynamic.
fn decode_fixed_array(elem: &ParamType, len: usize, data: &[u8], at: usize) -> (found: Option<
    (Token, usize),
>)
    ensures
        item_found(found) == decode_kind(
            Kind::FixedArray(Box::new(elem@), len as nat),
            data@,
            at as nat,
        ),
    decreases elem, 2nat,
{
    assert(data@.len() == data.len());
    if elem.is_dynamic() {
        let start = match read_size(data, at) {
            Some(start) => start,
            None => {
                return None;
            },
        };
        if start > data.len() {
            return None;
        }
        let inner = slice_subrange(data, start, data.len());
        match decode_repeated(elem, len, inner, 0) {
            Some((items, _)) => Some((Token::FixedArray(items), at + 32)),
            None => None,
        }
    } else {
        match decode_repeated(elem, len, data, at) {
            Some((items, next)) => Some((Token::FixedArray(items), next)),
            None => None,
        }
    }
}

/// Decodes the tuple of members of the types `members` whose slot is at
/// byte `at`: in place where the tuple is static, behind an offset word
/// where it is dynamic.
fn decode_tuple(members: &Vec<ParamType>, dynamic: bool, data: &[u8], at: usize) -> (found: Option<
    (Token, usize),
>)
    requires
        dynamic == Kind::Tuple(kinds_of(members@)).is_dynamic(),
    ensures
        item_found(found) == decode_kind(Kind::Tuple(kinds_of(members@)), data@, at as nat),
    decreases members, 1nat,
{
    assert(data@.len() == data.len());
    assert(decreases_to!(members => members@));
    if dynamic {
        let start = match read_size(data, at) {
            Some(start) => start,
            None => {
                return None;
            },
        };
        if start > data.len() {
            return None;
        }
        let inner = slice_subrange(data, start, data.len());
        match decode_slots(members.as_slice(), inner, 0) {
            Some((items, _)) => Some((Token::Tuple(items), at + 32)),
            None => None,
        }
    } else {
        match decode_slots(members.as_slice(), data, at) {
            Some((items, next)) => Some((Token::Tuple(items), next)),
            None => None,
        }
    }
}

/// Decodes `count` values of type `elem` whose slots follow one another
/// from byte `at` of the head of `data`.
fn decode_repeated(elem: &ParamType, count: usize, data: &[u8], at: usize) -> (found: Option<
    (Vec<Token>, usize),
>)
    ensures
        items_found(found) == decode_list(repeat(elem@, count as nat), data@, at as nat),
    decreases elem, 1nat,
{
    let ghost kinds = repeat(elem@, count as nat);
    let mut items: Vec<Token> = Vec::new();
    let mut cursor: usize = at;
    let mut i: usize = 0;
    while i < count
        invariant
            i <= count,
            kinds == repeat(elem@, count as nat),
            decode_list(kinds.take(i as int), data@, at as nat) == Some(
                (values_of(items@), cursor as nat),
            ),
        decreases count - i,
    {
        proof {
            lemma_decode_list_next(kinds, data@, at as nat, i as int);
        }
        match decode_param(elem, data, cursor) {
            Some((token, next)) => {
                assert(values_of(items@.push(token)) =~= values_of(items@).push(token@));
                items.push(token);
                cursor = next;
            },
            None => {
                proof {
                    lemma_decode_list_prefix(kinds, data@, at as nat, i + 1);
                }
                return None;
            },
        }
        i += 1;
    }
    assert(kinds.take(count as int) =~= kinds);
    Some((items, cursor))
}

/// Decodes values of the types `kinds` whose slots follow one another from
/// byte `at` of the head of `data`.
fn decode_slots(kinds: &[ParamType], data: &[u8], at: usize) -> (found: Option<
    (Vec<Token>, usize),
>)
    ensures
        items_found(found) == decode_list(kinds_of(kinds@), data@, at as nat),
    decreases kinds@, 0nat,
{
    let ghost models = kinds_of(kinds@);
    let mut items: Vec<Token> = Vec::new();
    let mut cursor: usize = at;
    let mut i: usize = 0;
    while i < kinds.len()
        invariant
            i <= kinds.len(),
            models == kinds_of(kinds@),
            decode_list(models.take(i as int), data@, at as nat) == Some(
                (values_of(items@), cursor as nat),
            ),
        decreases kinds.len() - i,
    {
        proof {
            lemma_decode_list_next(models, data@, at as nat, i as int);
            assert(models[i as int] == kinds@[i as int]@);
        }
        match decode_param(&kinds[i], data, cursor) {
            Some((token, next)) => {
                assert(values_of(items@.push(token)) =~= values_of(items@).push(token@));
                items.push(token);
                cursor = next;
            },
            None => {
                proof {
                    lemma_decode_list_prefix(models, data@, at as nat, i + 1);
                }
                return None;
            },
        }
        i += 1;
    }
    assert(models.take(kinds.len() as int) =~= models);
    Some((items, cursor))
}

/// Decodes `data` as the encoding of values of the types `types`. Every
/// read is checked against the end of `data`; nothing is returned unless
/// every value decodes.
pub fn decode(types: &[ParamType], data: &[u8]) -> (result: Result<Vec<Token>, Error>)
    ensures
        match result {
            Ok(tokens) => decoding(kinds_of(types@), data@) == Some(values_of(tokens@)),
            Err(error) => error == Error::MalformedEncoding && decoding(kinds_of(types@), data@)
                is None,
        },
{
    match decode_slots(types, data, 0) {
        Some((tokens, _)) => Ok(tokens),
        None => Err(Error::MalformedEncoding),
    }
}

} // verus!
