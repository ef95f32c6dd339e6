//! Reading a type from its name in an interface description.

use vstd::prelude::*;
use vstd::slice::slice_subrange;
use vstd::utf8::{encode_utf8, is_ascii_chars, is_ascii_chars_encode_utf8};
use crate::error::Error;
use crate::param_type::{Kind, ParamType};
use crate::writer::{canonical_name, decimal};

verus! {

/// The byte `[`.
pub const OPEN: u8 = 91;

/// The byte `]`.
pub const CLOSE: u8 = 93;

/// Whether `byte` is a decimal digit.
pub open spec fn is_digit(byte: u8) -> bool {
    48 <= byte <= 57
}

/// The number that decimal digits spell; nothing where a byte is no digit.
/// No digits spell 0.
pub open spec fn number(text: Seq<u8>) -> Option<nat>
    decreases text.len(),
{
    if text.len() == 0 {
        Some(0)
    } else if is_digit(text.last()) {
        match number(text.drop_last()) {
            Some(front) => Some(front * 10 + (text.last() - 48) as nat),
            None => None,
        }
    } else {
        None
    }
}

/// The size that `text` spells: one digit or more, and a number that the
/// machine's `usize` holds.
pub open spec fn size_of_text(text: Seq<u8>) -> Option<nat> {
    if text.len() == 0 {
        None
    } else {
        match number(text) {
            Some(n) => if n <= usize::MAX {
                Some(n)
            } else {
                None
            },
            None => None,
        }
    }
}

/// The place of the last `[` in `text`.
pub open spec fn last_open(text: Seq<u8>) -> Option<int>
    decreases text.len(),
{
    if text.len() == 0 {
        None
    } else if text.last() == OPEN {
        Some(text.len() - 1)
    } else {
        last_open(text.drop_last())
    }
}

/// Whether `text` begins with `prefix`.
pub open spec fn begins_with(text: Seq<u8>, prefix: Seq<u8>) -> bool {
    prefix.len() <= text.len() && text.take(prefix.len() as int) == prefix
}

/// The type that a name without array brackets stands for: `address`,
/// `bytes`, `bool`, `string`, `tuple` (whose members are declared apart),
/// `uint` and `int` (256 bits wide), or `uint`, `int` or `bytes` followed by
/// a size.
pub open spec fn parse_base(text: Seq<u8>) -> Option<Kind> {
    if text == encode_utf8("address"@) {
        Some(Kind::Address)
    } else if text == encode_utf8("bytes"@) {
        Some(Kind::Bytes)
    } else if text == encode_utf8("bool"@) {
        Some(Kind::Bool)
    } else if text == encode_utf8("string"@) {
        Some(Kind::String)
    } else if text == encode_utf8("int"@) {
        Some(Kind::Int(256))
    } else if text == encode_utf8("tuple"@) {
        Some(Kind::Tuple(Seq::empty()))
    } else if text == encode_utf8("uint"@) {
        Some(Kind::Uint(256))
    } else if begins_with(text, encode_utf8("int"@)) {
        match size_of_text(text.skip(encode_utf8("int"@).len() as int)) {
            Some(bits) => Some(Kind::Int(bits)),
            None => None,
        }
    } else if begins_with(text, encode_utf8("uint"@)) {
        match size_of_text(text.skip(encode_utf8("uint"@).len() as int)) {
            Some(bits) => Some(Kind::Uint(bits)),
            None => None,
        }
    } else if begins_with(text, encode_utf8("bytes"@)) {
        match size_of_text(text.skip(encode_utf8("bytes"@).len() as int)) {
            Some(len) => Some(Kind::FixedBytes(len)),
            None => None,
        }
    } else {
        None
    }
}

/// The type that a name stands for. A name that ends in `]` is an array of
/// what stands before its last `[`: of any length where nothing stands
/// between the brackets, of the length that stands there otherwise.
pub open spec fn parse_name(text: Seq<u8>) -> Option<Kind>
    decreases text.len(),
{
    if text.len() > 0 && text.last() == CLOSE {
        match last_open(text.drop_last()) {
            Some(open) => if 0 <= open < text.len() - 1 {
                match parse_name(text.take(open)) {
                    Some(elem) => if open + 2 == text.len() {
                        Some(Kind::Array(Box::new(elem)))
                    } else {
                        match size_of_text(text.subrange(open + 1, text.len() - 1)) {
                            Some(len) => Some(Kind::FixedArray(Box::new(elem), len)),
                            None => None,
                        }
                    },
                    None => None,
                }
            } else {
                None
            },
            None => None,
        }
    } else {
        parse_base(text)
    }
}

/// What `text` reads as: the type it stands for, where that type is valid.
pub open spec fn read_name(text: Seq<u8>) -> Option<Kind> {
    match parse_name(text) {
        Some(kind) => if kind.valid() {
            Some(kind)
        } else {
            None
        },
        None => None,
    }
}

/// The first digits of a number spell a number that is no greater.
pub proof fn lemma_number_prefix(text: Seq<u8>, i: int)
    requires
        0 <= i <= text.len(),
        number(text) is Some,
    ensures
        number(text.take(i)) is Some,
        number(text.take(i))->0 <= number(text)->0,
    decreases text.len() - i,
{
    if i == text.len() {
        assert(text.take(i) =~= text);
    } else {
        lemma_number_prefix(text, i + 1);
        assert(text.take(i + 1).drop_last() =~= text.take(i));
    }
}

/// The place of the last `[` is a place of `text`.
pub proof fn lemma_last_open(text: Seq<u8>)
    ensures
        last_open(text) matches Some(open) ==> 0 <= open < text.len() && text[open] == OPEN,
    decreases text.len(),
{
    if text.len() > 0 && text.last() != OPEN {
        lemma_last_open(text.drop_last());
    }
}

/// Tells whether two byte strings are the same.
fn same_bytes(a: &[u8], b: &[u8]) -> (same: bool)
    ensures
        same == (a@ == b@),
{
    if a.len() != b.len() {
        return false;
    }
    let mut i: usize = 0;
    while i < a.len()
        invariant
            i <= a.len(),
            a.len() == b.len(),
            forall|j: int| 0 <= j < i ==> a@[j] == b@[j],
        decreases a.len() - i,
    {
        if a[i] != b[i] {
            return false;
        }
        i += 1;
    }
    assert(a@ =~= b@);
    true
}

/// Takes `prefix` off the front of `text`, where `text` begins with it.
fn strip_prefix<'a>(text: &'a [u8], prefix: &[u8]) -> (rest: Option<&'a [u8]>)
    ensures
        match rest {
            Some(rest) => begins_with(text@, prefix@) && rest@ == text@.skip(prefix@.len() as int),
            None => !begins_with(text@, prefix@),
        },
{
    if prefix.len() > text.len() {
        return None;
    }
    if same_bytes(slice_subrange(text, 0, prefix.len()), prefix) {
        Some(slice_subrange(text, prefix.len(), text.len()))
    } else {
        None
    }
}

/// Reads a size from decimal digits.
fn read_size_text(text: &[u8]) -> (size: Option<usize>)
    ensures
        match size {
            Some(n) => size_of_text(text@) == Some(n as nat),
            None => size_of_text(text@) is None,
        },
{
    if text.len() == 0 {
        return None;
    }
    let mut acc: usize = 0;
    let mut i: usize = 0;
    while i < text.len()
        invariant
            i <= text.len(),
            number(text@.take(i as int)) == Some(acc as nat),
        decreases text.len() - i,
    {
        let byte = text[i];
        proof {
            assert(text@.take(i + 1).drop_last() =~= text@.take(i as int));
            if number(text@) is Some {
                lemma_number_prefix(text@, i + 1);
            }
        }
        if byte < 48 || byte > 57 {
            return None;
        }
        let shifted = match acc.checked_mul(10) {
            Some(m) => m,
            None => {
                return None;
            },
        };
        acc =
        match shifted.checked_add((byte - 48) as usize) {
            Some(s) => s,
            None => {
                return None;
            },
        };
        i += 1;
    }
    assert(text@.take(text.len() as int) =~= text@);
    Some(acc)
}

/// Finds the last `[` of `text`.
fn find_last_open(text: &[u8]) -> (place: Option<usize>)
    ensures
        match place {
            Some(i) => last_open(text@) == Some(i as int),
            None => last_open(text@) is None,
        },
{
    let mut end: usize = text.len();
    assert(text@.take(text.len() as int) =~= text@);
    while end > 0
        invariant
            end <= text.len(),
            last_open(text@) == last_open(text@.take(end as int)),
        decreases end,
    {
        proof {
            assert(text@.take(end as int).drop_last() =~= text@.take(end - 1));
        }
        if text[end - 1] == OPEN {
            return Some(end - 1);
        }
        end -= 1;
    }
    None
}

/// Reads a type from a name without array brackets.
fn read_base(text: &[u8]) -> (kind: Option<ParamType>)
    ensures
        match kind {
            Some(kind) => parse_base(text@) == Some(kind@),
            None => parse_base(text@) is None,
        },
{
    if same_bytes(text, "address".as_bytes()) {
        Some(ParamType::Address)
    } else if same_bytes(text, "bytes".as_bytes()) {
        Some(ParamType::Bytes)
    } else if same_bytes(text, "bool".as_bytes()) {
        Some(ParamType::Bool)
    } else if same_bytes(text, "string".as_bytes()) {
        Some(ParamType::String)
    } else if same_bytes(text, "int".as_bytes()) {
        Some(ParamType::Int(256))
    } else if same_bytes(text, "tuple".as_bytes()) {
        let members: Vec<ParamType> = Vec::new();
        assert(crate::param_type::kinds_of(members@) =~= Seq::<Kind>::empty());
        Some(ParamType::Tuple(members))
    } else if same_bytes(text, "uint".as_bytes()) {
        Some(ParamType::Uint(256))
    } else if let Some(digits) = strip_prefix(text, "int".as_bytes()) {
        match read_size_text(digits) {
            Some(bits) => Some(ParamType::Int(bits)),
            None => None,
        }
    } else if let Some(digits) = strip_prefix(text, "uint".as_bytes()) {
        match read_size_text(digits) {
            Some(bits) => Some(ParamType::Uint(bits)),
            None => None,
        }
    } else if let Some(digits) = strip_prefix(text, "bytes".as_bytes()) {
        match read_size_text(digits) {
            Some(len) => Some(ParamType::FixedBytes(len)),
            None => None,
        }
    } else {
        None
    }
}

/// Reads a type from the bytes of its name.
fn read_bytes(text: &[u8]) -> (kind: Option<ParamType>)
    ensures
        match kind {
            Some(kind) => parse_name(text@) == Some(kind@),
            None => parse_name(text@) is None,
        },
    decreases text.len(),
{
    if text.len() > 0 && text[text.len() - 1] == CLOSE {
        let inside = slice_subrange(text, 0, text.len() - 1);
        assert(inside@ =~= text@.drop_last());
        proof {
            lemma_last_open(inside@);
        }
        let open = match find_last_open(inside) {
            Some(open) => open,
            None => {
                return None;
            },
        };
        let elem = match read_bytes(slice_subrange(text, 0, open)) {
            Some(elem) => elem,
            None => {
                return None;
            },
        };
        if open + 2 == text.len() {
            Some(ParamType::Array(Box::new(elem)))
        } else {
            match read_size_text(slice_subrange(text, open + 1, text.len() - 1)) {
                Some(len) => Some(ParamType::FixedArray(Box::new(elem), len)),
                None => None,
            }
        }
    } else {
        read_base(text)
    }
}

/// Reads types from their names.
pub struct Reader;

impl Reader {
    /// Reads the type that `name` stands for. Fails where `name` stands
    /// for no type, or for a type that is not valid.
    pub fn read(name: &str) -> (result: Result<ParamType, Error>)
        ensures
            match result {
                Ok(kind) => read_name(encode_utf8(name@)) == Some(kind@),
                Err(error) => error == Error::UnsupportedShape && read_name(encode_utf8(name@))
                    is None,
            },
    {
        match read_bytes(name.as_bytes()) {
            Some(kind) => if kind.is_valid() {
                Ok(kind)
            } else {
                Err(Error::UnsupportedShape)
            },
            None => Err(Error::UnsupportedShape),
        }
    }
}

/// Whether a type is written without round brackets and has no length
/// beyond the machine's: no tuple stands in it.
pub open spec fn plain(kind: Kind) -> bool
    decreases kind,
{
    match kind {
        Kind::Tuple(_) => false,
        Kind::FixedArray(elem, len) => len <= usize::MAX && plain(*elem),
        Kind::Array(elem) => plain(*elem),
        _ => true,
    }
}

/// The bytes of text whose characters are all ASCII.
pub open spec fn ascii_bytes(text: Seq<char>) -> Seq<u8> {
    Seq::new(text.len(), |i: int| text[i] as u8)
}

proof fn lemma_ascii(text: Seq<char>)
    requires
        is_ascii_chars(text),
    ensures
        encode_utf8(text) == ascii_bytes(text),
{
    is_ascii_chars_encode_utf8(text);
    assert(encode_utf8(text) =~= ascii_bytes(text));
}

proof fn lemma_ascii_joined(a: Seq<char>, b: Seq<char>)
    requires
        is_ascii_chars(a),
        is_ascii_chars(b),
    ensures
        is_ascii_chars(a + b),
        ascii_bytes(a + b) == ascii_bytes(a) + ascii_bytes(b),
{
    assert forall|i: int| 0 <= i < (a + b).len() implies '\0' <= #[trigger] (a + b)[i]
        <= '\u{7f}' by {
        if i < a.len() {
            assert((a + b)[i] == a[i]);
        } else {
            assert((a + b)[i] == b[i - a.len()]);
        }
    }
    assert(ascii_bytes(a + b) =~= ascii_bytes(a) + ascii_bytes(b));
}

/// What the reader's words are made of.
proof fn lemma_words()
    ensures
        is_ascii_chars("address"@),
        is_ascii_chars("bytes"@),
        is_ascii_chars("bool"@),
        is_ascii_chars("string"@),
        is_ascii_chars("int"@),
        is_ascii_chars("tuple"@),
        is_ascii_chars("uint"@),
        encode_utf8("address"@) == ascii_bytes("address"@),
        encode_utf8("bytes"@) == ascii_bytes("bytes"@),
        encode_utf8("bool"@) == ascii_bytes("bool"@),
        encode_utf8("string"@) == ascii_bytes("string"@),
        encode_utf8("int"@) == ascii_bytes("int"@),
        encode_utf8("tuple"@) == ascii_bytes("tuple"@),
        encode_utf8("uint"@) == ascii_bytes("uint"@),
        ascii_bytes("address"@).len() == 7,
        ascii_bytes("bytes"@).len() == 5,
        ascii_bytes("bool"@).len() == 4,
        ascii_bytes("string"@).len() == 6,
        ascii_bytes("int"@).len() == 3,
        ascii_bytes("tuple"@).len() == 5,
        ascii_bytes("uint"@).len() == 4,
        ascii_bytes("address"@)[0] == 97,
        ascii_bytes("bytes"@)[0] == 98,
        ascii_bytes("bool"@)[0] == 98,
        ascii_bytes("string"@)[0] == 115,
        ascii_bytes("int"@)[0] == 105,
        ascii_bytes("tuple"@)[0] == 116,
        ascii_bytes("uint"@)[0] == 117,
        ascii_bytes("bytes"@)[1] == 121,
        ascii_bytes("bool"@)[1] == 111,
        ascii_bytes("address"@)[6] == 115,
        ascii_bytes("bytes"@)[4] == 115,
        ascii_bytes("bool"@)[3] == 108,
        ascii_bytes("string"@)[5] == 103,
{
    reveal_strlit("address");
    reveal_strlit("bytes");
    reveal_strlit("bool");
    reveal_strlit("string");
    reveal_strlit("int");
    reveal_strlit("tuple");
    reveal_strlit("uint");
    lemma_ascii("address"@);
    lemma_ascii("bytes"@);
    lemma_ascii("bool"@);
    lemma_ascii("string"@);
    lemma_ascii("int"@);
    lemma_ascii("tuple"@);
    lemma_ascii("uint"@);
}

/// What the brackets are made of.
proof fn lemma_brackets()
    ensures
        is_ascii_chars("["@),
        is_ascii_chars("]"@),
        is_ascii_chars("[]"@),
        ascii_bytes("["@) == seq![OPEN],
        ascii_bytes("]"@) == seq![CLOSE],
        ascii_bytes("[]"@) == seq![OPEN, CLOSE],
{
    reveal_strlit("[");
    reveal_strlit("]");
    reveal_strlit("[]");
    assert(ascii_bytes("["@) =~= seq![OPEN]);
    assert(ascii_bytes("]"@) =~= seq![CLOSE]);
    assert(ascii_bytes("[]"@) =~= seq![OPEN, CLOSE]);
}

/// A number written in decimal reads as that number.
proof fn lemma_decimal_reads(n: nat)
    ensures
        is_ascii_chars(decimal(n)),
        decimal(n).len() > 0,
        number(ascii_bytes(decimal(n))) == Some(n),
        forall|i: int|
            0 <= i < decimal(n).len() ==> is_digit(#[trigger] ascii_bytes(decimal(n))[i]),
    decreases n,
{
    reveal_strlit("0123456789");
    let last = (n % 10) as int;
    let code = "0123456789"@[last] as u8;
    assert(code == 48 + last) by {
        if last == 0 {
        } else if last == 1 {
        } else if last == 2 {
        } else if last == 3 {
        } else if last == 4 {
        } else if last == 5 {
        } else if last == 6 {
        } else if last == 7 {
        } else if last == 8 {
        } else {
        }
    }
    let text = decimal(n);
    let bytes = ascii_bytes(text);
    if n < 10 {
        assert(text =~= seq!["0123456789"@[last]]);
        assert(bytes =~= seq![code]);
        assert(bytes.drop_last() =~= Seq::<u8>::empty());
        assert(number(bytes) == Some(n)) by {
            reveal_with_fuel(number, 2);
        }
    } else {
        lemma_decimal_reads(n / 10);
        let front = decimal(n / 10);
        assert(text == front + seq!["0123456789"@[last]]);
        assert(bytes.drop_last() =~= ascii_bytes(front));
        assert(bytes.last() == code);
        assert forall|i: int| 0 <= i < text.len() implies is_digit(#[trigger] bytes[i]) by {
            if i < front.len() {
                assert(bytes[i] == ascii_bytes(front)[i]);
            }
        }
        assert forall|i: int| 0 <= i < text.len() implies '\0' <= #[trigger] text[i]
            <= '\u{7f}' by {
            if i < front.len() {
                assert(text[i] == front[i]);
            }
        }
    }
}

/// The last `[` of text that ends in `[` and digits is the one before the
/// digits.
proof fn lemma_last_open_before_digits(front: Seq<u8>, digits: Seq<u8>)
    requires
        forall|i: int| 0 <= i < digits.len() ==> is_digit(#[trigger] digits[i]),
    ensures
        last_open(front + seq![OPEN] + digits) == Some(front.len() as int),
    decreases digits.len(),
{
    let text = front + seq![OPEN] + digits;
    if digits.len() == 0 {
        assert(text.last() == OPEN);
    } else {
        assert(text.last() == digits.last());
        assert(is_digit(digits[digits.len() - 1]));
        assert(text.drop_last() =~= front + seq![OPEN] + digits.drop_last());
        lemma_last_open_before_digits(front, digits.drop_last());
    }
}

/// A name made of a word and a size reads as that word with that size.
proof fn lemma_sized_name(word: Seq<char>, n: nat)
    requires
        is_ascii_chars(word),
        n <= usize::MAX,
    ensures
        is_ascii_chars(word + decimal(n)),
        ascii_bytes(word + decimal(n)) == ascii_bytes(word) + ascii_bytes(decimal(n)),
        ascii_bytes(word + decimal(n)).len() > word.len(),
        is_digit(ascii_bytes(word + decimal(n)).last()),
        begins_with(ascii_bytes(word + decimal(n)), ascii_bytes(word)),
        size_of_text(ascii_bytes(word + decimal(n)).skip(word.len() as int)) == Some(n),
{
    lemma_decimal_reads(n);
    lemma_ascii_joined(word, decimal(n));
    let digits = ascii_bytes(decimal(n));
    let bytes = ascii_bytes(word + decimal(n));
    assert(bytes.last() == digits[digits.len() - 1]);
    assert(bytes.take(word.len() as int) =~= ascii_bytes(word));
    assert(bytes.skip(word.len() as int) =~= digits);
}

/// Reading the canonical name of a valid type without tuples gives the
/// type back.
pub proof fn lemma_read_written(kind: Kind)
    requires
        kind.valid(),
        plain(kind),
    ensures
        read_name(encode_utf8(canonical_name(kind))) == Some(kind),
{
    lemma_parse_written(kind);
    lemma_ascii(canonical_name(kind));
}

proof fn lemma_parse_written(kind: Kind)
    requires
        kind.valid(),
        plain(kind),
    ensures
        is_ascii_chars(canonical_name(kind)),
        canonical_name(kind).len() > 0,
        parse_name(ascii_bytes(canonical_name(kind))) == Some(kind),
    decreases kind,
{
    match kind {
        Kind::Address => {
            lemma_parse_word(kind);
        },
        Kind::Bytes => {
            lemma_parse_word(kind);
        },
        Kind::Bool => {
            lemma_parse_word(kind);
        },
        Kind::String => {
            lemma_parse_word(kind);
        },
        Kind::Uint(bits) => {
            lemma_parse_uint(bits);
        },
        Kind::Int(bits) => {
            lemma_parse_int(bits);
        },
        Kind::FixedBytes(len) => {
            lemma_parse_fixed_bytes(len);
        },
        Kind::Array(elem) => {
            lemma_parse_written(*elem);
            lemma_parse_array(*elem);
        },
        Kind::FixedArray(elem, len) => {
            lemma_parse_written(*elem);
            lemma_parse_fixed_array(*elem, len);
        },
        Kind::Tuple(_) => {},
    }
}

proof fn lemma_parse_word(kind: Kind)
    requires
        kind is Address || kind is Bytes || kind is Bool || kind is String,
    ensures
        is_ascii_chars(canonical_name(kind)),
        canonical_name(kind).len() > 0,
        parse_name(ascii_bytes(canonical_name(kind))) == Some(kind),
{
    lemma_words();
    let bytes = ascii_bytes(canonical_name(kind));
    assert(bytes.last() == bytes[bytes.len() - 1]);
}

proof fn lemma_parse_uint(bits: nat)
    requires
        bits <= usize::MAX,
    ensures
        is_ascii_chars(canonical_name(Kind::Uint(bits))),
        canonical_name(Kind::Uint(bits)).len() > 0,
        parse_name(ascii_bytes(canonical_name(Kind::Uint(bits)))) == Some(Kind::Uint(bits)),
{
    lemma_words();
    lemma_sized_name("uint"@, bits);
    let bytes = ascii_bytes(canonical_name(Kind::Uint(bits)));
    assert(bytes[0] == ascii_bytes("uint"@)[0]);
    assert(bytes.take(3)[0] == bytes[0]);
    assert(parse_base(bytes) == Some(Kind::Uint(bits)));
}

proof fn lemma_parse_int(bits: nat)
    requires
        bits <= usize::MAX,
    ensures
        is_ascii_chars(canonical_name(Kind::Int(bits))),
        canonical_name(Kind::Int(bits)).len() > 0,
        parse_name(ascii_bytes(canonical_name(Kind::Int(bits)))) == Some(Kind::Int(bits)),
{
    lemma_words();
    lemma_sized_name("int"@, bits);
    let bytes = ascii_bytes(canonical_name(Kind::Int(bits)));
    assert(bytes[0] == ascii_bytes("int"@)[0]);
    assert(parse_base(bytes) == Some(Kind::Int(bits)));
}

proof fn lemma_parse_fixed_bytes(len: nat)
    requires
        len <= usize::MAX,
    ensures
        is_ascii_chars(canonical_name(Kind::FixedBytes(len))),
        canonical_name(Kind::FixedBytes(len)).len() > 0,
        parse_name(ascii_bytes(canonical_name(Kind::FixedBytes(len)))) == Some(
            Kind::FixedBytes(len),
        ),
{
    lemma_words();
    lemma_sized_name("bytes"@, len);
    let bytes = ascii_bytes(canonical_name(Kind::FixedBytes(len)));
    assert(bytes[0] == ascii_bytes("bytes"@)[0]);
    assert(bytes[1] == ascii_bytes("bytes"@)[1]);
    assert(bytes.take(3)[0] == bytes[0]);
    assert(bytes.take(4)[0] == bytes[0]);
    assert(parse_base(bytes) == Some(Kind::FixedBytes(len)));
}

proof fn lemma_parse_array(elem: Kind)
    requires
        is_ascii_chars(canonical_name(elem)),
        parse_name(ascii_bytes(canonical_name(elem))) == Some(elem),
    ensures
        is_ascii_chars(canonical_name(Kind::Array(Box::new(elem)))),
        canonical_name(Kind::Array(Box::new(elem))).len() > 0,
        parse_name(ascii_bytes(canonical_name(Kind::Array(Box::new(elem))))) == Some(
            Kind::Array(Box::new(elem)),
        ),
{
    lemma_brackets();
    let bytes = ascii_bytes(canonical_name(Kind::Array(Box::new(elem))));
    let front = ascii_bytes(canonical_name(elem));
    lemma_ascii_joined(canonical_name(elem), "[]"@);
    assert(bytes =~= front + seq![OPEN, CLOSE]);
    assert(bytes.drop_last() =~= front + seq![OPEN] + Seq::<u8>::empty());
    lemma_last_open_before_digits(front, Seq::<u8>::empty());
    assert(bytes.take(front.len() as int) =~= front);
}

proof fn lemma_parse_fixed_array(elem: Kind, len: nat)
    requires
        len <= usize::MAX,
        is_ascii_chars(canonical_name(elem)),
        parse_name(ascii_bytes(canonical_name(elem))) == Some(elem),
    ensures
        is_ascii_chars(canonical_name(Kind::FixedArray(Box::new(elem), len))),
        canonical_name(Kind::FixedArray(Box::new(elem), len)).len() > 0,
        parse_name(ascii_bytes(canonical_name(Kind::FixedArray(Box::new(elem), len)))) == Some(
            Kind::FixedArray(Box::new(elem), len),
        ),
{
    lemma_brackets();
    lemma_decimal_reads(len);
    let bytes = ascii_bytes(canonical_name(Kind::FixedArray(Box::new(elem), len)));
    let front = ascii_bytes(canonical_name(elem));
    let digits = ascii_bytes(decimal(len));
    lemma_ascii_joined(canonical_name(elem), "["@);
    lemma_ascii_joined(canonical_name(elem) + "["@, decimal(len));
    lemma_ascii_joined(canonical_name(elem) + "["@ + decimal(len), "]"@);
    assert(bytes =~= front + seq![OPEN] + digits + seq![CLOSE]);
    assert(bytes.drop_last() =~= front + seq![OPEN] + digits);
    lemma_last_open_before_digits(front, digits);
    assert(bytes.take(front.len() as int) =~= front);
    assert(bytes.subrange(front.len() as int + 1, bytes.len() - 1) =~= digits);
}

} // verus!
