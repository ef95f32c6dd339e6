//! Values of ABI types, and the check that a value has the shape of a type.

use vstd::prelude::*;
use crate::param_type::{Kind, ParamType, kinds_of};
use crate::word::copy_range;

verus! {

/// Mathematical model of an ABI value.
pub enum Value {
    Bool(bool),
    Address(Seq<u8>),
    Uint(Seq<u8>),
    Int(Seq<u8>),
    FixedBytes(Seq<u8>),
    Bytes(Seq<u8>),
    String(Seq<char>),
    FixedArray(Seq<Value>),
    Array(Seq<Value>),
    Tuple(Seq<Value>),
}

/// An ABI value as held at run time.
#[derive(Debug, PartialEq)]
pub enum Token {
    /// Account address, 20 bytes.
    Address([u8; 20]),
    /// Byte string for a fixed-length type; at most as long as the type says.
    FixedBytes(Vec<u8>),
    /// Byte string of any length.
    Bytes(Vec<u8>),
    /// Signed 256-bit integer, two's complement, most significant byte first.
    Int([u8; 32]),
    /// Unsigned 256-bit integer, most significant byte first.
    Uint([u8; 32]),
    /// Boolean.
    Bool(bool),
    /// Text.
    String(String),
    /// Elements of an array of fixed length.
    FixedArray(Vec<Token>),
    /// Elements of an array of any length.
    Array(Vec<Token>),
    /// Members of a tuple.
    Tuple(Vec<Token>),
}

/// The model of a run-time value.
pub open spec fn value_of(token: Token) -> Value
    decreases token,
{
    match token {
        Token::Address(bytes) => Value::Address(bytes@),
        Token::FixedBytes(bytes) => Value::FixedBytes(bytes@),
        Token::Bytes(bytes) => Value::Bytes(bytes@),
        Token::Int(bytes) => Value::Int(bytes@),
        Token::Uint(bytes) => Value::Uint(bytes@),
        Token::Bool(flag) => Value::Bool(flag),
        Token::String(text) => Value::String(text@),
        Token::FixedArray(items) => Value::FixedArray(values_of(items@)),
        Token::Array(items) => Value::Array(values_of(items@)),
        Token::Tuple(items) => Value::Tuple(values_of(items@)),
    }
}

/// The models of a sequence of run-time values, position by position.
pub open spec fn values_of(tokens: Seq<Token>) -> Seq<Value>
    decreases tokens,
{
    Seq::new(
        tokens.len(),
        |i: int|
            if 0 <= i < tokens.len() {
                value_of(tokens[i])
            } else {
                Value::Bool(false)
            },
    )
}

impl View for Token {
    type V = Value;

    open spec fn view(&self) -> Value {
        value_of(*self)
    }
}

impl Value {
    /// Whether the value is laid out behind an offset: byte strings, text and
    /// unsized arrays always, fixed arrays and tuples when an element is.
    pub open spec fn is_dynamic(self) -> bool
        decreases self,
    {
        match self {
            Value::Bytes(_) | Value::String(_) | Value::Array(_) => true,
            Value::FixedArray(items) => any_value_dynamic(items),
            Value::Tuple(items) => any_value_dynamic(items),
            _ => false,
        }
    }

    /// Whether the value has the shape of `kind`: the same variant all the
    /// way down, a fixed array of exactly the declared length, a tuple of
    /// exactly the declared members, fixed bytes no longer than declared.
    /// The bit width of an integer type is not held against the value.
    pub open spec fn conforms(self, kind: Kind) -> bool
        decreases self,
    {
        match self {
            Value::Bool(_) => kind is Bool,
            Value::Address(_) => kind is Address,
            Value::Uint(_) => kind is Uint,
            Value::Int(_) => kind is Int,
            Value::FixedBytes(bytes) => kind matches Kind::FixedBytes(len) && bytes.len() <= len,
            Value::Bytes(_) => kind is Bytes,
            Value::String(_) => kind is String,
            Value::FixedArray(items) => kind matches Kind::FixedArray(elem, len) && items.len()
                == len && all_conform(items, *elem),
            Value::Array(items) => kind matches Kind::Array(elem) && all_conform(items, *elem),
            Value::Tuple(items) => kind matches Kind::Tuple(members) && each_conforms(
                items,
                members,
            ),
        }
    }

    /// Whether the value is the model of some run-time value: addresses of 20
    /// bytes, integers of 32, sequences no longer than the machine can hold.
    pub open spec fn wf(self) -> bool
        decreases self,
    {
        match self {
            Value::Address(bytes) => bytes.len() == 20,
            Value::Uint(bytes) => bytes.len() == 32,
            Value::Int(bytes) => bytes.len() == 32,
            Value::FixedArray(items) => all_wf(items),
            Value::Array(items) => all_wf(items),
            Value::Tuple(items) => all_wf(items),
            _ => true,
        }
    }
}

/// Whether some value of the sequence is dynamic.
pub open spec fn any_value_dynamic(values: Seq<Value>) -> bool
    decreases values,
{
    exists|i: int| 0 <= i < values.len() && (#[trigger] values[i]).is_dynamic()
}

/// Whether every value of the sequence has the shape of `kind`.
pub open spec fn all_conform(values: Seq<Value>, kind: Kind) -> bool
    decreases values,
{
    forall|i: int| 0 <= i < values.len() ==> (#[trigger] values[i]).conforms(kind)
}

/// Whether the values match the kinds one to one: as many of the one as of
/// the other, and each value of the shape of the kind at its position.
pub open spec fn each_conforms(values: Seq<Value>, kinds: Seq<Kind>) -> bool
    decreases values,
{
    &&& values.len() == kinds.len()
    &&& forall|i: int| 0 <= i < values.len() ==> (#[trigger] values[i]).conforms(kinds[i])
}

/// Whether the sequence fits the machine and every value of it is well formed.
pub open spec fn all_wf(values: Seq<Value>) -> bool
    decreases values,
{
    &&& values.len() <= usize::MAX
    &&& forall|i: int| 0 <= i < values.len() ==> (#[trigger] values[i]).wf()
}

/// The model of a run-time value is well formed.
pub proof fn lemma_token_wf(token: Token)
    ensures
        token@.wf(),
    decreases token,
{
    match token {
        Token::FixedArray(items) => {
            assert(items@.len() == items.len());
            lemma_tokens_wf(items@)
        },
        Token::Array(items) => {
            assert(items@.len() == items.len());
            lemma_tokens_wf(items@)
        },
        Token::Tuple(items) => {
            assert(items@.len() == items.len());
            lemma_tokens_wf(items@)
        },
        _ => {},
    }
}

/// The models of run-time values held in a vector or slice are well formed.
pub proof fn lemma_tokens_wf(tokens: Seq<Token>)
    requires
        tokens.len() <= usize::MAX,
    ensures
        all_wf(values_of(tokens)),
    decreases tokens,
{
    assert forall|i: int| 0 <= i < values_of(tokens).len() implies (#[trigger] values_of(
        tokens,
    )[i]).wf() by {
        lemma_token_wf(tokens[i]);
    }
}

impl Token {
    /// Tells whether the value is laid out behind an offset.
    pub fn is_dynamic(&self) -> (dynamic: bool)
        ensures
            dynamic == self@.is_dynamic(),
        decreases self,
    {
        match self {
            Token::Bytes(_) | Token::String(_) | Token::Array(_) => true,
            Token::FixedArray(items) => {
                assert(decreases_to!(self => self->FixedArray_0));
                any_dynamic_token(items)
            },
            Token::Tuple(items) => {
                assert(decreases_to!(self => self->Tuple_0));
                any_dynamic_token(items)
            },
            _ => false,
        }
    }

    /// Checks that the value has the shape of `kind`.
    pub fn type_check(&self, kind: &ParamType) -> (ok: bool)
        ensures
            ok == self@.conforms(kind@),
        decreases self,
    {
        match self {
            Token::Address(_) => match kind {
                ParamType::Address => true,
                _ => false,
            },
            Token::Bytes(_) => match kind {
                ParamType::Bytes => true,
                _ => false,
            },
            Token::Int(_) => match kind {
                ParamType::Int(_) => true,
                _ => false,
            },
            Token::Uint(_) => match kind {
                ParamType::Uint(_) => true,
                _ => false,
            },
            Token::Bool(_) => match kind {
                ParamType::Bool => true,
                _ => false,
            },
            Token::String(_) => match kind {
                ParamType::String => true,
                _ => false,
            },
            Token::FixedBytes(bytes) => match kind {
                ParamType::FixedBytes(len) => bytes.len() <= *len,
                _ => false,
            },
            Token::Array(items) => match kind {
                ParamType::Array(elem) => {
                    assert(decreases_to!(self => self->Array_0));
                    all_type_check(items, elem)
                },
                _ => false,
            },
            Token::FixedArray(items) => match kind {
                ParamType::FixedArray(elem, len) => {
                    assert(decreases_to!(self => self->FixedArray_0));
                    items.len() == *len && all_type_check(items, elem)
                },
                _ => false,
            },
            Token::Tuple(items) => match kind {
                ParamType::Tuple(members) => {
                    assert(decreases_to!(self => self->Tuple_0));
                    assert(decreases_to!(items => items@));
                    Token::types_check(items.as_slice(), members.as_slice())
                },
                _ => false,
            },
        }
    }

    /// Checks that `tokens` match `kinds` one to one: as many tokens as
    /// kinds, and each token of the shape of the kind at its position.
    pub fn types_check(tokens: &[Token], kinds: &[ParamType]) -> (ok: bool)
        ensures
            ok == each_conforms(values_of(tokens@), kinds_of(kinds@)),
        decreases tokens@,
    {
        if tokens.len() != kinds.len() {
            return false;
        }
        let mut i: usize = 0;
        while i < tokens.len()
            invariant
                i <= tokens.len(),
                tokens.len() == kinds.len(),
                forall|j: int|
                    0 <= j < i ==> (#[trigger] values_of(tokens@)[j]).conforms(kinds_of(kinds@)[j]),
            decreases tokens.len() - i,
        {
            assert(values_of(tokens@)[i as int] == tokens@[i as int]@);
            assert(kinds_of(kinds@)[i as int] == kinds@[i as int]@);
            if !tokens[i].type_check(&kinds[i]) {
                return false;
            }
            i += 1;
        }
        true
    }
}

/// Tells whether some token of `tokens` is dynamic.
fn any_dynamic_token(tokens: &Vec<Token>) -> (dynamic: bool)
    ensures
        dynamic == any_value_dynamic(values_of(tokens@)),
    decreases tokens,
{
    let mut i: usize = 0;
    while i < tokens.len()
        invariant
            i <= tokens.len(),
            forall|j: int| 0 <= j < i ==> !(#[trigger] values_of(tokens@)[j]).is_dynamic(),
        decreases tokens.len() - i,
    {
        assert(values_of(tokens@)[i as int] == tokens@[i as int]@);
        assert(decreases_to!(tokens => tokens@));
        if tokens[i].is_dynamic() {
            return true;
        }
        i += 1;
    }
    false
}

/// Checks that every token of `tokens` has the shape of `kind`.
fn all_type_check(tokens: &Vec<Token>, kind: &ParamType) -> (ok: bool)
    ensures
        ok == all_conform(values_of(tokens@), kind@),
    decreases tokens,
{
    let mut i: usize = 0;
    while i < tokens.len()
        invariant
            i <= tokens.len(),
            forall|j: int| 0 <= j < i ==> (#[trigger] values_of(tokens@)[j]).conforms(kind@),
        decreases tokens.len() - i,
    {
        assert(values_of(tokens@)[i as int] == tokens@[i as int]@);
        assert(decreases_to!(tokens => tokens@));
        if !tokens[i].type_check(kind) {
            return false;
        }
        i += 1;
    }
    true
}

/// Copies a value, element by element.
pub fn duplicate_token(token: &Token) -> (copy: Token)
    ensures
        copy@ == token@,
    decreases token,
{
    match token {
        Token::Address(bytes) => Token::Address(*bytes),
        Token::FixedBytes(bytes) => {
            let copy = copy_range(bytes.as_slice(), 0, bytes.len());
            assert(copy@ =~= bytes@);
            Token::FixedBytes(copy)
        },
        Token::Bytes(bytes) => {
            let copy = copy_range(bytes.as_slice(), 0, bytes.len());
            assert(copy@ =~= bytes@);
            Token::Bytes(copy)
        },
        Token::Int(bytes) => Token::Int(*bytes),
        Token::Uint(bytes) => Token::Uint(*bytes),
        Token::Bool(flag) => Token::Bool(*flag),
        Token::String(text) => Token::String(text.clone()),
        Token::FixedArray(items) => {
            assert(decreases_to!(token => token->FixedArray_0));
            Token::FixedArray(duplicate_tokens(items))
        },
        Token::Array(items) => {
            assert(decreases_to!(token => token->Array_0));
            Token::Array(duplicate_tokens(items))
        },
        Token::Tuple(items) => {
            assert(decreases_to!(token => token->Tuple_0));
            Token::Tuple(duplicate_tokens(items))
        },
    }
}

/// Copies a vector of values.
fn duplicate_tokens(tokens: &Vec<Token>) -> (copies: Vec<Token>)
    ensures
        values_of(copies@) == values_of(tokens@),
    decreases tokens,
{
    let mut copies: Vec<Token> = Vec::new();
    let mut i: usize = 0;
    while i < tokens.len()
        invariant
            i <= tokens.len(),
            copies@.len() == i,
            forall|j: int| 0 <= j < i ==> (#[trigger] copies@[j])@ == tokens@[j]@,
        decreases tokens.len() - i,
    {
        assert(decreases_to!(tokens => tokens@));
        copies.push(duplicate_token(&tokens[i]));
        i += 1;
    }
    assert(values_of(copies@) =~= values_of(tokens@));
    copies
}

impl Clone for Token {
    fn clone(&self) -> (copy: Self)
        ensures
            copy@ == self@,
    {
        duplicate_token(self)
    }
}

} // verus!
