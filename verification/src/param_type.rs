//! The closed set of ABI value types and their static/dynamic classification.

use vstd::prelude::*;

verus! {

/// Mathematical model of an ABI type.
pub enum Kind {
    Bool,
    Address,
    Uint(nat),
    Int(nat),
    FixedBytes(nat),
    Bytes,
    String,
    FixedArray(Box<Kind>, nat),
    Array(Box<Kind>),
    Tuple(Seq<Kind>),
}

/// An ABI type as held at run time.
#[derive(Debug, PartialEq)]
pub enum ParamType {
    /// Boolean.
    Bool,
    /// 20-byte account address.
    Address,
    /// Unsigned integer of the given bit width.
    Uint(usize),
    /// Signed integer of the given bit width.
    Int(usize),
    /// Byte string of the given fixed length.
    FixedBytes(usize),
    /// Byte string of any length.
    Bytes,
    /// UTF-8 text of any length.
    String,
    /// Array of the given fixed length.
    FixedArray(Box<ParamType>, usize),
    /// Array of any length.
    Array(Box<ParamType>),
    /// Ordered members of possibly different types.
    Tuple(Vec<ParamType>),
}

/// The model of a run-time type.
pub open spec fn kind_of(ty: ParamType) -> Kind
    decreases ty,
{
    match ty {
        ParamType::Bool => Kind::Bool,
        ParamType::Address => Kind::Address,
        ParamType::Uint(bits) => Kind::Uint(bits as nat),
        ParamType::Int(bits) => Kind::Int(bits as nat),
        ParamType::FixedBytes(len) => Kind::FixedBytes(len as nat),
        ParamType::Bytes => Kind::Bytes,
        ParamType::String => Kind::String,
        ParamType::FixedArray(elem, len) => Kind::FixedArray(Box::new(kind_of(*elem)), len as nat),
        ParamType::Array(elem) => Kind::Array(Box::new(kind_of(*elem))),
        ParamType::Tuple(members) => Kind::Tuple(kinds_of(members@)),
    }
}

impl View for ParamType {
    type V = Kind;

    open spec fn view(&self) -> Kind {
        kind_of(*self)
    }
}

/// The models of a sequence of run-time types, position by position.
pub open spec fn kinds_of(types: Seq<ParamType>) -> Seq<Kind>
    decreases types,
{
    Seq::new(
        types.len(),
        |i: int|
            if 0 <= i < types.len() {
                kind_of(types[i])
            } else {
                Kind::Bool
            },
    )
}

impl Kind {
    /// Whether values of this type have an encoding whose length depends on the value.
    pub open spec fn is_dynamic(self) -> bool
        decreases self,
    {
        match self {
            Kind::Bytes | Kind::String | Kind::Array(_) => true,
            Kind::FixedArray(elem, _) => elem.is_dynamic(),
            Kind::Tuple(members) => any_dynamic(members),
            _ => false,
        }
    }
}

impl Kind {
    /// Whether the type keeps within the widths that the format has: integer
    /// widths of 8 to 256 bits in steps of 8, fixed byte strings of 1 to 32
    /// bytes, and element and member types that do so too.
    pub open spec fn valid(self) -> bool
        decreases self,
    {
        match self {
            Kind::Uint(bits) => 8 <= bits <= 256 && bits % 8 == 0,
            Kind::Int(bits) => 8 <= bits <= 256 && bits % 8 == 0,
            Kind::FixedBytes(len) => 1 <= len <= 32,
            Kind::FixedArray(elem, _) => elem.valid(),
            Kind::Array(elem) => elem.valid(),
            Kind::Tuple(members) => all_valid(members),
            _ => true,
        }
    }
}

/// Whether every type of the sequence is valid.
pub open spec fn all_valid(kinds: Seq<Kind>) -> bool
    decreases kinds,
{
    forall|i: int| 0 <= i < kinds.len() ==> (#[trigger] kinds[i]).valid()
}

/// Whether some type of the sequence is dynamic.
pub open spec fn any_dynamic(kinds: Seq<Kind>) -> bool
    decreases kinds,
{
    exists|i: int| 0 <= i < kinds.len() && (#[trigger] kinds[i]).is_dynamic()
}

/// Copies a type, member by member.
pub fn duplicate(ty: &ParamType) -> (copy: ParamType)
    ensures
        copy@ == ty@,
    decreases ty,
{
    match ty {
        ParamType::Bool => ParamType::Bool,
        ParamType::Address => ParamType::Address,
        ParamType::Uint(bits) => ParamType::Uint(*bits),
        ParamType::Int(bits) => ParamType::Int(*bits),
        ParamType::FixedBytes(len) => ParamType::FixedBytes(*len),
        ParamType::Bytes => ParamType::Bytes,
        ParamType::String => ParamType::String,
        ParamType::FixedArray(elem, len) => ParamType::FixedArray(Box::new(duplicate(elem)), *len),
        ParamType::Array(elem) => ParamType::Array(Box::new(duplicate(elem))),
        ParamType::Tuple(members) => {
            let mut copies: Vec<ParamType> = Vec::new();
            let mut i: usize = 0;
            while i < members.len()
                invariant
                    i <= members.len(),
                    ty == ParamType::Tuple(*members),
                    copies@.len() == i,
                    forall|j: int| 0 <= j < i ==> (#[trigger] copies@[j])@ == members@[j]@,
                decreases members.len() - i,
            {
                assert(decreases_to!(ty => ty->Tuple_0));
                assert(decreases_to!(members => members@));
                assert(decreases_to!(members@ => members@[i as int]));
                copies.push(duplicate(&members[i]));
                i += 1;
            }
            assert(kinds_of(copies@) =~= kinds_of(members@));
            ParamType::Tuple(copies)
        },
    }
}

impl Clone for ParamType {
    fn clone(&self) -> (copy: Self)
        ensures
            copy@ == self@,
    {
        duplicate(self)
    }
}

impl ParamType {
    /// Tells whether the type keeps within the widths that the format has.
    pub fn is_valid(&self) -> (valid: bool)
        ensures
            valid == self@.valid(),
        decreases self,
    {
        match self {
            ParamType::Uint(bits) => 8 <= *bits && *bits <= 256 && *bits % 8 == 0,
            ParamType::Int(bits) => 8 <= *bits && *bits <= 256 && *bits % 8 == 0,
            ParamType::FixedBytes(len) => 1 <= *len && *len <= 32,
            ParamType::FixedArray(elem, _) => elem.is_valid(),
            ParamType::Array(elem) => elem.is_valid(),
            ParamType::Tuple(members) => {
                let mut i: usize = 0;
                while i < members.len()
                    invariant
                        i <= members.len(),
                        self == ParamType::Tuple(*members),
                        forall|j: int| 0 <= j < i ==> (#[trigger] kinds_of(members@)[j]).valid(),
                    decreases members.len() - i,
                {
                    assert(decreases_to!(self => self->Tuple_0));
                    assert(decreases_to!(members => members@));
                    assert(decreases_to!(members@ => members@[i as int]));
                    assert(kinds_of(members@)[i as int] == members@[i as int]@);
                    if !members[i].is_valid() {
                        assert(!all_valid(kinds_of(members@)));
                        return false;
                    }
                    i += 1;
                }
                assert(all_valid(kinds_of(members@)));
                true
            },
            _ => true,
        }
    }

    /// Tells whether the type is dynamic: `bytes`, `string`, any unsized array,
    /// a fixed array of a dynamic type, or a tuple with a dynamic member.
    pub fn is_dynamic(&self) -> (dynamic: bool)
        ensures
            dynamic == self@.is_dynamic(),
        decreases self,
    {
        match self {
            ParamType::Bytes | ParamType::String | ParamType::Array(_) => true,
            ParamType::FixedArray(elem, _) => elem.is_dynamic(),
            ParamType::Tuple(members) => {
                let mut i: usize = 0;
                while i < members.len()
                    invariant
                        i <= members.len(),
                        self == ParamType::Tuple(*members),
                        forall|j: int| 0 <= j < i ==> !(#[trigger] kinds_of(members@)[j]).is_dynamic(),
                    decreases members.len() - i,
                {
                    assert(decreases_to!(self => self->Tuple_0));
                    assert(decreases_to!(members => members@));
                    assert(decreases_to!(members@ => members@[i as int]));
                    assert(kinds_of(members@)[i as int] == members@[i as int]@);
                    if members[i].is_dynamic() {
                        assert(any_dynamic(kinds_of(members@)));
                        return true;
                    }
                    i += 1;
                }
                assert(!any_dynamic(kinds_of(members@)));
                false
            },
            _ => false,
        }
    }
}

} // verus!

