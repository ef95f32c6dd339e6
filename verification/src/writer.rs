//! The canonical text of a type, as it stands in a function's signature.

use vstd::prelude::*;
use vstd::string::{StrSliceExecFns, StringExecFns};
use crate::param_type::{Kind, ParamType, kinds_of};

verus! {

/// The decimal digit for `d`.
pub open spec fn digit(d: nat) -> char {
    "0123456789"@[d as int]
}

/// `n` in decimal, without leading zeros.
pub open spec fn decimal(n: nat) -> Seq<char>
    decreases n,
{
    if n < 10 {
        seq![digit(n)]
    } else {
        decimal(n / 10) + seq![digit(n % 10)]
    }
}

/// The canonical name of a type: `address`, `bool`, `string`, `bytes`,
/// `bytes` with its length, `uint` and `int` with their width, the element
/// type with `[]` or `[` length `]` for arrays, and the member types between
/// round brackets with commas for tuples.
pub open spec fn canonical_name(kind: Kind) -> Seq<char>
    decreases kind,
{
    match kind {
        Kind::Address => "address"@,
        Kind::Bytes => "bytes"@,
        Kind::FixedBytes(len) => "bytes"@ + decimal(len),
        Kind::Uint(bits) => "uint"@ + decimal(bits),
        Kind::Int(bits) => "int"@ + decimal(bits),
        Kind::Bool => "bool"@,
        Kind::String => "string"@,
        Kind::FixedArray(elem, len) => canonical_name(*elem) + "["@ + decimal(len) + "]"@,
        Kind::Array(elem) => canonical_name(*elem) + "[]"@,
        Kind::Tuple(members) => "("@ + canonical_names(members) + ")"@,
    }
}

/// The canonical names of the types, with a comma between each two.
pub open spec fn canonical_names(kinds: Seq<Kind>) -> Seq<char>
    decreases kinds,
{
    if kinds.len() == 0 {
        Seq::empty()
    } else if kinds.len() == 1 {
        canonical_name(kinds.last())
    } else {
        canonical_names(kinds.drop_last()) + ","@ + canonical_name(kinds.last())
    }
}

/// The text of the decimal digit for `d`.
fn digit_text(d: usize) -> (text: &'static str)
    requires
        d < 10,
    ensures
        text@ == seq![digit(d as nat)],
{
    let digits = "0123456789";
    proof {
        reveal_strlit("0123456789");
    }
    let text = digits.substring_ascii(d, d + 1);
    assert(text@ =~= seq![digit(d as nat)]);
    text
}

/// Writes `n` in decimal.
pub fn write_decimal(n: usize) -> (text: String)
    ensures
        text@ == decimal(n as nat),
    decreases n,
{
    if n < 10 {
        digit_text(n).to_owned()
    } else {
        let mut text = write_decimal(n / 10);
        text.append(digit_text(n % 10));
        text
    }
}

/// Renders types in their canonical text.
pub struct Writer;

impl Writer {
    /// Writes the canonical name of `kind`.
    pub fn write(kind: &ParamType) -> (name: String)
        ensures
            name@ == canonical_name(kind@),
        decreases kind,
    {
        match kind {
            ParamType::Address => "address".to_owned(),
            ParamType::Bytes => "bytes".to_owned(),
            ParamType::FixedBytes(len) => {
                let mut name = "bytes".to_owned();
                name.append(write_decimal(*len).as_str());
                name
            },
            ParamType::Uint(bits) => {
                let mut name = "uint".to_owned();
                name.append(write_decimal(*bits).as_str());
                name
            },
            ParamType::Int(bits) => {
                let mut name = "int".to_owned();
                name.append(write_decimal(*bits).as_str());
                name
            },
            ParamType::Bool => "bool".to_owned(),
            ParamType::String => "string".to_owned(),
            ParamType::FixedArray(elem, len) => {
                let mut name = Writer::write(elem);
                name.append("[");
                name.append(write_decimal(*len).as_str());
                name.append("]");
                name
            },
            ParamType::Array(elem) => {
                let mut name = Writer::write(elem);
                name.append("[]");
                name
            },
            ParamType::Tuple(members) => {
                assert(decreases_to!(kind => kind->Tuple_0));
                assert(decreases_to!(members => members@));
                let mut name = "(".to_owned();
                name.append(Writer::write_all(members.as_slice()).as_str());
                name.append(")");
                name
            },
        }
    }

    /// Writes the canonical names of `kinds` with a comma between each two.
    pub fn write_all(kinds: &[ParamType]) -> (names: String)
        ensures
            names@ == canonical_names(kinds_of(kinds@)),
        decreases kinds@,
    {
        let ghost models = kinds_of(kinds@);
        let mut names = String::new();
        let mut i: usize = 0;
        while i < kinds.len()
            invariant
                i <= kinds.len(),
                models == kinds_of(kinds@),
                names@ == canonical_names(models.take(i as int)),
            decreases kinds.len() - i,
        {
            proof {
                assert(models.take(i + 1).drop_last() =~= models.take(i as int));
                assert(models.take(i + 1).last() == kinds@[i as int]@);
                assert(models.take(0) =~= Seq::<Kind>::empty());
            }
            if i > 0 {
                names.append(",");
            }
            names.append(Writer::write(&kinds[i]).as_str());
            assert(names@ =~= canonical_names(models.take(i + 1)));
            i += 1;
        }
        assert(models.take(kinds.len() as int) =~= models);
        names
    }
}

} // verus!
