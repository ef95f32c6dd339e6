//! A named parameter of a function, as an interface description declares it.

use vstd::prelude::*;
use crate::param_type::{Kind, ParamType, duplicate, kinds_of};

verus! {

/// A parameter as the description spells it: for a tuple the member types
/// may stand in `components` alone, with `kind` an empty tuple.
#[derive(Debug, PartialEq)]
pub struct ParamIr {
    /// Param name.
    pub name: String,
    /// Param type.
    pub kind: ParamType,
    /// Components of a tuple.
    pub components: Vec<Param>,
}

/// A function parameter whose `kind` holds its full type. For a tuple with
/// components, `kind` lists the kinds of the components in order; the
/// components are kept for their names.
#[derive(Debug, PartialEq)]
pub struct Param {
    /// Param name.
    pub name: String,
    /// Param type.
    pub kind: ParamType,
    /// Components of a tuple.
    pub components: Vec<Param>,
}

/// The kinds of the parameters, position by position.
pub open spec fn param_kinds(params: Seq<Param>) -> Seq<Kind> {
    Seq::new(params.len(), |i: int| params[i].kind@)
}

/// The kind of a parameter declared with `kind` and `components`: the tuple
/// of the components' kinds where `kind` is a tuple and there are
/// components, else `kind` itself.
pub open spec fn folded_kind(kind: Kind, components: Seq<Param>) -> Kind {
    if kind is Tuple && components.len() > 0 {
        Kind::Tuple(param_kinds(components))
    } else {
        kind
    }
}

/// Whether two parameters have the same name, the same kind and, one for
/// one, the same components.
pub open spec fn same_param(a: Param, b: Param) -> bool
    decreases a,
{
    &&& a.name@ == b.name@
    &&& a.kind@ == b.kind@
    &&& same_params(a.components@, b.components@)
}

/// Whether two sequences of parameters are the same, one for one.
pub open spec fn same_params(a: Seq<Param>, b: Seq<Param>) -> bool
    decreases a,
{
    &&& a.len() == b.len()
    &&& forall|i: int| 0 <= i < a.len() ==> same_param(#[trigger] a[i], b[i])
}

/// Copies the kinds of `params`.
pub fn kinds_of_params(params: &Vec<Param>) -> (kinds: Vec<ParamType>)
    ensures
        kinds_of(kinds@) == param_kinds(params@),
{
    let mut kinds: Vec<ParamType> = Vec::new();
    let mut i: usize = 0;
    while i < params.len()
        invariant
            i <= params.len(),
            kinds@.len() == i,
            forall|j: int| 0 <= j < i ==> (#[trigger] kinds@[j])@ == params@[j].kind@,
        decreases params.len() - i,
    {
        kinds.push(duplicate(&params[i].kind));
        i += 1;
    }
    assert(kinds_of(kinds@) =~= param_kinds(params@));
    kinds
}

/// Copies a parameter with its components.
pub fn duplicate_param(param: &Param) -> (copy: Param)
    ensures
        same_param(copy, *param),
    decreases param,
{
    Param {
        name: param.name.clone(),
        kind: duplicate(&param.kind),
        components: duplicate_params(&param.components),
    }
}

/// Copies a vector of parameters.
pub fn duplicate_params(params: &Vec<Param>) -> (copies: Vec<Param>)
    ensures
        same_params(copies@, params@),
    decreases params,
{
    let mut copies: Vec<Param> = Vec::new();
    let mut i: usize = 0;
    while i < params.len()
        invariant
            i <= params.len(),
            copies@.len() == i,
            forall|j: int| 0 <= j < i ==> same_param(#[trigger] copies@[j], params@[j]),
        decreases params.len() - i,
    {
        assert(decreases_to!(params => params@));
        copies.push(duplicate_param(&params[i]));
        i += 1;
    }
    copies
}

impl Clone for Param {
    fn clone(&self) -> (copy: Self)
        ensures
            same_param(copy, *self),
    {
        duplicate_param(self)
    }
}

impl Clone for ParamIr {
    fn clone(&self) -> (copy: Self)
        ensures
            copy.name@ == self.name@,
            copy.kind@ == self.kind@,
            same_params(copy.components@, self.components@),
    {
        ParamIr {
            name: self.name.clone(),
            kind: duplicate(&self.kind),
            components: duplicate_params(&self.components),
        }
    }
}

/// The folded kind is held in a new vector, which no specification
/// expression can name: what `from` returns is stated by its own `ensures`,
/// and not through `from_spec`.
impl vstd::std_specs::convert::FromSpecImpl<ParamIr> for Param {
    open spec fn obeys_from_spec() -> bool {
        false
    }

    open spec fn from_spec(p: ParamIr) -> Param {
        Param { name: p.name, kind: p.kind, components: p.components }
    }
}

impl From<ParamIr> for Param {
    /// Takes name and components over, and folds the components' kinds
    /// into the kind where it is a tuple and there are components.
    fn from(p: ParamIr) -> (param: Param)
        ensures
            param.name == p.name,
            param.components == p.components,
            param.kind@ == folded_kind(p.kind@, p.components@),
            !(p.kind is Tuple && p.components@.len() > 0) ==> param.kind == p.kind,
    {
        let ParamIr { name, kind, components } = p;
        let kind = match kind {
            ParamType::Tuple(members) => if components.len() > 0 {
                ParamType::Tuple(kinds_of_params(&components))
            } else {
                ParamType::Tuple(members)
            },
            other => other,
        };
        Param { name: name, kind: kind, components: components }
    }
}

} // verus!
