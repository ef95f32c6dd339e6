//! Contract function call builder.

use vstd::prelude::*;
use crate::decoder::{decode, decoding};
use crate::encoder::{encode, encoding};
use crate::error::Error;
use crate::param::{Param, duplicate_params, kinds_of_params, param_kinds, same_params};
use crate::param_type::{Kind, ParamType, kinds_of};
use crate::signature::{selector, short_signature};
use crate::token::{Token, each_conforms, values_of};
use crate::word::append_bytes;

verus! {

/// Encoded bytes.
pub type Bytes = Vec<u8>;

/// Contract function: its name, its inputs and its outputs.
#[derive(Debug, PartialEq)]
pub struct Function {
    /// Function name.
    pub name: String,
    /// Function input.
    pub inputs: Vec<Param>,
    /// Function output.
    pub outputs: Vec<Param>,
    /// Constant function.
    pub constant: bool,
}

impl Clone for Function {
    fn clone(&self) -> (copy: Self)
        ensures
            copy.name@ == self.name@,
            same_params(copy.inputs@, self.inputs@),
            same_params(copy.outputs@, self.outputs@),
            copy.constant == self.constant,
    {
        Function {
            name: self.name.clone(),
            inputs: duplicate_params(&self.inputs),
            outputs: duplicate_params(&self.outputs),
            constant: self.constant,
        }
    }
}

impl Function {
    /// The kinds of the inputs, in order.
    pub open spec fn input_kinds(&self) -> Seq<Kind> {
        param_kinds(self.inputs@)
    }

    /// The kinds of the outputs, in order.
    pub open spec fn output_kinds(&self) -> Seq<Kind> {
        param_kinds(self.outputs@)
    }

    /// Returns all input params of given function.
    fn input_param_types(&self) -> (types: Vec<ParamType>)
        ensures
            kinds_of(types@) == self.input_kinds(),
    {
        kinds_of_params(&self.inputs)
    }

    /// Returns all output params of given function.
    fn output_param_types(&self) -> (types: Vec<ParamType>)
        ensures
            kinds_of(types@) == self.output_kinds(),
    {
        kinds_of_params(&self.outputs)
    }

    /// Prepares ABI function call with given input params: the selector,
    /// then the encoding of `tokens`. Fails, before anything is encoded,
    /// where the tokens do not match the inputs one to one.
    pub fn encode_input(&self, tokens: &[Token]) -> (result: Result<Bytes, Error>)
        ensures
            match result {
                Ok(bytes) => {
                    &&& each_conforms(values_of(tokens@), self.input_kinds())
                    &&& bytes@ == selector(self.name@, self.input_kinds()) + encoding(
                        values_of(tokens@),
                    )
                    &&& bytes@.take(4) == selector(self.name@, self.input_kinds())
                    &&& bytes@.skip(4) == encoding(values_of(tokens@))
                },
                Err(error) => error == Error::InvalidData && !each_conforms(
                    values_of(tokens@),
                    self.input_kinds(),
                ),
            },
    {
        let params = self.input_param_types();
        if !Token::types_check(tokens, params.as_slice()) {
            return Err(Error::InvalidData);
        }
        let signed = short_signature(self.name.as_str(), params.as_slice());
        let encoded = encode(tokens);
        let mut bytes: Vec<u8> = Vec::new();
        append_bytes(&mut bytes, signed.as_slice());
        append_bytes(&mut bytes, encoded.as_slice());
        assert(bytes@.take(4) =~= signed@);
        assert(bytes@.skip(4) =~= encoded@);
        Ok(bytes)
    }

    /// Parses the ABI function output to list of tokens.
    pub fn decode_output(&self, data: &[u8]) -> (result: Result<Vec<Token>, Error>)
        ensures
            match result {
                Ok(tokens) => decoding(self.output_kinds(), data@) == Some(values_of(tokens@)),
                Err(error) => error == Error::MalformedEncoding && decoding(
                    self.output_kinds(),
                    data@,
                ) is None,
            },
    {
        let types = self.output_param_types();
        decode(types.as_slice(), data)
    }
}

} // verus!
