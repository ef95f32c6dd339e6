//! The four bytes that name a function on the wire.

use tiny_keccak::{Hasher, Keccak};
use vstd::prelude::*;
use vstd::string::StringExecFns;
use vstd::utf8::encode_utf8;
use crate::param_type::{Kind, ParamType, kinds_of};
use crate::writer::{Writer, canonical_names};

verus! {

/// The Keccak-256 digest of `input`, 32 bytes.
pub uninterp spec fn keccak256(input: Seq<u8>) -> Seq<u8>;

/// The canonical signature of a function: its name, then the canonical
/// names of its input types between round brackets, with commas.
pub open spec fn signature(name: Seq<char>, kinds: Seq<Kind>) -> Seq<char> {
    name + "("@ + canonical_names(kinds) + ")"@
}

/// The selector of a function: the first four bytes of the digest of the
/// UTF-8 bytes of its canonical signature.
pub open spec fn selector(name: Seq<char>, kinds: Seq<Kind>) -> Seq<u8> {
    keccak256(encode_utf8(signature(name, kinds))).take(4)
}

/// Keccak-256 of the crate tiny-keccak: a fresh `Keccak::v256()` hasher
/// takes `input` in one `update`, and `finalize` fills the 32 bytes
/// returned. The digest is a function of the input alone.
#[verifier::external_body]
fn keccak256_digest(input: &[u8]) -> (digest: [u8; 32])
    ensures
        digest@ == keccak256(input@),
{
    let mut hasher = Keccak::v256();
    hasher.update(input);
    let mut digest = [0u8; 32];
    hasher.finalize(&mut digest);
    digest
}

/// The first four bytes of a digest.
pub fn digest_prefix(digest: &[u8; 32]) -> (prefix: [u8; 4])
    ensures
        prefix@ == digest@.take(4),
{
    let prefix = [digest[0], digest[1], digest[2], digest[3]];
    assert(prefix@ =~= digest@.take(4));
    prefix
}

/// Writes the canonical signature of the function `name` with inputs of
/// the types `params`.
pub fn write_signature(name: &str, params: &[ParamType]) -> (text: String)
    ensures
        text@ == signature(name@, kinds_of(params@)),
{
    let mut text = name.to_owned();
    text.append("(");
    text.append(Writer::write_all(params).as_str());
    text.append(")");
    text
}

/// Computes the selector of the function `name` with inputs of the types
/// `params`.
pub fn short_signature(name: &str, params: &[ParamType]) -> (id: [u8; 4])
    ensures
        id@ == selector(name@, kinds_of(params@)),
{
    let text = write_signature(name, params);
    let digest = keccak256_digest(text.as_str().as_bytes());
    digest_prefix(&digest)
}

/// The selector depends on the name and the input types alone: equal names
/// and equal types give equal selectors.
pub proof fn lemma_selector_deterministic(
    name: Seq<char>,
    kinds: Seq<Kind>,
    other_name: Seq<char>,
    other_kinds: Seq<Kind>,
)
    requires
        name == other_name,
        kinds == other_kinds,
    ensures
        selector(name, kinds) == selector(other_name, other_kinds),
{
}

} // verus!
