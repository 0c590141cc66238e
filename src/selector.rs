//! Function selectors: the first four bytes of the keccak256 digest of a
//! function's signature, which open every call input.
use vstd::prelude::*;
use vstd::string::StringSliceAdditionalSpecFns;
use crate::call::{batch_view, batch_wf, CallDescriptor, DescriptorView};
use crate::codec::{decode_input, decode_input_spec, encode_input, encode_input_spec, DecodeError};

verus! {

/// The signature of the batch entry point.
pub const MULTICALL_SIGNATURE: &'static str = "multicall((uint8,address,bytes,uint256,uint256)[])";

/// The keccak256 digest of a byte string.
pub uninterp spec fn keccak_of(data: Seq<u8>) -> Seq<u8>;

/// Relies on alloy_primitives::keccak256: a 32-byte digest that depends on the
/// bytes alone.
#[verifier::external_body]
fn keccak(data: &[u8]) -> (r: Vec<u8>)
    ensures
        r@ == keccak_of(data@),
        r@.len() == 32,
{
    alloy_primitives::keccak256(data).to_vec()
}

/// The selector of a signature given as bytes.
pub open spec fn selector_of(signature: Seq<u8>) -> Seq<u8> {
    keccak_of(signature).subrange(0, 4)
}

/// The selector of `signature`.
pub fn selector(signature: &str) -> (r: Vec<u8>)
    ensures
        r@ == selector_of(signature.spec_bytes()),
        r@.len() == 4,
{
    let digest = keccak(signature.as_bytes());
    let mut out: Vec<u8> = Vec::new();
    let mut i: usize = 0;
    while i < 4
        invariant
            i <= 4,
            digest@.len() == 32,
            out@ == digest@.subrange(0, i as int),
        decreases 4 - i,
    {
        out.push(digest[i]);
        i = i + 1;
        assert(out@ =~= digest@.subrange(0, i as int));
    }
    out
}

/// The selector of the batch entry point.
pub fn multicall_selector() -> (r: Vec<u8>)
    ensures
        r@ == selector_of(MULTICALL_SIGNATURE.spec_bytes()),
        r@.len() == 4,
{
    selector(MULTICALL_SIGNATURE)
}

/// Decodes a call input of the batch entry point into its calls.
pub fn decode_multicall(input: &[u8]) -> (r: Result<Vec<CallDescriptor>, DecodeError>)
    ensures
        r matches Ok(v) ==> decode_input_spec(
            input@,
            selector_of(MULTICALL_SIGNATURE.spec_bytes()),
        ) == Ok::<Seq<DescriptorView>, DecodeError>(batch_view(v@)),
        r matches Ok(v) ==> batch_wf(batch_view(v@)),
        r matches Err(e) ==> decode_input_spec(
            input@,
            selector_of(MULTICALL_SIGNATURE.spec_bytes()),
        ) == Err::<Seq<DescriptorView>, DecodeError>(e),
{
    let sel = multicall_selector();
    decode_input(input, sel.as_slice())
}

/// Encodes `calls` as a call input of the batch entry point; `None` when the
/// encoding would not fit in memory.
pub fn encode_multicall(calls: &Vec<CallDescriptor>) -> (r: Option<Vec<u8>>)
    requires
        batch_wf(batch_view(calls@)),
    ensures
        r is None <==> encode_input_spec(
            selector_of(MULTICALL_SIGNATURE.spec_bytes()),
            batch_view(calls@),
        ).len() > usize::MAX,
        r matches Some(v) ==> v@ == encode_input_spec(
            selector_of(MULTICALL_SIGNATURE.spec_bytes()),
            batch_view(calls@),
        ),
{
    let sel = multicall_selector();
    encode_input(sel.as_slice(), calls)
}

} // verus!
