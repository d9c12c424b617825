//! The SHA-256 compression function.
use vstd::prelude::*;

verus! {

/// The eight words of state that `sha2::compress256` makes of `state` when it
/// absorbs the one block `block`.
pub uninterp spec fn sha256_compressed(state: Seq<u32>, block: Seq<u8>) -> [u32; 8];

/// Absorbs one block of 64 bytes into eight words of state, by
/// `sha2::compress256`, which is SHA-256's compression function and depends on
/// nothing but the state and the block.
#[verifier::external_body]
pub(crate) fn sha256_compress(state: &Vec<u32>, block: &Vec<u8>) -> (r: Vec<u32>)
    requires
        state@.len() == 8,
        block@.len() == 64,
    ensures
        r@ == sha256_compressed(state@, block@)@,
{
    let mut words: [u32; 8] = state.as_slice().try_into().unwrap();
    sha2::compress256(
        &mut words,
        &[*sha2::digest::generic_array::GenericArray::from_slice(block.as_slice())],
    );
    words.to_vec()
}

} // verus!
