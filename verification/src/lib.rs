//! Homomorphic arithmetic over multi-digit integers encoded as sequences of
//! encrypted blocks.
//!
//! An integer is held as an ordered sequence of blocks, either positionally
//! weighted (radix representation, block `i` contributes `value_i * base^i`)
//! or with pairwise independent moduli (CRT representation).  Every block
//! carries a `degree`: a cleartext upper bound on the value the block may
//! hold.  The block layer models each encrypted payload by the exact integer
//! it carries; noise management and key material live below this interface.
//!
//! Each arithmetic primitive comes in three tiers: `unchecked_*` (raw
//! computation, the caller guarantees headroom), `checked_*` (fails with
//! [`CheckError::CarryFull`] and mutates nothing when headroom is missing),
//! and `smart_*` (restores headroom by carry propagation or message
//! extraction first, then always succeeds).

use vstd::prelude::*;

mod arith;
pub mod shortint;
mod ciphertext;
mod client_key;
mod server_key;
mod parameters;
mod grid;

pub use shortint::CheckError;
pub use shortint::MaxDegree;
pub use shortint::Parameters;
pub use ciphertext::Ciphertext;
pub use ciphertext::KeyId;
pub use ciphertext::lemma_crt_block_independence;
pub use client_key::ClientKey;
pub use client_key::CrtClientKey;
pub use client_key::RadixClientKey;
pub use server_key::ServerKey;
pub use parameters::CrtParameters;
pub use parameters::CrtRepresentation;
pub use parameters::EvaluationIntegerKey;
pub use parameters::FromParameters;
pub use parameters::PrivateIntegerKey;
pub use parameters::RadixParameters;
pub use parameters::RadixRepresentation;
pub use parameters::StaticCrtParameter;
pub use parameters::StaticIntegerParameter;
pub use parameters::StaticRadixParameter;
pub use grid::Parameter;
pub use grid::compute_nb_of_b_l;

verus! {

/// Generates a matching client key and server key for `size`-block radix
/// integers over the given block parameters.
pub fn gen_keys(parameters: &Parameters, size: usize) -> (r: (ClientKey, ServerKey))
    requires
        parameters.wf(),
        1 <= size,
    ensures
        r.0.wf(),
        r.0.key.parameters == *parameters,
        r.0.num_blocks == size,
        r.1.wf(),
        r.1.key.message_modulus == parameters.message_modulus,
        r.1.key.carry_modulus == parameters.carry_modulus,
{
    let cks = ClientKey::new(parameters, size);
    let sks = ServerKey::new(&cks);
    (cks, sks)
}

} // verus!
