//! Parameter bundles for the two integer representations, and the traits
//! that tie parameter types to their client, server and ciphertext types.

use vstd::prelude::*;
use crate::ciphertext::Ciphertext;
use crate::client_key::CrtClientKey;
use crate::client_key::RadixClientKey;
use crate::client_key::ClientKey;
use crate::server_key::ServerKey;
use crate::shortint::Parameters;

verus! {

/// Parameters for radix decomposition: several blocks with the same block
/// parameters represent one integer positionally.
#[derive(Clone, Copy, Debug, PartialEq, Eq, Structural)]
pub struct RadixParameters {
    pub block_parameters: Parameters,
    pub num_block: usize,
}

impl RadixParameters {
    pub open spec fn wf(self) -> bool {
        self.block_parameters.wf() && 1 <= self.num_block
    }
}

/// Parameters for CRT decomposition (Chinese Remainder Theorem): one block
/// per modulus.
#[derive(Debug, PartialEq, Eq)]
pub struct CrtParameters {
    pub block_parameters: Parameters,
    pub moduli: Vec<u64>,
}

impl Clone for CrtParameters {
    fn clone(&self) -> (r: Self)
        ensures
            r.block_parameters == self.block_parameters,
            r.moduli@ == self.moduli@,
    {
        CrtParameters {
            block_parameters: self.block_parameters,
            moduli: crate::ciphertext::clone_u64_vec(&self.moduli),
        }
    }
}

impl CrtParameters {
    pub open spec fn wf(self) -> bool {
        &&& self.block_parameters.wf()
        &&& 1 <= self.moduli@.len()
        &&& forall|i: int|
            0 <= i < self.moduli@.len() ==> 2 <= #[trigger] self.moduli@[i] && self.moduli@[i]
                <= self.block_parameters.message_modulus
    }
}

/// Marker for the positional representation.
#[derive(Default, Clone, Copy, Debug, PartialEq, Eq, Structural)]
pub struct RadixRepresentation;

/// Marker for the independent-modulus representation.
#[derive(Default, Clone, Copy, Debug, PartialEq, Eq, Structural)]
pub struct CrtRepresentation;

/// A key that can turn cleartext integers into ciphertexts and back.
pub trait PrivateIntegerKey {
    type Ciphertext;

    /// The key is usable for encryption.
    spec fn valid(&self) -> bool;

    /// The key can read this ciphertext back.
    spec fn can_decrypt(&self, ciphertext: &Self::Ciphertext) -> bool;

    fn encrypt(&self, value: u64) -> Self::Ciphertext
        requires
            self.valid(),
    ;

    fn decrypt(&self, ciphertext: &Self::Ciphertext) -> u64
        requires
            self.valid(),
            self.can_decrypt(ciphertext),
    ;
}

impl PrivateIntegerKey for RadixClientKey {
    type Ciphertext = Ciphertext;

    open spec fn valid(&self) -> bool {
        self.wf()
    }

    open spec fn can_decrypt(&self, ciphertext: &Ciphertext) -> bool {
        &&& ciphertext.radix_with(self.key.base(), self.key.key.parameters.carry_modulus as int)
        &&& 1 <= ciphertext.ct_vec@.len()
        &&& vstd::arithmetic::power::pow(self.key.base(), ciphertext.ct_vec@.len() as nat)
            <= u64::MAX
        &&& ciphertext.radix_value(self.key.base()) <= u64::MAX
    }

    fn encrypt(&self, value: u64) -> Ciphertext {
        RadixClientKey::encrypt(self, value)
    }

    fn decrypt(&self, ciphertext: &Ciphertext) -> u64 {
        RadixClientKey::decrypt(self, ciphertext)
    }
}

impl PrivateIntegerKey for CrtClientKey {
    type Ciphertext = Ciphertext;

    open spec fn valid(&self) -> bool {
        self.wf() && self.modulus() <= u64::MAX
    }

    open spec fn can_decrypt(&self, ciphertext: &Ciphertext) -> bool {
        &&& ciphertext.crt_with(self.key.parameters.carry_modulus as int)
        &&& ciphertext.message_modulus_vec@ == self.moduli@
    }

    fn encrypt(&self, value: u64) -> Ciphertext {
        CrtClientKey::encrypt(self, value)
    }

    fn decrypt(&self, ciphertext: &Ciphertext) -> u64 {
        CrtClientKey::decrypt(self, ciphertext)
    }
}

/// A key type that can be built from a parameter bundle.
pub trait FromParameters<P>: Sized {
    /// The parameters are sound for this key type.
    spec fn parameters_ok(parameters: P) -> bool;

    fn from_parameters(parameters: P) -> (r: Self)
        requires
            Self::parameters_ok(parameters),
    ;
}

impl FromParameters<RadixParameters> for RadixClientKey {
    open spec fn parameters_ok(parameters: RadixParameters) -> bool {
        parameters.wf()
    }

    fn from_parameters(parameters: RadixParameters) -> (r: RadixClientKey) {
        RadixClientKey::new(&parameters.block_parameters, parameters.num_block)
    }
}

impl FromParameters<CrtParameters> for CrtClientKey {
    open spec fn parameters_ok(parameters: CrtParameters) -> bool {
        parameters.wf()
    }

    fn from_parameters(parameters: CrtParameters) -> (r: CrtClientKey) {
        CrtClientKey::new(&parameters.block_parameters, parameters.moduli)
    }
}

/// Meant to be implemented on the inner server key: how an evaluation key
/// is generated from a client key.
pub trait EvaluationIntegerKey<CK>: Sized {
    /// The client key is sound for evaluation-key generation.
    spec fn client_key_ok(client_key: CK) -> bool;

    fn new(client_key: &CK) -> (r: Self)
        requires
            Self::client_key_ok(*client_key),
    ;
}

impl EvaluationIntegerKey<ClientKey> for ServerKey {
    open spec fn client_key_ok(client_key: ClientKey) -> bool {
        client_key.wf()
    }

    fn new(client_key: &ClientKey) -> (r: ServerKey) {
        ServerKey::new(client_key)
    }
}

/// Marks parameter types whose bit width is fixed by the crate.
pub trait StaticIntegerParameter: Sized {
    type Representation: Default + Eq;

    fn message_bits() -> usize;
}

/// Marks static parameter types for the radix representation.
pub trait StaticRadixParameter: StaticIntegerParameter<
    Representation = RadixRepresentation,
> {

}

/// Marks static parameter types for the CRT representation.
pub trait StaticCrtParameter: StaticIntegerParameter<Representation = CrtRepresentation> {

}

} // verus!
