//! The multi-block integer ciphertext and the spec-level views the
//! contracts are stated over.

use vstd::prelude::*;
use crate::arith::le_value;
use crate::shortint;
use vstd::arithmetic::power::pow;

verus! {

/// Identifier of the key a block was produced under (multi-key support).
#[derive(Clone, Copy, Debug, PartialEq, Eq, Structural)]
pub struct KeyId(pub usize);

/// An integer ciphertext: an ordered vector of blocks, plus per-block
/// modulus and key metadata.  In the radix representation block `i` is
/// weighted by `base^i`; in the CRT representation block `i` carries the
/// residue modulo its own entry of `message_modulus_vec`.
pub struct Ciphertext {
    pub ct_vec: Vec<shortint::Ciphertext>,
    pub message_modulus_vec: Vec<u64>,
    pub key_id_vec: Vec<KeyId>,
}

impl Ciphertext {
    /// The payloads of the blocks, least significant first.
    pub open spec fn values(self) -> Seq<int> {
        self.ct_vec@.map(|i: int, b: shortint::Ciphertext| b.value as int)
    }

    /// A radix ciphertext over uniform block parameters `(base, carry)`.
    pub open spec fn radix_with(self, base: int, carry: int) -> bool {
        &&& forall|i: int| 0 <= i < self.ct_vec@.len() ==> (#[trigger] self.ct_vec@[i]).wf()
        &&& forall|i: int|
            0 <= i < self.ct_vec@.len() ==> (#[trigger] self.ct_vec@[i]).message_modulus == base
        &&& forall|i: int|
            0 <= i < self.ct_vec@.len() ==> (#[trigger] self.ct_vec@[i]).carry_modulus == carry
    }

    /// A CRT ciphertext: block `i` lives modulo `message_modulus_vec[i]`,
    /// with the shared carry headroom factor.
    pub open spec fn crt_with(self, carry: int) -> bool {
        &&& self.ct_vec@.len() == self.message_modulus_vec@.len()
        &&& forall|i: int| 0 <= i < self.ct_vec@.len() ==> (#[trigger] self.ct_vec@[i]).wf()
        &&& forall|i: int|
            0 <= i < self.ct_vec@.len() ==> (#[trigger] self.ct_vec@[i]).message_modulus
                == self.message_modulus_vec@[i]
        &&& forall|i: int|
            0 <= i < self.ct_vec@.len() ==> (#[trigger] self.ct_vec@[i]).carry_modulus == carry
    }

    /// Every block's degree is at or below `max`.
    pub open spec fn bounded(self, max: int) -> bool {
        forall|i: int| 0 <= i < self.ct_vec@.len() ==> (#[trigger] self.ct_vec@[i]).degree <= max
    }

    /// Every block's payload is readable (below its payload space).
    pub open spec fn all_readable(self) -> bool {
        forall|i: int| 0 <= i < self.ct_vec@.len() ==> (#[trigger] self.ct_vec@[i]).readable()
    }

    /// Every block is reduced to its own canonical digit range.
    pub open spec fn all_reduced(self) -> bool {
        forall|i: int| 0 <= i < self.ct_vec@.len() ==> (#[trigger] self.ct_vec@[i]).reduced()
    }

    /// Every block is canonical: reduced, with its degree below its own
    /// message modulus.
    pub open spec fn all_canonical(self) -> bool {
        forall|i: int| 0 <= i < self.ct_vec@.len() ==> (#[trigger] self.ct_vec@[i]).canonical()
    }

    /// The integer a radix ciphertext holds, before reduction modulo the
    /// representation's modulus.
    pub open spec fn radix_value(self, base: int) -> int {
        le_value(self.values(), base)
    }

    /// The integer a radix ciphertext decrypts to: its value modulo
    /// `base^len`.
    pub open spec fn radix_decrypt(self, base: int) -> int {
        self.radix_value(base) % pow(base, self.ct_vec@.len() as nat)
    }

    /// The CRT residues a ciphertext decrypts to, one per block, each modulo
    /// the block's own modulus.
    pub open spec fn crt_residues(self) -> Seq<int> {
        Seq::new(
            self.ct_vec@.len(),
            |i: int| (self.ct_vec@[i].value as int) % (self.message_modulus_vec@[i] as int),
        )
    }
}

/// Independence of the CRT blocks: two ciphertexts that differ only in
/// block `k` carry identical residues at every other position, so
/// corrupting one block never disturbs another digit's modulus component
/// (and extraction, being blockwise, preserves this).
pub proof fn lemma_crt_block_independence(a: Ciphertext, b: Ciphertext, k: int)
    requires
        a.ct_vec@.len() == b.ct_vec@.len(),
        a.message_modulus_vec@ == b.message_modulus_vec@,
        forall|j: int|
            0 <= j < a.ct_vec@.len() && j != k ==> #[trigger] a.ct_vec@[j] == b.ct_vec@[j],
    ensures
        forall|j: int|
            0 <= j < a.ct_vec@.len() && j != k ==> #[trigger] a.crt_residues()[j]
                == b.crt_residues()[j],
{
    assert forall|j: int|
        0 <= j < a.ct_vec@.len() && j != k implies #[trigger] a.crt_residues()[j]
        == b.crt_residues()[j] by {
        assert(a.ct_vec@[j] == b.ct_vec@[j]);
    }
}

impl Clone for Ciphertext {
    fn clone(&self) -> (r: Self)
        ensures
            r.ct_vec@ == self.ct_vec@,
            r.message_modulus_vec@ == self.message_modulus_vec@,
            r.key_id_vec@ == self.key_id_vec@,
    {
        let mut ct_vec: Vec<shortint::Ciphertext> = Vec::new();
        let mut i: usize = 0;
        while i < self.ct_vec.len()
            invariant
                0 <= i <= self.ct_vec@.len(),
                ct_vec@ =~= self.ct_vec@.take(i as int),
            decreases self.ct_vec@.len() - i,
        {
            ct_vec.push(self.ct_vec[i]);
            i = i + 1;
        }
        let mut message_modulus_vec: Vec<u64> = Vec::new();
        let mut j: usize = 0;
        while j < self.message_modulus_vec.len()
            invariant
                0 <= j <= self.message_modulus_vec@.len(),
                message_modulus_vec@ =~= self.message_modulus_vec@.take(j as int),
            decreases self.message_modulus_vec@.len() - j,
        {
            message_modulus_vec.push(self.message_modulus_vec[j]);
            j = j + 1;
        }
        let mut key_id_vec: Vec<KeyId> = Vec::new();
        let mut k: usize = 0;
        while k < self.key_id_vec.len()
            invariant
                0 <= k <= self.key_id_vec@.len(),
                key_id_vec@ =~= self.key_id_vec@.take(k as int),
            decreases self.key_id_vec@.len() - k,
        {
            key_id_vec.push(self.key_id_vec[k]);
            k = k + 1;
        }
        proof {
            assert(ct_vec@ =~= self.ct_vec@);
            assert(message_modulus_vec@ =~= self.message_modulus_vec@);
            assert(key_id_vec@ =~= self.key_id_vec@);
        }
        Ciphertext { ct_vec, message_modulus_vec, key_id_vec }
    }
}

/// Copies a vector of moduli.
pub(crate) fn clone_u64_vec(v: &Vec<u64>) -> (r: Vec<u64>)
    ensures
        r@ == v@,
{
    let mut r: Vec<u64> = Vec::new();
    let mut i: usize = 0;
    while i < v.len()
        invariant
            0 <= i <= v@.len(),
            r@ =~= v@.take(i as int),
        decreases v@.len() - i,
    {
        r.push(v[i]);
        i = i + 1;
    }
    proof {
        assert(r@ =~= v@);
    }
    r
}

/// Copies a vector of key identifiers.
pub(crate) fn clone_key_id_vec(v: &Vec<KeyId>) -> (r: Vec<KeyId>)
    ensures
        r@ == v@,
{
    let mut r: Vec<crate::ciphertext::KeyId> = Vec::new();
    let mut i: usize = 0;
    while i < v.len()
        invariant
            0 <= i <= v@.len(),
            r@ =~= v@.take(i as int),
        decreases v@.len() - i,
    {
        r.push(v[i]);
        i = i + 1;
    }
    proof {
        assert(r@ =~= v@);
    }
    r
}

} // verus!
