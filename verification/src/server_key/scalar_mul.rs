//! Multiplication of a radix ciphertext by a small cleartext scalar: every
//! block's payload and degree scale by the scalar, so the encoded value
//! scales too.

use vstd::prelude::*;
use vstd::arithmetic::div_mod::lemma_mul_mod_noop_right;
use crate::arith;
use crate::ciphertext::Ciphertext;
use crate::server_key::ServerKey;

verus! {

impl ServerKey {
    /// The degree growth of multiplication by `scalar` stays at or below
    /// every block's degree ceiling.
    pub open spec fn scalar_mul_possible(self, ct: Ciphertext, scalar: u64) -> bool {
        forall|i: int|
            0 <= i < ct.ct_vec@.len() ==> (#[trigger] ct.ct_vec@[i]).degree * scalar
                <= ct.ct_vec@[i].max_degree()
    }

    /// The blockwise scaling that scalar multiplication leaves behind.
    pub open spec fn scaled_to(self, ct: Ciphertext, scalar: u64, t: Ciphertext) -> bool {
        &&& t.ct_vec@.len() == ct.ct_vec@.len()
        &&& forall|i: int|
            0 <= i < t.ct_vec@.len() ==> (#[trigger] t.ct_vec@[i]).value == ct.ct_vec@[i].value
                * scalar
        &&& forall|i: int|
            0 <= i < t.ct_vec@.len() ==> (#[trigger] t.ct_vec@[i]).degree == ct.ct_vec@[i].degree
                * scalar
        &&& forall|i: int|
            0 <= i < t.ct_vec@.len() ==> (#[trigger] t.ct_vec@[i]).same_parameters(
                ct.ct_vec@[i],
            ) && t.ct_vec@[i].wf()
        &&& t.message_modulus_vec@ == ct.message_modulus_vec@
        &&& t.key_id_vec@ == ct.key_id_vec@
    }

    /// Verifies whether every block can be scaled by `scalar` without
    /// exceeding its degree ceiling (`small` meaning the scalar acts on each
    /// block directly).
    pub fn is_small_scalar_mul_possible(&self, ct: &Ciphertext, scalar: u64) -> (r: bool)
        requires
            self.wf(),
            forall|i: int| 0 <= i < ct.ct_vec@.len() ==> (#[trigger] ct.ct_vec@[i]).wf(),
        ensures
            r == self.scalar_mul_possible(*ct, scalar),
    {
        let len = ct.ct_vec.len();
        let mut i: usize = 0;
        while i < len
            invariant
                0 <= i <= len,
                self.wf(),
                len == ct.ct_vec@.len(),
                forall|j: int| 0 <= j < len ==> (#[trigger] ct.ct_vec@[j]).wf(),
                forall|j: int|
                    0 <= j < i ==> (#[trigger] ct.ct_vec@[j]).degree * scalar <= ct.ct_vec@[
                    j].max_degree(),
            decreases len - i,
        {
            if !self.key.is_scalar_mul_possible(&ct.ct_vec[i], scalar) {
                return false;
            }
            i = i + 1;
        }
        true
    }

    /// Multiplies every block by the scalar, with no capacity check; the
    /// encoded value scales exactly.  The result is assigned to `ct`.
    pub fn unchecked_small_scalar_mul_assign(&self, ct: &mut Ciphertext, scalar: u64)
        requires
            self.wf(),
            forall|i: int| 0 <= i < old(ct).ct_vec@.len() ==> (#[trigger] old(ct).ct_vec@[i]).wf(),
            forall|i: int|
                0 <= i < old(ct).ct_vec@.len() ==> (#[trigger] old(ct).ct_vec@[i]).degree * scalar
                    <= u64::MAX,
        ensures
            self.scaled_to(*old(ct), scalar, *final(ct)),
            final(ct).radix_value(self.base()) == old(ct).radix_value(self.base())
                * scalar,
    {
        let len = ct.ct_vec.len();
        let mut i: usize = 0;
        while i < len
            invariant
                0 <= i <= len,
                self.wf(),
                len == ct.ct_vec@.len(),
                len == old(ct).ct_vec@.len(),
                forall|j: int|
                    0 <= j < len ==> (#[trigger] old(ct).ct_vec@[j]).wf(),
                forall|j: int|
                    0 <= j < len ==> (#[trigger] old(ct).ct_vec@[j]).degree * scalar <= u64::MAX,
                ct.message_modulus_vec@ == old(ct).message_modulus_vec@,
                ct.key_id_vec@ == old(ct).key_id_vec@,
                forall|j: int| i <= j < len ==> #[trigger] ct.ct_vec@[j] == old(ct).ct_vec@[j],
                forall|j: int|
                    0 <= j < i ==> (#[trigger] ct.ct_vec@[j]).value == old(ct).ct_vec@[j].value
                        * scalar,
                forall|j: int|
                    0 <= j < i ==> (#[trigger] ct.ct_vec@[j]).degree == old(ct).ct_vec@[j].degree
                        * scalar,
                forall|j: int|
                    0 <= j < i ==> (#[trigger] ct.ct_vec@[j]).same_parameters(
                        old(ct).ct_vec@[j],
                    ) && ct.ct_vec@[j].wf(),
            decreases len - i,
        {
            let mut block = ct.ct_vec[i];
            self.key.unchecked_scalar_mul_assign(&mut block, scalar);
            ct.ct_vec.set(i, block);
            i = i + 1;
        }
        proof {
            assert forall|i: int| 0 <= i < ct.values().len() implies #[trigger] ct.values()[i]
                == old(ct).values()[i] * (scalar as int) by {
                assert(ct.ct_vec@[i].value == old(ct).ct_vec@[i].value * scalar);
            }
            arith::lemma_le_value_pointwise_scale(
                ct.values(),
                old(ct).values(),
                scalar as int,
                self.base(),
            );
            vstd::arithmetic::mul::lemma_mul_is_commutative(
                scalar as int,
                old(ct).radix_value(self.base()),
            );
        }
    }

    /// As [`Self::unchecked_small_scalar_mul_assign`], returning the scaled
    /// ciphertext.
    pub fn unchecked_small_scalar_mul(&self, ct: &Ciphertext, scalar: u64) -> (r: Ciphertext)
        requires
            self.wf(),
            forall|i: int| 0 <= i < ct.ct_vec@.len() ==> (#[trigger] ct.ct_vec@[i]).wf(),
            forall|i: int|
                0 <= i < ct.ct_vec@.len() ==> (#[trigger] ct.ct_vec@[i]).degree * scalar
                    <= u64::MAX,
        ensures
            self.scaled_to(*ct, scalar, r),
            r.radix_value(self.base()) == ct.radix_value(self.base()) * scalar,
    {
        let mut result = ct.clone();
        self.unchecked_small_scalar_mul_assign(&mut result, scalar);
        result
    }

    /// Multiplies a radix ciphertext by a small scalar, propagating first
    /// when the capacity predicate fails; the result always decrypts to
    /// `scalar` times the operand's value modulo the representation's
    /// modulus.
    pub fn smart_scalar_mul_assign(&self, ct: &mut Ciphertext, scalar: u64)
        requires
            self.radix_ok(*old(ct)),
            old(ct).bounded(self.max_degree()),
            (self.base() - 1) * scalar <= self.max_degree(),
        ensures
            self.radix_ok(*final(ct)),
            final(ct).ct_vec@.len() == old(ct).ct_vec@.len(),
            final(ct).bounded(self.max_degree()),
            final(ct).message_modulus_vec@ == old(ct).message_modulus_vec@,
            final(ct).key_id_vec@ == old(ct).key_id_vec@,
            final(ct).radix_value(self.base()) % self.modulus(*old(ct)) == (old(ct).radix_value(self.base()) * scalar) % self.modulus(*old(ct)),
    {
        let ghost m = self.modulus(*old(ct));
        let ghost a = old(ct).radix_value(self.base());
        proof {
            vstd::arithmetic::power::lemma_pow_positive(
                self.base(),
                old(ct).ct_vec@.len() as nat,
            );
        }
        if !self.is_small_scalar_mul_possible(ct, scalar) {
            self.full_propagate(ct);
            proof {
                lemma_possible_after_propagate(*self, *ct, scalar);
            }
        }
        proof {
            lemma_scalar_within_u64(*self, *ct, scalar);
        }
        let ghost pre = ct.radix_value(self.base());
        self.unchecked_small_scalar_mul_assign(ct, scalar);
        proof {
            // pre % m == a % m, so (pre * scalar) % m == (a * scalar) % m
            vstd::arithmetic::div_mod::lemma_mod_twice(a, m);
            lemma_mul_mod_noop_right(scalar as int, pre, m);
            lemma_mul_mod_noop_right(scalar as int, a, m);
            vstd::arithmetic::mul::lemma_mul_is_commutative(scalar as int, pre);
            vstd::arithmetic::mul::lemma_mul_is_commutative(scalar as int, a);
        }
    }

    /// As [`Self::smart_scalar_mul_assign`], with the propagation performed
    /// through the multi-output bootstrap primitive.
    pub fn smart_multivalue_scalar_mul_assign(&self, ct: &mut Ciphertext, scalar: u64)
        requires
            self.radix_ok(*old(ct)),
            old(ct).bounded(self.max_degree()),
            (self.base() - 1) * scalar <= self.max_degree(),
        ensures
            self.radix_ok(*final(ct)),
            final(ct).ct_vec@.len() == old(ct).ct_vec@.len(),
            final(ct).bounded(self.max_degree()),
            final(ct).message_modulus_vec@ == old(ct).message_modulus_vec@,
            final(ct).key_id_vec@ == old(ct).key_id_vec@,
            final(ct).radix_value(self.base()) % self.modulus(*old(ct)) == (old(ct).radix_value(self.base()) * scalar) % self.modulus(*old(ct)),
    {
        let ghost m = self.modulus(*old(ct));
        let ghost a = old(ct).radix_value(self.base());
        proof {
            vstd::arithmetic::power::lemma_pow_positive(
                self.base(),
                old(ct).ct_vec@.len() as nat,
            );
        }
        if !self.is_small_scalar_mul_possible(ct, scalar) {
            self.multivalue_full_propagate(ct);
            proof {
                lemma_possible_after_propagate(*self, *ct, scalar);
            }
        }
        proof {
            lemma_scalar_within_u64(*self, *ct, scalar);
        }
        let ghost pre = ct.radix_value(self.base());
        self.unchecked_small_scalar_mul_assign(ct, scalar);
        proof {
            vstd::arithmetic::div_mod::lemma_mod_twice(a, m);
            lemma_mul_mod_noop_right(scalar as int, pre, m);
            lemma_mul_mod_noop_right(scalar as int, a, m);
            vstd::arithmetic::mul::lemma_mul_is_commutative(scalar as int, pre);
            vstd::arithmetic::mul::lemma_mul_is_commutative(scalar as int, a);
        }
    }
}

/// After propagation every degree is `base - 1`, so the scalar fits under
/// the ceiling whenever `(base - 1) * scalar` does.
proof fn lemma_possible_after_propagate(sks: ServerKey, ct: Ciphertext, scalar: u64)
    requires
        sks.radix_ok(ct),
        ct.bounded(sks.base() - 1),
        (sks.base() - 1) * scalar <= sks.max_degree(),
    ensures
        sks.scalar_mul_possible(ct, scalar),
{
    assert forall|i: int|
        0 <= i < ct.ct_vec@.len() implies (#[trigger] ct.ct_vec@[i]).degree * scalar
        <= ct.ct_vec@[i].max_degree() by {
        vstd::arithmetic::mul::lemma_mul_inequality(
            ct.ct_vec@[i].degree as int,
            sks.base() - 1,
            scalar as int,
        );
    }
}

/// A degree under the ceiling scales within a machine word.
proof fn lemma_scalar_within_u64(sks: ServerKey, ct: Ciphertext, scalar: u64)
    requires
        sks.wf(),
        forall|i: int| 0 <= i < ct.ct_vec@.len() ==> (#[trigger] ct.ct_vec@[i]).wf(),
        sks.scalar_mul_possible(ct, scalar),
    ensures
        forall|i: int|
            0 <= i < ct.ct_vec@.len() ==> (#[trigger] ct.ct_vec@[i]).degree * scalar <= u64::MAX,
{
    assert forall|i: int|
        0 <= i < ct.ct_vec@.len() implies (#[trigger] ct.ct_vec@[i]).degree * scalar
        <= u64::MAX by {
        let b = ct.ct_vec@[i];
        vstd::arithmetic::mul::lemma_mul_is_distributive_sub_other_way(
            b.carry_modulus as int,
            b.message_modulus as int,
            1,
        );
        vstd::arithmetic::mul::lemma_mul_inequality(
            2,
            b.carry_modulus as int,
            b.message_modulus as int,
        );
        vstd::arithmetic::mul::lemma_mul_is_commutative(2, b.message_modulus as int);
    }
}

} // verus!
