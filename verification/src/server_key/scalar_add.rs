//! Addition and subtraction of a cleartext scalar: the scalar is encoded
//! as a trivial radix ciphertext and added blockwise; subtraction adds the
//! scalar's additive complement modulo the representation's modulus.

use vstd::prelude::*;
use vstd::arithmetic::power::pow;
use vstd::arithmetic::div_mod::lemma_add_mod_noop_right;
use vstd::arithmetic::div_mod::lemma_mod_bound;
use vstd::arithmetic::div_mod::lemma_mod_twice;
use crate::arith;
use crate::arith::le_value;
use crate::ciphertext::Ciphertext;
use crate::shortint;
use crate::server_key::ServerKey;

verus! {

impl ServerKey {
    /// Encodes a cleartext integer as a trivial radix ciphertext of `size`
    /// canonical digits; the encoded value is the integer modulo the
    /// representation's modulus.
    pub fn create_trivial_radix(&self, value: u64, size: usize) -> (r: Ciphertext)
        requires
            self.wf(),
            1 <= size,
        ensures
            self.radix_ok(r),
            r.ct_vec@.len() == size,
            r.all_canonical(),
            r.bounded(self.base() - 1),
            r.radix_value(self.base()) == (value as int) % pow(self.base(), size as nat),
            r.message_modulus_vec@.len() == 0,
            r.key_id_vec@.len() == 0,
    {
        let base = self.key.message_modulus;
        let carry = self.key.carry_modulus;
        let mut ct_vec: Vec<shortint::Ciphertext> = Vec::new();
        let mut rest: u64 = value;
        let mut i: usize = 0;
        proof {
            vstd::arithmetic::power::lemma_pow0(base as int);
        }
        while i < size
            invariant
                0 <= i <= size,
                self.wf(),
                base == self.key.message_modulus,
                carry == self.key.carry_modulus,
                ct_vec@.len() == i,
                forall|j: int| 0 <= j < i ==> (#[trigger] ct_vec@[j]).wf(),
                forall|j: int| 0 <= j < i ==> (#[trigger] ct_vec@[j]).message_modulus == base,
                forall|j: int| 0 <= j < i ==> (#[trigger] ct_vec@[j]).carry_modulus == carry,
                forall|j: int| 0 <= j < i ==> (#[trigger] ct_vec@[j]).canonical(),
                forall|j: int| 0 <= j < i ==> (#[trigger] ct_vec@[j]).degree <= base - 1,
                le_value(
                    ct_vec@.map(|j: int, b: shortint::Ciphertext| b.value as int),
                    base as int,
                ) + pow(base as int, i as nat) * rest == value,
                le_value(
                    ct_vec@.map(|j: int, b: shortint::Ciphertext| b.value as int),
                    base as int,
                ) >= 0,
            decreases size - i,
        {
            let ghost vals_before = ct_vec@.map(|j: int, b: shortint::Ciphertext| b.value as int);
            proof {
                vstd::arithmetic::mul::lemma_mul_left_inequality(base as int, 1, carry as int);
            }
            let digit = rest % base;
            let block = shortint::Ciphertext {
                value: digit,
                degree: digit,
                message_modulus: base,
                carry_modulus: carry,
            };
            ct_vec.push(block);
            proof {
                let vals_after = ct_vec@.map(|j: int, b: shortint::Ciphertext| b.value as int);
                assert(vals_after =~= vals_before.push(digit as int));
                arith::lemma_le_value_push(vals_before, base as int, digit as int);
                vstd::arithmetic::div_mod::lemma_fundamental_div_mod(rest as int, base as int);
                let p = pow(base as int, i as nat);
                vstd::arithmetic::mul::lemma_mul_is_distributive_add(
                    p,
                    digit as int,
                    (base as int) * ((rest / base) as int),
                );
                vstd::arithmetic::mul::lemma_mul_is_associative(
                    p,
                    base as int,
                    (rest / base) as int,
                );
                vstd::arithmetic::power::lemma_pow_adds(base as int, i as nat, 1);
                vstd::arithmetic::power::lemma_pow1(base as int);
                vstd::arithmetic::mul::lemma_mul_is_commutative(p, base as int);
                vstd::arithmetic::power::lemma_pow_positive(base as int, i as nat);
                vstd::arithmetic::mul::lemma_mul_nonnegative(p, digit as int);
            }
            rest = rest / base;
            i = i + 1;
        }
        proof {
            let vals = ct_vec@.map(|j: int, b: shortint::Ciphertext| b.value as int);
            arith::lemma_le_value_bound(vals, self.base());
            vstd::arithmetic::mul::lemma_mul_is_commutative(
                pow(self.base(), size as nat),
                rest as int,
            );
            vstd::arithmetic::div_mod::lemma_fundamental_div_mod_converse_mod(
                value as int,
                pow(self.base(), size as nat),
                rest as int,
                le_value(vals, self.base()),
            );
        }
        Ciphertext { ct_vec, message_modulus_vec: Vec::new(), key_id_vec: Vec::new() }
    }

    /// Computes homomorphically an addition between a ciphertext and a
    /// cleartext scalar, with no capacity check: the scalar's digits add
    /// blockwise.
    pub fn unchecked_scalar_add(&self, ct: &Ciphertext, scalar: u64) -> (r: Ciphertext)
        requires
            self.radix_ok(*ct),
            ct.bounded(self.max_degree()),
            1 <= ct.ct_vec@.len(),
        ensures
            self.radix_ok(r),
            r.ct_vec@.len() == ct.ct_vec@.len(),
            r.message_modulus_vec@ == ct.message_modulus_vec@,
            r.key_id_vec@ == ct.key_id_vec@,
            r.bounded(self.max_degree() + self.base() - 1),
            r.radix_value(self.base()) == ct.radix_value(self.base()) + (scalar as int)
                % self.modulus(*ct),
    {
        let digits = self.create_trivial_radix(scalar, ct.ct_vec.len());
        proof {
            lemma_scalar_add_fits(*self, *ct);
        }
        let mut result = ct.clone();
        self.unchecked_add_assign(&mut result, &digits);
        proof {
            crate::server_key::add::lemma_added_value(
                *self,
                *ct,
                digits,
                result,
                self.base(),
            );
        }
        result
    }

    /// As [`Self::unchecked_scalar_add`], assigning the sum to `ct`.
    pub fn unchecked_scalar_add_assign(&self, ct: &mut Ciphertext, scalar: u64)
        requires
            self.radix_ok(*old(ct)),
            old(ct).bounded(self.max_degree()),
            1 <= old(ct).ct_vec@.len(),
        ensures
            self.radix_ok(*final(ct)),
            final(ct).ct_vec@.len() == old(ct).ct_vec@.len(),
            final(ct).message_modulus_vec@ == old(ct).message_modulus_vec@,
            final(ct).key_id_vec@ == old(ct).key_id_vec@,
            final(ct).bounded(self.max_degree() + self.base() - 1),
            final(ct).radix_value(self.base()) == old(ct).radix_value(self.base()) + (
            scalar as int) % self.modulus(*old(ct)),
    {
        *ct = self.unchecked_scalar_add(ct, scalar);
    }

    /// Computes homomorphically an addition between a ciphertext and a
    /// cleartext scalar, propagating the operand first when the scalar's
    /// digits would not fit; the result decrypts to the sum modulo the
    /// representation's modulus.
    pub fn smart_scalar_add_assign(&self, ct: &mut Ciphertext, scalar: u64)
        requires
            self.radix_ok(*old(ct)),
            old(ct).bounded(self.max_degree()),
            1 <= old(ct).ct_vec@.len(),
            2 * (self.base() - 1) <= self.max_degree(),
        ensures
            self.radix_ok(*final(ct)),
            final(ct).ct_vec@.len() == old(ct).ct_vec@.len(),
            final(ct).message_modulus_vec@ == old(ct).message_modulus_vec@,
            final(ct).key_id_vec@ == old(ct).key_id_vec@,
            final(ct).bounded(self.max_degree()),
            final(ct).radix_value(self.base()) % self.modulus(*old(ct)) == (old(
                ct,
            ).radix_value(self.base()) + scalar) % self.modulus(*old(ct)),
    {
        let ghost m = self.modulus(*old(ct));
        let ghost a = old(ct).radix_value(self.base());
        let mut digits = self.create_trivial_radix(scalar, ct.ct_vec.len());
        proof {
            vstd::arithmetic::power::lemma_pow_positive(
                self.base(),
                old(ct).ct_vec@.len() as nat,
            );
        }
        self.smart_add_assign(ct, &mut digits);
        proof {
            // a + (scalar % m) and a + scalar agree modulo m
            lemma_add_mod_noop_right(a, (scalar as int) % m, m);
            lemma_mod_twice(scalar as int, m);
            lemma_add_mod_noop_right(a, scalar as int, m);
        }
    }

    /// As [`Self::smart_scalar_add_assign`], returning the sum as a new
    /// ciphertext.
    pub fn smart_scalar_add(&self, ct: &mut Ciphertext, scalar: u64) -> (r: Ciphertext)
        requires
            self.radix_ok(*old(ct)),
            old(ct).bounded(self.max_degree()),
            1 <= old(ct).ct_vec@.len(),
            2 * (self.base() - 1) <= self.max_degree(),
        ensures
            self.radix_ok(r),
            r.ct_vec@.len() == old(ct).ct_vec@.len(),
            r.message_modulus_vec@ == old(ct).message_modulus_vec@,
            r.key_id_vec@ == old(ct).key_id_vec@,
            r.bounded(self.max_degree()),
            r.radix_value(self.base()) % self.modulus(*old(ct)) == (old(ct).radix_value(
                self.base(),
            ) + scalar) % self.modulus(*old(ct)),
    {
        let mut result = ct.clone();
        self.smart_scalar_add_assign(&mut result, scalar);
        result
    }

    /// Computes homomorphically a subtraction of a cleartext scalar, by
    /// adding the scalar's additive complement modulo the representation's
    /// modulus; the result decrypts to the difference modulo that modulus.
    pub fn smart_scalar_sub_assign(&self, ct: &mut Ciphertext, scalar: u64)
        requires
            self.radix_ok(*old(ct)),
            old(ct).bounded(self.max_degree()),
            1 <= old(ct).ct_vec@.len(),
            2 * (self.base() - 1) <= self.max_degree(),
            self.power_of_two_base(),
            self.modulus(*old(ct)) <= u64::MAX,
        ensures
            self.radix_ok(*final(ct)),
            final(ct).ct_vec@.len() == old(ct).ct_vec@.len(),
            final(ct).message_modulus_vec@ == old(ct).message_modulus_vec@,
            final(ct).key_id_vec@ == old(ct).key_id_vec@,
            final(ct).bounded(self.max_degree()),
            final(ct).radix_value(self.base()) % self.modulus(*old(ct)) == (old(
                ct,
            ).radix_value(self.base()) - scalar) % self.modulus(*old(ct)),
    {
        let ghost m = self.modulus(*old(ct));
        let ghost a = old(ct).radix_value(self.base());
        let modulus = arith::pow_u64(self.key.message_modulus, ct.ct_vec.len());
        proof {
            vstd::arithmetic::power::lemma_pow_positive(
                self.base(),
                old(ct).ct_vec@.len() as nat,
            );
            lemma_mod_bound(scalar as int, m);
        }
        let complement = modulus - scalar % modulus;
        self.smart_scalar_add_assign(ct, complement);
        proof {
            // a + (m - scalar % m) and a - scalar agree modulo m
            lemma_complement_subtracts(a, scalar as int, m);
        }
    }

    /// As [`Self::smart_scalar_sub_assign`], returning the difference as a
    /// new ciphertext.
    pub fn smart_scalar_sub(&self, ct: &mut Ciphertext, scalar: u64) -> (r: Ciphertext)
        requires
            self.radix_ok(*old(ct)),
            old(ct).bounded(self.max_degree()),
            1 <= old(ct).ct_vec@.len(),
            2 * (self.base() - 1) <= self.max_degree(),
            self.power_of_two_base(),
            self.modulus(*old(ct)) <= u64::MAX,
        ensures
            self.radix_ok(r),
            r.ct_vec@.len() == old(ct).ct_vec@.len(),
            r.message_modulus_vec@ == old(ct).message_modulus_vec@,
            r.key_id_vec@ == old(ct).key_id_vec@,
            r.bounded(self.max_degree()),
            r.radix_value(self.base()) % self.modulus(*old(ct)) == (old(ct).radix_value(
                self.base(),
            ) - scalar) % self.modulus(*old(ct)),
    {
        let mut result = ct.clone();
        self.smart_scalar_sub_assign(&mut result, scalar);
        result
    }
}

/// Bounded degrees and canonical digits add within machine words.
proof fn lemma_scalar_add_fits(sks: ServerKey, ct: Ciphertext)
    requires
        sks.wf(),
        ct.radix_with(sks.base(), sks.carry_modulus()),
        ct.bounded(sks.max_degree()),
    ensures
        forall|i: int|
            0 <= i < ct.ct_vec@.len() ==> (#[trigger] ct.ct_vec@[i]).degree + sks.base() - 1
                <= u64::MAX,
{
    assert forall|i: int|
        0 <= i < ct.ct_vec@.len() implies (#[trigger] ct.ct_vec@[i]).degree + sks.base() - 1
        <= u64::MAX by {
        vstd::arithmetic::mul::lemma_mul_is_distributive_sub_other_way(
            sks.carry_modulus(),
            sks.base(),
            1,
        );
        vstd::arithmetic::mul::lemma_mul_inequality(2, sks.carry_modulus(), sks.base());
        vstd::arithmetic::mul::lemma_mul_is_commutative(2, sks.base());
        vstd::arithmetic::mul::lemma_mul_is_commutative(sks.carry_modulus(), sks.base());
    }
}

/// `(a + (m - s % m)) % m == (a - s) % m`: adding the complement of a
/// scalar subtracts it, modulo `m`.
proof fn lemma_complement_subtracts(a: int, s: int, m: int)
    requires
        0 < m,
        0 <= s,
    ensures
        (a + (m - s % m)) % m == (a - s) % m,
{
    lemma_mod_bound(s, m);
    // a + m - s % m == (a - s % m) + m, and adding m vanishes modulo m
    vstd::arithmetic::div_mod::lemma_mod_add_multiples_vanish(a - s % m, m);
    // a - s % m and a - s agree modulo m
    vstd::arithmetic::div_mod::lemma_sub_mod_noop_right(a, s, m);
    lemma_mod_twice(s, m);
}

} // verus!
