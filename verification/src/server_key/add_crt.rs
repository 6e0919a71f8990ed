//! CRT addition: blockwise and independent; the smart tier restores
//! headroom by extracting every block to its own modulus.

use vstd::prelude::*;
use vstd::arithmetic::div_mod::lemma_add_mod_noop;
use crate::ciphertext::Ciphertext;
use crate::server_key::ServerKey;

verus! {

impl ServerKey {
    /// The residues a blockwise sum carries: each block's residue is the
    /// sum of the operand residues, modulo the block's own modulus.
    pub open spec fn crt_added_residues(self, l: Ciphertext, r: Ciphertext, t: Ciphertext)
        -> bool {
        forall|i: int|
            0 <= i < t.ct_vec@.len() ==> #[trigger] t.crt_residues()[i] == (l.crt_residues()[i]
                + r.crt_residues()[i]) % (l.ct_vec@[i].message_modulus as int)
    }

    /// Computes homomorphically an addition between two CRT ciphertexts,
    /// extracting both operands first when the capacity predicate fails;
    /// the sum is assigned to `ct_left` and every residue is the sum of
    /// the operands' residues.
    pub fn smart_crt_add_assign(&self, ct_left: &mut Ciphertext, ct_right: &mut Ciphertext)
        requires
            self.crt_ok(*old(ct_left)),
            self.crt_ok(*old(ct_right)),
            old(ct_left).degrees_below_capacity(),
            old(ct_right).degrees_below_capacity(),
            old(ct_left).ct_vec@.len() == old(ct_right).ct_vec@.len(),
            old(ct_left).message_modulus_vec@ == old(ct_right).message_modulus_vec@,
        ensures
            self.crt_ok(*final(ct_left)),
            final(ct_left).ct_vec@.len() == old(ct_left).ct_vec@.len(),
            final(ct_left).message_modulus_vec@ == old(ct_left).message_modulus_vec@,
            final(ct_left).key_id_vec@ == old(ct_left).key_id_vec@,
            final(ct_left).degrees_below_capacity(),
            self.crt_added_residues(*old(ct_left), *old(ct_right), *final(ct_left)),
            self.crt_ok(*final(ct_right)),
            final(ct_right).ct_vec@.len() == old(ct_right).ct_vec@.len(),
            final(ct_right).message_modulus_vec@ == old(ct_right).message_modulus_vec@,
            final(ct_right).degrees_below_capacity(),
            final(ct_right).crt_residues() =~= old(ct_right).crt_residues(),
    {
        proof {
            lemma_crt_compatible(*self, *old(ct_left), *old(ct_right));
        }
        // If the ciphertexts cannot be added together without exceeding the
        // capacity of a ciphertext
        if !self.is_add_possible(ct_left, ct_right) {
            self.full_extract(ct_left);
            self.full_extract(ct_right);
        }
        let ghost mid_l = *ct_left;
        let ghost mid_r = *ct_right;
        proof {
            lemma_crt_compatible(*self, mid_l, mid_r);
            lemma_crt_add_fits(*self, mid_l, mid_r, self.add_possible(mid_l, mid_r));
        }
        self.unchecked_add_assign(ct_left, ct_right);
        proof {
            lemma_crt_added_residues(
                *self,
                *old(ct_left),
                *old(ct_right),
                mid_l,
                mid_r,
                *ct_left,
            );
            assert forall|i: int| 0 <= i < ct_right.ct_vec@.len() implies (
            #[trigger] ct_right.ct_vec@[i]).degree < ct_right.ct_vec@[i].capacity() by {
                vstd::arithmetic::mul::lemma_mul_left_inequality(
                    ct_right.ct_vec@[i].message_modulus as int,
                    1,
                    ct_right.ct_vec@[i].carry_modulus as int,
                );
            }
        }
    }

    /// As [`Self::smart_crt_add_assign`], returning the sum as a new
    /// ciphertext.
    pub fn smart_crt_add(&self, ct_left: &mut Ciphertext, ct_right: &mut Ciphertext) -> (r:
        Ciphertext)
        requires
            self.crt_ok(*old(ct_left)),
            self.crt_ok(*old(ct_right)),
            old(ct_left).degrees_below_capacity(),
            old(ct_right).degrees_below_capacity(),
            old(ct_left).ct_vec@.len() == old(ct_right).ct_vec@.len(),
            old(ct_left).message_modulus_vec@ == old(ct_right).message_modulus_vec@,
        ensures
            self.crt_ok(r),
            r.ct_vec@.len() == old(ct_left).ct_vec@.len(),
            r.message_modulus_vec@ == old(ct_left).message_modulus_vec@,
            r.key_id_vec@ == old(ct_left).key_id_vec@,
            r.degrees_below_capacity(),
            self.crt_added_residues(*old(ct_left), *old(ct_right), r),
            self.crt_ok(*final(ct_left)),
            final(ct_left).ct_vec@.len() == old(ct_left).ct_vec@.len(),
            final(ct_left).degrees_below_capacity(),
            final(ct_left).crt_residues() =~= old(ct_left).crt_residues(),
            self.crt_ok(*final(ct_right)),
            final(ct_right).ct_vec@.len() == old(ct_right).ct_vec@.len(),
            final(ct_right).degrees_below_capacity(),
            final(ct_right).crt_residues() =~= old(ct_right).crt_residues(),
    {
        let mut result = ct_left.clone();
        proof {
            assert(result.crt_residues() =~= old(ct_left).crt_residues());
        }
        self.smart_crt_add_assign(&mut result, ct_right);
        result
    }
}

/// CRT operands over the same moduli are blockwise compatible.
pub(crate) proof fn lemma_crt_compatible(sks: ServerKey, l: Ciphertext, r: Ciphertext)
    requires
        sks.crt_ok(l),
        sks.crt_ok(r),
        l.ct_vec@.len() == r.ct_vec@.len(),
        l.message_modulus_vec@ == r.message_modulus_vec@,
    ensures
        sks.compatible(l, r),
{
    assert forall|i: int| 0 <= i < l.ct_vec@.len() implies (#[trigger] l.ct_vec@[
    i]).same_parameters(r.ct_vec@[i]) by {}
}

/// Whether the predicate held or extraction reduced both operands, the
/// blockwise sums stay within machine words and below capacity.
pub(crate) proof fn lemma_crt_add_fits(
    sks: ServerKey,
    l: Ciphertext,
    r: Ciphertext,
    possible: bool,
)
    requires
        sks.crt_ok(l),
        sks.crt_ok(r),
        l.ct_vec@.len() == r.ct_vec@.len(),
        l.message_modulus_vec@ == r.message_modulus_vec@,
        possible ==> sks.add_possible(l, r),
        !possible ==> l.bounded_by_own_modulus() && r.bounded_by_own_modulus(),
    ensures
        forall|i: int|
            0 <= i < l.ct_vec@.len() ==> (#[trigger] l.ct_vec@[i]).degree + r.ct_vec@[i].degree
                <= u64::MAX,
        forall|i: int|
            0 <= i < l.ct_vec@.len() ==> (#[trigger] l.ct_vec@[i]).degree + r.ct_vec@[i].degree
                < l.ct_vec@[i].capacity(),
{
    assert forall|i: int|
        0 <= i < l.ct_vec@.len() implies (#[trigger] l.ct_vec@[i]).degree + r.ct_vec@[i].degree
        < l.ct_vec@[i].capacity() by {
        let m = l.ct_vec@[i].message_modulus as int;
        let c = l.ct_vec@[i].carry_modulus as int;
        if possible {
            // at or below the ceiling, which is below capacity
            vstd::arithmetic::mul::lemma_mul_is_distributive_sub_other_way(c, m, 1);
            vstd::arithmetic::mul::lemma_mul_inequality(2, m, c);
            vstd::arithmetic::mul::lemma_mul_is_commutative(2, c);
            vstd::arithmetic::mul::lemma_mul_is_commutative(m, c);
        } else {
            // both degrees are below the modulus, and 2m <= m * c
            vstd::arithmetic::mul::lemma_mul_inequality(2, c, m);
            vstd::arithmetic::mul::lemma_mul_is_commutative(2, m);
            vstd::arithmetic::mul::lemma_mul_is_commutative(c, m);
        }
    }
}

/// The residues of a blockwise sum are the sums of the original residues,
/// whether or not the operands were extracted first.
pub(crate) proof fn lemma_crt_added_residues(
    sks: ServerKey,
    orig_l: Ciphertext,
    orig_r: Ciphertext,
    mid_l: Ciphertext,
    mid_r: Ciphertext,
    t: Ciphertext,
)
    requires
        sks.crt_ok(orig_l),
        orig_l.ct_vec@.len() == orig_r.ct_vec@.len(),
        mid_l.ct_vec@.len() == orig_l.ct_vec@.len(),
        mid_r.ct_vec@.len() == orig_r.ct_vec@.len(),
        t.ct_vec@.len() == orig_l.ct_vec@.len(),
        mid_l.crt_residues() =~= orig_l.crt_residues(),
        mid_r.crt_residues() =~= orig_r.crt_residues(),
        forall|i: int|
            0 <= i < mid_l.ct_vec@.len() ==> (#[trigger] mid_l.ct_vec@[i]).message_modulus
                == orig_l.ct_vec@[i].message_modulus,
        forall|i: int|
            0 <= i < mid_r.ct_vec@.len() ==> (#[trigger] mid_r.ct_vec@[i]).message_modulus
                == orig_r.ct_vec@[i].message_modulus,
        orig_l.message_modulus_vec@ == orig_r.message_modulus_vec@,
        mid_l.message_modulus_vec@ == orig_l.message_modulus_vec@,
        mid_r.message_modulus_vec@ == orig_r.message_modulus_vec@,
        t.message_modulus_vec@ == orig_l.message_modulus_vec@,
        forall|i: int|
            0 <= i < t.ct_vec@.len() ==> (#[trigger] t.ct_vec@[i]).value == mid_l.ct_vec@[
            i].value + mid_r.ct_vec@[i].value,
        sks.crt_ok(mid_l),
    ensures
        sks.crt_added_residues(orig_l, orig_r, t),
{
    assert forall|i: int| 0 <= i < t.ct_vec@.len() implies #[trigger] t.crt_residues()[i] == (
    orig_l.crt_residues()[i] + orig_r.crt_residues()[i]) % (
    orig_l.ct_vec@[i].message_modulus as int) by {
        let m = orig_l.ct_vec@[i].message_modulus as int;
        let a = mid_l.ct_vec@[i].value as int;
        let b = mid_r.ct_vec@[i].value as int;
        // (a + b) % m == (a % m + b % m) % m, and the middle residues equal
        // the original residues
        lemma_add_mod_noop(a, b, m);
        vstd::arithmetic::div_mod::lemma_mod_twice(a, m);
        vstd::arithmetic::div_mod::lemma_mod_twice(b, m);
        assert(mid_l.crt_residues()[i] == orig_l.crt_residues()[i]);
        assert(mid_r.crt_residues()[i] == orig_r.crt_residues()[i]);
        lemma_add_mod_noop(orig_l.crt_residues()[i], orig_r.crt_residues()[i], m);
    }
}

} // verus!
