//! CRT subtraction: negate the right operand about each block's zero
//! point, then add blockwise.  The zero points are multiples of each
//! block's modulus, so every residue is the difference of the operand
//! residues.

use vstd::prelude::*;
use vstd::arithmetic::div_mod::lemma_mod_multiples_vanish;
use vstd::arithmetic::div_mod::lemma_fundamental_div_mod;
use vstd::arithmetic::div_mod::lemma_sub_mod_noop;
use crate::ciphertext::Ciphertext;
use crate::shortint::neg_zero_point;
use crate::server_key::ServerKey;

verus! {

impl ServerKey {
    /// The residues a blockwise difference carries: each residue is the
    /// left residue minus the right residue, modulo the block's own
    /// modulus.
    pub open spec fn crt_sub_residues(self, l: Ciphertext, r: Ciphertext, t: Ciphertext)
        -> bool {
        forall|i: int|
            0 <= i < t.ct_vec@.len() ==> #[trigger] t.crt_residues()[i] == (l.crt_residues()[i]
                - r.crt_residues()[i]) % (l.ct_vec@[i].message_modulus as int)
    }

    /// The degree growth of negate-then-add stays at or below every
    /// block's degree ceiling: the left degree plus the right block's zero
    /// point.
    pub open spec fn sub_possible(self, l: Ciphertext, r: Ciphertext) -> bool {
        forall|i: int|
            0 <= i < l.ct_vec@.len() ==> (#[trigger] l.ct_vec@[i]).degree + neg_zero_point(
                r.ct_vec@[i].degree as int,
                r.ct_vec@[i].message_modulus as int,
            ) <= l.ct_vec@[i].max_degree()
    }

    /// Verifies whether the subtraction can be computed without exceeding
    /// any block's degree ceiling.
    pub fn is_sub_possible(&self, ct_left: &Ciphertext, ct_right: &Ciphertext) -> (r: bool)
        requires
            self.crt_ok(*ct_left),
            self.crt_ok(*ct_right),
            ct_left.ct_vec@.len() == ct_right.ct_vec@.len(),
        ensures
            r == self.sub_possible(*ct_left, *ct_right),
    {
        let len = ct_left.ct_vec.len();
        let mut i: usize = 0;
        while i < len
            invariant
                0 <= i <= len,
                self.crt_ok(*ct_left),
                self.crt_ok(*ct_right),
                len == ct_left.ct_vec@.len(),
                len == ct_right.ct_vec@.len(),
                forall|j: int|
                    0 <= j < i ==> (#[trigger] ct_left.ct_vec@[j]).degree + neg_zero_point(
                        ct_right.ct_vec@[j].degree as int,
                        ct_right.ct_vec@[j].message_modulus as int,
                    ) <= ct_left.ct_vec@[j].max_degree(),
            decreases len - i,
        {
            let rb = ct_right.ct_vec[i];
            proof {
                vstd::arithmetic::mul::lemma_mul_left_inequality(
                    rb.message_modulus as int,
                    1,
                    rb.carry_modulus as int,
                );
                crate::shortint::lemma_neg_zero_point_bounds(
                    rb.degree as int,
                    rb.message_modulus as int,
                );
            }
            let m = rb.message_modulus;
            if rb.degree > u64::MAX - m {
                // the zero point alone would overflow any ceiling
                proof {
                    vstd::arithmetic::mul::lemma_mul_left_inequality(
                        rb.message_modulus as int,
                        1,
                        rb.carry_modulus as int,
                    );
                    lemma_zero_point_monotone(
                        rb.degree as int,
                        rb.message_modulus as int,
                        ct_left.ct_vec@[i as int],
                    );
                }
                return false;
            }
            let z = ((rb.degree + m - 1) / m) * m;
            let lb = ct_left.ct_vec[i];
            proof {
                lemma_block_ceiling_fits(lb);
            }
            let bmax = (lb.message_modulus - 1) * lb.carry_modulus - 1;
            if !(z <= bmax && lb.degree <= bmax - z) {
                return false;
            }
            i = i + 1;
        }
        true
    }

    /// Computes homomorphically a subtraction between two CRT ciphertexts,
    /// with no capacity check; the difference is assigned to `ctxt_left`
    /// and every residue is the difference of the operand residues.
    pub fn unchecked_crt_sub_assign(&self, ctxt_left: &mut Ciphertext, ctxt_right: &Ciphertext)
        requires
            self.crt_ok(*old(ctxt_left)),
            self.crt_ok(*ctxt_right),
            old(ctxt_left).degrees_below_capacity(),
            ctxt_right.degrees_below_capacity(),
            old(ctxt_left).ct_vec@.len() == ctxt_right.ct_vec@.len(),
            old(ctxt_left).message_modulus_vec@ == ctxt_right.message_modulus_vec@,
            forall|i: int|
                0 <= i < old(ctxt_left).ct_vec@.len() ==> (#[trigger] old(
                    ctxt_left,
                ).ct_vec@[i]).degree + neg_zero_point(
                    ctxt_right.ct_vec@[i].degree as int,
                    ctxt_right.ct_vec@[i].message_modulus as int,
                ) <= u64::MAX,
        ensures
            self.crt_ok(*final(ctxt_left)),
            final(ctxt_left).ct_vec@.len() == old(ctxt_left).ct_vec@.len(),
            final(ctxt_left).message_modulus_vec@ == old(ctxt_left).message_modulus_vec@,
            final(ctxt_left).key_id_vec@ == old(ctxt_left).key_id_vec@,
            forall|i: int|
                0 <= i < old(ctxt_left).ct_vec@.len() ==> (#[trigger] final(
                    ctxt_left
                ).ct_vec@[i]).degree == old(ctxt_left).ct_vec@[i].degree + neg_zero_point(
                    ctxt_right.ct_vec@[i].degree as int,
                    ctxt_right.ct_vec@[i].message_modulus as int,
                ),
            self.crt_sub_residues(*old(ctxt_left), *ctxt_right, *final(ctxt_left)),
    {
        let neg = self.unchecked_crt_neg(ctxt_right);
        proof {
            crate::server_key::add_crt::lemma_crt_compatible(
                *self,
                *old(ctxt_left),
                neg,
            );
        }
        let ghost pre = *ctxt_left;
        self.unchecked_add_assign(ctxt_left, &neg);
        proof {
            assert forall|i: int| 0 <= i < pre.ct_vec@.len() implies #[trigger] ctxt_left.crt_residues()[
            i] == (pre.crt_residues()[i] - ctxt_right.crt_residues()[i]) % (
            pre.ct_vec@[i].message_modulus as int) by {
                let m = pre.ct_vec@[i].message_modulus as int;
                let a = pre.ct_vec@[i].value as int;
                let b = ctxt_right.ct_vec@[i].value as int;
                let z = neg_zero_point(
                    ctxt_right.ct_vec@[i].degree as int,
                    ctxt_right.ct_vec@[i].message_modulus as int,
                );
                crate::shortint::lemma_neg_zero_point_bounds(
                    ctxt_right.ct_vec@[i].degree as int,
                    m,
                );
                // a + (z - b) carries the residue (a - b) % m
                lemma_fundamental_div_mod(z, m);
                lemma_mod_multiples_vanish(z / m, a - b, m);
                vstd::arithmetic::mul::lemma_mul_is_commutative(z / m, m);
                // and (a - b) % m == (a % m - b % m) % m
                lemma_sub_mod_noop(a, b, m);
                vstd::arithmetic::div_mod::lemma_mod_twice(a, m);
                vstd::arithmetic::div_mod::lemma_mod_twice(b, m);
            }
        }
    }

    /// As [`Self::unchecked_crt_sub_assign`], returning the difference as a
    /// new ciphertext.
    pub fn unchecked_crt_sub(&self, ctxt_left: &Ciphertext, ctxt_right: &Ciphertext) -> (r:
        Ciphertext)
        requires
            self.crt_ok(*ctxt_left),
            self.crt_ok(*ctxt_right),
            ctxt_left.degrees_below_capacity(),
            ctxt_right.degrees_below_capacity(),
            ctxt_left.ct_vec@.len() == ctxt_right.ct_vec@.len(),
            ctxt_left.message_modulus_vec@ == ctxt_right.message_modulus_vec@,
            forall|i: int|
                0 <= i < ctxt_left.ct_vec@.len() ==> (#[trigger] ctxt_left.ct_vec@[i]).degree
                    + neg_zero_point(
                    ctxt_right.ct_vec@[i].degree as int,
                    ctxt_right.ct_vec@[i].message_modulus as int,
                ) <= u64::MAX,
        ensures
            self.crt_ok(r),
            r.ct_vec@.len() == ctxt_left.ct_vec@.len(),
            r.message_modulus_vec@ == ctxt_left.message_modulus_vec@,
            r.key_id_vec@ == ctxt_left.key_id_vec@,
            forall|i: int|
                0 <= i < ctxt_left.ct_vec@.len() ==> (#[trigger] r.ct_vec@[i]).degree
                    == ctxt_left.ct_vec@[i].degree + neg_zero_point(
                    ctxt_right.ct_vec@[i].degree as int,
                    ctxt_right.ct_vec@[i].message_modulus as int,
                ),
            self.crt_sub_residues(*ctxt_left, *ctxt_right, r),
    {
        let mut result = ctxt_left.clone();
        self.unchecked_crt_sub_assign(&mut result, ctxt_right);
        result
    }

    /// Computes homomorphically the subtraction between `ctxt_left` and
    /// `ctxt_right`, extracting both operands first when the capacity
    /// predicate fails; every residue is the difference of the operand
    /// residues and every block stays readable.
    pub fn smart_crt_sub(&self, ctxt_left: &mut Ciphertext, ctxt_right: &mut Ciphertext) -> (r:
        Ciphertext)
        requires
            self.crt_ok(*old(ctxt_left)),
            self.crt_ok(*old(ctxt_right)),
            old(ctxt_left).degrees_below_capacity(),
            old(ctxt_right).degrees_below_capacity(),
            old(ctxt_left).ct_vec@.len() == old(ctxt_right).ct_vec@.len(),
            old(ctxt_left).message_modulus_vec@ == old(ctxt_right).message_modulus_vec@,
        ensures
            self.crt_ok(r),
            r.ct_vec@.len() == old(ctxt_left).ct_vec@.len(),
            r.message_modulus_vec@ == old(ctxt_left).message_modulus_vec@,
            r.key_id_vec@ == old(ctxt_left).key_id_vec@,
            r.degrees_below_capacity(),
            self.crt_sub_residues(*old(ctxt_left), *old(ctxt_right), r),
            self.crt_ok(*final(ctxt_left)),
            final(ctxt_left).ct_vec@.len() == old(ctxt_left).ct_vec@.len(),
            final(ctxt_left).degrees_below_capacity(),
            final(ctxt_left).crt_residues() =~= old(ctxt_left).crt_residues(),
            self.crt_ok(*final(ctxt_right)),
            final(ctxt_right).ct_vec@.len() == old(ctxt_right).ct_vec@.len(),
            final(ctxt_right).degrees_below_capacity(),
            final(ctxt_right).crt_residues() =~= old(ctxt_right).crt_residues(),
    {
        // If the difference cannot be computed without exceeding the
        // capacity of a ciphertext
        if !self.is_sub_possible(ctxt_left, ctxt_right) {
            self.full_extract(ctxt_left);
            self.full_extract(ctxt_right);
        }
        proof {
            assert forall|i: int| 0 <= i < ctxt_left.ct_vec@.len() implies (
            #[trigger] ctxt_left.ct_vec@[i]).degree < ctxt_left.ct_vec@[i].capacity() by {
                vstd::arithmetic::mul::lemma_mul_left_inequality(
                    ctxt_left.ct_vec@[i].message_modulus as int,
                    1,
                    ctxt_left.ct_vec@[i].carry_modulus as int,
                );
            }
            assert forall|i: int| 0 <= i < ctxt_right.ct_vec@.len() implies (
            #[trigger] ctxt_right.ct_vec@[i]).degree < ctxt_right.ct_vec@[i].capacity() by {
                vstd::arithmetic::mul::lemma_mul_left_inequality(
                    ctxt_right.ct_vec@[i].message_modulus as int,
                    1,
                    ctxt_right.ct_vec@[i].carry_modulus as int,
                );
            }
        }
        let ghost mid_l = *ctxt_left;
        let ghost mid_r = *ctxt_right;
        proof {
            lemma_smart_sub_fits(*self, mid_l, mid_r, self.sub_possible(mid_l, mid_r));
        }
        let mut result = ctxt_left.clone();
        self.unchecked_crt_sub_assign(&mut result, ctxt_right);
        proof {
            lemma_smart_sub_after(*self, *old(ctxt_left), *old(ctxt_right), mid_l, mid_r, result);
        }
        result
    }

    /// As [`Self::smart_crt_sub`], assigning the difference to
    /// `ctxt_left`.  Both operands are extracted unconditionally: the zero
    /// point of the negation grows with the right operand's degree, so
    /// reducing both operands first is the uniformly safe choice, and the
    /// difference of two freshly extracted blocks always fits below
    /// capacity.
    pub fn smart_crt_sub_assign(&self, ctxt_left: &mut Ciphertext, ctxt_right: &mut Ciphertext)
        requires
            self.crt_ok(*old(ctxt_left)),
            self.crt_ok(*old(ctxt_right)),
            old(ctxt_left).degrees_below_capacity(),
            old(ctxt_right).degrees_below_capacity(),
            old(ctxt_left).ct_vec@.len() == old(ctxt_right).ct_vec@.len(),
            old(ctxt_left).message_modulus_vec@ == old(ctxt_right).message_modulus_vec@,
        ensures
            self.crt_ok(*final(ctxt_left)),
            final(ctxt_left).ct_vec@.len() == old(ctxt_left).ct_vec@.len(),
            final(ctxt_left).message_modulus_vec@ == old(ctxt_left).message_modulus_vec@,
            final(ctxt_left).key_id_vec@ == old(ctxt_left).key_id_vec@,
            final(ctxt_left).degrees_below_capacity(),
            self.crt_sub_residues(*old(ctxt_left), *old(ctxt_right), *final(ctxt_left)),
            self.crt_ok(*final(ctxt_right)),
            final(ctxt_right).ct_vec@.len() == old(ctxt_right).ct_vec@.len(),
            final(ctxt_right).degrees_below_capacity(),
            final(ctxt_right).crt_residues() =~= old(ctxt_right).crt_residues(),
    {
        self.full_extract(ctxt_left);
        self.full_extract(ctxt_right);
        proof {
            assert forall|i: int| 0 <= i < ctxt_left.ct_vec@.len() implies (
            #[trigger] ctxt_left.ct_vec@[i]).degree < ctxt_left.ct_vec@[i].capacity() by {
                vstd::arithmetic::mul::lemma_mul_left_inequality(
                    ctxt_left.ct_vec@[i].message_modulus as int,
                    1,
                    ctxt_left.ct_vec@[i].carry_modulus as int,
                );
            }
            assert forall|i: int| 0 <= i < ctxt_right.ct_vec@.len() implies (
            #[trigger] ctxt_right.ct_vec@[i]).degree < ctxt_right.ct_vec@[i].capacity() by {
                vstd::arithmetic::mul::lemma_mul_left_inequality(
                    ctxt_right.ct_vec@[i].message_modulus as int,
                    1,
                    ctxt_right.ct_vec@[i].carry_modulus as int,
                );
            }
        }
        let ghost mid_l = *ctxt_left;
        let ghost mid_r = *ctxt_right;
        proof {
            lemma_smart_sub_fits(*self, mid_l, mid_r, false);
        }
        self.unchecked_crt_sub_assign(ctxt_left, ctxt_right);
        proof {
            lemma_smart_sub_after(
                *self,
                *old(ctxt_left),
                *old(ctxt_right),
                mid_l,
                mid_r,
                *ctxt_left,
            );
        }
    }
}

/// The zero point is at least the degree, so a degree past the ceiling
/// makes the subtraction impossible.
proof fn lemma_zero_point_monotone(degree: int, m: int, lb: crate::shortint::Ciphertext)
    requires
        0 <= degree,
        2 <= m,
        m <= 0x1_0000_0000,
        lb.wf(),
        degree > u64::MAX - m,
    ensures
        lb.degree + neg_zero_point(degree, m) > lb.max_degree(),
{
    crate::shortint::lemma_neg_zero_point_bounds(degree, m);
    lemma_block_ceiling_fits(lb);
}

/// A well-formed block's degree ceiling is below its capacity, which fits
/// a machine word.
proof fn lemma_block_ceiling_fits(b: crate::shortint::Ciphertext)
    requires
        b.wf(),
    ensures
        0 <= b.max_degree() < b.capacity(),
        (b.message_modulus - 1) * b.carry_modulus == b.max_degree() + 1,
{
    let m = b.message_modulus as int;
    let c = b.carry_modulus as int;
    vstd::arithmetic::mul::lemma_mul_is_distributive_sub_other_way(c, m, 1);
    vstd::arithmetic::mul::lemma_mul_inequality(2, m, c);
    vstd::arithmetic::mul::lemma_mul_is_commutative(2, c);
    vstd::arithmetic::mul::lemma_mul_is_commutative(m, c);
}

/// After the optional (or unconditional) extraction the negate-then-add
/// degrees stay within machine words and below capacity.
proof fn lemma_smart_sub_fits(sks: ServerKey, l: Ciphertext, r: Ciphertext, possible: bool)
    requires
        sks.crt_ok(l),
        sks.crt_ok(r),
        l.ct_vec@.len() == r.ct_vec@.len(),
        l.message_modulus_vec@ == r.message_modulus_vec@,
        possible ==> sks.sub_possible(l, r),
        !possible ==> l.bounded_by_own_modulus() && r.bounded_by_own_modulus(),
    ensures
        forall|i: int|
            0 <= i < l.ct_vec@.len() ==> (#[trigger] l.ct_vec@[i]).degree + neg_zero_point(
                r.ct_vec@[i].degree as int,
                r.ct_vec@[i].message_modulus as int,
            ) <= u64::MAX,
        forall|i: int|
            0 <= i < l.ct_vec@.len() ==> (#[trigger] l.ct_vec@[i]).degree + neg_zero_point(
                r.ct_vec@[i].degree as int,
                r.ct_vec@[i].message_modulus as int,
            ) < l.ct_vec@[i].capacity(),
{
    assert forall|i: int|
        0 <= i < l.ct_vec@.len() implies (#[trigger] l.ct_vec@[i]).degree + neg_zero_point(
        r.ct_vec@[i].degree as int,
        r.ct_vec@[i].message_modulus as int,
    ) < l.ct_vec@[i].capacity() by {
        let m = l.ct_vec@[i].message_modulus as int;
        let c = l.ct_vec@[i].carry_modulus as int;
        assert(r.ct_vec@[i].message_modulus == l.ct_vec@[i].message_modulus);
        crate::shortint::lemma_neg_zero_point_bounds(r.ct_vec@[i].degree as int, m);
        lemma_block_ceiling_fits(l.ct_vec@[i]);
        if !possible {
            // the right degree is below m, so its zero point is at most m:
            // (deg + m - 1) / m <= (2m - 2) / m == 1
            vstd::arithmetic::div_mod::lemma_div_is_ordered(
                r.ct_vec@[i].degree + m - 1,
                2 * m - 2,
                m,
            );
            vstd::arithmetic::div_mod::lemma_fundamental_div_mod_converse_div(
                2 * m - 2,
                m,
                1,
                m - 2,
            );
            vstd::arithmetic::mul::lemma_mul_inequality(
                (r.ct_vec@[i].degree + m - 1) / m,
                1,
                m,
            );
            // and 2m - 1 < m * c for every carry of at least 2
            vstd::arithmetic::mul::lemma_mul_inequality(2, c, m);
            vstd::arithmetic::mul::lemma_mul_is_commutative(2, m);
            vstd::arithmetic::mul::lemma_mul_is_commutative(c, m);
        }
    }
}

/// The blockwise difference carries the original residues' differences
/// and stays below capacity.
proof fn lemma_smart_sub_after(
    sks: ServerKey,
    orig_l: Ciphertext,
    orig_r: Ciphertext,
    mid_l: Ciphertext,
    mid_r: Ciphertext,
    t: Ciphertext,
)
    requires
        sks.crt_ok(orig_l),
        sks.crt_ok(mid_l),
        sks.crt_ok(mid_r),
        sks.crt_ok(t),
        orig_l.ct_vec@.len() == orig_r.ct_vec@.len(),
        mid_l.ct_vec@.len() == orig_l.ct_vec@.len(),
        mid_r.ct_vec@.len() == orig_r.ct_vec@.len(),
        t.ct_vec@.len() == orig_l.ct_vec@.len(),
        mid_l.crt_residues() =~= orig_l.crt_residues(),
        mid_r.crt_residues() =~= orig_r.crt_residues(),
        forall|i: int|
            0 <= i < mid_l.ct_vec@.len() ==> (#[trigger] mid_l.ct_vec@[i]).message_modulus
                == orig_l.ct_vec@[i].message_modulus,
        forall|i: int|
            0 <= i < t.ct_vec@.len() ==> (#[trigger] t.ct_vec@[i]).degree == mid_l.ct_vec@[
            i].degree + neg_zero_point(
                mid_r.ct_vec@[i].degree as int,
                mid_r.ct_vec@[i].message_modulus as int,
            ),
        forall|i: int|
            0 <= i < t.ct_vec@.len() ==> (#[trigger] t.ct_vec@[i]).message_modulus
                == mid_l.ct_vec@[i].message_modulus,
        forall|i: int|
            0 <= i < t.ct_vec@.len() ==> (#[trigger] t.ct_vec@[i]).carry_modulus
                == mid_l.ct_vec@[i].carry_modulus,
        forall|i: int|
            0 <= i < mid_l.ct_vec@.len() ==> (#[trigger] mid_l.ct_vec@[i]).degree
                + neg_zero_point(
                mid_r.ct_vec@[i].degree as int,
                mid_r.ct_vec@[i].message_modulus as int,
            ) < mid_l.ct_vec@[i].capacity(),
        sks.crt_sub_residues(mid_l, mid_r, t),
    ensures
        t.degrees_below_capacity(),
        sks.crt_sub_residues(orig_l, orig_r, t),
{
    assert forall|i: int| 0 <= i < t.ct_vec@.len() implies (#[trigger] t.ct_vec@[i]).degree
        < t.ct_vec@[i].capacity() by {}
    assert forall|i: int| 0 <= i < t.ct_vec@.len() implies #[trigger] t.crt_residues()[i] == (
    orig_l.crt_residues()[i] - orig_r.crt_residues()[i]) % (
    orig_l.ct_vec@[i].message_modulus as int) by {
        assert(mid_l.crt_residues()[i] == orig_l.crt_residues()[i]);
        assert(mid_r.crt_residues()[i] == orig_r.crt_residues()[i]);
    }
}

} // verus!
