//! CRT multiplication by a cleartext scalar: each block is scaled by the
//! scalar reduced modulo the block's own modulus, in the three usual tiers.

use vstd::prelude::*;
use vstd::arithmetic::div_mod::lemma_mul_mod_noop_left;
use vstd::arithmetic::div_mod::lemma_mul_mod_noop_right;
use crate::ciphertext::Ciphertext;
use crate::shortint::CheckError;
use crate::server_key::ServerKey;

verus! {

impl ServerKey {
    /// The degree growth of scaling each block by `scalar % m_i` stays at
    /// or below every block's degree ceiling.
    pub open spec fn crt_scalar_mul_possible(self, ct: Ciphertext, scalar: u64) -> bool {
        forall|i: int|
            0 <= i < ct.ct_vec@.len() ==> (#[trigger] ct.ct_vec@[i]).degree * ((scalar as int)
                % (ct.ct_vec@[i].message_modulus as int)) <= ct.ct_vec@[i].max_degree()
    }

    /// The residues a scaled ciphertext carries: each residue is the
    /// original times the scalar, modulo the block's own modulus.
    pub open spec fn crt_scaled_residues(self, ct: Ciphertext, scalar: u64, t: Ciphertext)
        -> bool {
        forall|i: int|
            0 <= i < t.ct_vec@.len() ==> #[trigger] t.crt_residues()[i] == (ct.crt_residues()[i]
                * (scalar as int)) % (ct.ct_vec@[i].message_modulus as int)
    }

    /// Verifies if the ciphertext can be multiplied by `scalar` without
    /// exceeding any block's degree ceiling.
    pub fn is_crt_scalar_mul_possible(&self, ctxt: &Ciphertext, scalar: u64) -> (r: bool)
        requires
            self.crt_ok(*ctxt),
        ensures
            r == self.crt_scalar_mul_possible(*ctxt, scalar),
    {
        let len = ctxt.ct_vec.len();
        let mut i: usize = 0;
        while i < len
            invariant
                0 <= i <= len,
                self.crt_ok(*ctxt),
                len == ctxt.ct_vec@.len(),
                forall|j: int|
                    0 <= j < i ==> (#[trigger] ctxt.ct_vec@[j]).degree * ((scalar as int) % (
                    ctxt.ct_vec@[j].message_modulus as int)) <= ctxt.ct_vec@[j].max_degree(),
            decreases len - i,
        {
            let modulus = ctxt.ct_vec[i].message_modulus;
            if !self.key.is_scalar_mul_possible(&ctxt.ct_vec[i], scalar % modulus) {
                return false;
            }
            i = i + 1;
        }
        true
    }

    /// Computes homomorphically a multiplication between a scalar and a
    /// CRT ciphertext, with no capacity check: each block scales by the
    /// scalar reduced modulo its own modulus, so each residue scales by
    /// the scalar.  The result is assigned to `ctxt`.
    pub fn unchecked_crt_scalar_mul_assign(&self, ctxt: &mut Ciphertext, scalar: u64)
        requires
            self.crt_ok(*old(ctxt)),
            old(ctxt).degrees_below_capacity(),
        ensures
            self.crt_ok(*final(ctxt)),
            final(ctxt).ct_vec@.len() == old(ctxt).ct_vec@.len(),
            final(ctxt).message_modulus_vec@ == old(ctxt).message_modulus_vec@,
            final(ctxt).key_id_vec@ == old(ctxt).key_id_vec@,
            forall|i: int|
                0 <= i < old(ctxt).ct_vec@.len() ==> (#[trigger] final(ctxt).ct_vec@[i]).degree
                    == old(ctxt).ct_vec@[i].degree * ((scalar as int) % (old(
                    ctxt,
                ).ct_vec@[i].message_modulus as int)),
            self.crt_scaled_residues(*old(ctxt), scalar, *final(ctxt)),
    {
        let len = ctxt.ct_vec.len();
        let mut i: usize = 0;
        while i < len
            invariant
                0 <= i <= len,
                len == ctxt.ct_vec@.len(),
                len == old(ctxt).ct_vec@.len(),
                self.crt_ok(*ctxt),
                self.crt_ok(*old(ctxt)),
                old(ctxt).degrees_below_capacity(),
                ctxt.message_modulus_vec@ == old(ctxt).message_modulus_vec@,
                ctxt.key_id_vec@ == old(ctxt).key_id_vec@,
                forall|j: int| i <= j < len ==> #[trigger] ctxt.ct_vec@[j] == old(ctxt).ct_vec@[j],
                forall|j: int|
                    0 <= j < i ==> (#[trigger] ctxt.ct_vec@[j]).degree == old(
                        ctxt,
                    ).ct_vec@[j].degree * ((scalar as int) % (old(
                        ctxt,
                    ).ct_vec@[j].message_modulus as int)),
                forall|j: int|
                    0 <= j < i ==> (#[trigger] ctxt.ct_vec@[j]).value == old(ctxt).ct_vec@[j].value
                        * ((scalar as int) % (old(ctxt).ct_vec@[j].message_modulus as int)),
                forall|j: int|
                    0 <= j < i ==> (#[trigger] ctxt.ct_vec@[j]).message_modulus == old(
                        ctxt,
                    ).ct_vec@[j].message_modulus,
            decreases len - i,
        {
            let modulus = ctxt.ct_vec[i].message_modulus;
            proof {
                lemma_crt_scale_fits(
                    old(ctxt).ct_vec@[i as int].degree as int,
                    old(ctxt).ct_vec@[i as int].message_modulus as int,
                    old(ctxt).ct_vec@[i as int].carry_modulus as int,
                    scalar as int,
                );
            }
            let mut block = ctxt.ct_vec[i];
            self.key.unchecked_scalar_mul_assign(&mut block, scalar % modulus);
            ctxt.ct_vec.set(i, block);
            i = i + 1;
        }
        proof {
            assert forall|i: int| 0 <= i < len implies #[trigger] ctxt.crt_residues()[i] == (
            old(ctxt).crt_residues()[i] * (scalar as int)) % (old(
                ctxt,
            ).ct_vec@[i].message_modulus as int) by {
                let m = old(ctxt).ct_vec@[i].message_modulus as int;
                let v = old(ctxt).ct_vec@[i].value as int;
                // (v * (s % m)) % m == (v * s) % m == ((v % m) * s) % m
                lemma_mul_mod_noop_right(v, scalar as int, m);
                lemma_mul_mod_noop_left(v, scalar as int, m);
            }
        }
    }

    /// As [`Self::unchecked_crt_scalar_mul_assign`], returning the scaled
    /// ciphertext.
    pub fn unchecked_crt_scalar_mul(&self, ctxt: &Ciphertext, scalar: u64) -> (r: Ciphertext)
        requires
            self.crt_ok(*ctxt),
            ctxt.degrees_below_capacity(),
        ensures
            self.crt_ok(r),
            r.ct_vec@.len() == ctxt.ct_vec@.len(),
            r.message_modulus_vec@ == ctxt.message_modulus_vec@,
            r.key_id_vec@ == ctxt.key_id_vec@,
            forall|i: int|
                0 <= i < ctxt.ct_vec@.len() ==> (#[trigger] r.ct_vec@[i]).degree == ctxt.ct_vec@[
                i].degree * ((scalar as int) % (ctxt.ct_vec@[i].message_modulus as int)),
            self.crt_scaled_residues(*ctxt, scalar, r),
    {
        let mut ct_result = ctxt.clone();
        self.unchecked_crt_scalar_mul_assign(&mut ct_result, scalar);
        ct_result
    }

    /// Computes the scalar multiplication only if no block's degree ceiling
    /// would be exceeded; otherwise returns [`CheckError::CarryFull`] and
    /// computes nothing.
    pub fn checked_crt_scalar_mul(&self, ct: &Ciphertext, scalar: u64) -> (r: Result<
        Ciphertext,
        CheckError,
    >)
        requires
            self.crt_ok(*ct),
            ct.degrees_below_capacity(),
        ensures
            r is Ok <==> self.crt_scalar_mul_possible(*ct, scalar),
            r matches Ok(t) ==> self.crt_scaled_residues(*ct, scalar, t) && self.crt_ok(t)
                && t.degrees_below_capacity() && t.ct_vec@.len() == ct.ct_vec@.len()
                && t.message_modulus_vec@ == ct.message_modulus_vec@,
            r matches Err(e) ==> e == CheckError::CarryFull,
    {
        // If the ciphertext cannot be multiplied without exceeding the
        // capacity of a ciphertext
        if self.is_crt_scalar_mul_possible(ct, scalar) {
            let ct_result = self.unchecked_crt_scalar_mul(ct, scalar);
            proof {
                lemma_scaled_below_capacity(*self, *ct, scalar, ct_result);
            }
            Ok(ct_result)
        } else {
            Err(CheckError::CarryFull)
        }
    }

    /// As [`Self::checked_crt_scalar_mul`], assigning the product on
    /// success; on failure `ct` is left untouched.
    pub fn checked_crt_scalar_mul_assign(&self, ct: &mut Ciphertext, scalar: u64) -> (r: Result<
        (),
        CheckError,
    >)
        requires
            self.crt_ok(*old(ct)),
            old(ct).degrees_below_capacity(),
        ensures
            r is Ok <==> self.crt_scalar_mul_possible(*old(ct), scalar),
            r is Ok ==> self.crt_scaled_residues(*old(ct), scalar, *final(ct)) && self.crt_ok(
                *final(ct),
            ) && final(ct).degrees_below_capacity() && final(ct).ct_vec@.len() == old(
                ct,
            ).ct_vec@.len() && final(ct).message_modulus_vec@ == old(ct).message_modulus_vec@,
            r matches Err(e) ==> e == CheckError::CarryFull && *final(ct) == *old(ct),
    {
        if self.is_crt_scalar_mul_possible(ct, scalar) {
            let ghost orig = *ct;
            self.unchecked_crt_scalar_mul_assign(ct, scalar);
            proof {
                lemma_scaled_below_capacity(*self, orig, scalar, *ct);
            }
            Ok(())
        } else {
            Err(CheckError::CarryFull)
        }
    }

    /// Computes homomorphically a multiplication between a scalar and a
    /// CRT ciphertext, extracting every block first when the capacity
    /// predicate fails; each residue scales by the scalar.
    pub fn smart_crt_scalar_mul(&self, ctxt: &mut Ciphertext, scalar: u64) -> (r: Ciphertext)
        requires
            self.crt_ok(*old(ctxt)),
            old(ctxt).degrees_below_capacity(),
            forall|i: int|
                0 <= i < old(ctxt).ct_vec@.len() ==> ((#[trigger] old(
                    ctxt,
                ).ct_vec@[i]).message_modulus - 1) * ((scalar as int) % (old(
                    ctxt,
                ).ct_vec@[i].message_modulus as int)) <= old(ctxt).ct_vec@[i].max_degree(),
        ensures
            self.crt_ok(r),
            r.ct_vec@.len() == old(ctxt).ct_vec@.len(),
            r.message_modulus_vec@ == old(ctxt).message_modulus_vec@,
            r.key_id_vec@ == old(ctxt).key_id_vec@,
            r.degrees_below_capacity(),
            self.crt_scaled_residues(*old(ctxt), scalar, r),
            self.crt_ok(*final(ctxt)),
            final(ctxt).ct_vec@.len() == old(ctxt).ct_vec@.len(),
            final(ctxt).degrees_below_capacity(),
            final(ctxt).crt_residues() =~= old(ctxt).crt_residues(),
    {
        if !self.is_crt_scalar_mul_possible(ctxt, scalar) {
            self.full_extract(ctxt);
        }
        proof {
            assert forall|i: int| 0 <= i < ctxt.ct_vec@.len() implies (#[trigger] ctxt.ct_vec@[
            i]).degree < ctxt.ct_vec@[i].capacity() by {
                vstd::arithmetic::mul::lemma_mul_left_inequality(
                    ctxt.ct_vec@[i].message_modulus as int,
                    1,
                    ctxt.ct_vec@[i].carry_modulus as int,
                );
            }
        }
        proof {
            lemma_smart_scale_state(*self, *old(ctxt), *ctxt, scalar);
        }
        let r = self.unchecked_crt_scalar_mul(ctxt, scalar);
        proof {
            lemma_scaled_below_capacity(*self, *ctxt, scalar, r);
            lemma_scaled_residue_chain(*self, *old(ctxt), *ctxt, r, scalar);
        }
        r
    }

    /// As [`Self::smart_crt_scalar_mul`], assigning the product to `ctxt`.
    pub fn smart_crt_scalar_mul_assign(&self, ctxt: &mut Ciphertext, scalar: u64)
        requires
            self.crt_ok(*old(ctxt)),
            old(ctxt).degrees_below_capacity(),
            forall|i: int|
                0 <= i < old(ctxt).ct_vec@.len() ==> ((#[trigger] old(
                    ctxt,
                ).ct_vec@[i]).message_modulus - 1) * ((scalar as int) % (old(
                    ctxt,
                ).ct_vec@[i].message_modulus as int)) <= old(ctxt).ct_vec@[i].max_degree(),
        ensures
            self.crt_ok(*final(ctxt)),
            final(ctxt).ct_vec@.len() == old(ctxt).ct_vec@.len(),
            final(ctxt).message_modulus_vec@ == old(ctxt).message_modulus_vec@,
            final(ctxt).key_id_vec@ == old(ctxt).key_id_vec@,
            final(ctxt).degrees_below_capacity(),
            self.crt_scaled_residues(*old(ctxt), scalar, *final(ctxt)),
    {
        if !self.is_crt_scalar_mul_possible(ctxt, scalar) {
            self.full_extract(ctxt);
        }
        proof {
            assert forall|i: int| 0 <= i < ctxt.ct_vec@.len() implies (#[trigger] ctxt.ct_vec@[
            i]).degree < ctxt.ct_vec@[i].capacity() by {
                vstd::arithmetic::mul::lemma_mul_left_inequality(
                    ctxt.ct_vec@[i].message_modulus as int,
                    1,
                    ctxt.ct_vec@[i].carry_modulus as int,
                );
            }
        }
        let ghost mid = *ctxt;
        proof {
            lemma_smart_scale_state(*self, *old(ctxt), *ctxt, scalar);
        }
        self.unchecked_crt_scalar_mul_assign(ctxt, scalar);
        proof {
            lemma_scaled_below_capacity(*self, mid, scalar, *ctxt);
            lemma_scaled_residue_chain(*self, *old(ctxt), mid, *ctxt, scalar);
        }
    }
}

/// A degree below capacity scales by a reduced scalar within a machine
/// word.
proof fn lemma_crt_scale_fits(degree: int, m: int, c: int, scalar: int)
    requires
        2 <= m,
        2 <= c,
        m * c <= 0x1_0000_0000,
        0 <= degree < m * c,
        0 <= scalar,
    ensures
        degree * (scalar % m) <= u64::MAX,
        0 <= scalar % m < m,
{
    vstd::arithmetic::div_mod::lemma_mod_bound(scalar, m);
    vstd::arithmetic::mul::lemma_mul_nonnegative(degree, scalar % m);
    // degree and the reduced scalar are both below m * c <= 2^32
    vstd::arithmetic::mul::lemma_mul_left_inequality(m, 1, c);
    vstd::arithmetic::mul::lemma_mul_inequality(degree, 0xffff_ffff, scalar % m);
    vstd::arithmetic::mul::lemma_mul_inequality(scalar % m, 0xffff_ffff, 0xffff_ffff);
    vstd::arithmetic::mul::lemma_mul_is_commutative(degree, scalar % m);
    vstd::arithmetic::mul::lemma_mul_is_commutative(scalar % m, 0xffff_ffff);
}

/// After the smart tier's optional extraction the scaling fits under every
/// block's ceiling.
proof fn lemma_smart_scale_state(
    sks: ServerKey,
    orig: Ciphertext,
    mid: Ciphertext,
    scalar: u64,
)
    requires
        sks.crt_ok(orig),
        sks.crt_ok(mid),
        mid.ct_vec@.len() == orig.ct_vec@.len(),
        forall|i: int|
            0 <= i < mid.ct_vec@.len() ==> (#[trigger] mid.ct_vec@[i]).message_modulus
                == orig.ct_vec@[i].message_modulus,
        forall|i: int|
            0 <= i < orig.ct_vec@.len() ==> ((#[trigger] orig.ct_vec@[i]).message_modulus - 1)
                * ((scalar as int) % (orig.ct_vec@[i].message_modulus as int))
                <= orig.ct_vec@[i].max_degree(),
        sks.crt_scalar_mul_possible(mid, scalar) || mid.bounded_by_own_modulus(),
    ensures
        sks.crt_scalar_mul_possible(mid, scalar),
{
    if !sks.crt_scalar_mul_possible(mid, scalar) {
        assert forall|i: int|
            0 <= i < mid.ct_vec@.len() implies (#[trigger] mid.ct_vec@[i]).degree * ((
        scalar as int) % (mid.ct_vec@[i].message_modulus as int)) <= mid.ct_vec@[
        i].max_degree() by {
            let m = mid.ct_vec@[i].message_modulus as int;
            vstd::arithmetic::div_mod::lemma_mod_bound(scalar as int, m);
            vstd::arithmetic::mul::lemma_mul_inequality(
                mid.ct_vec@[i].degree as int,
                m - 1,
                (scalar as int) % m,
            );
        }
    }
}

/// Scaling under the ceiling leaves every degree below capacity.
proof fn lemma_scaled_below_capacity(
    sks: ServerKey,
    orig: Ciphertext,
    scalar: u64,
    t: Ciphertext,
)
    requires
        sks.crt_ok(orig),
        sks.crt_scalar_mul_possible(orig, scalar),
        t.ct_vec@.len() == orig.ct_vec@.len(),
        forall|i: int|
            0 <= i < t.ct_vec@.len() ==> (#[trigger] t.ct_vec@[i]).degree == orig.ct_vec@[
            i].degree * ((scalar as int) % (orig.ct_vec@[i].message_modulus as int)),
        forall|i: int|
            0 <= i < t.ct_vec@.len() ==> (#[trigger] t.ct_vec@[i]).message_modulus
                == orig.ct_vec@[i].message_modulus,
        forall|i: int|
            0 <= i < t.ct_vec@.len() ==> (#[trigger] t.ct_vec@[i]).carry_modulus
                == orig.ct_vec@[i].carry_modulus,
    ensures
        t.degrees_below_capacity(),
{
    assert forall|i: int| 0 <= i < t.ct_vec@.len() implies (#[trigger] t.ct_vec@[i]).degree
        < t.ct_vec@[i].capacity() by {
        let m = orig.ct_vec@[i].message_modulus as int;
        let c = orig.ct_vec@[i].carry_modulus as int;
        vstd::arithmetic::mul::lemma_mul_is_distributive_sub_other_way(c, m, 1);
        vstd::arithmetic::mul::lemma_mul_inequality(2, m, c);
        vstd::arithmetic::mul::lemma_mul_is_commutative(2, c);
        vstd::arithmetic::mul::lemma_mul_is_commutative(m, c);
    }
}

/// Scaling after an extraction still scales the original residues.
proof fn lemma_scaled_residue_chain(
    sks: ServerKey,
    orig: Ciphertext,
    mid: Ciphertext,
    t: Ciphertext,
    scalar: u64,
)
    requires
        sks.crt_ok(orig),
        mid.ct_vec@.len() == orig.ct_vec@.len(),
        t.ct_vec@.len() == orig.ct_vec@.len(),
        mid.crt_residues() =~= orig.crt_residues(),
        forall|i: int|
            0 <= i < mid.ct_vec@.len() ==> (#[trigger] mid.ct_vec@[i]).message_modulus
                == orig.ct_vec@[i].message_modulus,
        sks.crt_scaled_residues(mid, scalar, t),
    ensures
        sks.crt_scaled_residues(orig, scalar, t),
{
    assert forall|i: int| 0 <= i < t.ct_vec@.len() implies #[trigger] t.crt_residues()[i] == (
    orig.crt_residues()[i] * (scalar as int)) % (orig.ct_vec@[i].message_modulus as int) by {
        assert(mid.crt_residues()[i] == orig.crt_residues()[i]);
    }
}

} // verus!
