//! CRT negation: blockwise and independent, each block negated about its
//! own modulus' zero point.

use vstd::prelude::*;
use vstd::arithmetic::div_mod::lemma_fundamental_div_mod;
use vstd::arithmetic::div_mod::lemma_mod_multiples_vanish;
use crate::ciphertext::Ciphertext;
use crate::shortint;
use crate::shortint::neg_zero_point;
use crate::server_key::ServerKey;

verus! {

/// `(z - v) % m == (m - v % m) % m` whenever `z` is a multiple of `m`: the
/// negated payload carries the negated residue.
pub proof fn lemma_neg_residue(v: int, z: int, m: int)
    requires
        0 <= v,
        2 <= m,
        z % m == 0,
    ensures
        (z - v) % m == (m - v % m) % m,
{
    lemma_fundamental_div_mod(z, m);
    lemma_fundamental_div_mod(v, m);
    // z - v == m * (z / m - v / m - 1) + (m - v % m)
    let k = z / m - v / m - 1;
    assert(m * k == m * (z / m) - m * (v / m) - m) by {
        vstd::arithmetic::mul::lemma_mul_is_distributive_sub(m, z / m - v / m, 1);
        vstd::arithmetic::mul::lemma_mul_is_distributive_sub(m, z / m, v / m);
    }
    lemma_mod_multiples_vanish(k, m - v % m, m);
}

impl Ciphertext {
    /// Every block's degree is below its own payload space, so the block is
    /// still readable by extraction.
    pub open spec fn degrees_below_capacity(self) -> bool {
        forall|i: int|
            0 <= i < self.ct_vec@.len() ==> (#[trigger] self.ct_vec@[i]).degree < self.ct_vec@[
            i].capacity()
    }
}

impl ServerKey {
    /// The degree growth of negation stays at or below every block's degree
    /// ceiling.
    pub open spec fn neg_possible(self, ct: Ciphertext) -> bool {
        forall|i: int|
            0 <= i < ct.ct_vec@.len() ==> neg_zero_point(
                (#[trigger] ct.ct_vec@[i]).degree as int,
                ct.ct_vec@[i].message_modulus as int,
            ) <= ct.ct_vec@[i].max_degree()
    }

    /// Verifies whether the negation can be computed without exceeding any
    /// block's degree ceiling.
    pub fn is_neg_possible(&self, ct: &Ciphertext) -> (r: bool)
        requires
            self.wf(),
            forall|i: int| 0 <= i < ct.ct_vec@.len() ==> (#[trigger] ct.ct_vec@[i]).wf(),
        ensures
            r == self.neg_possible(*ct),
    {
        let len = ct.ct_vec.len();
        let mut i: usize = 0;
        while i < len
            invariant
                0 <= i <= len,
                self.wf(),
                len == ct.ct_vec@.len(),
                forall|j: int| 0 <= j < len ==> (#[trigger] ct.ct_vec@[j]).wf(),
                forall|j: int|
                    0 <= j < i ==> neg_zero_point(
                        (#[trigger] ct.ct_vec@[j]).degree as int,
                        ct.ct_vec@[j].message_modulus as int,
                    ) <= ct.ct_vec@[j].max_degree(),
            decreases len - i,
        {
            if !self.key.is_neg_possible(&ct.ct_vec[i]) {
                return false;
            }
            i = i + 1;
        }
        true
    }

    /// Homomorphically computes the opposite of a CRT ciphertext, with no
    /// capacity check: each block's payload becomes `z_i - value_i` for the
    /// block's own zero point `z_i`, so each residue is negated modulo its
    /// own modulus.  The result is assigned to `ctxt`.
    pub fn unchecked_crt_neg_assign(&self, ctxt: &mut Ciphertext)
        requires
            self.crt_ok(*old(ctxt)),
            old(ctxt).degrees_below_capacity(),
        ensures
            self.crt_ok(*final(ctxt)),
            final(ctxt).ct_vec@.len() == old(ctxt).ct_vec@.len(),
            final(ctxt).message_modulus_vec@ == old(ctxt).message_modulus_vec@,
            final(ctxt).key_id_vec@ == old(ctxt).key_id_vec@,
            forall|i: int|
                0 <= i < old(ctxt).ct_vec@.len() ==> (#[trigger] final(ctxt).ct_vec@[i]).degree
                    == neg_zero_point(
                    old(ctxt).ct_vec@[i].degree as int,
                    old(ctxt).ct_vec@[i].message_modulus as int,
                ),
            forall|i: int|
                0 <= i < old(ctxt).ct_vec@.len() ==> (#[trigger] final(ctxt).ct_vec@[i]).value
                    == neg_zero_point(
                    old(ctxt).ct_vec@[i].degree as int,
                    old(ctxt).ct_vec@[i].message_modulus as int,
                ) - old(ctxt).ct_vec@[i].value,
            forall|i: int|
                0 <= i < old(ctxt).ct_vec@.len() ==> #[trigger] final(ctxt).crt_residues()[i]
                    == ((old(ctxt).ct_vec@[i].message_modulus as int) - old(
                    ctxt,
                ).crt_residues()[i]) % (old(ctxt).ct_vec@[i].message_modulus as int),
    {
        let len = ctxt.ct_vec.len();
        let mut i: usize = 0;
        while i < len
            invariant
                0 <= i <= len,
                len == ctxt.ct_vec@.len(),
                len == old(ctxt).ct_vec@.len(),
                self.crt_ok(*ctxt),
                self.crt_ok(*old(ctxt)),
                old(ctxt).degrees_below_capacity(),
                ctxt.message_modulus_vec@ == old(ctxt).message_modulus_vec@,
                ctxt.key_id_vec@ == old(ctxt).key_id_vec@,
                forall|j: int| i <= j < len ==> #[trigger] ctxt.ct_vec@[j] == old(ctxt).ct_vec@[j],
                forall|j: int|
                    0 <= j < i ==> (#[trigger] ctxt.ct_vec@[j]).degree == neg_zero_point(
                        old(ctxt).ct_vec@[j].degree as int,
                        old(ctxt).ct_vec@[j].message_modulus as int,
                    ),
                forall|j: int|
                    0 <= j < i ==> (#[trigger] ctxt.ct_vec@[j]).value == neg_zero_point(
                        old(ctxt).ct_vec@[j].degree as int,
                        old(ctxt).ct_vec@[j].message_modulus as int,
                    ) - old(ctxt).ct_vec@[j].value,
                forall|j: int|
                    0 <= j < i ==> (#[trigger] ctxt.ct_vec@[j]).message_modulus == old(
                        ctxt,
                    ).ct_vec@[j].message_modulus,
            decreases len - i,
        {
            proof {
                vstd::arithmetic::mul::lemma_mul_left_inequality(
                    ctxt.ct_vec@[i as int].message_modulus as int,
                    1,
                    ctxt.ct_vec@[i as int].carry_modulus as int,
                );
            }
            let mut block = ctxt.ct_vec[i];
            self.key.unchecked_neg_assign(&mut block);
            ctxt.ct_vec.set(i, block);
            i = i + 1;
        }
        proof {
            assert forall|i: int| 0 <= i < len implies #[trigger] ctxt.crt_residues()[i] == ((
            old(ctxt).ct_vec@[i].message_modulus as int) - old(ctxt).crt_residues()[i]) % (old(
                ctxt,
            ).ct_vec@[i].message_modulus as int) by {
                let m = old(ctxt).ct_vec@[i].message_modulus as int;
                let v = old(ctxt).ct_vec@[i].value as int;
                let z = neg_zero_point(old(ctxt).ct_vec@[i].degree as int, m);
                shortint::lemma_neg_zero_point_bounds(
                    old(ctxt).ct_vec@[i].degree as int,
                    m,
                );
                lemma_neg_residue(v, z, m);
            }
        }
    }

    /// As [`Self::unchecked_crt_neg_assign`], returning the opposite as a
    /// new ciphertext.
    pub fn unchecked_crt_neg(&self, ctxt: &Ciphertext) -> (r: Ciphertext)
        requires
            self.crt_ok(*ctxt),
            ctxt.degrees_below_capacity(),
        ensures
            self.crt_ok(r),
            r.ct_vec@.len() == ctxt.ct_vec@.len(),
            r.message_modulus_vec@ == ctxt.message_modulus_vec@,
            r.key_id_vec@ == ctxt.key_id_vec@,
            forall|i: int|
                0 <= i < ctxt.ct_vec@.len() ==> (#[trigger] r.ct_vec@[i]).degree
                    == neg_zero_point(
                    ctxt.ct_vec@[i].degree as int,
                    ctxt.ct_vec@[i].message_modulus as int,
                ),
            forall|i: int|
                0 <= i < ctxt.ct_vec@.len() ==> (#[trigger] r.ct_vec@[i]).value
                    == neg_zero_point(
                    ctxt.ct_vec@[i].degree as int,
                    ctxt.ct_vec@[i].message_modulus as int,
                ) - ctxt.ct_vec@[i].value,
            forall|i: int|
                0 <= i < ctxt.ct_vec@.len() ==> #[trigger] r.crt_residues()[i] == ((
                ctxt.ct_vec@[i].message_modulus as int) - ctxt.crt_residues()[i]) % (
                ctxt.ct_vec@[i].message_modulus as int),
    {
        let mut result = ctxt.clone();
        self.unchecked_crt_neg_assign(&mut result);
        result
    }

    /// Homomorphically computes the opposite of a CRT ciphertext,
    /// extracting every block first when the capacity predicate fails; each
    /// residue is negated and every block stays readable.
    pub fn smart_crt_neg_assign(&self, ctxt: &mut Ciphertext)
        requires
            self.crt_ok(*old(ctxt)),
            old(ctxt).degrees_below_capacity(),
        ensures
            self.crt_ok(*final(ctxt)),
            final(ctxt).ct_vec@.len() == old(ctxt).ct_vec@.len(),
            final(ctxt).message_modulus_vec@ == old(ctxt).message_modulus_vec@,
            final(ctxt).key_id_vec@ == old(ctxt).key_id_vec@,
            final(ctxt).degrees_below_capacity(),
            forall|i: int|
                0 <= i < old(ctxt).ct_vec@.len() ==> #[trigger] final(ctxt).crt_residues()[i]
                    == ((old(ctxt).ct_vec@[i].message_modulus as int) - old(
                    ctxt,
                ).crt_residues()[i]) % (old(ctxt).ct_vec@[i].message_modulus as int),
    {
        if !self.is_neg_possible(ctxt) {
            self.full_extract(ctxt);
        }
        proof {
            assert forall|i: int| 0 <= i < ctxt.ct_vec@.len() implies (#[trigger] ctxt.ct_vec@[
            i]).degree < ctxt.ct_vec@[i].capacity() by {
                vstd::arithmetic::mul::lemma_mul_left_inequality(
                    ctxt.ct_vec@[i].message_modulus as int,
                    1,
                    ctxt.ct_vec@[i].carry_modulus as int,
                );
            }
        }
        let ghost mid = *ctxt;
        self.unchecked_crt_neg_assign(ctxt);
        proof {
            lemma_smart_neg_frame(*self, *old(ctxt), mid, *ctxt);
        }
    }

    /// As [`Self::smart_crt_neg_assign`], returning the opposite as a new
    /// ciphertext.
    pub fn smart_crt_neg(&self, ctxt: &mut Ciphertext) -> (r: Ciphertext)
        requires
            self.crt_ok(*old(ctxt)),
            old(ctxt).degrees_below_capacity(),
        ensures
            self.crt_ok(r),
            r.ct_vec@.len() == old(ctxt).ct_vec@.len(),
            r.message_modulus_vec@ == old(ctxt).message_modulus_vec@,
            r.key_id_vec@ == old(ctxt).key_id_vec@,
            r.degrees_below_capacity(),
            forall|i: int|
                0 <= i < old(ctxt).ct_vec@.len() ==> #[trigger] r.crt_residues()[i] == ((old(
                    ctxt,
                ).ct_vec@[i].message_modulus as int) - old(ctxt).crt_residues()[i]) % (old(
                    ctxt,
                ).ct_vec@[i].message_modulus as int),
            self.crt_ok(*final(ctxt)),
            final(ctxt).ct_vec@.len() == old(ctxt).ct_vec@.len(),
            final(ctxt).degrees_below_capacity(),
            final(ctxt).crt_residues() =~= old(ctxt).crt_residues(),
    {
        if !self.is_neg_possible(ctxt) {
            self.full_extract(ctxt);
        }
        proof {
            assert forall|i: int| 0 <= i < ctxt.ct_vec@.len() implies (#[trigger] ctxt.ct_vec@[
            i]).degree < ctxt.ct_vec@[i].capacity() by {
                vstd::arithmetic::mul::lemma_mul_left_inequality(
                    ctxt.ct_vec@[i].message_modulus as int,
                    1,
                    ctxt.ct_vec@[i].carry_modulus as int,
                );
            }
        }
        let ghost mid = *ctxt;
        let r = self.unchecked_crt_neg(ctxt);
        proof {
            lemma_smart_neg_frame(*self, *old(ctxt), mid, r);
        }
        r
    }
}

/// After an optional extraction, negation negates the original residues
/// and leaves every degree below capacity.
proof fn lemma_smart_neg_frame(
    sks: ServerKey,
    orig: Ciphertext,
    mid: Ciphertext,
    post: Ciphertext,
)
    requires
        sks.crt_ok(orig),
        sks.crt_ok(mid),
        orig.ct_vec@.len() == mid.ct_vec@.len(),
        post.ct_vec@.len() == mid.ct_vec@.len(),
        mid.crt_residues() =~= orig.crt_residues(),
        forall|i: int|
            0 <= i < mid.ct_vec@.len() ==> (#[trigger] mid.ct_vec@[i]).message_modulus
                == orig.ct_vec@[i].message_modulus,
        // either no extraction happened (the predicate held), or every block
        // was reduced to its canonical range
        sks.neg_possible(mid) || mid.bounded_by_own_modulus(),
        forall|i: int|
            0 <= i < post.ct_vec@.len() ==> (#[trigger] post.ct_vec@[i]).degree
                == neg_zero_point(
                mid.ct_vec@[i].degree as int,
                mid.ct_vec@[i].message_modulus as int,
            ),
        forall|i: int|
            0 <= i < post.ct_vec@.len() ==> (#[trigger] post.ct_vec@[i]).message_modulus
                == mid.ct_vec@[i].message_modulus,
        forall|i: int|
            0 <= i < post.ct_vec@.len() ==> (#[trigger] post.ct_vec@[i]).carry_modulus
                == mid.ct_vec@[i].carry_modulus,
        forall|i: int|
            0 <= i < post.ct_vec@.len() ==> #[trigger] post.crt_residues()[i] == ((
            mid.ct_vec@[i].message_modulus as int) - mid.crt_residues()[i]) % (
            mid.ct_vec@[i].message_modulus as int),
        forall|i: int| 0 <= i < post.ct_vec@.len() ==> (#[trigger] post.ct_vec@[i]).wf(),
    ensures
        post.degrees_below_capacity(),
        forall|i: int|
            0 <= i < post.ct_vec@.len() ==> #[trigger] post.crt_residues()[i] == ((
            orig.ct_vec@[i].message_modulus as int) - orig.crt_residues()[i]) % (
            orig.ct_vec@[i].message_modulus as int),
{
    assert forall|i: int| 0 <= i < post.ct_vec@.len() implies (#[trigger] post.ct_vec@[
    i]).degree < post.ct_vec@[i].capacity() by {
        let m = mid.ct_vec@[i].message_modulus as int;
        let c = mid.ct_vec@[i].carry_modulus as int;
        shortint::lemma_neg_zero_point_bounds(mid.ct_vec@[i].degree as int, m);
        if sks.neg_possible(mid) {
            // the zero point is at or below the ceiling, which is below
            // capacity
            vstd::arithmetic::mul::lemma_mul_is_distributive_sub_other_way(c, m, 1);
            vstd::arithmetic::mul::lemma_mul_inequality(2, m, c);
            vstd::arithmetic::mul::lemma_mul_is_commutative(2, c);
            vstd::arithmetic::mul::lemma_mul_is_commutative(m, c);
        } else {
            // after extraction the degree is below the modulus, so the zero
            // point is exactly the modulus, below capacity
            vstd::arithmetic::mul::lemma_mul_left_inequality(m, 2, c);
        }
    }
}

impl Ciphertext {
    /// Every block's degree is below its own message modulus (the state
    /// extraction leaves behind).
    pub open spec fn bounded_by_own_modulus(self) -> bool {
        forall|i: int|
            0 <= i < self.ct_vec@.len() ==> (#[trigger] self.ct_vec@[i]).degree < self.ct_vec@[
            i].message_modulus
    }
}

} // verus!
