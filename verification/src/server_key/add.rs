//! Addition: the capacity predicate and the unchecked / checked / smart
//! tiers.  Blockwise addition itself is representation-agnostic; the smart
//! tier restores radix headroom by carry propagation.

use vstd::prelude::*;
use vstd::arithmetic::div_mod::lemma_add_mod_noop;
use crate::arith;
use crate::ciphertext::Ciphertext;
use crate::shortint::CheckError;
use crate::server_key::ServerKey;

verus! {

impl ServerKey {
    /// Two operands that blockwise operations accept: equal length, sound
    /// blocks, and pairwise identical block parameters.
    pub open spec fn compatible(self, l: Ciphertext, r: Ciphertext) -> bool {
        &&& l.ct_vec@.len() == r.ct_vec@.len()
        &&& forall|i: int| 0 <= i < l.ct_vec@.len() ==> (#[trigger] l.ct_vec@[i]).wf()
        &&& forall|i: int| 0 <= i < r.ct_vec@.len() ==> (#[trigger] r.ct_vec@[i]).wf()
        &&& forall|i: int|
            0 <= i < l.ct_vec@.len() ==> (#[trigger] l.ct_vec@[i]).same_parameters(r.ct_vec@[i])
    }

    /// The degree growth of addition stays at or below every block's degree
    /// ceiling.
    pub open spec fn add_possible(self, l: Ciphertext, r: Ciphertext) -> bool {
        forall|i: int|
            0 <= i < l.ct_vec@.len() ==> (#[trigger] l.ct_vec@[i]).degree + r.ct_vec@[i].degree
                <= l.ct_vec@[i].max_degree()
    }

    /// The blockwise sums that addition leaves behind.
    pub open spec fn added_to(self, l: Ciphertext, r: Ciphertext, t: Ciphertext) -> bool {
        &&& t.ct_vec@.len() == l.ct_vec@.len()
        &&& forall|i: int|
            0 <= i < t.ct_vec@.len() ==> (#[trigger] t.ct_vec@[i]).value == l.ct_vec@[i].value
                + r.ct_vec@[i].value
        &&& forall|i: int|
            0 <= i < t.ct_vec@.len() ==> (#[trigger] t.ct_vec@[i]).degree == l.ct_vec@[i].degree
                + r.ct_vec@[i].degree
        &&& forall|i: int|
            0 <= i < t.ct_vec@.len() ==> (#[trigger] t.ct_vec@[i]).same_parameters(
                l.ct_vec@[i],
            ) && t.ct_vec@[i].wf()
        &&& t.message_modulus_vec@ == l.message_modulus_vec@
        &&& t.key_id_vec@ == l.key_id_vec@
    }

    /// Verifies whether the addition can be computed without exceeding any
    /// block's degree ceiling.
    pub fn is_add_possible(&self, ct_left: &Ciphertext, ct_right: &Ciphertext) -> (r: bool)
        requires
            self.wf(),
            self.compatible(*ct_left, *ct_right),
        ensures
            r == self.add_possible(*ct_left, *ct_right),
    {
        let mut i: usize = 0;
        let len = ct_left.ct_vec.len();
        while i < len
            invariant
                0 <= i <= len,
                self.wf(),
                self.compatible(*ct_left, *ct_right),
                len == ct_left.ct_vec@.len(),
                forall|j: int|
                    0 <= j < i ==> (#[trigger] ct_left.ct_vec@[j]).degree
                        + ct_right.ct_vec@[j].degree <= ct_left.ct_vec@[j].max_degree(),
            decreases len - i,
        {
            if !self.key.is_add_possible(&ct_left.ct_vec[i], &ct_right.ct_vec[i]) {
                return false;
            }
            i = i + 1;
        }
        true
    }

    /// Computes homomorphically an addition between two ciphertexts, with no
    /// capacity check: every block's payload and degree add exactly.  The
    /// result is assigned to `ct_left`.
    pub fn unchecked_add_assign(&self, ct_left: &mut Ciphertext, ct_right: &Ciphertext)
        requires
            self.wf(),
            self.compatible(*old(ct_left), *ct_right),
            forall|i: int|
                0 <= i < old(ct_left).ct_vec@.len() ==> (#[trigger] old(ct_left).ct_vec@[i]).degree + ct_right.ct_vec@[i].degree <= u64::MAX,
        ensures
            self.added_to(*old(ct_left), *ct_right, *final(ct_left)),
    {
        let len = ct_left.ct_vec.len();
        let mut i: usize = 0;
        while i < len
            invariant
                0 <= i <= len,
                self.wf(),
                self.compatible(*old(ct_left), *ct_right),
                forall|j: int|
                    0 <= j < len ==> (#[trigger] old(ct_left).ct_vec@[j]).degree
                        + ct_right.ct_vec@[j].degree <= u64::MAX,
                len == ct_left.ct_vec@.len(),
                len == old(ct_left).ct_vec@.len(),
                ct_left.message_modulus_vec@ == old(ct_left).message_modulus_vec@,
                ct_left.key_id_vec@ == old(ct_left).key_id_vec@,
                forall|j: int|
                    i <= j < len ==> #[trigger] ct_left.ct_vec@[j] == old(ct_left).ct_vec@[j],
                forall|j: int|
                    0 <= j < i ==> (#[trigger] ct_left.ct_vec@[j]).value == old(ct_left).ct_vec@[j].value + ct_right.ct_vec@[j].value,
                forall|j: int|
                    0 <= j < i ==> (#[trigger] ct_left.ct_vec@[j]).degree == old(ct_left).ct_vec@[j].degree + ct_right.ct_vec@[j].degree,
                forall|j: int|
                    0 <= j < i ==> (#[trigger] ct_left.ct_vec@[j]).same_parameters(
                        old(ct_left).ct_vec@[j],
                    ) && ct_left.ct_vec@[j].wf(),
            decreases len - i,
        {
            let mut block = ct_left.ct_vec[i];
            self.key.unchecked_add_assign(&mut block, &ct_right.ct_vec[i]);
            ct_left.ct_vec.set(i, block);
            i = i + 1;
        }
    }

    /// As [`Self::unchecked_add_assign`], returning the sum as a new
    /// ciphertext.
    pub fn unchecked_add(&self, ct_left: &Ciphertext, ct_right: &Ciphertext) -> (r: Ciphertext)
        requires
            self.wf(),
            self.compatible(*ct_left, *ct_right),
            forall|i: int|
                0 <= i < ct_left.ct_vec@.len() ==> (#[trigger] ct_left.ct_vec@[i]).degree
                    + ct_right.ct_vec@[i].degree <= u64::MAX,
        ensures
            self.added_to(*ct_left, *ct_right, r),
    {
        let mut result = ct_left.clone();
        self.unchecked_add_assign(&mut result, ct_right);
        result
    }

    /// Computes the addition only if no block's degree ceiling would be
    /// exceeded; otherwise returns [`CheckError::CarryFull`] and computes
    /// nothing.
    pub fn checked_add(&self, ct_left: &Ciphertext, ct_right: &Ciphertext) -> (r: Result<
        Ciphertext,
        CheckError,
    >)
        requires
            self.wf(),
            self.compatible(*ct_left, *ct_right),
        ensures
            r is Ok <==> self.add_possible(*ct_left, *ct_right),
            r matches Ok(ct) ==> self.added_to(*ct_left, *ct_right, ct),
            r matches Err(e) ==> e == CheckError::CarryFull,
    {
        if self.is_add_possible(ct_left, ct_right) {
            proof {
                lemma_possible_within_u64(*self, *ct_left, *ct_right);
            }
            Ok(self.unchecked_add(ct_left, ct_right))
        } else {
            Err(CheckError::CarryFull)
        }
    }

    /// As [`Self::checked_add`], assigning the sum to `ct_left` on success;
    /// on failure `ct_left` is left untouched.
    pub fn checked_add_assign(&self, ct_left: &mut Ciphertext, ct_right: &Ciphertext) -> (r:
        Result<(), CheckError>)
        requires
            self.wf(),
            self.compatible(*old(ct_left), *ct_right),
        ensures
            r is Ok <==> self.add_possible(*old(ct_left), *ct_right),
            r is Ok ==> self.added_to(*old(ct_left), *ct_right, *final(ct_left)),
            r matches Err(e) ==> e == CheckError::CarryFull && *final(ct_left) == *old(ct_left),
    {
        if self.is_add_possible(ct_left, ct_right) {
            proof {
                lemma_possible_within_u64(*self, *ct_left, *ct_right);
            }
            self.unchecked_add_assign(ct_left, ct_right);
            Ok(())
        } else {
            Err(CheckError::CarryFull)
        }
    }

    /// Computes homomorphically an addition between two radix ciphertexts,
    /// propagating both operands first when the capacity predicate fails;
    /// the sum is assigned to `ct_left` and always decrypts to the sum of
    /// the operands' values modulo the representation's modulus.
    pub fn smart_add_assign(&self, ct_left: &mut Ciphertext, ct_right: &mut Ciphertext)
        requires
            self.radix_ok(*old(ct_left)),
            self.radix_ok(*old(ct_right)),
            old(ct_left).bounded(self.max_degree()),
            old(ct_right).bounded(self.max_degree()),
            old(ct_left).ct_vec@.len() == old(ct_right).ct_vec@.len(),
            2 * (self.base() - 1) <= self.max_degree(),
        ensures
            self.radix_ok(*final(ct_left)),
            final(ct_left).ct_vec@.len() == old(ct_left).ct_vec@.len(),
            final(ct_left).bounded(self.max_degree()),
            final(ct_left).message_modulus_vec@ == old(ct_left).message_modulus_vec@,
            final(ct_left).key_id_vec@ == old(ct_left).key_id_vec@,
            final(ct_left).radix_value(self.base()) % self.modulus(*old(ct_left)) == (old(ct_left).radix_value(self.base()) + old(ct_right).radix_value(self.base())) % self.modulus(
                *old(ct_left),
            ),
            self.radix_ok(*final(ct_right)),
            final(ct_right).ct_vec@.len() == old(ct_right).ct_vec@.len(),
            final(ct_right).bounded(self.max_degree()),
            final(ct_right).radix_value(self.base()) % self.modulus(*old(ct_right)) == old(ct_right).radix_value(self.base()) % self.modulus(*old(ct_right)),
            final(ct_right).message_modulus_vec@ == old(ct_right).message_modulus_vec@,
            final(ct_right).key_id_vec@ == old(ct_right).key_id_vec@,
    {
        let ghost m = self.modulus(*old(ct_left));
        let ghost a = old(ct_left).radix_value(self.base());
        let ghost b = old(ct_right).radix_value(self.base());
        proof {
            vstd::arithmetic::power::lemma_pow_positive(
                self.base(),
                old(ct_left).ct_vec@.len() as nat,
            );
        }
        if !self.is_add_possible(ct_left, ct_right) {
            self.full_propagate(ct_left);
            self.full_propagate(ct_right);
        }
        proof {
            vstd::arithmetic::div_mod::lemma_mod_twice(a, m);
            vstd::arithmetic::div_mod::lemma_mod_twice(b, m);
            lemma_possible_within_u64(*self, *ct_left, *ct_right);
        }
        let ghost pre = *ct_left;
        let ghost pre_r = *ct_right;
        self.unchecked_add_assign(ct_left, ct_right);
        proof {
            lemma_added_value(*self, pre, pre_r, *ct_left, self.base());
            lemma_sum_mod_noop(
                a,
                b,
                pre.radix_value(self.base()),
                pre_r.radix_value(self.base()),
                m,
            );
        }
    }

    /// As `smart_add_assign`, with propagation run through the
    /// multi-output bootstrap primitive.
    pub fn smart_multivalue_add_assign(&self, ct_left: &mut Ciphertext, ct_right: &mut Ciphertext)
        requires
            self.radix_ok(*old(ct_left)),
            self.radix_ok(*old(ct_right)),
            old(ct_left).bounded(self.max_degree()),
            old(ct_right).bounded(self.max_degree()),
            old(ct_left).ct_vec@.len() == old(ct_right).ct_vec@.len(),
            2 * (self.base() - 1) <= self.max_degree(),
        ensures
            self.radix_ok(*final(ct_left)),
            final(ct_left).ct_vec@.len() == old(ct_left).ct_vec@.len(),
            final(ct_left).bounded(self.max_degree()),
            final(ct_left).message_modulus_vec@ == old(ct_left).message_modulus_vec@,
            final(ct_left).key_id_vec@ == old(ct_left).key_id_vec@,
            final(ct_left).radix_value(self.base()) % self.modulus(*old(ct_left)) == (old(ct_left).radix_value(self.base()) + old(ct_right).radix_value(self.base())) % self.modulus(
                *old(ct_left),
            ),
            self.radix_ok(*final(ct_right)),
            final(ct_right).ct_vec@.len() == old(ct_right).ct_vec@.len(),
            final(ct_right).bounded(self.max_degree()),
            final(ct_right).radix_value(self.base()) % self.modulus(*old(ct_right)) == old(ct_right).radix_value(self.base()) % self.modulus(*old(ct_right)),
            final(ct_right).message_modulus_vec@ == old(ct_right).message_modulus_vec@,
            final(ct_right).key_id_vec@ == old(ct_right).key_id_vec@,
    {
        let ghost m = self.modulus(*old(ct_left));
        let ghost a = old(ct_left).radix_value(self.base());
        let ghost b = old(ct_right).radix_value(self.base());
        proof {
            vstd::arithmetic::power::lemma_pow_positive(
                self.base(),
                old(ct_left).ct_vec@.len() as nat,
            );
        }
        if !self.is_add_possible(ct_left, ct_right) {
            self.multivalue_full_propagate(ct_left);
            self.multivalue_full_propagate(ct_right);
        }
        proof {
            vstd::arithmetic::div_mod::lemma_mod_twice(a, m);
            vstd::arithmetic::div_mod::lemma_mod_twice(b, m);
            lemma_possible_within_u64(*self, *ct_left, *ct_right);
        }
        let ghost pre = *ct_left;
        let ghost pre_r = *ct_right;
        self.unchecked_add_assign(ct_left, ct_right);
        proof {
            lemma_added_value(*self, pre, pre_r, *ct_left, self.base());
            lemma_sum_mod_noop(
                a,
                b,
                pre.radix_value(self.base()),
                pre_r.radix_value(self.base()),
                m,
            );
        }
    }

    /// As [`Self::smart_add_assign`], returning the sum as a new ciphertext
    /// and leaving `ct_left` as it was (up to propagation).
    pub fn smart_add(&self, ct_left: &mut Ciphertext, ct_right: &mut Ciphertext) -> (r:
        Ciphertext)
        requires
            self.radix_ok(*old(ct_left)),
            self.radix_ok(*old(ct_right)),
            old(ct_left).bounded(self.max_degree()),
            old(ct_right).bounded(self.max_degree()),
            old(ct_left).ct_vec@.len() == old(ct_right).ct_vec@.len(),
            2 * (self.base() - 1) <= self.max_degree(),
        ensures
            self.radix_ok(r),
            r.ct_vec@.len() == old(ct_left).ct_vec@.len(),
            r.bounded(self.max_degree()),
            r.message_modulus_vec@ == old(ct_left).message_modulus_vec@,
            r.key_id_vec@ == old(ct_left).key_id_vec@,
            r.radix_value(self.base()) % self.modulus(*old(ct_left)) == (old(ct_left).radix_value(self.base()) + old(ct_right).radix_value(self.base())) % self.modulus(
                *old(ct_left),
            ),
            self.radix_ok(*final(ct_left)),
            final(ct_left).ct_vec@.len() == old(ct_left).ct_vec@.len(),
            final(ct_left).bounded(self.max_degree()),
            final(ct_left).radix_value(self.base()) % self.modulus(*old(ct_left)) == old(ct_left).radix_value(self.base()) % self.modulus(*old(ct_left)),
            self.radix_ok(*final(ct_right)),
            final(ct_right).ct_vec@.len() == old(ct_right).ct_vec@.len(),
            final(ct_right).bounded(self.max_degree()),
            final(ct_right).radix_value(self.base()) % self.modulus(*old(ct_right)) == old(ct_right).radix_value(self.base()) % self.modulus(*old(ct_right)),
    {
        let ghost m = self.modulus(*old(ct_left));
        let ghost a = old(ct_left).radix_value(self.base());
        let ghost b = old(ct_right).radix_value(self.base());
        proof {
            vstd::arithmetic::power::lemma_pow_positive(
                self.base(),
                old(ct_left).ct_vec@.len() as nat,
            );
        }
        if !self.is_add_possible(ct_left, ct_right) {
            self.full_propagate(ct_left);
            self.full_propagate(ct_right);
        }
        proof {
            vstd::arithmetic::div_mod::lemma_mod_twice(a, m);
            vstd::arithmetic::div_mod::lemma_mod_twice(b, m);
            lemma_possible_within_u64(*self, *ct_left, *ct_right);
        }
        let result = self.unchecked_add(ct_left, ct_right);
        proof {
            lemma_added_value(*self, *ct_left, *ct_right, result, self.base());
            lemma_sum_mod_noop(
                a,
                b,
                ct_left.radix_value(self.base()),
                ct_right.radix_value(self.base()),
                m,
            );
        }
        result
    }
}

/// The encoded value of a blockwise sum is the sum of the encoded values.
pub(crate) proof fn lemma_added_value(sks: ServerKey, pre: Ciphertext, right: Ciphertext, post: Ciphertext, base: int)
    requires
        sks.added_to(pre, right, post),
        pre.ct_vec@.len() == right.ct_vec@.len(),
    ensures
        post.radix_value(base) == pre.radix_value(base) + right.radix_value(base),
{
    assert forall|i: int| 0 <= i < post.values().len() implies #[trigger] post.values()[i]
        == pre.values()[i] + right.values()[i] by {
        assert(post.ct_vec@[i].value == pre.ct_vec@[i].value + right.ct_vec@[i].value);
    }
    arith::lemma_le_value_pointwise_add(post.values(), pre.values(), right.values(), base);
}

/// Degrees at or below a block ceiling, or two bounded operands, sum within
/// a machine word.
proof fn lemma_possible_within_u64(sks: ServerKey, l: Ciphertext, r: Ciphertext)
    requires
        sks.wf(),
        sks.compatible(l, r),
        sks.add_possible(l, r) || (l.bounded(sks.max_degree()) && r.bounded(sks.max_degree())),
    ensures
        forall|i: int|
            0 <= i < l.ct_vec@.len() ==> (#[trigger] l.ct_vec@[i]).degree + r.ct_vec@[i].degree
                <= u64::MAX,
{
    assert forall|i: int|
        0 <= i < l.ct_vec@.len() implies (#[trigger] l.ct_vec@[i]).degree + r.ct_vec@[i].degree
        <= u64::MAX by {
        let b = l.ct_vec@[i];
        vstd::arithmetic::mul::lemma_mul_is_distributive_sub_other_way(
            b.carry_modulus as int,
            b.message_modulus as int,
            1,
        );
        vstd::arithmetic::mul::lemma_mul_inequality(
            2,
            b.carry_modulus as int,
            b.message_modulus as int,
        );
        vstd::arithmetic::mul::lemma_mul_is_commutative(
            2,
            b.message_modulus as int,
        );
        vstd::arithmetic::mul::lemma_mul_is_distributive_sub_other_way(
            sks.carry_modulus(),
            sks.base(),
            1,
        );
        vstd::arithmetic::mul::lemma_mul_inequality(2, sks.carry_modulus(), sks.base());
        vstd::arithmetic::mul::lemma_mul_is_commutative(2, sks.base());
    }
}

/// `(a + b) % m == (a' + b') % m` whenever `a' == a % m` and `b' == b % m`.
proof fn lemma_sum_mod_noop(a: int, b: int, ap: int, bp: int, m: int)
    requires
        0 < m,
        ap % m == a % m,
        bp % m == b % m,
    ensures
        (ap + bp) % m == (a + b) % m,
{
    lemma_add_mod_noop(ap, bp, m);
    lemma_add_mod_noop(a, b, m);
}

} // verus!
