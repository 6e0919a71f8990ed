//! Radix negation and subtraction.  Each block is negated about a zero
//! point that is a multiple of the base; the zero point's overflow digit
//! is a borrow that must be taken out of the next block's negation, so the
//! zero points are chosen block by block with the running borrow folded
//! in.  Subtraction is addition of the negated right operand.

use vstd::prelude::*;
use vstd::arithmetic::power::pow;
use vstd::arithmetic::div_mod::lemma_fundamental_div_mod;
use vstd::arithmetic::div_mod::lemma_mod_multiples_vanish;
use vstd::arithmetic::mul::lemma_mul_is_commutative;
use vstd::arithmetic::mul::lemma_mul_is_distributive_add;
use vstd::arithmetic::mul::lemma_mul_is_associative;
use crate::arith;
use crate::arith::le_value;
use crate::ciphertext::Ciphertext;
use crate::shortint::neg_zero_point;
use crate::server_key::ServerKey;

verus! {

/// The borrow entering block `i` of a radix negation: the overflow digit
/// of the previous block's zero point.
pub open spec fn neg_borrow(degs: Seq<int>, b: int, i: int) -> int
    decreases i,
{
    if i <= 0 {
        0
    } else {
        neg_zero_point(degs[i - 1] + neg_borrow(degs, b, i - 1), b) / b
    }
}

/// The zero point of block `i` of a radix negation: the smallest multiple
/// of the base covering the block's degree plus the incoming borrow.
pub open spec fn neg_zero(degs: Seq<int>, b: int, i: int) -> int {
    neg_zero_point(degs[i] + neg_borrow(degs, b, i), b)
}

impl ServerKey {
    /// Whether every zero point of the negation, borrows included, stays
    /// at or below the degree ceiling.
    pub open spec fn radix_neg_possible(self, ct: Ciphertext) -> bool {
        forall|i: int|
            0 <= i < ct.ct_vec@.len() ==> #[trigger] neg_zero(
                ct.degree_seq(),
                self.base(),
                i,
            ) <= self.max_degree()
    }

    /// Homomorphically computes the opposite of a radix ciphertext, with
    /// no capacity check: block `i` becomes `z_i - value_i - w_i` for its
    /// zero point `z_i` and incoming borrow `w_i`, so the whole ciphertext
    /// decrypts to the opposite of its value, modulo the representation's
    /// modulus.
    pub fn unchecked_neg_assign(&self, ct: &mut Ciphertext)
        requires
            self.radix_ok(*old(ct)),
            old(ct).bounded(self.max_degree()),
        ensures
            self.radix_ok(*final(ct)),
            final(ct).ct_vec@.len() == old(ct).ct_vec@.len(),
            final(ct).message_modulus_vec@ == old(ct).message_modulus_vec@,
            final(ct).key_id_vec@ == old(ct).key_id_vec@,
            forall|i: int|
                0 <= i < old(ct).ct_vec@.len() ==> (#[trigger] final(ct).ct_vec@[i]).degree
                    == neg_zero(old(ct).degree_seq(), self.base(), i),
            final(ct).radix_value(self.base()) % self.modulus(*old(ct)) == (self.modulus(
                *old(ct),
            ) - old(ct).radix_value(self.base()) % self.modulus(*old(ct))) % self.modulus(
                *old(ct),
            ),
    {
        let ghost b = self.base();
        let ghost n = old(ct).ct_vec@.len() as int;
        let ghost m = self.modulus(*old(ct));
        let ghost degs = old(ct).degree_seq();
        let base = self.key.message_modulus;
        let len = ct.ct_vec.len();
        let mut w: u64 = 0;
        let mut i: usize = 0;
        proof {
            vstd::arithmetic::power::lemma_pow_positive(b, n as nat);
            vstd::arithmetic::power::lemma_pow0(b);
            assert(ct.values().take(0) =~= Seq::<int>::empty());
            assert(old(ct).values().take(0) =~= Seq::<int>::empty());
        }
        while i < len
            invariant
                0 <= i <= len,
                len == n,
                n == ct.ct_vec@.len(),
                n == old(ct).ct_vec@.len(),
                self.radix_ok(*old(ct)),
                self.radix_ok(*ct),
                old(ct).bounded(self.max_degree()),
                b == self.base(),
                base == self.key.message_modulus,
                degs == old(ct).degree_seq(),
                ct.message_modulus_vec@ == old(ct).message_modulus_vec@,
                ct.key_id_vec@ == old(ct).key_id_vec@,
                forall|j: int| i <= j < len ==> #[trigger] ct.ct_vec@[j] == old(ct).ct_vec@[j],
                forall|j: int|
                    0 <= j < i ==> (#[trigger] ct.ct_vec@[j]).degree == neg_zero(degs, b, j),
                w == neg_borrow(degs, b, i as int),
                w <= self.max_degree() + base,
                // the written prefix encodes the borrow-carried negation of
                // the original prefix
                le_value(ct.values().take(i as int), b) == w * pow(b, i as nat) - le_value(
                    old(ct).values().take(i as int),
                    b,
                ),
            decreases len - i,
        {
            let ghost entry = *ct;
            let ghost w_in = w as int;
            let ghost z_ghost = neg_zero(degs, b, i as int);
            proof {
                crate::server_key::lemma_mul_is_distributive_sub_frame(b, self.carry_modulus());
                assert(ct.ct_vec@[i as int] == old(ct).ct_vec@[i as int]);
                assert(old(ct).ct_vec@[i as int].degree <= self.max_degree());
                assert(degs[i as int] == old(ct).ct_vec@[i as int].degree);
                crate::shortint::lemma_neg_zero_point_bounds(
                    old(ct).ct_vec@[i as int].degree + w_in,
                    b,
                );
            }
            let block = ct.ct_vec[i];
            let z = ((block.degree + w + base - 1) / base) * base;
            proof {
                assert(z == neg_zero(degs, b, i as int));
            }
            let new_block = crate::shortint::Ciphertext {
                value: z - block.value - w,
                degree: z,
                message_modulus: block.message_modulus,
                carry_modulus: block.carry_modulus,
            };
            ct.ct_vec.set(i, new_block);
            proof {
                // the new digit extends the telescoping sum by one block
                let old_take = old(ct).values().take(i as int);
                let new_take = ct.values().take(i as int);
                assert(new_take =~= entry.values().take(i as int));
                assert(ct.values().take(i + 1) =~= ct.values().take(i as int).push(
                    z_ghost - old(ct).ct_vec@[i as int].value - w_in,
                ));
                assert(old(ct).values().take(i + 1) =~= old(ct).values().take(i as int).push(
                    old(ct).ct_vec@[i as int].value as int,
                ));
                arith::lemma_le_value_push(
                    ct.values().take(i as int),
                    b,
                    z_ghost - old(ct).ct_vec@[i as int].value - w_in,
                );
                arith::lemma_le_value_push(
                    old(ct).values().take(i as int),
                    b,
                    old(ct).ct_vec@[i as int].value as int,
                );
                let p = pow(b, i as nat);
                let w_out = z_ghost / b;
                lemma_fundamental_div_mod(z_ghost, b);
                crate::shortint::lemma_neg_zero_point_bounds(
                    degs[i as int] + neg_borrow(degs, b, i as int),
                    b,
                );
                // z == b * w_out, so
                // w_in * b^i + (z - v - w_in) * b^i == w_out * b^(i+1) - v * b^i
                assert((z_ghost - old(ct).ct_vec@[i as int].value - w_in) * p == z_ghost * p - (
                old(ct).ct_vec@[i as int].value as int) * p - w_in * p) by {
                    vstd::arithmetic::mul::lemma_mul_is_distributive_sub_other_way(
                        p,
                        z_ghost - old(ct).ct_vec@[i as int].value,
                        w_in,
                    );
                    vstd::arithmetic::mul::lemma_mul_is_distributive_sub_other_way(
                        p,
                        z_ghost,
                        old(ct).ct_vec@[i as int].value as int,
                    );
                }
                assert(z_ghost * p == w_out * pow(b, (i + 1) as nat)) by {
                    assert(z_ghost == b * w_out + z_ghost % b);
                    lemma_mul_is_commutative(b, w_out);
                    lemma_mul_is_associative(w_out, b, p);
                    crate::server_key::lemma_pow_step(b, i as nat);
                }
                // the degree ceiling bounds the next borrow
                lemma_borrow_bound(z_ghost, self.max_degree(), b);
            }
            w = z / base;
            i = i + 1;
        }
        proof {
            // the final borrow times the modulus vanishes, leaving the
            // opposite of the value
            assert(ct.values().take(n) =~= ct.values());
            assert(old(ct).values().take(n) =~= old(ct).values());
            let v = old(ct).radix_value(b);
            let wf_ = w as int;
            lemma_mod_multiples_vanish(wf_, -v, m);
            lemma_mul_is_commutative(wf_, m);
            // -v and m - v % m agree modulo m
            lemma_fundamental_div_mod(v, m);
            lemma_mod_multiples_vanish(-(v / m), -(v % m), m);
            vstd::arithmetic::mul::lemma_mul_unary_negation(v / m, m);
            lemma_mul_is_commutative(v / m, m);
            lemma_mod_multiples_vanish(-1, m - v % m, m);
            vstd::arithmetic::div_mod::lemma_mod_bound(v, m);
        }
    }

    /// As [`Self::unchecked_neg_assign`], returning the opposite as a new
    /// ciphertext.
    pub fn unchecked_neg(&self, ct: &Ciphertext) -> (r: Ciphertext)
        requires
            self.radix_ok(*ct),
            ct.bounded(self.max_degree()),
        ensures
            self.radix_ok(r),
            r.ct_vec@.len() == ct.ct_vec@.len(),
            r.message_modulus_vec@ == ct.message_modulus_vec@,
            r.key_id_vec@ == ct.key_id_vec@,
            forall|i: int|
                0 <= i < ct.ct_vec@.len() ==> (#[trigger] r.ct_vec@[i]).degree == neg_zero(
                    ct.degree_seq(),
                    self.base(),
                    i,
                ),
            r.radix_value(self.base()) % self.modulus(*ct) == (self.modulus(*ct)
                - ct.radix_value(self.base()) % self.modulus(*ct)) % self.modulus(*ct),
    {
        let mut result = ct.clone();
        self.unchecked_neg_assign(&mut result);
        result
    }

    /// Homomorphically computes the opposite of a radix ciphertext,
    /// propagating the operand first when some zero point would overflow
    /// the degree ceiling; the result always stays within the ceiling.
    pub fn smart_neg_assign(&self, ct: &mut Ciphertext)
        requires
            self.radix_ok(*old(ct)),
            old(ct).bounded(self.max_degree()),
            self.base() <= self.max_degree(),
        ensures
            self.radix_ok(*final(ct)),
            final(ct).ct_vec@.len() == old(ct).ct_vec@.len(),
            final(ct).message_modulus_vec@ == old(ct).message_modulus_vec@,
            final(ct).key_id_vec@ == old(ct).key_id_vec@,
            final(ct).bounded(self.max_degree()),
            final(ct).radix_value(self.base()) % self.modulus(*old(ct)) == (self.modulus(
                *old(ct),
            ) - old(ct).radix_value(self.base()) % self.modulus(*old(ct))) % self.modulus(
                *old(ct),
            ),
    {
        let ghost m = self.modulus(*old(ct));
        let ghost v = old(ct).radix_value(self.base());
        proof {
            vstd::arithmetic::power::lemma_pow_positive(
                self.base(),
                old(ct).ct_vec@.len() as nat,
            );
        }
        if !self.is_radix_neg_possible(ct) {
            self.full_propagate(ct);
            proof {
                lemma_canonical_neg_possible(*self, *ct);
            }
        }
        let ghost mid = ct.radix_value(self.base());
        self.unchecked_neg_assign(ct);
        proof {
            // the propagated value has the same residue, so the negations
            // agree modulo the modulus
            vstd::arithmetic::div_mod::lemma_mod_twice(v, m);
            vstd::arithmetic::div_mod::lemma_mod_twice(mid, m);
        }
    }

    /// As [`Self::smart_neg_assign`], returning the opposite as a new
    /// ciphertext.
    pub fn smart_neg(&self, ct: &mut Ciphertext) -> (r: Ciphertext)
        requires
            self.radix_ok(*old(ct)),
            old(ct).bounded(self.max_degree()),
            self.base() <= self.max_degree(),
        ensures
            self.radix_ok(r),
            r.ct_vec@.len() == old(ct).ct_vec@.len(),
            r.message_modulus_vec@ == old(ct).message_modulus_vec@,
            r.key_id_vec@ == old(ct).key_id_vec@,
            r.bounded(self.max_degree()),
            r.radix_value(self.base()) % self.modulus(*old(ct)) == (self.modulus(*old(ct))
                - old(ct).radix_value(self.base()) % self.modulus(*old(ct))) % self.modulus(
                *old(ct),
            ),
            self.radix_ok(*final(ct)),
            final(ct).ct_vec@.len() == old(ct).ct_vec@.len(),
            final(ct).bounded(self.max_degree()),
            final(ct).radix_value(self.base()) % self.modulus(*old(ct)) == old(
                ct,
            ).radix_value(self.base()) % self.modulus(*old(ct)),
    {
        let mut result = ct.clone();
        proof {
            vstd::arithmetic::power::lemma_pow_positive(
                self.base(),
                old(ct).ct_vec@.len() as nat,
            );
            vstd::arithmetic::div_mod::lemma_mod_twice(
                old(ct).radix_value(self.base()),
                self.modulus(*old(ct)),
            );
        }
        self.smart_neg_assign(&mut result);
        result
    }

    /// Whether the whole borrow chain of a negation stays at or below the
    /// degree ceiling.
    fn is_radix_neg_possible(&self, ct: &Ciphertext) -> (r: bool)
        requires
            self.radix_ok(*ct),
            ct.bounded(self.max_degree()),
        ensures
            r == self.radix_neg_possible(*ct),
    {
        let ghost degs = ct.degree_seq();
        let ghost b = self.base();
        let base = self.key.message_modulus;
        let len = ct.ct_vec.len();
        let mut w: u64 = 0;
        let mut i: usize = 0;
        while i < len
            invariant
                0 <= i <= len,
                len == ct.ct_vec@.len(),
                self.radix_ok(*ct),
                ct.bounded(self.max_degree()),
                b == self.base(),
                base == self.key.message_modulus,
                degs == ct.degree_seq(),
                w == neg_borrow(degs, b, i as int),
                w <= self.max_degree() + base,
                forall|j: int| 0 <= j < i ==> #[trigger] neg_zero(degs, b, j) <= self.max_degree(),
            decreases len - i,
        {
            proof {
                crate::server_key::lemma_mul_is_distributive_sub_frame(b, self.carry_modulus());
                crate::shortint::lemma_neg_zero_point_bounds(
                    ct.ct_vec@[i as int].degree + w,
                    b,
                );
            }
            let z = ((ct.ct_vec[i].degree + w + base - 1) / base) * base;
            proof {
                assert(z == neg_zero(degs, b, i as int));
            }
            let max = self.key.max_degree.0;
            if z > max {
                return false;
            }
            proof {
                lemma_borrow_bound(z as int, self.max_degree(), b);
            }
            w = z / base;
            i = i + 1;
        }
        true
    }

    /// Computes homomorphically a subtraction between two radix
    /// ciphertexts: the right operand is negated and added.  The result
    /// decrypts to the difference of the operands' values modulo the
    /// representation's modulus.
    pub fn smart_sub_assign(&self, ct_left: &mut Ciphertext, ct_right: &mut Ciphertext)
        requires
            self.radix_ok(*old(ct_left)),
            self.radix_ok(*old(ct_right)),
            old(ct_left).bounded(self.max_degree()),
            old(ct_right).bounded(self.max_degree()),
            old(ct_left).ct_vec@.len() == old(ct_right).ct_vec@.len(),
            self.base() <= self.max_degree(),
            2 * (self.base() - 1) <= self.max_degree(),
        ensures
            self.radix_ok(*final(ct_left)),
            final(ct_left).ct_vec@.len() == old(ct_left).ct_vec@.len(),
            final(ct_left).message_modulus_vec@ == old(ct_left).message_modulus_vec@,
            final(ct_left).key_id_vec@ == old(ct_left).key_id_vec@,
            final(ct_left).bounded(self.max_degree()),
            final(ct_left).radix_value(self.base()) % self.modulus(*old(ct_left)) == (old(
                ct_left,
            ).radix_value(self.base()) - old(ct_right).radix_value(self.base())) % self.modulus(
                *old(ct_left),
            ),
    {
        let ghost m = self.modulus(*old(ct_left));
        let ghost a = old(ct_left).radix_value(self.base());
        let ghost bb = old(ct_right).radix_value(self.base());
        self.smart_neg_assign(ct_right);
        let ghost neg_v = ct_right.radix_value(self.base());
        self.smart_add_assign(ct_left, ct_right);
        proof {
            // a + (m - bb % m) and a - bb agree modulo m
            vstd::arithmetic::power::lemma_pow_positive(
                self.base(),
                old(ct_left).ct_vec@.len() as nat,
            );
            vstd::arithmetic::div_mod::lemma_add_mod_noop_right(a, neg_v, m);
            vstd::arithmetic::div_mod::lemma_add_mod_noop_right(a, (m - bb % m) % m, m);
            vstd::arithmetic::div_mod::lemma_mod_twice(m - bb % m, m);
            vstd::arithmetic::div_mod::lemma_add_mod_noop_right(a, m - bb % m, m);
            assert(forall|j: int|
                0 <= j < old(ct_right).values().len() ==> 0 <= #[trigger] old(
                    ct_right,
                ).values()[j]);
            arith::lemma_le_value_nonneg(old(ct_right).values(), self.base());
            lemma_complement_difference(a, bb, m);
        }
    }

    /// As [`Self::smart_sub_assign`], returning the difference as a new
    /// ciphertext.
    pub fn smart_sub(&self, ct_left: &mut Ciphertext, ct_right: &mut Ciphertext) -> (r:
        Ciphertext)
        requires
            self.radix_ok(*old(ct_left)),
            self.radix_ok(*old(ct_right)),
            old(ct_left).bounded(self.max_degree()),
            old(ct_right).bounded(self.max_degree()),
            old(ct_left).ct_vec@.len() == old(ct_right).ct_vec@.len(),
            self.base() <= self.max_degree(),
            2 * (self.base() - 1) <= self.max_degree(),
        ensures
            self.radix_ok(r),
            r.ct_vec@.len() == old(ct_left).ct_vec@.len(),
            r.message_modulus_vec@ == old(ct_left).message_modulus_vec@,
            r.key_id_vec@ == old(ct_left).key_id_vec@,
            r.bounded(self.max_degree()),
            r.radix_value(self.base()) % self.modulus(*old(ct_left)) == (old(
                ct_left,
            ).radix_value(self.base()) - old(ct_right).radix_value(self.base())) % self.modulus(
                *old(ct_left),
            ),
    {
        let mut result = ct_left.clone();
        self.smart_sub_assign(&mut result, ct_right);
        result
    }
}

impl Ciphertext {
    /// The tracked degrees of the blocks, least significant first.
    pub open spec fn degree_seq(self) -> Seq<int> {
        self.ct_vec@.map(|i: int, b: crate::shortint::Ciphertext| b.degree as int)
    }
}

/// The borrow taken out of a zero point below `2 * max + 2 * b` is at
/// most `max + 2`, so the borrow chain never runs away.
proof fn lemma_borrow_bound(z: int, max: int, b: int)
    requires
        2 <= b,
        1 <= max,
        0 <= z,
        z < 2 * max + 2 * b,
    ensures
        0 <= z / b <= max + 2,
        max + 2 <= max + b,
{
    vstd::arithmetic::mul::lemma_mul_inequality(2, b, max);
    vstd::arithmetic::mul::lemma_mul_is_commutative(2, max);
    vstd::arithmetic::mul::lemma_mul_is_commutative(b, max);
    assert(z <= b * (max + 2)) by {
        vstd::arithmetic::mul::lemma_mul_is_distributive_add(b, max, 2);
    }
    vstd::arithmetic::div_mod::lemma_div_is_ordered(z, b * (max + 2), b);
    vstd::arithmetic::div_mod::lemma_div_by_multiple(max + 2, b);
    vstd::arithmetic::mul::lemma_mul_is_commutative(b, max + 2);
    vstd::arithmetic::div_mod::lemma_div_pos_is_pos(z, b);
}

/// After propagation every degree is below the base, so every zero point
/// of the negation is exactly the base and every borrow is one.
proof fn lemma_canonical_neg_possible(sks: ServerKey, ct: Ciphertext)
    requires
        sks.wf(),
        sks.radix_ok(ct),
        ct.bounded(sks.base() - 1),
        sks.base() <= sks.max_degree(),
    ensures
        sks.radix_neg_possible(ct),
    decreases 0int,
{
    let b = sks.base();
    let degs = ct.degree_seq();
    assert forall|i: int| 0 <= i < ct.ct_vec@.len() implies #[trigger] neg_zero(degs, b, i)
        <= sks.max_degree() by {
        lemma_canonical_borrows(sks, ct, i);
    }
}

/// The borrow chain of a canonical operand: every borrow is at most one
/// and every zero point is at most the base.
proof fn lemma_canonical_borrows(sks: ServerKey, ct: Ciphertext, i: int)
    requires
        sks.wf(),
        sks.radix_ok(ct),
        ct.bounded(sks.base() - 1),
        0 <= i < ct.ct_vec@.len(),
    ensures
        0 <= neg_borrow(ct.degree_seq(), sks.base(), i) <= 1,
        0 <= neg_zero(ct.degree_seq(), sks.base(), i) <= sks.base(),
    decreases i,
{
    let b = sks.base();
    let degs = ct.degree_seq();
    if i > 0 {
        lemma_canonical_borrows(sks, ct, i - 1);
        // the incoming borrow is the previous zero point's overflow digit,
        // at most b / b == 1
        vstd::arithmetic::div_mod::lemma_div_is_ordered(neg_zero(degs, b, i - 1), b, b);
        vstd::arithmetic::div_mod::lemma_div_by_self(b);
        vstd::arithmetic::div_mod::lemma_div_pos_is_pos(neg_zero(degs, b, i - 1), b);
    }
    let w = neg_borrow(degs, b, i);
    crate::shortint::lemma_neg_zero_point_bounds(degs[i] + w, b);
    let z = neg_zero(degs, b, i);
    // z is a multiple of b in [deg + w, deg + w + b), and deg + w <= b,
    // so z cannot reach 2b
    if z > b {
        lemma_multiple_above(z, b);
    }
}

/// A multiple of `b` above `b` is at least `2b`.
proof fn lemma_multiple_above(z: int, b: int)
    requires
        2 <= b,
        b < z,
        z % b == 0,
    ensures
        2 * b <= z,
    decreases 0int,
{
    lemma_fundamental_div_mod(z, b);
    vstd::arithmetic::div_mod::lemma_div_pos_is_pos(z, b);
    // z == b * (z / b) with z / b >= 2
    if z / b <= 1 {
        vstd::arithmetic::mul::lemma_mul_left_inequality(b, z / b, 1);
    }
    vstd::arithmetic::mul::lemma_mul_left_inequality(b, 2, z / b);
}

/// `(a + (m - s % m)) % m == (a - s) % m` for nonnegative `s`.
proof fn lemma_complement_difference(a: int, s: int, m: int)
    requires
        0 < m,
        0 <= s,
    ensures
        (a + (m - s % m)) % m == (a - s) % m,
    decreases 0int,
{
    vstd::arithmetic::div_mod::lemma_mod_add_multiples_vanish(a - s % m, m);
    vstd::arithmetic::div_mod::lemma_sub_mod_noop_right(a, s, m);
    vstd::arithmetic::div_mod::lemma_mod_twice(s, m);
}

} // verus!
