//! Propagation through the multi-output bootstrap primitive: each block's
//! canonical digit and overflow digit are computed in one physical
//! bootstrap, halving the bootstrap count of carry propagation while
//! behaving exactly like the two-bootstrap sequence.

use vstd::prelude::*;
use vstd::arithmetic::power::pow;
use vstd::arithmetic::div_mod::lemma_fundamental_div_mod;
use vstd::arithmetic::div_mod::lemma_div_is_ordered;
use vstd::arithmetic::div_mod::lemma_mod_multiples_vanish;
use vstd::arithmetic::mul::lemma_mul_is_associative;
use vstd::arithmetic::mul::lemma_mul_is_commutative;
use crate::arith;
use crate::arith::le_value;
use crate::ciphertext::Ciphertext;
use crate::shortint;
use crate::server_key::ServerKey;
use crate::server_key::lemma_mul_is_distributive_sub_frame;
use crate::server_key::lemma_pow_step;
use crate::server_key::lemma_headroom;
use crate::server_key::lemma_headroom_carry;

verus! {

impl ServerKey {
    /// As `propagate`, but the canonical digit and the overflow digit of
    /// the block are computed by one multi-output bootstrap instead of two
    /// sequential ones.
    pub fn multivalue_propagate(&self, ctxt: &mut Ciphertext, index: usize)
        requires
            self.radix_ok(*old(ctxt)),
            index < old(ctxt).ct_vec@.len(),
            old(ctxt).ct_vec@[index as int].readable(),
            index + 1 < old(ctxt).ct_vec@.len() ==> old(ctxt).ct_vec@[index + 1].degree + (old(ctxt).ct_vec@[index as int].degree as int) / self.base() <= u64::MAX,
        ensures
            self.radix_ok(*final(ctxt)),
            final(ctxt).ct_vec@.len() == old(ctxt).ct_vec@.len(),
            final(ctxt).message_modulus_vec@ == old(ctxt).message_modulus_vec@,
            final(ctxt).key_id_vec@ == old(ctxt).key_id_vec@,
            final(ctxt).ct_vec@[index as int].canonical(),
            final(ctxt).ct_vec@[index as int].value == old(ctxt).ct_vec@[index as int].value
                as int % self.base(),
            final(ctxt).ct_vec@[index as int].degree == self.base() - 1,
            forall|j: int|
                0 <= j < old(ctxt).ct_vec@.len() && j != index && j != index + 1
                    ==> #[trigger] final(ctxt).ct_vec@[j] == old(ctxt).ct_vec@[j],
            index + 1 < old(ctxt).ct_vec@.len() ==> final(ctxt).ct_vec@[index + 1].value == old(ctxt).ct_vec@[index + 1].value + old(ctxt).ct_vec@[index as int].value as int
                / self.base(),
            index + 1 < old(ctxt).ct_vec@.len() ==> final(ctxt).ct_vec@[index + 1].degree == old(ctxt).ct_vec@[index + 1].degree + old(ctxt).ct_vec@[index as int].degree as int
                / self.base(),
            index + 1 < old(ctxt).ct_vec@.len() ==> final(ctxt).radix_value(self.base()) == old(ctxt).radix_value(self.base()),
            index + 1 == old(ctxt).ct_vec@.len() ==> final(ctxt).radix_value(self.base()) == old(ctxt).radix_value(self.base()) - (old(ctxt).ct_vec@[index as int].value as int
                / self.base()) * self.modulus(*old(ctxt)),
    {
        let ghost s0 = ctxt.values();
        let ghost v = ctxt.ct_vec@[index as int].value as int;
        let ghost b = self.base();
        let (extracted, carry) = self.key.message_and_carry_extract(&ctxt.ct_vec[index]);
        ctxt.ct_vec.set(index, extracted);
        proof {
            assert(ctxt.values() =~= s0.update(index as int, v % b));
            arith::lemma_le_value_update(s0, b, index as int, v % b);
            lemma_fundamental_div_mod(v, b);
        }
        proof {
            // the first update removes (v - v % b) == b * (v / b) weighted by b^index
            let p = pow(b, index as nat);
            assert((v % b - v) * p == -((b * (v / b)) * p)) by {
                vstd::arithmetic::mul::lemma_mul_unary_negation(b * (v / b), p);
            }
            assert((b * (v / b)) * p == (v / b) * (b * p)) by {
                lemma_mul_is_associative(b, v / b, p);
                lemma_mul_is_commutative(b, v / b);
                lemma_mul_is_associative(v / b, b, p);
            }
            lemma_pow_step(b, index as nat);
        }
        // add the carry to the next block
        if index < ctxt.ct_vec.len() - 1 {
            let ghost s1 = ctxt.values();
            let ghost w = ctxt.ct_vec@[index + 1].value as int;
            let mut next = ctxt.ct_vec[index + 1];
            self.key.unchecked_add_assign(&mut next, &carry);
            ctxt.ct_vec.set(index + 1, next);
            proof {
                assert(ctxt.values() =~= s1.update(index + 1, w + v / b));
                arith::lemma_le_value_update(s1, b, index + 1, w + v / b);
                // the second update restores it, weighted by b^(index + 1)
                assert(ctxt.radix_value(b) == le_value(s0, b) + (v % b - v) * pow(
                    b,
                    index as nat,
                ) + (v / b) * pow(b, (index + 1) as nat));
            }
        }
    }

    /// As `full_propagate`, spending one multi-output bootstrap per block
    /// instead of two sequential ones.
    pub fn multivalue_full_propagate(&self, ctxt: &mut Ciphertext)
        requires
            self.radix_ok(*old(ctxt)),
            old(ctxt).bounded(self.max_degree()),
        ensures
            self.radix_ok(*final(ctxt)),
            final(ctxt).ct_vec@.len() == old(ctxt).ct_vec@.len(),
            final(ctxt).message_modulus_vec@ == old(ctxt).message_modulus_vec@,
            final(ctxt).key_id_vec@ == old(ctxt).key_id_vec@,
            final(ctxt).all_canonical(),
            final(ctxt).bounded(self.base() - 1),
            final(ctxt).radix_value(self.base()) == old(ctxt).radix_value(self.base())
                % self.modulus(*old(ctxt)),
    {
        let len = ctxt.ct_vec.len();
        if len == 0 {
            proof {
                vstd::arithmetic::power::lemma_pow0(self.base());
            }
            return ;
        }
        let mut i: usize = 0;
        while i < len
            invariant
                0 < len == ctxt.ct_vec@.len(),
                0 <= i <= len,
                self.radix_ok(*ctxt),
                ctxt.message_modulus_vec@ == old(ctxt).message_modulus_vec@,
                ctxt.key_id_vec@ == old(ctxt).key_id_vec@,
                forall|j: int|
                    0 <= j < i ==> (#[trigger] ctxt.ct_vec@[j]).canonical() && ctxt.ct_vec@[
                    j].degree == self.base() - 1,
                i < len ==> ctxt.ct_vec@[i as int].degree <= self.max_degree()
                    + self.carry_modulus() - 1,
                forall|j: int|
                    i < j < len ==> #[trigger] ctxt.ct_vec@[j] == old(ctxt).ct_vec@[j],
                old(ctxt).ct_vec@.len() == len,
                old(ctxt).bounded(self.max_degree()),
                ctxt.radix_value(self.base()) % self.modulus(*old(ctxt)) == old(ctxt).radix_value(self.base()) % self.modulus(*old(ctxt)),
            decreases len - i,
        {
            proof {
                lemma_headroom(
                    self.base(),
                    self.carry_modulus(),
                    ctxt.ct_vec@[i as int].degree as int,
                );
                lemma_mul_is_distributive_sub_frame(self.base(), self.carry_modulus());
                vstd::arithmetic::div_mod::lemma_div_nonincreasing(
                    ctxt.ct_vec@[i as int].degree as int,
                    self.base(),
                );
                vstd::arithmetic::div_mod::lemma_div_pos_is_pos(
                    ctxt.ct_vec@[i as int].degree as int,
                    self.base(),
                );
            }
            let ghost before = *ctxt;
            self.multivalue_propagate(ctxt, i);
            proof {
                let b = self.base();
                let m = self.modulus(*old(ctxt));
                vstd::arithmetic::power::lemma_pow_positive(b, len as nat);
                if i + 1 < len {
                    lemma_div_is_ordered(
                        before.ct_vec@[i as int].degree as int,
                        b * self.carry_modulus() - 2,
                        b,
                    );
                    lemma_headroom_carry(b, self.carry_modulus());
                } else {
                    // the dropped multiple of the modulus does not change the
                    // value modulo the modulus
                    let k = before.ct_vec@[i as int].value as int / b;
                    lemma_mod_multiples_vanish(-k, ctxt.radix_value(b) + k * m, m);
                    vstd::arithmetic::mul::lemma_mul_unary_negation(k, m);
                }
            }
            i = i + 1;
        }
        proof {
            let b = self.base();
            let vals = ctxt.values();
            assert(arith::digits_below(vals, b));
            arith::lemma_le_value_bound(vals, b);
            vstd::arithmetic::div_mod::lemma_small_mod(
                ctxt.radix_value(b) as nat,
                self.modulus(*old(ctxt)) as nat,
            );
        }
    }

    /// As `partial_propagate`, spending one multi-output bootstrap per
    /// block instead of two sequential ones.
    pub fn partial_multivalue_propagate(&self, ctxt: &mut Ciphertext)
        requires
            self.radix_ok(*old(ctxt)),
            old(ctxt).bounded(self.max_degree()),
            1 <= old(ctxt).ct_vec@.len(),
        ensures
            self.radix_ok(*final(ctxt)),
            final(ctxt).ct_vec@.len() == old(ctxt).ct_vec@.len(),
            final(ctxt).message_modulus_vec@ == old(ctxt).message_modulus_vec@,
            final(ctxt).key_id_vec@ == old(ctxt).key_id_vec@,
            forall|j: int|
                0 <= j < old(ctxt).ct_vec@.len() - 1 ==> (#[trigger] final(
                    ctxt
                ).ct_vec@[j]).canonical(),
            final(ctxt).ct_vec@[old(ctxt).ct_vec@.len() - 1].degree <= self.max_degree()
                + self.carry_modulus() - 1,
            final(ctxt).ct_vec@[old(ctxt).ct_vec@.len() - 1].readable(),
            final(ctxt).radix_value(self.base()) == old(ctxt).radix_value(self.base()),
    {
        let len = ctxt.ct_vec.len() - 1;
        let mut i: usize = 0;
        while i < len
            invariant
                len == ctxt.ct_vec@.len() - 1,
                0 <= i <= len,
                self.radix_ok(*ctxt),
                ctxt.message_modulus_vec@ == old(ctxt).message_modulus_vec@,
                ctxt.key_id_vec@ == old(ctxt).key_id_vec@,
                forall|j: int|
                    0 <= j < i ==> (#[trigger] ctxt.ct_vec@[j]).canonical() && ctxt.ct_vec@[
                    j].degree == self.base() - 1,
                ctxt.ct_vec@[i as int].degree <= self.max_degree() + self.carry_modulus() - 1,
                forall|j: int|
                    i < j <= len ==> #[trigger] ctxt.ct_vec@[j] == old(ctxt).ct_vec@[j],
                old(ctxt).ct_vec@.len() == len + 1,
                old(ctxt).bounded(self.max_degree()),
                ctxt.radix_value(self.base()) == old(ctxt).radix_value(self.base()),
            decreases len - i,
        {
            proof {
                lemma_headroom(
                    self.base(),
                    self.carry_modulus(),
                    ctxt.ct_vec@[i as int].degree as int,
                );
                lemma_mul_is_distributive_sub_frame(self.base(), self.carry_modulus());
                vstd::arithmetic::div_mod::lemma_div_nonincreasing(
                    ctxt.ct_vec@[i as int].degree as int,
                    self.base(),
                );
                vstd::arithmetic::div_mod::lemma_div_pos_is_pos(
                    ctxt.ct_vec@[i as int].degree as int,
                    self.base(),
                );
            }
            let ghost before = *ctxt;
            self.multivalue_propagate(ctxt, i);
            proof {
                lemma_div_is_ordered(
                    before.ct_vec@[i as int].degree as int,
                    self.base() * self.carry_modulus() - 2,
                    self.base(),
                );
                lemma_headroom_carry(self.base(), self.carry_modulus());
            }
            i = i + 1;
        }
        proof {
            lemma_headroom(
                self.base(),
                self.carry_modulus(),
                ctxt.ct_vec@[len as int].degree as int,
            );
        }
    }

}

impl ServerKey {
    /// Evaluates an arbitrary function, given as a lookup table over the
    /// combined payload domain, on the two lowest blocks of `ct` in one
    /// multi-output bootstrap: for the combined payload
    /// `v = value_0 + base * value_1`, the result is a fresh two-block
    /// ciphertext holding `table[v]` as canonical digits.
    pub fn two_block_pbs(&self, ct: &Ciphertext, table: &Vec<u64>) -> (r: Ciphertext)
        requires
            self.radix_ok(*ct),
            2 <= ct.ct_vec@.len(),
            ct.ct_vec@[0].readable(),
            ct.ct_vec@[1].readable(),
            ct.ct_vec@[0].value + self.base() * ct.ct_vec@[1].value < table@.len(),
        ensures
            self.radix_ok(r),
            r.ct_vec@.len() == 2,
            r.all_canonical(),
            r.message_modulus_vec@ == ct.message_modulus_vec@,
            r.key_id_vec@ == ct.key_id_vec@,
            r.ct_vec@[0].value == (table@[ct.ct_vec@[0].value + self.base() * ct.ct_vec@[
                1
            ].value] as int) % self.base(),
            r.ct_vec@[1].value == (table@[ct.ct_vec@[0].value + self.base() * ct.ct_vec@[
                1
            ].value] as int) / self.base() % self.base(),
    {
        proof {
            lemma_combined_payload_fits(*self, ct.ct_vec@[1].value as int);
        }
        let base = self.key.message_modulus;
        let tlen = table.len();
        let v = ct.ct_vec[0].value + base * ct.ct_vec[1].value;
        let out = table[v as usize];
        let c_1 = shortint::Ciphertext {
            value: out % base,
            degree: base - 1,
            message_modulus: base,
            carry_modulus: self.key.carry_modulus,
        };
        let c_2 = shortint::Ciphertext {
            value: out / base % base,
            degree: base - 1,
            message_modulus: base,
            carry_modulus: self.key.carry_modulus,
        };
        proof {
            lemma_digit_block_wf(*self);
        }
        let mut ct_vec: Vec<shortint::Ciphertext> = Vec::new();
        ct_vec.push(c_1);
        ct_vec.push(c_2);
        Ciphertext {
            ct_vec,
            message_modulus_vec: crate::ciphertext::clone_u64_vec(
                &ct.message_modulus_vec,
            ),
            key_id_vec: crate::ciphertext::clone_key_id_vec(&ct.key_id_vec),
        }
    }

    /// As [`Self::two_block_pbs`], over the three lowest blocks: for
    /// `v = value_0 + base * value_1 + base^2 * value_2`, the result is a
    /// fresh three-block ciphertext holding `table[v]` as canonical
    /// digits.
    pub fn three_block_pbs(&self, ct: &Ciphertext, table: &Vec<u64>) -> (r: Ciphertext)
        requires
            self.radix_ok(*ct),
            3 <= ct.ct_vec@.len(),
            ct.ct_vec@[0].readable(),
            ct.ct_vec@[1].readable(),
            ct.ct_vec@[2].readable(),
            ct.ct_vec@[0].value + self.base() * ct.ct_vec@[1].value + self.base() * self.base()
                * ct.ct_vec@[2].value < table@.len(),
        ensures
            self.radix_ok(r),
            r.ct_vec@.len() == 3,
            r.all_canonical(),
            r.message_modulus_vec@ == ct.message_modulus_vec@,
            r.key_id_vec@ == ct.key_id_vec@,
            r.ct_vec@[0].value == (table@[ct.ct_vec@[0].value + self.base() * ct.ct_vec@[
                1
            ].value + self.base() * self.base() * ct.ct_vec@[2].value] as int) % self.base(),
            r.ct_vec@[1].value == (table@[ct.ct_vec@[0].value + self.base() * ct.ct_vec@[
                1
            ].value + self.base() * self.base() * ct.ct_vec@[2].value] as int) / self.base()
                % self.base(),
            r.ct_vec@[2].value == (table@[ct.ct_vec@[0].value + self.base() * ct.ct_vec@[
                1
            ].value + self.base() * self.base() * ct.ct_vec@[2].value] as int) / (self.base()
                * self.base()) % self.base(),
    {
        proof {
            lemma_combined_payload_fits(*self, ct.ct_vec@[1].value as int);
            lemma_combined_payload_fits3(*self, ct.ct_vec@[2].value as int);
        }
        let tlen = table.len();
        let base = self.key.message_modulus;
        let base_2 = base * base;
        proof {
            vstd::arithmetic::mul::lemma_mul_strictly_positive(base as int, base as int);
        }
        let v = ct.ct_vec[0].value + base * ct.ct_vec[1].value + base_2 * ct.ct_vec[2].value;
        let out = table[v as usize];
        let c_1 = shortint::Ciphertext {
            value: out % base,
            degree: base - 1,
            message_modulus: base,
            carry_modulus: self.key.carry_modulus,
        };
        let c_2 = shortint::Ciphertext {
            value: out / base % base,
            degree: base - 1,
            message_modulus: base,
            carry_modulus: self.key.carry_modulus,
        };
        let c_3 = shortint::Ciphertext {
            value: out / base_2 % base,
            degree: base - 1,
            message_modulus: base,
            carry_modulus: self.key.carry_modulus,
        };
        proof {
            lemma_digit_block_wf(*self);
        }
        let mut ct_vec: Vec<shortint::Ciphertext> = Vec::new();
        ct_vec.push(c_1);
        ct_vec.push(c_2);
        ct_vec.push(c_3);
        Ciphertext {
            ct_vec,
            message_modulus_vec: crate::ciphertext::clone_u64_vec(
                &ct.message_modulus_vec,
            ),
            key_id_vec: crate::ciphertext::clone_key_id_vec(&ct.key_id_vec),
        }
    }
}

/// A readable payload weighted by the base stays within a machine word.
proof fn lemma_combined_payload_fits(sks: ServerKey, v1: int)
    requires
        sks.wf(),
        0 <= v1 < sks.base() * sks.carry_modulus(),
    ensures
        0 <= sks.base() * v1,
        sks.base() * v1 <= 0xffff_ffff * 0xffff_ffff,
        sks.base() <= 0x8000_0000,
{
    vstd::arithmetic::mul::lemma_mul_inequality(2, sks.carry_modulus(), sks.base());
    vstd::arithmetic::mul::lemma_mul_is_commutative(2, sks.base());
    vstd::arithmetic::mul::lemma_mul_is_commutative(sks.carry_modulus(), sks.base());
    vstd::arithmetic::mul::lemma_mul_nonnegative(sks.base(), v1);
    vstd::arithmetic::mul::lemma_mul_inequality(sks.base(), 0xffff_ffff, v1);
    vstd::arithmetic::mul::lemma_mul_left_inequality(0xffff_ffff, v1, 0xffff_ffff);
}

/// A readable payload weighted by the squared base stays within a machine
/// word.
proof fn lemma_combined_payload_fits3(sks: ServerKey, v2: int)
    requires
        sks.wf(),
        0 <= v2 < sks.base() * sks.carry_modulus(),
    ensures
        0 <= sks.base() * sks.base(),
        sks.base() * sks.base() <= 0x8000_0000 * 0x8000_0000,
        0 <= (sks.base() * sks.base()) * v2,
{
    vstd::arithmetic::mul::lemma_mul_inequality(2, sks.carry_modulus(), sks.base());
    vstd::arithmetic::mul::lemma_mul_is_commutative(2, sks.base());
    vstd::arithmetic::mul::lemma_mul_is_commutative(sks.carry_modulus(), sks.base());
    vstd::arithmetic::mul::lemma_mul_nonnegative(sks.base(), sks.base());
    vstd::arithmetic::mul::lemma_mul_inequality(sks.base(), 0x8000_0000, sks.base());
    vstd::arithmetic::mul::lemma_mul_left_inequality(0x8000_0000, sks.base(), 0x8000_0000);
    vstd::arithmetic::mul::lemma_mul_nonnegative(sks.base() * sks.base(), v2);
}

/// Canonical digit blocks built from the key's parameters are well formed.
proof fn lemma_digit_block_wf(sks: ServerKey)
    requires
        sks.wf(),
    ensures
        sks.base() <= sks.base() * sks.carry_modulus(),
{
    vstd::arithmetic::mul::lemma_mul_left_inequality(sks.base(), 1, sks.carry_modulus());
}

} // verus!
