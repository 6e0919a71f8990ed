//! Iterated stability of the smart tier: a smart operation's result
//! satisfies the smart tier's own operand discipline, so smart operations
//! chain indefinitely, and the decrypted value stays exact at every step.

use vstd::prelude::*;
use vstd::arithmetic::power::pow;
use vstd::arithmetic::div_mod::lemma_add_mod_noop;
use crate::ciphertext::Ciphertext;
use crate::server_key::ServerKey;

verus! {

impl ServerKey {
    /// Feeds the accumulator back into `smart_add_assign` `count` times:
    /// however long the chain, the accumulator decrypts to the initial
    /// value plus `count` times the addend, modulo the representation's
    /// modulus, and never leaves the smart tier's operand discipline.
    pub fn repeated_smart_add(
        &self,
        acc: &mut Ciphertext,
        addend: &mut Ciphertext,
        count: usize,
    )
        requires
            self.radix_ok(*old(acc)),
            self.radix_ok(*old(addend)),
            old(acc).bounded(self.max_degree()),
            old(addend).bounded(self.max_degree()),
            old(acc).ct_vec@.len() == old(addend).ct_vec@.len(),
            2 * (self.base() - 1) <= self.max_degree(),
        ensures
            self.radix_ok(*final(acc)),
            final(acc).ct_vec@.len() == old(acc).ct_vec@.len(),
            final(acc).bounded(self.max_degree()),
            final(acc).radix_value(self.base()) % self.modulus(*old(acc)) == (old(
                acc,
            ).radix_value(self.base()) + count * old(addend).radix_value(self.base()))
                % self.modulus(*old(acc)),
    {
        let ghost m = self.modulus(*old(acc));
        let ghost a = old(acc).radix_value(self.base());
        let ghost b = old(addend).radix_value(self.base());
        let mut i: usize = 0;
        proof {
            vstd::arithmetic::power::lemma_pow_positive(
                self.base(),
                old(acc).ct_vec@.len() as nat,
            );
            vstd::arithmetic::mul::lemma_mul_by_zero_is_zero(b);
        }
        while i < count
            invariant
                0 <= i <= count,
                self.radix_ok(*acc),
                self.radix_ok(*addend),
                acc.bounded(self.max_degree()),
                addend.bounded(self.max_degree()),
                acc.ct_vec@.len() == old(acc).ct_vec@.len(),
                addend.ct_vec@.len() == old(addend).ct_vec@.len(),
                old(acc).ct_vec@.len() == old(addend).ct_vec@.len(),
                2 * (self.base() - 1) <= self.max_degree(),
                m == self.modulus(*old(acc)),
                0 < m,
                acc.radix_value(self.base()) % m == (a + i * b) % m,
                addend.radix_value(self.base()) % m == b % m,
            decreases count - i,
        {
            let ghost acc_v = acc.radix_value(self.base());
            let ghost add_v = addend.radix_value(self.base());
            self.smart_add_assign(acc, addend);
            proof {
                // (acc + addend) % m == ((a + i*b) % m + b % m) % m
                //                   == (a + (i + 1) * b) % m
                lemma_add_mod_noop(acc_v, add_v, m);
                lemma_add_mod_noop(a + i * b, b, m);
                assert((i + 1) * b == i * b + b) by {
                    vstd::arithmetic::mul::lemma_mul_is_distributive_add_other_way(b, i as int, 1);
                }
            }
            i = i + 1;
        }
    }

    /// Feeds the accumulator back into `smart_mul_assign` `count` times:
    /// the accumulator decrypts to the initial value times the `count`-th
    /// power of the multiplier, modulo the representation's modulus.
    pub fn repeated_smart_mul(
        &self,
        acc: &mut Ciphertext,
        multiplier: &mut Ciphertext,
        count: usize,
    )
        requires
            self.radix_ok(*old(acc)),
            self.radix_ok(*old(multiplier)),
            old(acc).bounded(self.max_degree()),
            old(multiplier).bounded(self.max_degree()),
            old(acc).ct_vec@.len() == old(multiplier).ct_vec@.len(),
            1 <= old(acc).ct_vec@.len(),
            2 * (self.base() - 1) <= self.max_degree(),
        ensures
            self.radix_ok(*final(acc)),
            final(acc).ct_vec@.len() == old(acc).ct_vec@.len(),
            final(acc).bounded(self.max_degree()),
            final(acc).radix_value(self.base()) % self.modulus(*old(acc)) == (old(
                acc,
            ).radix_value(self.base()) * pow(
                old(multiplier).radix_value(self.base()),
                count as nat,
            )) % self.modulus(*old(acc)),
    {
        let ghost m = self.modulus(*old(acc));
        let ghost a = old(acc).radix_value(self.base());
        let ghost b = old(multiplier).radix_value(self.base());
        let mut i: usize = 0;
        proof {
            vstd::arithmetic::power::lemma_pow_positive(
                self.base(),
                old(acc).ct_vec@.len() as nat,
            );
            vstd::arithmetic::power::lemma_pow0(b);
        }
        while i < count
            invariant
                0 <= i <= count,
                self.radix_ok(*acc),
                self.radix_ok(*multiplier),
                acc.bounded(self.max_degree()),
                multiplier.bounded(self.max_degree()),
                acc.ct_vec@.len() == old(acc).ct_vec@.len(),
                multiplier.ct_vec@.len() == old(multiplier).ct_vec@.len(),
                old(acc).ct_vec@.len() == old(multiplier).ct_vec@.len(),
                1 <= acc.ct_vec@.len(),
                2 * (self.base() - 1) <= self.max_degree(),
                m == self.modulus(*old(acc)),
                0 < m,
                acc.radix_value(self.base()) % m == (a * pow(b, i as nat)) % m,
                multiplier.radix_value(self.base()) % m == b % m,
            decreases count - i,
        {
            let ghost acc_v = acc.radix_value(self.base());
            let ghost mul_v = multiplier.radix_value(self.base());
            self.smart_mul_assign(acc, multiplier);
            proof {
                // (acc * multiplier) % m == (a * b^i * b) % m == (a * b^(i+1)) % m
                vstd::arithmetic::div_mod::lemma_mul_mod_noop(acc_v, mul_v, m);
                vstd::arithmetic::div_mod::lemma_mul_mod_noop(a * pow(b, i as nat), b, m);
                crate::server_key::lemma_pow_step(b, i as nat);
                vstd::arithmetic::mul::lemma_mul_is_associative(a, pow(b, i as nat), b);
            }
            i = i + 1;
        }
    }
}

} // verus!
