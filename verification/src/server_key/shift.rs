//! Shifts of radix ciphertexts: whole-block moves (free homomorphically)
//! and bit shifts decomposed into a block move plus one scalar
//! multiplication by a power of two.

use vstd::prelude::*;
use vstd::arithmetic::power::pow;
use vstd::arithmetic::power2::pow2;
use vstd::arithmetic::power2::lemma_pow2;
use vstd::arithmetic::power2::lemma_pow2_pos;
use vstd::arithmetic::power2::lemma_pow2_adds;
use vstd::arithmetic::power2::lemma_pow2_strictly_increases;
use vstd::arithmetic::div_mod::lemma_fundamental_div_mod;
use vstd::arithmetic::div_mod::lemma_fundamental_div_mod_converse_div;
use vstd::arithmetic::div_mod::lemma_div_denominator;
use vstd::arithmetic::div_mod::lemma_div_multiples_vanish_quotient;
use crate::arith;
use crate::arith::le_value;
use crate::ciphertext::Ciphertext;
use crate::server_key::ServerKey;

verus! {

impl ServerKey {
    /// The base is a power of two, as the bit-shift algorithms need.
    pub open spec fn power_of_two_base(self) -> bool {
        exists|e: nat| self.base() == pow2(e)
    }

    /// The number of message bits per block: the exponent with
    /// `base == 2^block_bits`.
    pub open spec fn block_bits(self) -> nat {
        choose|e: nat| self.base() == pow2(e)
    }

    /// Computes the number of message bits per block.
    pub fn message_bits(&self) -> (r: usize)
        requires
            self.wf(),
            self.power_of_two_base(),
        ensures
            r == self.block_bits(),
            pow2(r as nat) == self.base(),
            1 <= r <= 31,
    {
        let ghost e = self.block_bits();
        proof {
            assert(self.base() == pow2(e));
            lemma_pow2(0);
            vstd::arithmetic::power::lemma_pow0(2);
            vstd::arithmetic::power2::lemma2_to64();
            // base <= 2^31 because base * carry <= 2^32 and carry >= 2
            vstd::arithmetic::mul::lemma_mul_inequality(
                2,
                self.carry_modulus(),
                self.base(),
            );
            vstd::arithmetic::mul::lemma_mul_is_commutative(2, self.base());
            vstd::arithmetic::mul::lemma_mul_is_commutative(
                self.carry_modulus(),
                self.base(),
            );
        }
        let base = self.key.message_modulus;
        let mut v: u64 = 1;
        let mut p: usize = 0;
        while v < base
            invariant
                self.wf(),
                base == self.key.message_modulus,
                self.base() == pow2(e),
                self.base() <= 0x8000_0000,
                v == pow2(p as nat),
                p <= 31,
                v <= base,
            decreases base - v,
        {
            proof {
                vstd::arithmetic::power2::lemma2_to64();
                lemma_pow2_converse(p as nat, 31);
                lemma_pow2_converse(p as nat, e);
                if ((p + 1) as nat) < e {
                    lemma_pow2_strictly_increases((p + 1) as nat, e);
                }
                lemma_pow2_adds(p as nat, 1);
                lemma_pow2(1);
                vstd::arithmetic::power::lemma_pow1(2);
            }
            v = v * 2;
            p = p + 1;
        }
        proof {
            if (p as nat) < e {
                lemma_pow2_strictly_increases(p as nat, e);
            }
            if e < p as nat {
                lemma_pow2_strictly_increases(e, p as nat);
            }
            assert(p == e);
            if p == 0 {
                lemma_pow2(0);
                vstd::arithmetic::power::lemma_pow0(2);
            }
        }
        p
    }

    /// Shifts the blocks towards the most significant positions: block `i`
    /// of the operand lands at position `i + shift`, the freed low positions
    /// are filled with trivial zeros, and the topmost `shift` blocks fall
    /// away.  The result holds `base^shift` times the value of the surviving
    /// low blocks.
    pub fn blockshift(&self, ctxt: &Ciphertext, shift: usize) -> (r: Ciphertext)
        requires
            self.wf(),
            forall|i: int| 0 <= i < ctxt.ct_vec@.len() ==> (#[trigger] ctxt.ct_vec@[i]).wf(),
            shift <= ctxt.ct_vec@.len(),
        ensures
            r.ct_vec@.len() == ctxt.ct_vec@.len(),
            r.message_modulus_vec@ == ctxt.message_modulus_vec@,
            r.key_id_vec@ == ctxt.key_id_vec@,
            forall|i: int|
                0 <= i < shift ==> (#[trigger] r.ct_vec@[i]).value == 0 && r.ct_vec@[i].degree
                    == 0 && r.ct_vec@[i].canonical() && r.ct_vec@[i].wf()
                    && r.ct_vec@[i].message_modulus == self.base() && r.ct_vec@[i].carry_modulus
                    == self.carry_modulus(),
            forall|i: int|
                shift <= i < r.ct_vec@.len() ==> #[trigger] r.ct_vec@[i] == ctxt.ct_vec@[i
                    - shift],
            r.radix_value(self.base()) == pow(self.base(), shift as nat) * le_value(
                ctxt.values().take(ctxt.ct_vec@.len() - shift),
                self.base(),
            ),
    {
        let len = ctxt.ct_vec.len();
        let mut result = self.create_trivial_zero(
            len,
            crate::ciphertext::clone_u64_vec(&ctxt.message_modulus_vec),
            crate::ciphertext::clone_key_id_vec(&ctxt.key_id_vec),
        );
        let limit = len - shift;
        let mut i: usize = 0;
        while i < limit
            invariant
                0 <= i <= limit,
                limit == len - shift,
                shift <= len,
                len == ctxt.ct_vec@.len(),
                len == result.ct_vec@.len(),
                self.wf(),
                forall|j: int| 0 <= j < len ==> (#[trigger] ctxt.ct_vec@[j]).wf(),
                result.message_modulus_vec@ == ctxt.message_modulus_vec@,
                result.key_id_vec@ == ctxt.key_id_vec@,
                forall|j: int|
                    0 <= j < shift ==> (#[trigger] result.ct_vec@[j]).value == 0 && result.ct_vec@[
                    j].degree == 0 && result.ct_vec@[j].canonical() && result.ct_vec@[j].wf()
                        && result.ct_vec@[j].message_modulus == self.base()
                        && result.ct_vec@[j].carry_modulus == self.carry_modulus(),
                forall|j: int|
                    shift <= j < shift + i ==> #[trigger] result.ct_vec@[j] == ctxt.ct_vec@[j
                        - shift],
                forall|j: int|
                    shift + i <= j < len ==> (#[trigger] result.ct_vec@[j]).value == 0
                        && result.ct_vec@[j].degree == 0 && result.ct_vec@[j].wf(),
            decreases limit - i,
        {
            result.ct_vec.set(i + shift, ctxt.ct_vec[i]);
            i = i + 1;
        }
        proof {
            let b = self.base();
            let vals = result.values();
            let kept = ctxt.values().take(len - shift);
            arith::lemma_le_value_split(vals, b, shift as int);
            assert(vals.skip(shift as int) =~= kept);
            arith::lemma_le_value_all_zero(vals.take(shift as int), b);
        }
        result
    }

    /// Shifts the blocks towards the least significant positions: block
    /// `i + shift` lands at position `i`, the lowest `shift` blocks fall
    /// away, and the freed top positions are filled with trivial zeros.
    /// When the discarded blocks are reduced this divides the value by
    /// `base^shift` exactly.
    pub fn blockshift_right(&self, ctxt: &Ciphertext, shift: usize) -> (r: Ciphertext)
        requires
            self.wf(),
            forall|i: int| 0 <= i < ctxt.ct_vec@.len() ==> (#[trigger] ctxt.ct_vec@[i]).wf(),
            shift <= ctxt.ct_vec@.len(),
        ensures
            r.ct_vec@.len() == ctxt.ct_vec@.len(),
            r.message_modulus_vec@ == ctxt.message_modulus_vec@,
            r.key_id_vec@ == ctxt.key_id_vec@,
            forall|i: int|
                0 <= i < ctxt.ct_vec@.len() - shift ==> #[trigger] r.ct_vec@[i] == ctxt.ct_vec@[i
                    + shift],
            forall|i: int|
                ctxt.ct_vec@.len() - shift <= i < ctxt.ct_vec@.len() ==> (#[trigger] r.ct_vec@[
                i]).value == 0 && r.ct_vec@[i].degree == 0 && r.ct_vec@[i].canonical()
                    && r.ct_vec@[i].wf() && r.ct_vec@[i].message_modulus == self.base()
                    && r.ct_vec@[i].carry_modulus == self.carry_modulus(),
            r.radix_value(self.base()) == le_value(
                ctxt.values().skip(shift as int),
                self.base(),
            ),
            ctxt.radix_with(self.base(), self.carry_modulus()) && (forall|i: int|
                0 <= i < shift ==> (#[trigger] ctxt.ct_vec@[i]).reduced()) ==> r.radix_value(
                self.base(),
            ) == ctxt.radix_value(self.base()) / pow(self.base(), shift as nat),
    {
        let len = ctxt.ct_vec.len();
        let mut result = self.create_trivial_zero(
            len,
            crate::ciphertext::clone_u64_vec(&ctxt.message_modulus_vec),
            crate::ciphertext::clone_key_id_vec(&ctxt.key_id_vec),
        );
        let limit = len - shift;
        let mut i: usize = 0;
        while i < limit
            invariant
                0 <= i <= limit,
                limit == len - shift,
                shift <= len,
                len == ctxt.ct_vec@.len(),
                len == result.ct_vec@.len(),
                self.wf(),
                forall|j: int| 0 <= j < len ==> (#[trigger] ctxt.ct_vec@[j]).wf(),
                result.message_modulus_vec@ == ctxt.message_modulus_vec@,
                result.key_id_vec@ == ctxt.key_id_vec@,
                forall|j: int|
                    0 <= j < i ==> #[trigger] result.ct_vec@[j] == ctxt.ct_vec@[j + shift],
                forall|j: int|
                    i <= j < len ==> (#[trigger] result.ct_vec@[j]).value == 0 && result.ct_vec@[
                    j].degree == 0 && result.ct_vec@[j].canonical() && result.ct_vec@[j].wf()
                        && result.ct_vec@[j].message_modulus == self.base()
                        && result.ct_vec@[j].carry_modulus == self.carry_modulus(),
            decreases limit - i,
        {
            result.ct_vec.set(i, ctxt.ct_vec[i + shift]);
            i = i + 1;
        }
        proof {
            let b = self.base();
            let vals = result.values();
            let kept = ctxt.values().skip(shift as int);
            // the result is the kept blocks extended by zeros
            arith::lemma_le_value_split(vals, b, limit as int);
            assert forall|j: int| 0 <= j < limit implies #[trigger] vals.take(limit as int)[j]
                == kept[j] by {
                assert(result.ct_vec@[j] == ctxt.ct_vec@[j + shift]);
            }
            assert(vals.take(limit as int) =~= kept);
            arith::lemma_le_value_all_zero(vals.skip(limit as int), b);
            vstd::arithmetic::mul::lemma_mul_by_zero_is_zero(pow(b, limit as nat));
            if ctxt.radix_with(self.base(), self.carry_modulus()) && (forall|i: int|
                0 <= i < shift ==> (#[trigger] ctxt.ct_vec@[i]).reduced()) {
                // the dropped digits are below base^shift, so dropping them
                // is exact floor division
                let dropped = ctxt.values().take(shift as int);
                arith::lemma_le_value_split(ctxt.values(), b, shift as int);
                assert(arith::digits_below(dropped, b));
                arith::lemma_le_value_bound(dropped, b);
                assert(forall|i: int|
                    0 <= i < kept.len() ==> 0 <= #[trigger] kept[i]);
                arith::lemma_le_value_nonneg(kept, b);
                vstd::arithmetic::power::lemma_pow_positive(b, shift as nat);
                vstd::arithmetic::mul::lemma_mul_is_commutative(
                    pow(b, shift as nat),
                    le_value(kept, b),
                );
                lemma_fundamental_div_mod_converse_div(
                    ctxt.radix_value(b),
                    pow(b, shift as nat),
                    le_value(kept, b),
                    le_value(dropped, b),
                );
            }
        }
        result
    }

    /// As [`Self::blockshift_right`], assigning the result to `ctxt`.
    pub fn blockshift_right_assign(&self, ctxt: &mut Ciphertext, shift: usize)
        requires
            self.wf(),
            forall|i: int|
                0 <= i < old(ctxt).ct_vec@.len() ==> (#[trigger] old(ctxt).ct_vec@[i]).wf(),
            shift <= old(ctxt).ct_vec@.len(),
        ensures
            final(ctxt).ct_vec@.len() == old(ctxt).ct_vec@.len(),
            final(ctxt).message_modulus_vec@ == old(ctxt).message_modulus_vec@,
            final(ctxt).key_id_vec@ == old(ctxt).key_id_vec@,
            forall|i: int|
                0 <= i < old(ctxt).ct_vec@.len() - shift ==> #[trigger] final(ctxt).ct_vec@[i]
                    == old(ctxt).ct_vec@[i + shift],
            forall|i: int|
                old(ctxt).ct_vec@.len() - shift <= i < old(ctxt).ct_vec@.len() ==> (
                #[trigger] final(ctxt).ct_vec@[i]).value == 0 && final(ctxt).ct_vec@[i].degree
                    == 0 && final(ctxt).ct_vec@[i].canonical() && final(ctxt).ct_vec@[i].wf()
                    && final(ctxt).ct_vec@[i].message_modulus == self.base() && final(ctxt).ct_vec@[i].carry_modulus == self.carry_modulus(),
            final(ctxt).radix_value(self.base()) == le_value(
                old(ctxt).values().skip(shift as int),
                self.base(),
            ),
            old(ctxt).radix_with(self.base(), self.carry_modulus()) && (forall|i: int|
                0 <= i < shift ==> (#[trigger] old(ctxt).ct_vec@[i]).reduced()) ==> final(
                ctxt
            ).radix_value(self.base()) == old(ctxt).radix_value(self.base()) / pow(
                self.base(),
                shift as nat,
            ),
    {
        *ctxt = self.blockshift_right(ctxt, shift);
    }
}

impl ServerKey {
    /// Computes homomorphically a left shift by a scalar: the shift is
    /// decomposed as `quotient * block_bits + remainder`; the quotient is a
    /// free whole-block move and the remainder one scalar multiplication by
    /// a power of two.  On a reduced operand the result decrypts to the
    /// operand's value times `2^shift`, modulo the representation's modulus.
    pub fn unchecked_scalar_left_shift_assign(&self, ct: &mut Ciphertext, shift: usize)
        requires
            self.radix_ok(*old(ct)),
            old(ct).bounded(self.max_degree()),
            self.power_of_two_base(),
            shift <= self.block_bits() * old(ct).ct_vec@.len(),
            (self.base() - 1) * pow2(((shift as int) % (self.block_bits() as int)) as nat)
                <= self.max_degree(),
        ensures
            self.radix_ok(*final(ct)),
            final(ct).ct_vec@.len() == old(ct).ct_vec@.len(),
            final(ct).bounded(self.max_degree()),
            final(ct).message_modulus_vec@ == old(ct).message_modulus_vec@,
            final(ct).key_id_vec@ == old(ct).key_id_vec@,
            old(ct).all_reduced() ==> final(ct).radix_value(self.base()) % self.modulus(
                *old(ct),
            ) == (old(ct).radix_value(self.base()) * pow2(shift as nat)) % self.modulus(
                *old(ct),
            ),
    {
        let ghost v = old(ct).radix_value(self.base());
        let ghost m = self.modulus(*old(ct));
        let ghost len = old(ct).ct_vec@.len();
        let ghost b = self.base();
        let p = self.message_bits();
        let quotient = shift / p;
        let rem = shift % p;
        proof {
            lemma_fundamental_div_mod(shift as int, p as int);
            vstd::arithmetic::div_mod::lemma_mod_division_less_than_divisor(
                shift as int,
                p as int,
            );
            // quotient <= len, since shift <= p * len
            vstd::arithmetic::div_mod::lemma_div_is_ordered(
                shift as int,
                p as int * len,
                p as int,
            );
            vstd::arithmetic::mul::lemma_mul_is_commutative(p as int, len as int);
            vstd::arithmetic::div_mod::lemma_div_by_multiple(len as int, p as int);
            // 2^rem fits: rem < p <= 31
            lemma_pow2_strictly_increases(rem as nat, 32);
            vstd::arithmetic::power2::lemma2_to64();
            lemma_pow2(rem as nat);
        }
        let s = crate::arith::pow_u64(2, rem);
        let shifted = self.blockshift(ct, quotient);
        *ct = shifted;
        self.smart_scalar_mul_assign(ct, s);
        proof {
            if old(ct).all_reduced() {
                let q = quotient as int;
                let pl = pow(b, (len - q) as nat);
                let kept = old(ct).values().take(len - q);
                // the kept digits encode v % base^(len - quotient)
                arith::lemma_le_value_split(old(ct).values(), b, len - q);
                assert(arith::digits_below(kept, b));
                arith::lemma_le_value_bound(kept, b);
                assert(forall|i: int|
                    0 <= i < old(ct).values().skip(len - q).len() ==> 0 <= #[trigger] old(
                        ct,
                    ).values().skip(len - q)[i]);
                arith::lemma_le_value_nonneg(old(ct).values().skip(len - q), b);
                vstd::arithmetic::mul::lemma_mul_is_commutative(
                    pl,
                    le_value(old(ct).values().skip(len - q), b),
                );
                vstd::arithmetic::div_mod::lemma_fundamental_div_mod_converse_mod(
                    v,
                    pl,
                    le_value(old(ct).values().skip(len - q), b),
                    le_value(kept, b),
                );
                // base^q * (v % base^(len - q)) == (base^q * v) % modulus
                vstd::arithmetic::power::lemma_pow_positive(b, q as nat);
                vstd::arithmetic::div_mod::lemma_mod_bound(v, pl);
                arith::lemma_le_value_nonneg(kept, b);
                vstd::arithmetic::div_mod::lemma_truncate_middle(v, pow(b, q as nat), pl);
                vstd::arithmetic::power::lemma_pow_adds(b, q as nat, (len - q) as nat);
                // shifted value is (base^q * v) % modulus
                assert(shifted.radix_value(b) == (pow(b, q as nat) * v) % m);
                // combine with the scalar stage modulo the modulus
                vstd::arithmetic::div_mod::lemma_mul_mod_noop_left(
                    pow(b, q as nat) * v,
                    s as int,
                    m,
                );
                // base^q * 2^rem == 2^shift
                lemma_pow2(self.block_bits());
                lemma_pow2(rem as nat);
                lemma_pow2(shift as nat);
                vstd::arithmetic::power::lemma_pow_multiplies(
                    2,
                    self.block_bits(),
                    q as nat,
                );
                vstd::arithmetic::power::lemma_pow_adds(
                    2,
                    (self.block_bits() * q) as nat,
                    rem as nat,
                );
                assert(self.block_bits() * q + rem == shift) by {
                    vstd::arithmetic::mul::lemma_mul_is_commutative(
                        self.block_bits() as int,
                        q,
                    );
                }
                assert(pow(b, q as nat) * (s as int) == pow2(shift as nat));
                // reassociate (base^q * v) * s == v * (base^q * s)
                vstd::arithmetic::mul::lemma_mul_is_associative(
                    pow(b, q as nat),
                    v,
                    s as int,
                );
                vstd::arithmetic::mul::lemma_mul_is_commutative(pow(b, q as nat), v);
                vstd::arithmetic::mul::lemma_mul_is_associative(
                    v,
                    pow(b, q as nat),
                    s as int,
                );
            }
        }
    }

    /// As [`Self::unchecked_scalar_left_shift_assign`], returning the
    /// result as a new ciphertext.
    pub fn unchecked_scalar_left_shift(&self, ct_left: &Ciphertext, shift: usize) -> (r:
        Ciphertext)
        requires
            self.radix_ok(*ct_left),
            ct_left.bounded(self.max_degree()),
            self.power_of_two_base(),
            shift <= self.block_bits() * ct_left.ct_vec@.len(),
            (self.base() - 1) * pow2(((shift as int) % (self.block_bits() as int)) as nat)
                <= self.max_degree(),
        ensures
            self.radix_ok(r),
            r.ct_vec@.len() == ct_left.ct_vec@.len(),
            r.bounded(self.max_degree()),
            r.message_modulus_vec@ == ct_left.message_modulus_vec@,
            r.key_id_vec@ == ct_left.key_id_vec@,
            ct_left.all_reduced() ==> r.radix_value(self.base()) % self.modulus(*ct_left) == (
            ct_left.radix_value(self.base()) * pow2(shift as nat)) % self.modulus(*ct_left),
    {
        let mut result = ct_left.clone();
        self.unchecked_scalar_left_shift_assign(&mut result, shift);
        result
    }

    /// As [`Self::unchecked_scalar_left_shift_assign`], with the remainder
    /// stage run through the multi-output bootstrap primitive.
    pub fn unchecked_multivalue_scalar_left_shift_assign(&self, ct: &mut Ciphertext, shift: usize)
        requires
            self.radix_ok(*old(ct)),
            old(ct).bounded(self.max_degree()),
            self.power_of_two_base(),
            shift <= self.block_bits() * old(ct).ct_vec@.len(),
            (self.base() - 1) * pow2(((shift as int) % (self.block_bits() as int)) as nat)
                <= self.max_degree(),
        ensures
            self.radix_ok(*final(ct)),
            final(ct).ct_vec@.len() == old(ct).ct_vec@.len(),
            final(ct).bounded(self.max_degree()),
            final(ct).message_modulus_vec@ == old(ct).message_modulus_vec@,
            final(ct).key_id_vec@ == old(ct).key_id_vec@,
            old(ct).all_reduced() ==> final(ct).radix_value(self.base()) % self.modulus(
                *old(ct),
            ) == (old(ct).radix_value(self.base()) * pow2(shift as nat)) % self.modulus(
                *old(ct),
            ),
    {
        let ghost v = old(ct).radix_value(self.base());
        let ghost m = self.modulus(*old(ct));
        let ghost len = old(ct).ct_vec@.len();
        let ghost b = self.base();
        let p = self.message_bits();
        let quotient = shift / p;
        let rem = shift % p;
        proof {
            lemma_fundamental_div_mod(shift as int, p as int);
            vstd::arithmetic::div_mod::lemma_mod_division_less_than_divisor(
                shift as int,
                p as int,
            );
            vstd::arithmetic::div_mod::lemma_div_is_ordered(
                shift as int,
                p as int * len,
                p as int,
            );
            vstd::arithmetic::mul::lemma_mul_is_commutative(p as int, len as int);
            vstd::arithmetic::div_mod::lemma_div_by_multiple(len as int, p as int);
            lemma_pow2_strictly_increases(rem as nat, 32);
            vstd::arithmetic::power2::lemma2_to64();
            lemma_pow2(rem as nat);
        }
        let s = crate::arith::pow_u64(2, rem);
        let shifted = self.blockshift(ct, quotient);
        *ct = shifted;
        self.smart_multivalue_scalar_mul_assign(ct, s);
        proof {
            if old(ct).all_reduced() {
                let q = quotient as int;
                let pl = pow(b, (len - q) as nat);
                let kept = old(ct).values().take(len - q);
                arith::lemma_le_value_split(old(ct).values(), b, len - q);
                assert(arith::digits_below(kept, b));
                arith::lemma_le_value_bound(kept, b);
                assert(forall|i: int|
                    0 <= i < old(ct).values().skip(len - q).len() ==> 0 <= #[trigger] old(
                        ct,
                    ).values().skip(len - q)[i]);
                arith::lemma_le_value_nonneg(old(ct).values().skip(len - q), b);
                vstd::arithmetic::mul::lemma_mul_is_commutative(
                    pl,
                    le_value(old(ct).values().skip(len - q), b),
                );
                vstd::arithmetic::div_mod::lemma_fundamental_div_mod_converse_mod(
                    v,
                    pl,
                    le_value(old(ct).values().skip(len - q), b),
                    le_value(kept, b),
                );
                vstd::arithmetic::power::lemma_pow_positive(b, q as nat);
                vstd::arithmetic::div_mod::lemma_mod_bound(v, pl);
                arith::lemma_le_value_nonneg(kept, b);
                vstd::arithmetic::div_mod::lemma_truncate_middle(v, pow(b, q as nat), pl);
                vstd::arithmetic::power::lemma_pow_adds(b, q as nat, (len - q) as nat);
                assert(shifted.radix_value(b) == (pow(b, q as nat) * v) % m);
                vstd::arithmetic::div_mod::lemma_mul_mod_noop_left(
                    pow(b, q as nat) * v,
                    s as int,
                    m,
                );
                lemma_pow2(self.block_bits());
                lemma_pow2(rem as nat);
                lemma_pow2(shift as nat);
                vstd::arithmetic::power::lemma_pow_multiplies(
                    2,
                    self.block_bits(),
                    q as nat,
                );
                vstd::arithmetic::power::lemma_pow_adds(
                    2,
                    (self.block_bits() * q) as nat,
                    rem as nat,
                );
                assert(self.block_bits() * q + rem == shift) by {
                    vstd::arithmetic::mul::lemma_mul_is_commutative(
                        self.block_bits() as int,
                        q,
                    );
                }
                assert(pow(b, q as nat) * (s as int) == pow2(shift as nat));
                vstd::arithmetic::mul::lemma_mul_is_associative(
                    pow(b, q as nat),
                    v,
                    s as int,
                );
                vstd::arithmetic::mul::lemma_mul_is_commutative(pow(b, q as nat), v);
                vstd::arithmetic::mul::lemma_mul_is_associative(
                    v,
                    pow(b, q as nat),
                    s as int,
                );
            }
        }
    }
}

impl ServerKey {
    /// Computes homomorphically a right shift by a scalar, exactly: the
    /// result holds the operand's value divided by `2^shift`.  A shift that
    /// is a multiple of the block width is propagation plus a whole-block
    /// move; otherwise the operand is first realigned by multiplying with
    /// `2^(block_bits - remainder)` (which needs one extra block of
    /// headroom: `carry_modulus` must cover `2^(block_bits - 1)`), partially
    /// propagated, moved down one block, repaired at the boundary block, and
    /// moved down by the quotient.
    pub fn unchecked_scalar_right_shift_assign(&self, ct: &mut Ciphertext, shift: usize)
        requires
            self.radix_ok(*old(ct)),
            old(ct).all_canonical(),
            self.power_of_two_base(),
            1 <= old(ct).ct_vec@.len(),
            shift <= self.block_bits() * old(ct).ct_vec@.len(),
            ((shift as int) % (self.block_bits() as int) != 0) ==> 2 <= old(
                ct,
            ).ct_vec@.len(),
            (self.base() - 1) * pow2((self.block_bits() - 1) as nat) <= self.max_degree(),
        ensures
            self.radix_ok(*final(ct)),
            final(ct).ct_vec@.len() == old(ct).ct_vec@.len(),
            final(ct).bounded(self.max_degree()),
            final(ct).message_modulus_vec@ == old(ct).message_modulus_vec@,
            final(ct).key_id_vec@ == old(ct).key_id_vec@,
            final(ct).radix_value(self.base()) == old(ct).radix_value(self.base()) / (
            pow2(shift as nat) as int),
    {
        let ghost v = old(ct).radix_value(self.base());
        let ghost b = self.base();
        let ghost len = old(ct).ct_vec@.len();
        let p = self.message_bits();
        let quotient = shift / p;
        let rem = shift % p;
        proof {
            lemma_fundamental_div_mod(shift as int, p as int);
            vstd::arithmetic::div_mod::lemma_mod_division_less_than_divisor(
                shift as int,
                p as int,
            );
            vstd::arithmetic::div_mod::lemma_div_is_ordered(
                shift as int,
                p as int * len,
                p as int,
            );
            vstd::arithmetic::mul::lemma_mul_is_commutative(p as int, len as int);
            vstd::arithmetic::div_mod::lemma_div_by_multiple(len as int, p as int);
            lemma_bounded_by_canonical(*self, *old(ct));
        }
        if rem == 0 {
            self.full_propagate(ct);
            proof {
                assert(arith::digits_below(old(ct).values(), b));
                arith::lemma_le_value_bound(old(ct).values(), b);
                vstd::arithmetic::div_mod::lemma_small_mod(v as nat, self.modulus(*old(ct)) as nat);
            }
            self.blockshift_right_assign(ct, quotient);
            proof {
                lemma_pow2(p as nat);
                lemma_pow2(shift as nat);
                vstd::arithmetic::power::lemma_pow_multiplies(2, p as nat, quotient as nat);
                vstd::arithmetic::mul::lemma_mul_is_commutative(p as int, quotient as int);
                assert(pow(b, quotient as nat) == pow2(shift as nat));
                assert(ct.radix_value(b) == v / (pow2(shift as nat) as int));
            }
        } else {
            let mr = p - rem;
            proof {
                // 2^mr <= 2^(p - 1), so the realignment fits under the ceiling
                lemma_pow2(mr as nat);
                lemma_pow2((p - 1) as nat);
                if mr < p - 1 {
                    lemma_pow2_strictly_increases(mr as nat, (p - 1) as nat);
                }
                vstd::arithmetic::mul::lemma_mul_left_inequality(
                    self.base() - 1,
                    pow2(mr as nat) as int,
                    pow2((p - 1) as nat) as int,
                );
                lemma_scale_canonical_within(*self, *old(ct), pow2(mr as nat) as int);
                if (mr as nat) < 32 {
                    lemma_pow2_strictly_increases(mr as nat, 32);
                }
                vstd::arithmetic::power2::lemma2_to64();
            }
            let s = crate::arith::pow_u64(2, mr);
            self.unchecked_small_scalar_mul_assign(ct, s);
            proof {
                // every degree is now at most (base - 1) * 2^mr <= max_degree
                assert forall|i: int| 0 <= i < ct.ct_vec@.len() implies (#[trigger] ct.ct_vec@[
                i]).degree <= self.max_degree() by {
                    vstd::arithmetic::mul::lemma_mul_inequality(
                        old(ct).ct_vec@[i].degree as int,
                        self.base() - 1,
                        s as int,
                    );
                }
            }
            let ghost v1 = ct.radix_value(b);
            self.partial_propagate(ct);
            self.blockshift_right_assign(ct, 1);
            let ghost v3 = ct.radix_value(b);
            proof {
                // v1 / base == v / 2^rem
                lemma_pow2(p as nat);
                lemma_pow2_adds(mr as nat, rem as nat);
                vstd::arithmetic::mul::lemma_mul_is_commutative(v, pow2(mr as nat) as int);
                vstd::arithmetic::power2::lemma_pow2_pos(mr as nat);
                vstd::arithmetic::power2::lemma_pow2_pos(rem as nat);
                assert(forall|i: int|
                    0 <= i < old(ct).values().len() ==> 0 <= #[trigger] old(ct).values()[i]);
                arith::lemma_le_value_nonneg(old(ct).values(), b);
                vstd::arithmetic::div_mod::lemma_div_multiples_vanish_quotient(
                    pow2(mr as nat) as int,
                    v,
                    pow2(rem as nat) as int,
                );
                vstd::arithmetic::power::lemma_pow1(b);
                assert(v3 == v / (pow2(rem as nat) as int));
            }
            let idx = ct.ct_vec.len() - 2;
            proof {
                crate::server_key::lemma_headroom(
                    self.base(),
                    self.carry_modulus(),
                    ct.ct_vec@[idx as int].degree as int,
                );
                crate::server_key::lemma_mul_is_distributive_sub_frame(
                    self.base(),
                    self.carry_modulus(),
                );
                vstd::arithmetic::div_mod::lemma_div_nonincreasing(
                    ct.ct_vec@[idx as int].degree as int,
                    self.base(),
                );
                vstd::arithmetic::div_mod::lemma_div_pos_is_pos(
                    ct.ct_vec@[idx as int].degree as int,
                    self.base(),
                );
            }
            let ghost before = *ct;
            self.propagate(ct, idx);
            proof {
                lemma_div_is_ordered_frame(
                    before.ct_vec@[idx as int].degree as int,
                    self.base(),
                    self.carry_modulus(),
                );
                // every block is now below the ceiling, and all blocks below
                // the top are reduced, so the final move divides exactly
                vstd::arithmetic::mul::lemma_mul_left_inequality(
                    self.base() - 1,
                    2,
                    self.carry_modulus(),
                );
                vstd::arithmetic::mul::lemma_mul_nonnegative(
                    self.base() - 2,
                    self.carry_modulus(),
                );
                vstd::arithmetic::mul::lemma_mul_is_distributive_sub_other_way(
                    self.carry_modulus(),
                    self.base(),
                    1,
                );
                vstd::arithmetic::mul::lemma_mul_inequality(
                    2,
                    self.base(),
                    self.carry_modulus(),
                );
                let n = ct.ct_vec@.len();
                assert forall|j: int| 0 <= j < n implies (#[trigger] ct.ct_vec@[j]).degree
                    <= self.max_degree() && (j < n - 1 ==> ct.ct_vec@[j].reduced()) by {
                    if j < idx {
                        assert(ct.ct_vec@[j] == before.ct_vec@[j]);
                        assert(before.ct_vec@[j].canonical());
                    } else if j == idx {
                        assert(ct.ct_vec@[j].canonical());
                    } else {
                        assert(before.ct_vec@[j].degree == 0);
                        assert(ct.ct_vec@[j].degree == before.ct_vec@[j].degree + (
                        before.ct_vec@[idx as int].degree as int) / self.base());
                    }
                }
            }
            proof {
                // the remainder is nonzero, so the quotient is below the
                // block count and only reduced blocks are dropped
                assert((quotient as int) < len);
                assert(ct.radix_value(b) == v / (pow2(rem as nat) as int));
                assert(ct.radix_with(self.base(), self.carry_modulus()));
                assert(forall|i: int|
                    0 <= i < quotient ==> (#[trigger] ct.ct_vec@[i]).reduced());
            }
            let ghost pre_final = *ct;
            self.blockshift_right_assign(ct, quotient);
            proof {
                assert(ct.radix_value(b) == pre_final.radix_value(b) / pow(
                    b,
                    quotient as nat,
                ));
            }
            proof {
                // (v / 2^rem) / base^quotient == v / 2^shift
                lemma_pow2(p as nat);
                lemma_pow2(shift as nat);
                vstd::arithmetic::power::lemma_pow_multiplies(2, p as nat, quotient as nat);
                vstd::arithmetic::mul::lemma_mul_is_commutative(p as int, quotient as int);
                vstd::arithmetic::power2::lemma_pow2_pos(rem as nat);
                vstd::arithmetic::power::lemma_pow_positive(b, quotient as nat);
                vstd::arithmetic::div_mod::lemma_div_denominator(
                    v,
                    pow2(rem as nat) as int,
                    pow(b, quotient as nat),
                );
                lemma_pow2((rem + p * quotient) as nat);
                vstd::arithmetic::power::lemma_pow_adds(
                    2,
                    rem as nat,
                    (p * quotient) as nat,
                );
                lemma_pow2(rem as nat);
                assert(b == pow(2, p as nat));
                assert(pow(b, quotient as nat) == pow(2, (p * quotient) as nat));
                assert(pow(2, (rem + p * quotient) as nat) == pow(2, rem as nat) * pow(
                    2,
                    (p * quotient) as nat,
                ));
                assert(shift == rem + p * quotient);
                assert((pow2(rem as nat) as int) * pow(b, quotient as nat) == pow2(
                    shift as nat,
                ) as int);
                assert(ct.radix_value(b) == (v / (pow2(rem as nat) as int)) / pow(
                    b,
                    quotient as nat,
                ));
                assert(ct.radix_value(b) == v / (pow2(shift as nat) as int));
            }
        }
    }

    /// As `unchecked_scalar_right_shift_assign`, with every propagation
    /// step run through the multi-output bootstrap primitive.
    pub fn unchecked_multivalue_scalar_right_shift_assign(&self, ct: &mut Ciphertext, shift: usize)
        requires
            self.radix_ok(*old(ct)),
            old(ct).all_canonical(),
            self.power_of_two_base(),
            1 <= old(ct).ct_vec@.len(),
            shift <= self.block_bits() * old(ct).ct_vec@.len(),
            ((shift as int) % (self.block_bits() as int) != 0) ==> 2 <= old(
                ct,
            ).ct_vec@.len(),
            (self.base() - 1) * pow2((self.block_bits() - 1) as nat) <= self.max_degree(),
        ensures
            self.radix_ok(*final(ct)),
            final(ct).ct_vec@.len() == old(ct).ct_vec@.len(),
            final(ct).bounded(self.max_degree()),
            final(ct).message_modulus_vec@ == old(ct).message_modulus_vec@,
            final(ct).key_id_vec@ == old(ct).key_id_vec@,
            final(ct).radix_value(self.base()) == old(ct).radix_value(self.base()) / (
            pow2(shift as nat) as int),
    {
        let ghost v = old(ct).radix_value(self.base());
        let ghost b = self.base();
        let ghost len = old(ct).ct_vec@.len();
        let p = self.message_bits();
        let quotient = shift / p;
        let rem = shift % p;
        proof {
            lemma_fundamental_div_mod(shift as int, p as int);
            vstd::arithmetic::div_mod::lemma_mod_division_less_than_divisor(
                shift as int,
                p as int,
            );
            vstd::arithmetic::div_mod::lemma_div_is_ordered(
                shift as int,
                p as int * len,
                p as int,
            );
            vstd::arithmetic::mul::lemma_mul_is_commutative(p as int, len as int);
            vstd::arithmetic::div_mod::lemma_div_by_multiple(len as int, p as int);
            lemma_bounded_by_canonical(*self, *old(ct));
        }
        if rem == 0 {
            self.multivalue_full_propagate(ct);
            proof {
                assert(arith::digits_below(old(ct).values(), b));
                arith::lemma_le_value_bound(old(ct).values(), b);
                vstd::arithmetic::div_mod::lemma_small_mod(v as nat, self.modulus(*old(ct)) as nat);
            }
            self.blockshift_right_assign(ct, quotient);
            proof {
                lemma_pow2(p as nat);
                lemma_pow2(shift as nat);
                vstd::arithmetic::power::lemma_pow_multiplies(2, p as nat, quotient as nat);
                vstd::arithmetic::mul::lemma_mul_is_commutative(p as int, quotient as int);
                assert(pow(b, quotient as nat) == pow2(shift as nat));
                assert(ct.radix_value(b) == v / (pow2(shift as nat) as int));
            }
        } else {
            let mr = p - rem;
            proof {
                // 2^mr <= 2^(p - 1), so the realignment fits under the ceiling
                lemma_pow2(mr as nat);
                lemma_pow2((p - 1) as nat);
                if mr < p - 1 {
                    lemma_pow2_strictly_increases(mr as nat, (p - 1) as nat);
                }
                vstd::arithmetic::mul::lemma_mul_left_inequality(
                    self.base() - 1,
                    pow2(mr as nat) as int,
                    pow2((p - 1) as nat) as int,
                );
                lemma_scale_canonical_within(*self, *old(ct), pow2(mr as nat) as int);
                if (mr as nat) < 32 {
                    lemma_pow2_strictly_increases(mr as nat, 32);
                }
                vstd::arithmetic::power2::lemma2_to64();
            }
            let s = crate::arith::pow_u64(2, mr);
            self.unchecked_small_scalar_mul_assign(ct, s);
            proof {
                // every degree is now at most (base - 1) * 2^mr <= max_degree
                assert forall|i: int| 0 <= i < ct.ct_vec@.len() implies (#[trigger] ct.ct_vec@[
                i]).degree <= self.max_degree() by {
                    vstd::arithmetic::mul::lemma_mul_inequality(
                        old(ct).ct_vec@[i].degree as int,
                        self.base() - 1,
                        s as int,
                    );
                }
            }
            let ghost v1 = ct.radix_value(b);
            self.partial_multivalue_propagate(ct);
            self.blockshift_right_assign(ct, 1);
            let ghost v3 = ct.radix_value(b);
            proof {
                // v1 / base == v / 2^rem
                lemma_pow2(p as nat);
                lemma_pow2_adds(mr as nat, rem as nat);
                vstd::arithmetic::mul::lemma_mul_is_commutative(v, pow2(mr as nat) as int);
                vstd::arithmetic::power2::lemma_pow2_pos(mr as nat);
                vstd::arithmetic::power2::lemma_pow2_pos(rem as nat);
                assert(forall|i: int|
                    0 <= i < old(ct).values().len() ==> 0 <= #[trigger] old(ct).values()[i]);
                arith::lemma_le_value_nonneg(old(ct).values(), b);
                vstd::arithmetic::div_mod::lemma_div_multiples_vanish_quotient(
                    pow2(mr as nat) as int,
                    v,
                    pow2(rem as nat) as int,
                );
                vstd::arithmetic::power::lemma_pow1(b);
                assert(v3 == v / (pow2(rem as nat) as int));
            }
            let idx = ct.ct_vec.len() - 2;
            proof {
                crate::server_key::lemma_headroom(
                    self.base(),
                    self.carry_modulus(),
                    ct.ct_vec@[idx as int].degree as int,
                );
                crate::server_key::lemma_mul_is_distributive_sub_frame(
                    self.base(),
                    self.carry_modulus(),
                );
                vstd::arithmetic::div_mod::lemma_div_nonincreasing(
                    ct.ct_vec@[idx as int].degree as int,
                    self.base(),
                );
                vstd::arithmetic::div_mod::lemma_div_pos_is_pos(
                    ct.ct_vec@[idx as int].degree as int,
                    self.base(),
                );
            }
            let ghost before = *ct;
            self.multivalue_propagate(ct, idx);
            proof {
                lemma_div_is_ordered_frame(
                    before.ct_vec@[idx as int].degree as int,
                    self.base(),
                    self.carry_modulus(),
                );
                // every block is now below the ceiling, and all blocks below
                // the top are reduced, so the final move divides exactly
                vstd::arithmetic::mul::lemma_mul_left_inequality(
                    self.base() - 1,
                    2,
                    self.carry_modulus(),
                );
                vstd::arithmetic::mul::lemma_mul_nonnegative(
                    self.base() - 2,
                    self.carry_modulus(),
                );
                vstd::arithmetic::mul::lemma_mul_is_distributive_sub_other_way(
                    self.carry_modulus(),
                    self.base(),
                    1,
                );
                vstd::arithmetic::mul::lemma_mul_inequality(
                    2,
                    self.base(),
                    self.carry_modulus(),
                );
                let n = ct.ct_vec@.len();
                assert forall|j: int| 0 <= j < n implies (#[trigger] ct.ct_vec@[j]).degree
                    <= self.max_degree() && (j < n - 1 ==> ct.ct_vec@[j].reduced()) by {
                    if j < idx {
                        assert(ct.ct_vec@[j] == before.ct_vec@[j]);
                        assert(before.ct_vec@[j].canonical());
                    } else if j == idx {
                        assert(ct.ct_vec@[j].canonical());
                    } else {
                        assert(before.ct_vec@[j].degree == 0);
                        assert(ct.ct_vec@[j].degree == before.ct_vec@[j].degree + (
                        before.ct_vec@[idx as int].degree as int) / self.base());
                    }
                }
            }
            proof {
                // the remainder is nonzero, so the quotient is below the
                // block count and only reduced blocks are dropped
                assert((quotient as int) < len);
                assert(ct.radix_value(b) == v / (pow2(rem as nat) as int));
                assert(ct.radix_with(self.base(), self.carry_modulus()));
                assert(forall|i: int|
                    0 <= i < quotient ==> (#[trigger] ct.ct_vec@[i]).reduced());
            }
            let ghost pre_final = *ct;
            self.blockshift_right_assign(ct, quotient);
            proof {
                assert(ct.radix_value(b) == pre_final.radix_value(b) / pow(
                    b,
                    quotient as nat,
                ));
            }
            proof {
                // (v / 2^rem) / base^quotient == v / 2^shift
                lemma_pow2(p as nat);
                lemma_pow2(shift as nat);
                vstd::arithmetic::power::lemma_pow_multiplies(2, p as nat, quotient as nat);
                vstd::arithmetic::mul::lemma_mul_is_commutative(p as int, quotient as int);
                vstd::arithmetic::power2::lemma_pow2_pos(rem as nat);
                vstd::arithmetic::power::lemma_pow_positive(b, quotient as nat);
                vstd::arithmetic::div_mod::lemma_div_denominator(
                    v,
                    pow2(rem as nat) as int,
                    pow(b, quotient as nat),
                );
                lemma_pow2((rem + p * quotient) as nat);
                vstd::arithmetic::power::lemma_pow_adds(
                    2,
                    rem as nat,
                    (p * quotient) as nat,
                );
                lemma_pow2(rem as nat);
                assert(b == pow(2, p as nat));
                assert(pow(b, quotient as nat) == pow(2, (p * quotient) as nat));
                assert(pow(2, (rem + p * quotient) as nat) == pow(2, rem as nat) * pow(
                    2,
                    (p * quotient) as nat,
                ));
                assert(shift == rem + p * quotient);
                assert((pow2(rem as nat) as int) * pow(b, quotient as nat) == pow2(
                    shift as nat,
                ) as int);
                assert(ct.radix_value(b) == (v / (pow2(rem as nat) as int)) / pow(
                    b,
                    quotient as nat,
                ));
                assert(ct.radix_value(b) == v / (pow2(shift as nat) as int));
            }
        }
    }

    /// As [`Self::unchecked_scalar_right_shift_assign`], returning the
    /// result as a new ciphertext.
    pub fn unchecked_scalar_right_shift(&self, ct: &Ciphertext, shift: usize) -> (r: Ciphertext)
        requires
            self.radix_ok(*ct),
            ct.all_canonical(),
            self.power_of_two_base(),
            1 <= ct.ct_vec@.len(),
            shift <= self.block_bits() * ct.ct_vec@.len(),
            ((shift as int) % (self.block_bits() as int) != 0) ==> 2 <= ct.ct_vec@.len(),
            (self.base() - 1) * pow2((self.block_bits() - 1) as nat) <= self.max_degree(),
        ensures
            self.radix_ok(r),
            r.ct_vec@.len() == ct.ct_vec@.len(),
            r.bounded(self.max_degree()),
            r.message_modulus_vec@ == ct.message_modulus_vec@,
            r.key_id_vec@ == ct.key_id_vec@,
            r.radix_value(self.base()) == ct.radix_value(self.base()) / (pow2(shift as nat) as int),
    {
        let mut result = ct.clone();
        self.unchecked_scalar_right_shift_assign(&mut result, shift);
        result
    }
}

/// A canonical radix operand is bounded by the degree ceiling.
proof fn lemma_bounded_by_canonical(sks: ServerKey, ct: Ciphertext)
    requires
        sks.radix_ok(ct),
        ct.all_canonical(),
    ensures
        ct.bounded(sks.base() - 1),
        ct.bounded(sks.max_degree()),
        sks.base() - 1 <= sks.max_degree(),
{
    vstd::arithmetic::mul::lemma_mul_left_inequality(sks.base() - 1, 2, sks.carry_modulus());
    assert forall|i: int| 0 <= i < ct.ct_vec@.len() implies (#[trigger] ct.ct_vec@[i]).degree
        <= sks.max_degree() by {
        // base - 1 <= (base - 1) * carry - 1, since carry >= 2
        vstd::arithmetic::mul::lemma_mul_left_inequality(
            sks.base() - 1,
            2,
            sks.carry_modulus(),
        );
    }
}

/// Canonical degrees scale by `s <= max_degree / (base - 1)` without
/// overflowing a machine word.
proof fn lemma_scale_canonical_within(sks: ServerKey, ct: Ciphertext, s: int)
    requires
        sks.radix_ok(ct),
        ct.all_canonical(),
        0 <= s,
        (sks.base() - 1) * s <= sks.max_degree(),
    ensures
        forall|i: int|
            0 <= i < ct.ct_vec@.len() ==> (#[trigger] ct.ct_vec@[i]).degree * s <= u64::MAX,
{
    assert forall|i: int|
        0 <= i < ct.ct_vec@.len() implies (#[trigger] ct.ct_vec@[i]).degree * s
        <= u64::MAX by {
        vstd::arithmetic::mul::lemma_mul_inequality(
            ct.ct_vec@[i].degree as int,
            sks.base() - 1,
            s,
        );
    }
}

/// The carry read from a block below `base * carry - 2` is at most
/// `carry - 1`.
proof fn lemma_div_is_ordered_frame(degree: int, base: int, carry: int)
    requires
        2 <= base,
        2 <= carry,
        0 <= degree <= base * carry - 2,
    ensures
        degree / base <= carry - 1,
{
    vstd::arithmetic::div_mod::lemma_div_is_ordered(degree, base * carry - 2, base);
    crate::server_key::lemma_headroom_carry(base, carry);
}

/// The shift round trip: a left shift by `k` bits followed by a right
/// shift by `k` bits returns the original value, whenever the shifted
/// value still fits the representation's modulus.  This composes the
/// contract of `unchecked_scalar_left_shift` (the value becomes
/// `v * 2^k` modulo the modulus) with the contract of
/// `unchecked_scalar_right_shift` (the value becomes the quotient by
/// `2^k`).
pub proof fn lemma_shift_round_trip(v: int, k: nat, m: int)
    requires
        0 <= v,
        0 < m,
        v * pow2(k) < m,
    ensures
        ((v * pow2(k)) % m) / (pow2(k) as int) == v,
{
    vstd::arithmetic::power2::lemma_pow2_pos(k);
    vstd::arithmetic::mul::lemma_mul_nonnegative(v, pow2(k) as int);
    vstd::arithmetic::div_mod::lemma_small_mod((v * pow2(k)) as nat, m as nat);
    vstd::arithmetic::div_mod::lemma_div_multiples_vanish(v, pow2(k) as int);
    vstd::arithmetic::mul::lemma_mul_is_commutative(v, pow2(k) as int);
}

/// A smaller power of two has a smaller exponent.
proof fn lemma_pow2_converse(e1: nat, e2: nat)
    requires
        pow2(e1) < pow2(e2),
    ensures
        e1 < e2,
{
    if e2 <= e1 {
        if e2 < e1 {
            lemma_pow2_strictly_increases(e2, e1);
        }
    }
}

} // verus!
