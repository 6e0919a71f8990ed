//! Block-decomposition multiplication: an integer times one encrypted
//! digit is computed as a low-digit product stream plus a high-digit
//! product stream shifted one block up; a full integer product accumulates
//! one such digit product per block of the right operand.

use vstd::prelude::*;
use vstd::arithmetic::power::pow;
use vstd::arithmetic::div_mod::lemma_fundamental_div_mod;
use vstd::arithmetic::div_mod::lemma_add_mod_noop;
use vstd::arithmetic::div_mod::lemma_mul_mod_noop_right;
use vstd::arithmetic::div_mod::lemma_mod_multiples_vanish;
use vstd::arithmetic::mul::lemma_mul_is_associative;
use vstd::arithmetic::mul::lemma_mul_is_commutative;
use vstd::arithmetic::mul::lemma_mul_is_distributive_add;
use vstd::arithmetic::mul::lemma_mul_is_distributive_sub;
use vstd::arithmetic::mul::lemma_mul_inequality;
use vstd::arithmetic::mul::lemma_mul_nonnegative;
use crate::arith;
use crate::arith::le_value;
use crate::ciphertext::Ciphertext;
use crate::shortint;
use crate::server_key::ServerKey;

verus! {

/// The low digits of a digit-by-digit product: `(x_j * y) % b`.
pub open spec fn lsb_digits(x: Seq<int>, y: int, b: int) -> Seq<int> {
    x.map(|j: int, d: int| (d * y) % b)
}

/// The high digits of a digit-by-digit product: `(x_j * y) / b % b`.
pub open spec fn msb_digits(x: Seq<int>, y: int, b: int) -> Seq<int> {
    x.map(|j: int, d: int| (d * y) / b % b)
}

/// The heart of block decomposition: for canonical digits, the low-digit
/// stream plus the high-digit stream shifted one position up encode the
/// whole product, short of the top position's high digit (which overflows
/// the representation).
#[verifier::rlimit(100)]
pub proof fn lemma_digit_product_value(x: Seq<int>, y: int, b: int)
    requires
        2 <= b,
        0 <= y < b,
        arith::digits_below(x, b),
        1 <= x.len(),
    ensures
        le_value(lsb_digits(x, y, b), b) + b * le_value(
            msb_digits(x, y, b).take(x.len() - 1),
            b,
        ) == y * le_value(x, b) - ((x[x.len() - 1] * y) / b) * pow(b, x.len()),
    decreases x.len(),
{
    let lsb = lsb_digits(x, y, b);
    let msb = msb_digits(x, y, b);
    let l = x.len() as int;
    // each high digit is already below b, so the inner `% b` vanishes
    assert forall|j: int| 0 <= j < l implies (#[trigger] (x[j] * y)) / b % b == (x[j] * y)
        / b by {
        lemma_high_digit_small(x[j], y, b);
    }
    if l == 1 {
        assert(msb.take(0) =~= Seq::<int>::empty());
        assert(lsb.drop_first() =~= Seq::<int>::empty());
        assert(x.drop_first() =~= Seq::<int>::empty());
        assert(lsb[0] == (x[0] * y) % b);
        lemma_fundamental_div_mod(x[0] * y, b);
        vstd::arithmetic::mul::lemma_mul_by_zero_is_zero(b);
        vstd::arithmetic::power::lemma_pow1(b);
        lemma_mul_is_commutative(x[0], y);
        lemma_mul_is_commutative(b, (x[0] * y) / b);
    } else {
        let xr = x.drop_first();
        lemma_digit_product_value(xr, y, b);
        assert(lsb.drop_first() =~= lsb_digits(xr, y, b));
        assert(msb.take(l - 1).drop_first() =~= msb_digits(xr, y, b).take(xr.len() - 1));
        assert(lsb[0] == (x[0] * y) % b);
        assert(msb.take(l - 1)[0] == (x[0] * y) / b % b);
        assert(xr[xr.len() - 1] == x[l - 1]);
        let a = le_value(lsb_digits(xr, y, b), b);
        let c = le_value(msb_digits(xr, y, b).take(xr.len() - 1), b);
        let xv = le_value(xr, b);
        let top = (x[l - 1] * y) / b;
        assert(le_value(lsb, b) == lsb[0] + b * a);
        assert(le_value(msb.take(l - 1), b) == (x[0] * y) / b + b * c);
        assert(b * ((x[0] * y) / b + b * c) == b * ((x[0] * y) / b) + b * (b * c)) by {
            lemma_mul_is_distributive_add(b, (x[0] * y) / b, b * c);
        }
        assert(lsb[0] + b * ((x[0] * y) / b) == x[0] * y) by {
            lemma_fundamental_div_mod(x[0] * y, b);
        }
        // induction hypothesis: a + b * c == y * xv - top * b^(l-1)
        assert(b * (a + b * c) == b * a + b * (b * c)) by {
            lemma_mul_is_distributive_add(b, a, b * c);
        }
        assert(b * (a + b * c) == b * (y * xv) - b * (top * pow(b, (l - 1) as nat))) by {
            lemma_mul_is_distributive_sub(b, y * xv, top * pow(b, (l - 1) as nat));
        }
        assert(b * (top * pow(b, (l - 1) as nat)) == top * pow(b, l as nat)) by {
            lemma_mul_is_associative(b, top, pow(b, (l - 1) as nat));
            lemma_mul_is_commutative(b, top);
            lemma_mul_is_associative(top, b, pow(b, (l - 1) as nat));
            crate::server_key::lemma_pow_step(b, (l - 1) as nat);
        }
        assert(x[0] * y + b * (y * xv) == y * le_value(x, b)) by {
            lemma_mul_is_associative(b, y, xv);
            lemma_mul_is_commutative(b, y);
            lemma_mul_is_associative(y, b, xv);
            lemma_mul_is_distributive_add(y, x[0], b * xv);
            lemma_mul_is_commutative(x[0], y);
        }
        assert(le_value(lsb, b) + b * le_value(msb.take(l - 1), b) == lsb[0] + b * a + (b * ((
        x[0] * y) / b) + b * (b * c)));
        assert(lsb[0] + b * a + (b * ((x[0] * y) / b) + b * (b * c)) == x[0] * y + (b * a + b
            * (b * c)));
        assert(x[0] * y + (b * a + b * (b * c)) == x[0] * y + b * (a + b * c));
        assert(x[0] * y + b * (a + b * c) == x[0] * y + b * (y * xv) - top * pow(b, l as nat));
    }
}

/// The high digit of a product of two digits below `b` is below `b`.
proof fn lemma_high_digit_small(d: int, y: int, b: int)
    requires
        2 <= b,
        0 <= d < b,
        0 <= y < b,
    ensures
        (d * y) / b % b == (d * y) / b,
        0 <= (d * y) / b < b,
        0 <= (d * y) % b < b,
{
    lemma_mul_nonnegative(d, y);
    lemma_mul_inequality(d, b - 1, y);
    lemma_mul_inequality(y, b - 1, b - 1);
    lemma_mul_is_commutative(d, y);
    lemma_mul_is_commutative(y, b - 1);
    assert((b - 1) * (b - 1) <= (b - 1) * b) by {
        vstd::arithmetic::mul::lemma_mul_left_inequality(b - 1, b - 1, b);
    }
    assert((b - 1) * b == b * (b - 1)) by {
        lemma_mul_is_commutative(b - 1, b);
    }
    vstd::arithmetic::div_mod::lemma_div_is_ordered(d * y, b * (b - 1), b);
    vstd::arithmetic::div_mod::lemma_div_multiples_vanish(b - 1, b);
    vstd::arithmetic::div_mod::lemma_div_pos_is_pos(d * y, b);
    vstd::arithmetic::div_mod::lemma_small_mod(((d * y) / b) as nat, b as nat);
    vstd::arithmetic::div_mod::lemma_mod_bound(d * y, b);
}

impl ServerKey {
    /// One encrypted digit, as block multiplication expects it: well-formed
    /// under this key's parameters and reduced to the digit range.
    pub open spec fn digit_ok(self, b: shortint::Ciphertext) -> bool {
        &&& b.wf()
        &&& b.message_modulus == self.base()
        &&& b.carry_modulus == self.carry_modulus()
        &&& b.reduced()
    }

    /// Computes homomorphically a multiplication between a ciphertext
    /// encrypting an integer value and another encrypting one digit, placed
    /// at digit position `index`; no capacity check.  The result decrypts
    /// to `value * digit * base^index` and every block's degree stays at or
    /// below `2 * (base - 1)`.
    pub fn unchecked_block_mul(
        &self,
        ct1: &Ciphertext,
        ct2: &shortint::Ciphertext,
        index: usize,
    ) -> (r: Ciphertext)
        requires
            self.radix_ok(*ct1),
            ct1.all_reduced(),
            self.digit_ok(*ct2),
            1 <= ct1.ct_vec@.len(),
            index < ct1.ct_vec@.len(),
        ensures
            self.radix_ok(r),
            r.ct_vec@.len() == ct1.ct_vec@.len(),
            r.message_modulus_vec@ == ct1.message_modulus_vec@,
            r.key_id_vec@ == ct1.key_id_vec@,
            r.bounded(2 * (self.base() - 1)),
            r.radix_value(self.base()) % self.modulus(*ct1) == (ct1.radix_value(self.base()) * (
            ct2.value as int) * pow(self.base(), index as nat)) % self.modulus(*ct1),
    {
        self.block_mul_products(ct1, ct2, index, false)
    }

    /// As [`Self::unchecked_block_mul`], computing each position's low and
    /// high product digits in a single multi-output bootstrap instead of
    /// two.
    pub fn unchecked_multivalue_block_mul(
        &self,
        ct1: &Ciphertext,
        ct2: &shortint::Ciphertext,
        index: usize,
    ) -> (r: Ciphertext)
        requires
            self.radix_ok(*ct1),
            ct1.all_reduced(),
            self.digit_ok(*ct2),
            1 <= ct1.ct_vec@.len(),
            index < ct1.ct_vec@.len(),
        ensures
            self.radix_ok(r),
            r.ct_vec@.len() == ct1.ct_vec@.len(),
            r.message_modulus_vec@ == ct1.message_modulus_vec@,
            r.key_id_vec@ == ct1.key_id_vec@,
            r.bounded(2 * (self.base() - 1)),
            r.radix_value(self.base()) % self.modulus(*ct1) == (ct1.radix_value(self.base()) * (
            ct2.value as int) * pow(self.base(), index as nat)) % self.modulus(*ct1),
    {
        self.block_mul_products(ct1, ct2, index, true)
    }

    /// The shared product pipeline: shift the operand up by `index`, turn
    /// each surviving position into its low product digit, each position
    /// short of the top into its high product digit, move the high stream
    /// one block up and add the two streams.
    #[verifier::rlimit(60)]
    fn block_mul_products(
        &self,
        ct1: &Ciphertext,
        ct2: &shortint::Ciphertext,
        index: usize,
        multivalue: bool,
    ) -> (r: Ciphertext)
        requires
            self.radix_ok(*ct1),
            ct1.all_reduced(),
            self.digit_ok(*ct2),
            1 <= ct1.ct_vec@.len(),
            index < ct1.ct_vec@.len(),
        ensures
            self.radix_ok(r),
            r.ct_vec@.len() == ct1.ct_vec@.len(),
            r.message_modulus_vec@ == ct1.message_modulus_vec@,
            r.key_id_vec@ == ct1.key_id_vec@,
            r.bounded(2 * (self.base() - 1)),
            r.radix_value(self.base()) % self.modulus(*ct1) == (ct1.radix_value(self.base()) * (
            ct2.value as int) * pow(self.base(), index as nat)) % self.modulus(*ct1),
    {
        let ghost b = self.base();
        let ghost n = ct1.ct_vec@.len() as int;
        let ghost y = ct2.value as int;
        let ghost m = self.modulus(*ct1);
        let ghost xs = ct1.values();
        let shifted_ct = self.blockshift(ct1, index);
        let mut result_lsb = shifted_ct.clone();
        let mut result_msb = shifted_ct;
        let len = result_msb.ct_vec.len() - 1;
        let full = result_lsb.ct_vec.len();
        let mut i: usize = index;
        while i < full
            invariant
                index <= i <= full,
                full == result_lsb.ct_vec@.len(),
                full == n,
                index < n,
                self.wf(),
                self.digit_ok(*ct2),
                b == self.base(),
                y == ct2.value,
                result_lsb.message_modulus_vec@ == ct1.message_modulus_vec@,
                result_lsb.key_id_vec@ == ct1.key_id_vec@,
                forall|j: int|
                    i <= j < full ==> #[trigger] result_lsb.ct_vec@[j] == shifted_ct.ct_vec@[j],
                forall|j: int|
                    0 <= j < index ==> #[trigger] result_lsb.ct_vec@[j] == shifted_ct.ct_vec@[j],
                forall|j: int| 0 <= j < full ==> (#[trigger] shifted_ct.ct_vec@[j]).wf(),
                forall|j: int| 0 <= j < full ==> (#[trigger] shifted_ct.ct_vec@[j]).reduced(),
                forall|j: int|
                    0 <= j < full ==> (#[trigger] shifted_ct.ct_vec@[j]).message_modulus == b
                        && shifted_ct.ct_vec@[j].carry_modulus == self.carry_modulus(),
                forall|j: int|
                    index <= j < i ==> (#[trigger] result_lsb.ct_vec@[j]).value == (
                    shifted_ct.ct_vec@[j].value * y) % b,
                forall|j: int|
                    index <= j < i ==> (#[trigger] result_lsb.ct_vec@[j]).degree == b - 1,
                forall|j: int|
                    index <= j < i ==> (#[trigger] result_lsb.ct_vec@[j]).wf()
                        && result_lsb.ct_vec@[j].message_modulus == b
                        && result_lsb.ct_vec@[j].carry_modulus == self.carry_modulus(),
            decreases full - i,
        {
            proof {
                vstd::arithmetic::mul::lemma_mul_left_inequality(b, 1, self.carry_modulus());
            }
            let mut block = result_lsb.ct_vec[i];
            self.key.unchecked_mul_lsb_assign(&mut block, ct2);
            result_lsb.ct_vec.set(i, block);
            i = i + 1;
        }
        let mut i: usize = index;
        while i < len
            invariant
                index <= i <= len,
                index < n,
                len == n - 1,
                n == result_msb.ct_vec@.len(),
                self.wf(),
                self.digit_ok(*ct2),
                b == self.base(),
                y == ct2.value,
                result_msb.message_modulus_vec@ == ct1.message_modulus_vec@,
                result_msb.key_id_vec@ == ct1.key_id_vec@,
                forall|j: int|
                    i <= j < n ==> #[trigger] result_msb.ct_vec@[j] == shifted_ct.ct_vec@[j],
                forall|j: int|
                    0 <= j < index ==> #[trigger] result_msb.ct_vec@[j] == shifted_ct.ct_vec@[j],
                forall|j: int| 0 <= j < n ==> (#[trigger] shifted_ct.ct_vec@[j]).wf(),
                forall|j: int| 0 <= j < n ==> (#[trigger] shifted_ct.ct_vec@[j]).reduced(),
                forall|j: int|
                    0 <= j < n ==> (#[trigger] shifted_ct.ct_vec@[j]).message_modulus == b
                        && shifted_ct.ct_vec@[j].carry_modulus == self.carry_modulus(),
                forall|j: int|
                    index <= j < i ==> (#[trigger] result_msb.ct_vec@[j]).value == (
                    shifted_ct.ct_vec@[j].value * y) / b % b,
                forall|j: int|
                    index <= j < i ==> (#[trigger] result_msb.ct_vec@[j]).degree == b - 1,
                forall|j: int|
                    index <= j < i ==> (#[trigger] result_msb.ct_vec@[j]).wf()
                        && result_msb.ct_vec@[j].message_modulus == b
                        && result_msb.ct_vec@[j].carry_modulus == self.carry_modulus(),
            decreases len - i,
        {
            proof {
                vstd::arithmetic::mul::lemma_mul_left_inequality(b, 1, self.carry_modulus());
            }
            let mut block = result_msb.ct_vec[i];
            if multivalue {
                // one bootstrap computing both digits of this position; the
                // low digit is computed identically in the other stream, so
                // only the high digit is kept here
                let (_, msb) = self.key.bivalue_mul_pbs(&block, ct2);
                block = msb;
            } else {
                self.key.unchecked_mul_msb_assign(&mut block, ct2);
            }
            result_msb.ct_vec.set(i, block);
            i = i + 1;
        }
        let ghost pre = result_msb;
        let result_msb = self.blockshift(&result_msb, 1);
        let ghost ll = n - index;
        let ghost xl = xs.take(ll);
        let ghost pi = pow(b, index as nat);
        let ghost pll = pow(b, ll as nat);
        proof {
            assert forall|j: int| 0 <= j < ll implies 0 <= #[trigger] xl[j] < b by {
                assert(ct1.ct_vec@[j].reduced());
            }
            assert(arith::digits_below(xl, b));
            // the low stream encodes base^index times the low product digits
            let lsbv = result_lsb.values();
            arith::lemma_le_value_split(lsbv, b, index as int);
            arith::lemma_le_value_all_zero(lsbv.take(index as int), b);
            assert(lsbv.skip(index as int) =~= lsb_digits(xl, y, b));
            let av = le_value(lsb_digits(xl, y, b), b);
            assert(result_lsb.radix_value(b) == pi * av);
            // the high stream, moved one block up, encodes base^(index+1)
            // times the high product digits short of the top position
            let mt = pre.values().take(n - 1);
            arith::lemma_le_value_split(mt, b, index as int);
            assert(mt.take(index as int) =~= pre.values().take(index as int));
            arith::lemma_le_value_all_zero(mt.take(index as int), b);
            assert(mt.skip(index as int) =~= msb_digits(xl, y, b).take(ll - 1));
            let cv = le_value(msb_digits(xl, y, b).take(ll - 1), b);
            assert(result_msb.radix_value(b) == pow(b, 1) * (pi * cv));
            vstd::arithmetic::power::lemma_pow1(b);
            // assemble: the two streams together encode
            // base^index * (y * value(xl)) - top * base^n
            let xv = le_value(xl, b);
            let top = (xl[ll - 1] * y) / b;
            lemma_digit_product_value(xl, y, b);
            assert(b * (pi * cv) == pi * (b * cv)) by {
                lemma_mul_is_associative(b, pi, cv);
                lemma_mul_is_commutative(b, pi);
                lemma_mul_is_associative(pi, b, cv);
            }
            assert(pi * av + pi * (b * cv) == pi * (av + b * cv)) by {
                lemma_mul_is_distributive_add(pi, av, b * cv);
            }
            assert(pi * (av + b * cv) == pi * (y * xv) - pi * (top * pll)) by {
                lemma_mul_is_distributive_sub(pi, y * xv, top * pll);
            }
            assert(pi * (top * pll) == top * (pi * pll)) by {
                lemma_mul_is_associative(pi, top, pll);
                lemma_mul_is_commutative(pi, top);
                lemma_mul_is_associative(top, pi, pll);
            }
            vstd::arithmetic::power::lemma_pow_adds(b, index as nat, ll as nat);
            assert(pi * pll == pow(b, n as nat));
            let streams = pi * (y * xv) - top * m;
            assert(result_lsb.radix_value(b) + result_msb.radix_value(b) == streams);
            // dropping the top multiple of the modulus
            vstd::arithmetic::power::lemma_pow_positive(b, n as nat);
            lemma_mod_multiples_vanish(-top, pi * (y * xv), m);
            vstd::arithmetic::mul::lemma_mul_unary_negation(top, m);
            lemma_mul_is_commutative(-top, m);
            assert(streams % m == (pi * (y * xv)) % m);
            // value(xl) is the operand's value modulo base^ll
            let x_full = ct1.radix_value(b);
            arith::lemma_le_value_split(xs, b, ll);
            arith::lemma_le_value_bound(xl, b);
            assert(forall|j: int|
                0 <= j < xs.skip(ll).len() ==> 0 <= #[trigger] xs.skip(ll)[j]);
            arith::lemma_le_value_nonneg(xs.skip(ll), b);
            lemma_mul_is_commutative(pll, le_value(xs.skip(ll), b));
            vstd::arithmetic::div_mod::lemma_fundamental_div_mod_converse_mod(
                x_full,
                pll,
                le_value(xs.skip(ll), b),
                xv,
            );
            // base^index * (value % base^ll) == (base^index * value) % modulus
            vstd::arithmetic::power::lemma_pow_positive(b, index as nat);
            vstd::arithmetic::div_mod::lemma_truncate_middle(x_full, pi, pll);
            assert(pi * xv == (pi * x_full) % m);
            assert(pi * (y * xv) == y * (pi * xv)) by {
                lemma_mul_is_associative(pi, y, xv);
                lemma_mul_is_commutative(pi, y);
                lemma_mul_is_associative(y, pi, xv);
            }
            lemma_mul_mod_noop_right(y, pi * x_full, m);
            assert((y * (pi * x_full)) % m == streams % m);
            assert(y * (pi * x_full) == x_full * y * pi) by {
                lemma_mul_is_commutative(pi, x_full);
                lemma_mul_is_associative(y, x_full, pi);
                lemma_mul_is_commutative(y, x_full);
                lemma_mul_is_associative(x_full, y, pi);
            }
            // the final addition stays within machine bounds: each stream's
            // degrees are 0 or base - 1, and the base fits the block capacity
            vstd::arithmetic::mul::lemma_mul_left_inequality(b, 1, self.carry_modulus());
            assert forall|j: int| 0 <= j < n implies (#[trigger] result_lsb.ct_vec@[j]).degree
                <= b - 1 && result_msb.ct_vec@[j].degree <= b - 1
                && result_lsb.ct_vec@[j].wf() && result_msb.ct_vec@[j].wf()
                && result_lsb.ct_vec@[j].message_modulus == b && result_msb.ct_vec@[
            j].message_modulus == b && result_lsb.ct_vec@[j].carry_modulus
                == self.carry_modulus() && result_msb.ct_vec@[j].carry_modulus
                == self.carry_modulus() by {
                if j < index {
                    assert(result_lsb.ct_vec@[j] == shifted_ct.ct_vec@[j]);
                    assert(shifted_ct.ct_vec@[j].degree == 0);
                }
                if j == 0 {
                    assert(result_msb.ct_vec@[j].degree == 0);
                } else {
                    assert(result_msb.ct_vec@[j] == pre.ct_vec@[j - 1]);
                    if j - 1 < index {
                        assert(pre.ct_vec@[j - 1] == shifted_ct.ct_vec@[j - 1]);
                        assert(shifted_ct.ct_vec@[j - 1].degree == 0);
                    }
                }
            }
        }
        let r = self.unchecked_add(&result_lsb, &result_msb);
        proof {
            crate::server_key::add::lemma_added_value(*self, result_lsb, result_msb, r, b);
            assert forall|j: int| 0 <= j < n implies (#[trigger] r.ct_vec@[j]).degree <= 2 * (b
                - 1) by {
                assert(r.ct_vec@[j].degree == result_lsb.ct_vec@[j].degree + result_msb.ct_vec@[
                    j].degree);
            }
        }
        r
    }
}

impl ServerKey {
    /// As [`Self::unchecked_block_mul`], assigning the product to
    /// `ct_left`.
    pub fn unchecked_block_mul_assign(
        &self,
        ct_left: &mut Ciphertext,
        ct_right: &shortint::Ciphertext,
        index: usize,
    )
        requires
            self.radix_ok(*old(ct_left)),
            old(ct_left).all_reduced(),
            self.digit_ok(*ct_right),
            1 <= old(ct_left).ct_vec@.len(),
            index < old(ct_left).ct_vec@.len(),
        ensures
            self.radix_ok(*final(ct_left)),
            final(ct_left).ct_vec@.len() == old(ct_left).ct_vec@.len(),
            final(ct_left).message_modulus_vec@ == old(ct_left).message_modulus_vec@,
            final(ct_left).key_id_vec@ == old(ct_left).key_id_vec@,
            final(ct_left).bounded(2 * (self.base() - 1)),
            final(ct_left).radix_value(self.base()) % self.modulus(*old(ct_left)) == (old(
                ct_left,
            ).radix_value(self.base()) * (ct_right.value as int) * pow(
                self.base(),
                index as nat,
            )) % self.modulus(*old(ct_left)),
    {
        *ct_left = self.unchecked_block_mul(ct_left, ct_right, index);
    }

    /// Computes homomorphically a multiplication between a ciphertext
    /// encrypting an integer value and one encrypted digit at position
    /// `index`, propagating the integer operand first so every partial
    /// product starts from canonical digits.
    pub fn smart_block_mul(
        &self,
        ct1: &mut Ciphertext,
        ct2: &shortint::Ciphertext,
        index: usize,
    ) -> (r: Ciphertext)
        requires
            self.radix_ok(*old(ct1)),
            old(ct1).bounded(self.max_degree()),
            self.digit_ok(*ct2),
            1 <= old(ct1).ct_vec@.len(),
            index < old(ct1).ct_vec@.len(),
        ensures
            self.radix_ok(r),
            r.ct_vec@.len() == old(ct1).ct_vec@.len(),
            r.message_modulus_vec@ == old(ct1).message_modulus_vec@,
            r.key_id_vec@ == old(ct1).key_id_vec@,
            r.bounded(2 * (self.base() - 1)),
            r.radix_value(self.base()) % self.modulus(*old(ct1)) == (old(ct1).radix_value(
                self.base(),
            ) * (ct2.value as int) * pow(self.base(), index as nat)) % self.modulus(*old(ct1)),
            self.radix_ok(*final(ct1)),
            final(ct1).ct_vec@.len() == old(ct1).ct_vec@.len(),
            final(ct1).bounded(self.max_degree()),
            final(ct1).radix_value(self.base()) % self.modulus(*old(ct1)) == old(
                ct1,
            ).radix_value(self.base()) % self.modulus(*old(ct1)),
    {
        let ghost m = self.modulus(*old(ct1));
        let ghost x = old(ct1).radix_value(self.base());
        let ghost y = ct2.value as int;
        self.full_propagate(ct1);
        let r = self.unchecked_block_mul(ct1, ct2, index);
        proof {
            lemma_bounded_below_max(*self, *ct1);
            vstd::arithmetic::power::lemma_pow_positive(
                self.base(),
                old(ct1).ct_vec@.len() as nat,
            );
            vstd::arithmetic::div_mod::lemma_mod_twice(x, m);
            // (x % m) * y * b^index and x * y * b^index agree modulo m
            let w = y * pow(self.base(), index as nat);
            lemma_mul_is_associative(x % m, y, pow(self.base(), index as nat));
            lemma_mul_is_associative(x, y, pow(self.base(), index as nat));
            vstd::arithmetic::div_mod::lemma_mul_mod_noop_left(x, w, m);
        }
        r
    }

    /// As [`Self::smart_block_mul`], assigning the product to `ct1`.
    pub fn smart_block_mul_assign(
        &self,
        ct1: &mut Ciphertext,
        ct2: &shortint::Ciphertext,
        index: usize,
    )
        requires
            self.radix_ok(*old(ct1)),
            old(ct1).bounded(self.max_degree()),
            self.digit_ok(*ct2),
            1 <= old(ct1).ct_vec@.len(),
            index < old(ct1).ct_vec@.len(),
        ensures
            self.radix_ok(*final(ct1)),
            final(ct1).ct_vec@.len() == old(ct1).ct_vec@.len(),
            final(ct1).message_modulus_vec@ == old(ct1).message_modulus_vec@,
            final(ct1).key_id_vec@ == old(ct1).key_id_vec@,
            final(ct1).bounded(2 * (self.base() - 1)),
            final(ct1).radix_value(self.base()) % self.modulus(*old(ct1)) == (old(
                ct1,
            ).radix_value(self.base()) * (ct2.value as int) * pow(self.base(), index as nat))
                % self.modulus(*old(ct1)),
    {
        *ct1 = self.smart_block_mul(ct1, ct2, index);
    }

    /// As [`Self::smart_block_mul`], with propagation and products run
    /// through the multi-output bootstrap primitive.
    pub fn smart_multivalue_block_mul(
        &self,
        ct1: &mut Ciphertext,
        ct2: &shortint::Ciphertext,
        index: usize,
    ) -> (r: Ciphertext)
        requires
            self.radix_ok(*old(ct1)),
            old(ct1).bounded(self.max_degree()),
            self.digit_ok(*ct2),
            1 <= old(ct1).ct_vec@.len(),
            index < old(ct1).ct_vec@.len(),
        ensures
            self.radix_ok(r),
            r.ct_vec@.len() == old(ct1).ct_vec@.len(),
            r.message_modulus_vec@ == old(ct1).message_modulus_vec@,
            r.key_id_vec@ == old(ct1).key_id_vec@,
            r.bounded(2 * (self.base() - 1)),
            r.radix_value(self.base()) % self.modulus(*old(ct1)) == (old(ct1).radix_value(
                self.base(),
            ) * (ct2.value as int) * pow(self.base(), index as nat)) % self.modulus(*old(ct1)),
            self.radix_ok(*final(ct1)),
            final(ct1).ct_vec@.len() == old(ct1).ct_vec@.len(),
            final(ct1).bounded(self.max_degree()),
            final(ct1).radix_value(self.base()) % self.modulus(*old(ct1)) == old(
                ct1,
            ).radix_value(self.base()) % self.modulus(*old(ct1)),
    {
        let ghost m = self.modulus(*old(ct1));
        let ghost x = old(ct1).radix_value(self.base());
        let ghost y = ct2.value as int;
        self.multivalue_full_propagate(ct1);
        let r = self.unchecked_multivalue_block_mul(ct1, ct2, index);
        proof {
            lemma_bounded_below_max(*self, *ct1);
            vstd::arithmetic::power::lemma_pow_positive(
                self.base(),
                old(ct1).ct_vec@.len() as nat,
            );
            vstd::arithmetic::div_mod::lemma_mod_twice(x, m);
            let w = y * pow(self.base(), index as nat);
            lemma_mul_is_associative(x % m, y, pow(self.base(), index as nat));
            lemma_mul_is_associative(x, y, pow(self.base(), index as nat));
            vstd::arithmetic::div_mod::lemma_mul_mod_noop_left(x, w, m);
        }
        r
    }

    /// As [`Self::smart_multivalue_block_mul`], assigning the product to
    /// `ct1`.
    pub fn smart_multivalue_block_mul_assign(
        &self,
        ct1: &mut Ciphertext,
        ct2: &shortint::Ciphertext,
        index: usize,
    )
        requires
            self.radix_ok(*old(ct1)),
            old(ct1).bounded(self.max_degree()),
            self.digit_ok(*ct2),
            1 <= old(ct1).ct_vec@.len(),
            index < old(ct1).ct_vec@.len(),
        ensures
            self.radix_ok(*final(ct1)),
            final(ct1).ct_vec@.len() == old(ct1).ct_vec@.len(),
            final(ct1).message_modulus_vec@ == old(ct1).message_modulus_vec@,
            final(ct1).key_id_vec@ == old(ct1).key_id_vec@,
            final(ct1).bounded(2 * (self.base() - 1)),
            final(ct1).radix_value(self.base()) % self.modulus(*old(ct1)) == (old(
                ct1,
            ).radix_value(self.base()) * (ct2.value as int) * pow(self.base(), index as nat))
                % self.modulus(*old(ct1)),
    {
        *ct1 = self.smart_multivalue_block_mul(ct1, ct2, index);
    }
}

/// A canonical ciphertext is bounded by the degree ceiling.
proof fn lemma_bounded_below_max(sks: ServerKey, ct: Ciphertext)
    requires
        sks.wf(),
        ct.bounded(sks.base() - 1),
    ensures
        ct.bounded(sks.max_degree()),
        sks.base() - 1 <= sks.max_degree(),
        2 * (sks.base() - 1) <= u64::MAX,
{
    vstd::arithmetic::mul::lemma_mul_left_inequality(sks.base() - 1, 2, sks.carry_modulus());
    vstd::arithmetic::mul::lemma_mul_left_inequality(sks.base(), 1, sks.carry_modulus());
    assert forall|i: int| 0 <= i < ct.ct_vec@.len() implies (#[trigger] ct.ct_vec@[i]).degree
        <= sks.max_degree() by {}
}

impl ServerKey {
    /// Accumulates, for each digit of the right operand, one digit product
    /// of the left operand into a fresh zero accumulator, with plain
    /// (unchecked) additions.  Shared by the unchecked full products.
    fn mul_accumulate_unchecked(
        &self,
        ct1: &Ciphertext,
        ct2: &Ciphertext,
        multivalue: bool,
    ) -> (r: Ciphertext)
        requires
            self.radix_ok(*ct1),
            self.radix_ok(*ct2),
            ct1.all_reduced(),
            ct2.all_reduced(),
            ct1.ct_vec@.len() == ct2.ct_vec@.len(),
            1 <= ct1.ct_vec@.len(),
            ct1.ct_vec@.len() * (2 * self.base()) <= u64::MAX,
        ensures
            self.radix_ok(r),
            r.ct_vec@.len() == ct1.ct_vec@.len(),
            r.message_modulus_vec@ == ct1.message_modulus_vec@,
            r.key_id_vec@ == ct1.key_id_vec@,
            r.bounded(ct1.ct_vec@.len() * (2 * (self.base() - 1))),
            r.radix_value(self.base()) % self.modulus(*ct1) == (ct1.radix_value(self.base())
                * ct2.radix_value(self.base())) % self.modulus(*ct1),
    {
        let ghost b = self.base();
        let ghost n = ct1.ct_vec@.len() as int;
        let ghost m = self.modulus(*ct1);
        let ghost x = ct1.radix_value(b);
        let ghost ys = ct2.values();
        let len = ct1.ct_vec.len();
        let mut result = self.create_trivial_zero(
            len,
            crate::ciphertext::clone_u64_vec(&ct1.message_modulus_vec),
            crate::ciphertext::clone_key_id_vec(&ct1.key_id_vec),
        );
        let mut i: usize = 0;
        proof {
            vstd::arithmetic::power::lemma_pow_positive(b, n as nat);
            assert(ys.take(0) =~= Seq::<int>::empty());
            vstd::arithmetic::mul::lemma_mul_by_zero_is_zero(x);
            vstd::arithmetic::div_mod::lemma_small_mod(0, m as nat);
            vstd::arithmetic::mul::lemma_mul_by_zero_is_zero(n);
        }
        while i < len
            invariant
                0 <= i <= len,
                len == n,
                n == ct1.ct_vec@.len(),
                self.radix_ok(*ct1),
                self.radix_ok(*ct2),
                ct1.all_reduced(),
                ct2.all_reduced(),
                ct1.ct_vec@.len() == ct2.ct_vec@.len(),
                1 <= n,
                n * (2 * b) <= u64::MAX,
                b == self.base(),
                m == self.modulus(*ct1),
                0 < m,
                x == ct1.radix_value(b),
                ys == ct2.values(),
                self.radix_ok(result),
                result.ct_vec@.len() == n,
                result.message_modulus_vec@ == ct1.message_modulus_vec@,
                result.key_id_vec@ == ct1.key_id_vec@,
                result.bounded(i * (2 * (b - 1))),
                result.radix_value(b) % m == (x * le_value(ys.take(i as int), b)) % m,
            decreases len - i,
        {
            let tmp = if multivalue {
                self.unchecked_multivalue_block_mul(ct1, &ct2.ct_vec[i], i)
            } else {
                self.unchecked_block_mul(ct1, &ct2.ct_vec[i], i)
            };
            let ghost acc0 = result;
            proof {
                lemma_accumulate_bounds(*self, result, tmp, i as int, n);
            }
            self.unchecked_add_assign(&mut result, &tmp);
            proof {
                crate::server_key::add::lemma_added_value(*self, acc0, tmp, result, b);
                lemma_accumulate_value(
                    *self,
                    x,
                    ys,
                    i as int,
                    acc0.radix_value(b),
                    tmp.radix_value(b),
                    b,
                    m,
                );
            }
            i = i + 1;
        }
        proof {
            assert(ys.take(n as int) =~= ys);
        }
        result
    }

    /// Computes homomorphically a multiplication between two ciphertexts
    /// encrypting integer values, with no capacity check: the schoolbook
    /// accumulation of one digit product per block of the right operand.
    /// The result decrypts to the product of the operands' values modulo
    /// the representation's modulus.
    pub fn unchecked_mul(&self, ct1: &mut Ciphertext, ct2: &Ciphertext) -> (r: Ciphertext)
        requires
            self.radix_ok(*old(ct1)),
            self.radix_ok(*ct2),
            old(ct1).all_reduced(),
            ct2.all_reduced(),
            old(ct1).ct_vec@.len() == ct2.ct_vec@.len(),
            1 <= old(ct1).ct_vec@.len(),
            old(ct1).ct_vec@.len() * (2 * self.base()) <= u64::MAX,
        ensures
            *final(ct1) == *old(ct1),
            self.radix_ok(r),
            r.ct_vec@.len() == old(ct1).ct_vec@.len(),
            r.message_modulus_vec@ == old(ct1).message_modulus_vec@,
            r.key_id_vec@ == old(ct1).key_id_vec@,
            r.bounded(old(ct1).ct_vec@.len() * (2 * (self.base() - 1))),
            r.radix_value(self.base()) % self.modulus(*old(ct1)) == (old(ct1).radix_value(
                self.base(),
            ) * ct2.radix_value(self.base())) % self.modulus(*old(ct1)),
    {
        let copy = ct1.clone();
        self.mul_accumulate_unchecked(&copy, ct2, false)
    }

    /// As [`Self::unchecked_mul`], assigning the product to `ct1`.
    pub fn unchecked_mul_assign(&self, ct1: &mut Ciphertext, ct2: &Ciphertext)
        requires
            self.radix_ok(*old(ct1)),
            self.radix_ok(*ct2),
            old(ct1).all_reduced(),
            ct2.all_reduced(),
            old(ct1).ct_vec@.len() == ct2.ct_vec@.len(),
            1 <= old(ct1).ct_vec@.len(),
            old(ct1).ct_vec@.len() * (2 * self.base()) <= u64::MAX,
        ensures
            self.radix_ok(*final(ct1)),
            final(ct1).ct_vec@.len() == old(ct1).ct_vec@.len(),
            final(ct1).message_modulus_vec@ == old(ct1).message_modulus_vec@,
            final(ct1).key_id_vec@ == old(ct1).key_id_vec@,
            final(ct1).bounded(old(ct1).ct_vec@.len() * (2 * (self.base() - 1))),
            final(ct1).radix_value(self.base()) % self.modulus(*old(ct1)) == (old(
                ct1,
            ).radix_value(self.base()) * ct2.radix_value(self.base())) % self.modulus(
                *old(ct1),
            ),
    {
        *ct1 = self.unchecked_mul(ct1, ct2);
    }

    /// As [`Self::unchecked_mul`], computing each partial product's digit
    /// pairs by multi-output bootstraps.
    pub fn unchecked_multivalue_mul(&self, ct1: &mut Ciphertext, ct2: &Ciphertext) -> (r:
        Ciphertext)
        requires
            self.radix_ok(*old(ct1)),
            self.radix_ok(*ct2),
            old(ct1).all_reduced(),
            ct2.all_reduced(),
            old(ct1).ct_vec@.len() == ct2.ct_vec@.len(),
            1 <= old(ct1).ct_vec@.len(),
            old(ct1).ct_vec@.len() * (2 * self.base()) <= u64::MAX,
        ensures
            *final(ct1) == *old(ct1),
            self.radix_ok(r),
            r.ct_vec@.len() == old(ct1).ct_vec@.len(),
            r.message_modulus_vec@ == old(ct1).message_modulus_vec@,
            r.key_id_vec@ == old(ct1).key_id_vec@,
            r.bounded(old(ct1).ct_vec@.len() * (2 * (self.base() - 1))),
            r.radix_value(self.base()) % self.modulus(*old(ct1)) == (old(ct1).radix_value(
                self.base(),
            ) * ct2.radix_value(self.base())) % self.modulus(*old(ct1)),
    {
        let copy = ct1.clone();
        self.mul_accumulate_unchecked(&copy, ct2, true)
    }

    /// As [`Self::unchecked_multivalue_mul`], assigning the product to
    /// `ct1`.
    pub fn unchecked_mutlivalue_mul_assign(&self, ct1: &mut Ciphertext, ct2: &Ciphertext)
        requires
            self.radix_ok(*old(ct1)),
            self.radix_ok(*ct2),
            old(ct1).all_reduced(),
            ct2.all_reduced(),
            old(ct1).ct_vec@.len() == ct2.ct_vec@.len(),
            1 <= old(ct1).ct_vec@.len(),
            old(ct1).ct_vec@.len() * (2 * self.base()) <= u64::MAX,
        ensures
            self.radix_ok(*final(ct1)),
            final(ct1).ct_vec@.len() == old(ct1).ct_vec@.len(),
            final(ct1).message_modulus_vec@ == old(ct1).message_modulus_vec@,
            final(ct1).key_id_vec@ == old(ct1).key_id_vec@,
            final(ct1).bounded(old(ct1).ct_vec@.len() * (2 * (self.base() - 1))),
            final(ct1).radix_value(self.base()) % self.modulus(*old(ct1)) == (old(
                ct1,
            ).radix_value(self.base()) * ct2.radix_value(self.base())) % self.modulus(
                *old(ct1),
            ),
    {
        *ct1 = self.unchecked_multivalue_mul(ct1, ct2);
    }
}

/// The accumulator and the next partial product add within machine bounds
/// and stay below the linear degree budget.
proof fn lemma_accumulate_bounds(
    sks: ServerKey,
    acc: Ciphertext,
    tmp: Ciphertext,
    i: int,
    n: int,
)
    requires
        sks.wf(),
        0 <= i < n,
        n * (2 * sks.base()) <= u64::MAX,
        acc.ct_vec@.len() == n,
        tmp.ct_vec@.len() == n,
        acc.bounded(i * (2 * (sks.base() - 1))),
        tmp.bounded(2 * (sks.base() - 1)),
        acc.radix_with(sks.base(), sks.carry_modulus()),
        tmp.radix_with(sks.base(), sks.carry_modulus()),
    ensures
        sks.compatible(acc, tmp),
        forall|j: int|
            0 <= j < n ==> (#[trigger] acc.ct_vec@[j]).degree + tmp.ct_vec@[j].degree
                <= u64::MAX,
        forall|j: int|
            0 <= j < n ==> (#[trigger] acc.ct_vec@[j]).degree + tmp.ct_vec@[j].degree <= (i
                + 1) * (2 * (sks.base() - 1)),
{
    let d = 2 * (sks.base() - 1);
    assert((i + 1) * d == i * d + d) by {
        vstd::arithmetic::mul::lemma_mul_is_distributive_add_other_way(d, i, 1);
    }
    assert((i + 1) * d <= n * d) by {
        vstd::arithmetic::mul::lemma_mul_inequality(i + 1, n, d);
    }
    assert(n * d <= n * (2 * sks.base())) by {
        vstd::arithmetic::mul::lemma_mul_left_inequality(n, d, 2 * sks.base());
    }
}

/// One accumulation step: adding the digit product for position `i` moves
/// the accumulated value from `x * value(y.take(i))` to
/// `x * value(y.take(i + 1))`, modulo the modulus.
proof fn lemma_accumulate_value(
    sks: ServerKey,
    x: int,
    ys: Seq<int>,
    i: int,
    acc: int,
    tmp: int,
    b: int,
    m: int,
)
    requires
        0 < m,
        0 <= i < ys.len(),
        acc % m == (x * le_value(ys.take(i), b)) % m,
        tmp % m == (x * ys[i] * pow(b, i as nat)) % m,
    ensures
        (acc + tmp) % m == (x * le_value(ys.take(i + 1), b)) % m,
{
    assert(ys.take(i + 1) =~= ys.take(i).push(ys[i]));
    arith::lemma_le_value_push(ys.take(i), b, ys[i]);
    // x * (take + b^i * y_i) == x * take + x * y_i * b^i
    let t = le_value(ys.take(i), b);
    let p = pow(b, i as nat);
    assert(x * (t + p * ys[i]) == x * t + x * (p * ys[i])) by {
        lemma_mul_is_distributive_add(x, t, p * ys[i]);
    }
    assert(x * (p * ys[i]) == x * ys[i] * p) by {
        lemma_mul_is_associative(x, p, ys[i]);
        lemma_mul_is_commutative(p, ys[i]);
        lemma_mul_is_associative(x, ys[i], p);
    }
    lemma_add_mod_noop(acc, tmp, m);
    lemma_add_mod_noop(x * t, x * ys[i] * p, m);
}

impl ServerKey {
    /// Accumulates the digit products with smart additions, so the
    /// accumulator's headroom is restored by propagation whenever needed.
    fn mul_accumulate_smart(
        &self,
        ct1: &Ciphertext,
        ct2: &Ciphertext,
        multivalue: bool,
    ) -> (r: Ciphertext)
        requires
            self.radix_ok(*ct1),
            self.radix_ok(*ct2),
            ct1.all_reduced(),
            ct2.all_reduced(),
            ct1.bounded(self.base() - 1),
            ct2.bounded(self.base() - 1),
            ct1.ct_vec@.len() == ct2.ct_vec@.len(),
            1 <= ct1.ct_vec@.len(),
            2 * (self.base() - 1) <= self.max_degree(),
        ensures
            self.radix_ok(r),
            r.ct_vec@.len() == ct1.ct_vec@.len(),
            r.message_modulus_vec@ == ct1.message_modulus_vec@,
            r.key_id_vec@ == ct1.key_id_vec@,
            r.bounded(self.max_degree()),
            r.radix_value(self.base()) % self.modulus(*ct1) == (ct1.radix_value(self.base())
                * ct2.radix_value(self.base())) % self.modulus(*ct1),
    {
        let ghost b = self.base();
        let ghost n = ct1.ct_vec@.len() as int;
        let ghost m = self.modulus(*ct1);
        let ghost x = ct1.radix_value(b);
        let ghost ys = ct2.values();
        let len = ct1.ct_vec.len();
        let mut result = self.create_trivial_zero(
            len,
            crate::ciphertext::clone_u64_vec(&ct1.message_modulus_vec),
            crate::ciphertext::clone_key_id_vec(&ct1.key_id_vec),
        );
        let mut i: usize = 0;
        proof {
            vstd::arithmetic::power::lemma_pow_positive(b, n as nat);
            assert(ys.take(0) =~= Seq::<int>::empty());
            vstd::arithmetic::mul::lemma_mul_by_zero_is_zero(x);
            vstd::arithmetic::div_mod::lemma_small_mod(0, m as nat);
            lemma_bounded_below_max(*self, result);
        }
        while i < len
            invariant
                0 <= i <= len,
                len == n,
                n == ct1.ct_vec@.len(),
                self.radix_ok(*ct1),
                self.radix_ok(*ct2),
                ct1.all_reduced(),
                ct2.all_reduced(),
                ct1.bounded(self.base() - 1),
                ct1.ct_vec@.len() == ct2.ct_vec@.len(),
                1 <= n,
                2 * (self.base() - 1) <= self.max_degree(),
                b == self.base(),
                m == self.modulus(*ct1),
                0 < m,
                x == ct1.radix_value(b),
                ys == ct2.values(),
                self.radix_ok(result),
                result.ct_vec@.len() == n,
                result.message_modulus_vec@ == ct1.message_modulus_vec@,
                result.key_id_vec@ == ct1.key_id_vec@,
                result.bounded(self.max_degree()),
                result.radix_value(b) % m == (x * le_value(ys.take(i as int), b)) % m,
            decreases len - i,
        {
            let mut tmp = if multivalue {
                self.unchecked_multivalue_block_mul(ct1, &ct2.ct_vec[i], i)
            } else {
                self.unchecked_block_mul(ct1, &ct2.ct_vec[i], i)
            };
            let ghost acc0 = result;
            let ghost tmp0 = tmp;
            proof {
                lemma_bounded_below_max(*self, *ct1);
                assert forall|j: int| 0 <= j < n implies (#[trigger] tmp.ct_vec@[j]).degree
                    <= self.max_degree() by {}
            }
            if multivalue {
                self.smart_multivalue_add_assign(&mut result, &mut tmp);
            } else {
                self.smart_add_assign(&mut result, &mut tmp);
            }
            proof {
                lemma_accumulate_value(
                    *self,
                    x,
                    ys,
                    i as int,
                    acc0.radix_value(b),
                    tmp0.radix_value(b),
                    b,
                    m,
                );
            }
            i = i + 1;
        }
        proof {
            assert(ys.take(n as int) =~= ys);
        }
        result
    }

    /// Computes homomorphically a multiplication between two ciphertexts
    /// encrypting integer values, propagating both operands first so every
    /// partial product starts from canonical digits; the result is
    /// returned as a new ciphertext with full headroom discipline.
    pub fn smart_mul(&self, ct1: &mut Ciphertext, ct2: &mut Ciphertext) -> (r: Ciphertext)
        requires
            self.radix_ok(*old(ct1)),
            self.radix_ok(*old(ct2)),
            old(ct1).bounded(self.max_degree()),
            old(ct2).bounded(self.max_degree()),
            old(ct1).ct_vec@.len() == old(ct2).ct_vec@.len(),
            1 <= old(ct1).ct_vec@.len(),
            2 * (self.base() - 1) <= self.max_degree(),
        ensures
            self.radix_ok(r),
            r.ct_vec@.len() == old(ct1).ct_vec@.len(),
            r.message_modulus_vec@ == old(ct1).message_modulus_vec@,
            r.key_id_vec@ == old(ct1).key_id_vec@,
            r.bounded(self.max_degree()),
            r.radix_value(self.base()) % self.modulus(*old(ct1)) == (old(ct1).radix_value(
                self.base(),
            ) * old(ct2).radix_value(self.base())) % self.modulus(*old(ct1)),
            self.radix_ok(*final(ct1)),
            final(ct1).ct_vec@.len() == old(ct1).ct_vec@.len(),
            final(ct1).bounded(self.max_degree()),
            final(ct1).radix_value(self.base()) % self.modulus(*old(ct1)) == old(
                ct1,
            ).radix_value(self.base()) % self.modulus(*old(ct1)),
            self.radix_ok(*final(ct2)),
            final(ct2).ct_vec@.len() == old(ct2).ct_vec@.len(),
            final(ct2).bounded(self.max_degree()),
            final(ct2).radix_value(self.base()) % self.modulus(*old(ct2)) == old(
                ct2,
            ).radix_value(self.base()) % self.modulus(*old(ct2)),
    {
        let ghost m = self.modulus(*old(ct1));
        let ghost x = old(ct1).radix_value(self.base());
        let ghost y = old(ct2).radix_value(self.base());
        self.full_propagate(ct1);
        self.full_propagate(ct2);
        proof {
            lemma_bounded_below_max(*self, *ct1);
            lemma_bounded_below_max(*self, *ct2);
            vstd::arithmetic::power::lemma_pow_positive(
                self.base(),
                old(ct1).ct_vec@.len() as nat,
            );
            vstd::arithmetic::div_mod::lemma_mod_twice(x, m);
            vstd::arithmetic::div_mod::lemma_mod_twice(y, m);
        }
        let copy = ct1.clone();
        let r = self.mul_accumulate_smart(&copy, ct2, false);
        proof {
            vstd::arithmetic::div_mod::lemma_mul_mod_noop(x, y, m);
            vstd::arithmetic::div_mod::lemma_mul_mod_noop(x % m, y % m, m);
        }
        r
    }

    /// As [`Self::smart_mul`], assigning the product to `ct1`.
    pub fn smart_mul_assign(&self, ct1: &mut Ciphertext, ct2: &mut Ciphertext)
        requires
            self.radix_ok(*old(ct1)),
            self.radix_ok(*old(ct2)),
            old(ct1).bounded(self.max_degree()),
            old(ct2).bounded(self.max_degree()),
            old(ct1).ct_vec@.len() == old(ct2).ct_vec@.len(),
            1 <= old(ct1).ct_vec@.len(),
            2 * (self.base() - 1) <= self.max_degree(),
        ensures
            self.radix_ok(*final(ct1)),
            final(ct1).ct_vec@.len() == old(ct1).ct_vec@.len(),
            final(ct1).message_modulus_vec@ == old(ct1).message_modulus_vec@,
            final(ct1).key_id_vec@ == old(ct1).key_id_vec@,
            final(ct1).bounded(self.max_degree()),
            final(ct1).radix_value(self.base()) % self.modulus(*old(ct1)) == (old(
                ct1,
            ).radix_value(self.base()) * old(ct2).radix_value(self.base())) % self.modulus(
                *old(ct1),
            ),
            self.radix_ok(*final(ct2)),
            final(ct2).ct_vec@.len() == old(ct2).ct_vec@.len(),
            final(ct2).bounded(self.max_degree()),
            final(ct2).radix_value(self.base()) % self.modulus(*old(ct2)) == old(
                ct2,
            ).radix_value(self.base()) % self.modulus(*old(ct2)),
    {
        *ct1 = self.smart_mul(ct1, ct2);
    }

    /// As [`Self::smart_mul`], run through the multi-output bootstrap
    /// primitive end to end.
    pub fn smart_multivalue_mul(&self, ct1: &mut Ciphertext, ct2: &mut Ciphertext) -> (r:
        Ciphertext)
        requires
            self.radix_ok(*old(ct1)),
            self.radix_ok(*old(ct2)),
            old(ct1).bounded(self.max_degree()),
            old(ct2).bounded(self.max_degree()),
            old(ct1).ct_vec@.len() == old(ct2).ct_vec@.len(),
            1 <= old(ct1).ct_vec@.len(),
            2 * (self.base() - 1) <= self.max_degree(),
        ensures
            self.radix_ok(r),
            r.ct_vec@.len() == old(ct1).ct_vec@.len(),
            r.message_modulus_vec@ == old(ct1).message_modulus_vec@,
            r.key_id_vec@ == old(ct1).key_id_vec@,
            r.bounded(self.max_degree()),
            r.radix_value(self.base()) % self.modulus(*old(ct1)) == (old(ct1).radix_value(
                self.base(),
            ) * old(ct2).radix_value(self.base())) % self.modulus(*old(ct1)),
            self.radix_ok(*final(ct1)),
            final(ct1).ct_vec@.len() == old(ct1).ct_vec@.len(),
            final(ct1).bounded(self.max_degree()),
            self.radix_ok(*final(ct2)),
            final(ct2).ct_vec@.len() == old(ct2).ct_vec@.len(),
            final(ct2).bounded(self.max_degree()),
    {
        let ghost m = self.modulus(*old(ct1));
        let ghost x = old(ct1).radix_value(self.base());
        let ghost y = old(ct2).radix_value(self.base());
        self.multivalue_full_propagate(ct1);
        self.multivalue_full_propagate(ct2);
        proof {
            lemma_bounded_below_max(*self, *ct1);
            lemma_bounded_below_max(*self, *ct2);
            vstd::arithmetic::power::lemma_pow_positive(
                self.base(),
                old(ct1).ct_vec@.len() as nat,
            );
            vstd::arithmetic::div_mod::lemma_mod_twice(x, m);
            vstd::arithmetic::div_mod::lemma_mod_twice(y, m);
        }
        let copy = ct1.clone();
        let r = self.mul_accumulate_smart(&copy, ct2, true);
        proof {
            vstd::arithmetic::div_mod::lemma_mul_mod_noop(x, y, m);
            vstd::arithmetic::div_mod::lemma_mul_mod_noop(x % m, y % m, m);
        }
        r
    }

    /// As [`Self::smart_multivalue_mul`], assigning the product to `ct1`.
    pub fn smart_multivalue_mul_assign(&self, ct1: &mut Ciphertext, ct2: &mut Ciphertext)
        requires
            self.radix_ok(*old(ct1)),
            self.radix_ok(*old(ct2)),
            old(ct1).bounded(self.max_degree()),
            old(ct2).bounded(self.max_degree()),
            old(ct1).ct_vec@.len() == old(ct2).ct_vec@.len(),
            1 <= old(ct1).ct_vec@.len(),
            2 * (self.base() - 1) <= self.max_degree(),
        ensures
            self.radix_ok(*final(ct1)),
            final(ct1).ct_vec@.len() == old(ct1).ct_vec@.len(),
            final(ct1).message_modulus_vec@ == old(ct1).message_modulus_vec@,
            final(ct1).key_id_vec@ == old(ct1).key_id_vec@,
            final(ct1).bounded(self.max_degree()),
            final(ct1).radix_value(self.base()) % self.modulus(*old(ct1)) == (old(
                ct1,
            ).radix_value(self.base()) * old(ct2).radix_value(self.base())) % self.modulus(
                *old(ct1),
            ),
            self.radix_ok(*final(ct2)),
            final(ct2).ct_vec@.len() == old(ct2).ct_vec@.len(),
            final(ct2).bounded(self.max_degree()),
    {
        *ct1 = self.smart_multivalue_mul(ct1, ct2);
    }
}

} // verus!
