//! The integer denoted by a little-endian sequence of digit values, and the
//! arithmetic lemmas the block algorithms rest on.

use vstd::prelude::*;
use vstd::arithmetic::power::pow;
use vstd::arithmetic::power::lemma_pow_adds;
use vstd::arithmetic::power::lemma_pow_positive;
use vstd::arithmetic::mul::lemma_mul_is_distributive_add;
use vstd::arithmetic::mul::lemma_mul_is_distributive_sub;
use vstd::arithmetic::mul::lemma_mul_is_associative;
use vstd::arithmetic::mul::lemma_mul_inequality;
use vstd::arithmetic::mul::lemma_mul_left_inequality;

verus! {

/// The integer encoded by `s` read as little-endian digits in `base`:
/// `s[0] + s[1]*base + s[2]*base^2 + ...`.
pub open spec fn le_value(s: Seq<int>, base: int) -> int
    decreases s.len(),
{
    if s.len() == 0 {
        0
    } else {
        s[0] + base * le_value(s.drop_first(), base)
    }
}

/// A sequence whose entries all lie in `[0, bound)`.
pub open spec fn digits_below(s: Seq<int>, bound: int) -> bool {
    forall|i: int| 0 <= i < s.len() ==> 0 <= #[trigger] s[i] < bound
}

/// Entries in `[0, bound)` encode a value in `[0, bound * base^(len-1) * ...)`;
/// stated in the form the algorithms need: nonnegative, and below
/// `pow(base, len)` whenever `bound <= base`.
pub proof fn lemma_le_value_nonneg(s: Seq<int>, base: int)
    requires
        base >= 1,
        forall|i: int| 0 <= i < s.len() ==> 0 <= #[trigger] s[i],
    ensures
        0 <= le_value(s, base),
    decreases s.len(),
{
    if s.len() > 0 {
        lemma_le_value_nonneg(s.drop_first(), base);
        lemma_mul_inequality(0, le_value(s.drop_first(), base), base);
    }
}

/// Canonical digits (all below the base) encode a value below `base^len`.
pub proof fn lemma_le_value_bound(s: Seq<int>, base: int)
    requires
        base >= 1,
        digits_below(s, base),
    ensures
        0 <= le_value(s, base) < pow(base, s.len()),
    decreases s.len(),
{
    if s.len() == 0 {
        assert(pow(base, 0) == 1) by {
            vstd::arithmetic::power::lemma_pow0(base);
        }
    } else {
        lemma_le_value_bound(s.drop_first(), base);
        lemma_le_value_nonneg(s.drop_first(), base);
        let rest = le_value(s.drop_first(), base);
        let p = pow(base, (s.len() - 1) as nat);
        // le_value(s) = s[0] + base * rest <= (base-1) + base*(p-1) < base*p
        lemma_mul_inequality(rest, p - 1, base);
        assert(base * rest <= base * (p - 1)) by {
            lemma_mul_left_inequality(base, rest, p - 1);
        }
        assert(base * (p - 1) == base * p - base) by {
            lemma_mul_is_distributive_sub(base, p, 1);
        }
        assert(pow(base, s.len()) == base * p) by {
            lemma_pow_adds(base, 1, (s.len() - 1) as nat);
            vstd::arithmetic::power::lemma_pow1(base);
        }
        lemma_mul_inequality(0, rest, base);
    }
}

/// Splitting a digit sequence at `k` splits its value:
/// `le_value(s) == le_value(s.take(k)) + base^k * le_value(s.skip(k))`.
pub proof fn lemma_le_value_split(s: Seq<int>, base: int, k: int)
    requires
        0 <= k <= s.len(),
    ensures
        le_value(s, base) == le_value(s.take(k), base) + pow(base, k as nat) * le_value(
            s.skip(k),
            base,
        ),
    decreases k,
{
    if k == 0 {
        assert(s.take(0) =~= Seq::<int>::empty());
        assert(s.skip(0) =~= s);
        assert(pow(base, 0) == 1) by {
            vstd::arithmetic::power::lemma_pow0(base);
        }
    } else {
        let d = s.drop_first();
        lemma_le_value_split(d, base, k - 1);
        assert(s.take(k).drop_first() =~= d.take(k - 1));
        assert(s.skip(k) =~= d.skip(k - 1));
        let pk1 = pow(base, (k - 1) as nat);
        let tail = le_value(d.skip(k - 1), base);
        // le_value(s) == s[0] + base * le_value(d)
        //             == s[0] + base * (le_value(d.take(k-1)) + pk1 * tail)
        assert(base * (le_value(d.take(k - 1), base) + pk1 * tail) == base * le_value(
            d.take(k - 1),
            base,
        ) + base * (pk1 * tail)) by {
            lemma_mul_is_distributive_add(base, le_value(d.take(k - 1), base), pk1 * tail);
        }
        assert(base * (pk1 * tail) == (base * pk1) * tail) by {
            lemma_mul_is_associative(base, pk1, tail);
        }
        assert(pow(base, k as nat) == base * pk1) by {
            lemma_pow_adds(base, 1, (k - 1) as nat);
            vstd::arithmetic::power::lemma_pow1(base);
        }
        assert(le_value(s.take(k), base) == s[0] + base * le_value(d.take(k - 1), base));
    }
}

/// Replacing the digit at `i` by `v` shifts the value by `(v - s[i]) * base^i`.
pub proof fn lemma_le_value_update(s: Seq<int>, base: int, i: int, v: int)
    requires
        0 <= i < s.len(),
    ensures
        le_value(s.update(i, v), base) == le_value(s, base) + (v - s[i]) * pow(base, i as nat),
    decreases i,
{
    let u = s.update(i, v);
    if i == 0 {
        assert(u.drop_first() =~= s.drop_first());
        assert(pow(base, 0) == 1) by {
            vstd::arithmetic::power::lemma_pow0(base);
        }
    } else {
        lemma_le_value_update(s.drop_first(), base, i - 1, v);
        assert(u.drop_first() =~= s.drop_first().update(i - 1, v));
        let delta = v - s[i];
        let pi1 = pow(base, (i - 1) as nat);
        assert(base * (le_value(s.drop_first(), base) + delta * pi1) == base * le_value(
            s.drop_first(),
            base,
        ) + base * (delta * pi1)) by {
            lemma_mul_is_distributive_add(base, le_value(s.drop_first(), base), delta * pi1);
        }
        assert(base * (delta * pi1) == delta * (base * pi1)) by {
            lemma_mul_is_associative(base, delta, pi1);
            lemma_mul_is_associative(delta, base, pi1);
            vstd::arithmetic::mul::lemma_mul_is_commutative(base, delta);
        }
        assert(pow(base, i as nat) == base * pi1) by {
            lemma_pow_adds(base, 1, (i - 1) as nat);
            vstd::arithmetic::power::lemma_pow1(base);
        }
    }
}

/// A pointwise sum of digit sequences encodes the sum of their values.
pub proof fn lemma_le_value_pointwise_add(t: Seq<int>, a: Seq<int>, b: Seq<int>, base: int)
    requires
        t.len() == a.len(),
        t.len() == b.len(),
        forall|i: int| 0 <= i < t.len() ==> #[trigger] t[i] == a[i] + b[i],
    ensures
        le_value(t, base) == le_value(a, base) + le_value(b, base),
    decreases t.len(),
{
    if t.len() > 0 {
        assert(t.drop_first().len() == a.drop_first().len());
        assert(forall|i: int|
            0 <= i < t.drop_first().len() ==> #[trigger] t.drop_first()[i] == a.drop_first()[i]
                + b.drop_first()[i]);
        lemma_le_value_pointwise_add(t.drop_first(), a.drop_first(), b.drop_first(), base);
        lemma_mul_is_distributive_add(
            base,
            le_value(a.drop_first(), base),
            le_value(b.drop_first(), base),
        );
    }
}

/// Scaling every digit by `c` scales the encoded value by `c`.
pub proof fn lemma_le_value_pointwise_scale(t: Seq<int>, a: Seq<int>, c: int, base: int)
    requires
        t.len() == a.len(),
        forall|i: int| 0 <= i < t.len() ==> #[trigger] t[i] == a[i] * c,
    ensures
        le_value(t, base) == c * le_value(a, base),
    decreases t.len(),
{
    if t.len() == 0 {
    } else {
        assert(forall|i: int|
            0 <= i < t.drop_first().len() ==> #[trigger] t.drop_first()[i] == a.drop_first()[i]
                * c);
        lemma_le_value_pointwise_scale(t.drop_first(), a.drop_first(), c, base);
        let rest = le_value(a.drop_first(), base);
        // t[0] + base * (c * rest) == c * (a[0] + base * rest)
        assert(base * (c * rest) == c * (base * rest)) by {
            lemma_mul_is_associative(base, c, rest);
            lemma_mul_is_associative(c, base, rest);
            vstd::arithmetic::mul::lemma_mul_is_commutative(base, c);
        }
        assert(c * (a[0] + base * rest) == c * a[0] + c * (base * rest)) by {
            lemma_mul_is_distributive_add(c, a[0], base * rest);
        }
        vstd::arithmetic::mul::lemma_mul_is_commutative(a[0], c);
    }
}

/// Appending a digit adds `d * base^len` to the encoded value.
pub proof fn lemma_le_value_push(s: Seq<int>, base: int, d: int)
    ensures
        le_value(s.push(d), base) == le_value(s, base) + pow(base, s.len()) * d,
    decreases s.len(),
{
    if s.len() == 0 {
        assert(s.push(d).len() == 1);
        assert(s.push(d)[0] == d);
        assert(s.push(d).drop_first() =~= Seq::<int>::empty());
        assert(pow(base, 0) == 1) by {
            vstd::arithmetic::power::lemma_pow0(base);
        }
        assert(base * le_value(Seq::<int>::empty(), base) == 0) by {
            vstd::arithmetic::mul::lemma_mul_by_zero_is_zero(base);
        }
    } else {
        assert(s.push(d)[0] == s[0]);
        assert(s.push(d).drop_first() =~= s.drop_first().push(d));
        lemma_le_value_push(s.drop_first(), base, d);
        let rest = le_value(s.drop_first(), base);
        let p = pow(base, (s.len() - 1) as nat);
        assert(base * (rest + p * d) == base * rest + base * (p * d)) by {
            lemma_mul_is_distributive_add(base, rest, p * d);
        }
        assert(base * (p * d) == (base * p) * d) by {
            lemma_mul_is_associative(base, p, d);
        }
        assert(pow(base, s.len()) == base * p) by {
            lemma_pow_adds(base, 1, (s.len() - 1) as nat);
            vstd::arithmetic::power::lemma_pow1(base);
        }
    }
}

/// The product of the entries of `s`.
pub open spec fn seq_product(s: Seq<int>) -> int
    decreases s.len(),
{
    if s.len() == 0 {
        1
    } else {
        s[0] * seq_product(s.drop_first())
    }
}

/// Appending an entry multiplies the product by it.
pub proof fn lemma_seq_product_push(s: Seq<int>, d: int)
    ensures
        seq_product(s.push(d)) == seq_product(s) * d,
    decreases s.len(),
{
    if s.len() == 0 {
        assert(s.push(d)[0] == d);
        assert(s.push(d).drop_first() =~= Seq::<int>::empty());
        assert(seq_product(s.push(d)) == d * seq_product(Seq::<int>::empty()));
        vstd::arithmetic::mul::lemma_mul_is_commutative(d, 1);
    } else {
        assert(s.push(d)[0] == s[0]);
        assert(s.push(d).drop_first() =~= s.drop_first().push(d));
        lemma_seq_product_push(s.drop_first(), d);
        lemma_mul_is_associative(s[0], seq_product(s.drop_first()), d);
    }
}

/// With every entry at least 1, the product is at least 1 and at least any
/// prefix product.
pub proof fn lemma_seq_product_bounds(s: Seq<int>, k: int)
    requires
        0 <= k <= s.len(),
        forall|i: int| 0 <= i < s.len() ==> 1 <= #[trigger] s[i],
    ensures
        1 <= seq_product(s),
        seq_product(s.take(k)) <= seq_product(s),
    decreases s.len(),
{
    if s.len() == 0 {
        assert(s.take(k) =~= s);
    } else {
        lemma_seq_product_bounds(s.drop_first(), 0);
        lemma_mul_inequality(1, s[0], seq_product(s.drop_first()));
        if k == 0 {
            assert(s.take(0) =~= Seq::<int>::empty());
            lemma_mul_left_inequality(s[0], 1, seq_product(s.drop_first()));
        } else {
            lemma_seq_product_bounds(s.drop_first(), k - 1);
            assert(s.take(k).drop_first() =~= s.drop_first().take(k - 1));
            assert(s.take(k)[0] == s[0]);
            lemma_mul_left_inequality(
                s[0],
                seq_product(s.drop_first().take(k - 1)),
                seq_product(s.drop_first()),
            );
        }
    }
}

/// A sequence of zero digits encodes zero.
pub proof fn lemma_le_value_all_zero(s: Seq<int>, base: int)
    requires
        forall|i: int| 0 <= i < s.len() ==> #[trigger] s[i] == 0,
    ensures
        le_value(s, base) == 0,
    decreases s.len(),
{
    if s.len() > 0 {
        lemma_le_value_all_zero(s.drop_first(), base);
        vstd::arithmetic::mul::lemma_mul_by_zero_is_zero(base);
    }
}

/// Computes `b^e`, mirroring the mathematical `pow`.
pub fn pow_u64(b: u64, e: usize) -> (r: u64)
    requires
        1 <= b,
        pow(b as int, e as nat) <= u64::MAX,
    ensures
        r == pow(b as int, e as nat),
{
    let mut r: u64 = 1;
    let mut i: usize = 0;
    proof {
        vstd::arithmetic::power::lemma_pow0(b as int);
    }
    while i < e
        invariant
            0 <= i <= e,
            1 <= b,
            r == pow(b as int, i as nat),
            pow(b as int, e as nat) <= u64::MAX,
        decreases e - i,
    {
        proof {
            lemma_pow_positive(b as int, (e - i - 1) as nat);
            lemma_pow_positive(b as int, (i + 1) as nat);
            lemma_pow_adds(b as int, (i + 1) as nat, (e - i - 1) as nat);
            // pow(b, e) == pow(b, i+1) * pow(b, e-i-1) and the second factor is >= 1,
            // so pow(b, i+1) == r * b stays within u64::MAX.
            lemma_mul_left_inequality(
                pow(b as int, (i + 1) as nat),
                1,
                pow(b as int, (e - i - 1) as nat),
            );
            lemma_pow_adds(b as int, i as nat, 1);
            vstd::arithmetic::power::lemma_pow1(b as int);
        }
        r = r * b;
        i = i + 1;
    }
    r
}

} // verus!
