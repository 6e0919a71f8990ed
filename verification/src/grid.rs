//! Search grid over decomposition bases and levels: a parameter is either
//! a single dimension or a base/level pair, and a pair is usable when the
//! product of base and level fits the mantissa budget.

use vstd::prelude::*;

verus! {

/// One grid dimension: either a standalone size or a decomposition
/// base/level pair.
#[derive(Debug, PartialEq, Eq, Structural)]
pub enum Parameter {
    Singleton(usize),
    BaseLevel { base: usize, level: usize },
}

impl Clone for Parameter {
    fn clone(&self) -> (r: Self)
        ensures
            r == *self,
    {
        match self {
            Parameter::Singleton(val) => Parameter::Singleton(*val),
            Parameter::BaseLevel { base, level } => Parameter::BaseLevel {
                base: *base,
                level: *level,
            },
        }
    }
}

impl Parameter {
    pub fn get_singleton(&self) -> (r: usize)
        requires
            self is Singleton,
        ensures
            *self == Parameter::Singleton(r),
    {
        match self {
            Parameter::Singleton(val) => *val,
            Parameter::BaseLevel { base: _, level: _ } => unreached(),
        }
    }

    pub fn get_level(&self) -> (r: usize)
        requires
            self is BaseLevel,
        ensures
            r == self->level,
    {
        match self {
            Parameter::Singleton(_) => unreached(),
            Parameter::BaseLevel { base: _, level } => *level,
        }
    }

    pub fn get_base(&self) -> (r: usize)
        requires
            self is BaseLevel,
        ensures
            r == self->base,
    {
        match self {
            Parameter::Singleton(_) => unreached(),
            Parameter::BaseLevel { base, level: _ } => *base,
        }
    }
}

/// The number of base/level pairs among the first `k` whose product fits
/// the 53-bit mantissa budget.
pub open spec fn count_usable_pairs(bases: Seq<usize>, levels: Seq<usize>, k: int) -> int
    decreases k,
{
    if k <= 0 {
        0
    } else {
        count_usable_pairs(bases, levels, k - 1) + if bases[k - 1] * levels[k - 1] <= 53 {
            1int
        } else {
            0int
        }
    }
}

/// Counts the base/level pairs whose product fits the mantissa budget.
pub fn compute_nb_of_b_l(bases: &[usize], levels: &[usize]) -> (r: usize)
    requires
        bases@.len() == levels@.len(),
    ensures
        r == count_usable_pairs(bases@, levels@, bases@.len() as int),
{
    let mut compt: usize = 0;
    let mut i: usize = 0;
    let len = bases.len();
    while i < len
        invariant
            0 <= i <= len,
            len == bases@.len(),
            len == levels@.len(),
            compt == count_usable_pairs(bases@, levels@, i as int),
            compt <= i,
        decreases len - i,
    {
        let b = bases[i];
        let l = levels[i];
        // a pair only counts when its product is small, so test without
        // overflowing: l == 0 counts always, else b <= 53 / l is necessary
        if l == 0 {
            proof {
                vstd::arithmetic::mul::lemma_mul_by_zero_is_zero(b as int);
            }
            compt = compt + 1;
        } else if b <= 53 / l {
            proof {
                lemma_product_fits(b as int, l as int);
            }
            compt = compt + 1;
        } else {
            proof {
                lemma_product_fits(b as int, l as int);
            }
        }
        i = i + 1;
    }
    compt
}

/// `b <= 53int / l` exactly when `b * l <= 53`, for positive `l`.
proof fn lemma_product_fits(b: int, l: int)
    requires
        0 <= b,
        1 <= l,
    ensures
        (b <= 53int / l) == (b * l <= 53int),
{
    vstd::arithmetic::div_mod::lemma_fundamental_div_mod(53int, l);
    vstd::arithmetic::div_mod::lemma_mod_division_less_than_divisor(53int, l);
    assert(l * (53int / l) == 53int - 53int % l);
    vstd::arithmetic::mul::lemma_mul_is_commutative(l, 53int / l);
    if b <= 53int / l {
        vstd::arithmetic::mul::lemma_mul_inequality(b, 53int / l, l);
        assert(b * l <= (53int / l) * l);
    } else {
        assert(53int / l + 1 <= b);
        vstd::arithmetic::mul::lemma_mul_inequality(53int / l + 1, b, l);
        assert((53int / l + 1) * l == (53int / l) * l + 1 * l) by {
            vstd::arithmetic::mul::lemma_mul_is_distributive_add_other_way(l, 53int / l, 1);
        }
        assert((53int / l + 1) * l <= b * l);
        assert(53int < (53int / l + 1) * l);
    }
}

} // verus!
