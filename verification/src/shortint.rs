//! The single-block layer: one encrypted digit with its degree bookkeeping.
//!
//! A block carries a payload (modeled here by the exact integer it holds), a
//! `message_modulus` (the canonical digit range), a `carry_modulus` (the
//! headroom factor above that range), and a `degree`: a cleartext upper bound
//! on the payload.  The payload space of a block is
//! `message_modulus * carry_modulus`; a block whose payload reaches that
//! capacity is unreadable, so every operation that inspects a payload
//! (extraction, lookup-table evaluation) requires it to be below capacity.
//! Degree arithmetic is purely conservative: it may exceed capacity even
//! while the payload stays small, and no operation here inspects a payload to
//! tighten it.

use vstd::prelude::*;
use vstd::arithmetic::div_mod::lemma_fundamental_div_mod;
use vstd::arithmetic::div_mod::lemma_mod_division_less_than_divisor;
use vstd::arithmetic::div_mod::lemma_div_is_ordered;

verus! {

/// The cleartext parameters of one block.
#[derive(Clone, Copy, Debug, PartialEq, Eq, Structural)]
pub struct Parameters {
    pub message_modulus: u64,
    pub carry_modulus: u64,
}

impl Parameters {
    /// Both moduli leave room to work in (a digit range and at least one
    /// carry of headroom), and the block's payload space fits comfortably in
    /// machine words.
    pub open spec fn wf(self) -> bool {
        &&& 2 <= self.message_modulus
        &&& 2 <= self.carry_modulus
        &&& self.message_modulus * self.carry_modulus <= 0x1_0000_0000
    }
}

/// The largest degree the server lets an operation target.
#[derive(Clone, Copy, Debug, PartialEq, Eq, Structural)]
pub struct MaxDegree(pub u64);

/// Error returned when the carry buffer is full.
#[derive(Clone, Copy, Debug, PartialEq, Eq, Structural)]
pub enum CheckError {
    CarryFull,
}

/// One encrypted digit.  `value` models the payload exactly; `degree` is the
/// cleartext upper bound the server tracks for it.
#[derive(Clone, Copy, Debug, PartialEq, Eq, Structural)]
pub struct Ciphertext {
    pub value: u64,
    pub degree: u64,
    pub message_modulus: u64,
    pub carry_modulus: u64,
}

impl Ciphertext {
    /// The block's full payload space.
    pub open spec fn capacity(self) -> int {
        self.message_modulus * self.carry_modulus
    }

    /// The largest degree operations may leave on this block: one incoming
    /// carry must always still fit below capacity.
    pub open spec fn max_degree(self) -> int {
        (self.message_modulus - 1) * self.carry_modulus - 1
    }

    /// Sound bookkeeping: the payload never exceeds the tracked degree.
    pub open spec fn wf(self) -> bool {
        &&& 2 <= self.message_modulus
        &&& 2 <= self.carry_modulus
        &&& self.capacity() <= 0x1_0000_0000
        &&& self.value <= self.degree
    }

    /// The payload is within the payload space, so extraction and
    /// lookup-table evaluation read it exactly.
    pub open spec fn readable(self) -> bool {
        self.value < self.capacity()
    }

    /// The payload is reduced to the block's own canonical digit range.
    pub open spec fn reduced(self) -> bool {
        self.value < self.message_modulus
    }

    /// Reduced, with the degree back at the canonical maximum or below.
    pub open spec fn canonical(self) -> bool {
        self.reduced() && self.degree < self.message_modulus
    }

    /// Both blocks live in the same parameter set.
    pub open spec fn same_parameters(self, other: Ciphertext) -> bool {
        self.message_modulus == other.message_modulus && self.carry_modulus
            == other.carry_modulus
    }
}

/// The smallest multiple of `m` at or above `degree`: the zero point a
/// homomorphic negation subtracts from, so that the result stays nonnegative
/// while remaining the additive inverse modulo `m`.
pub open spec fn neg_zero_point(degree: int, m: int) -> int {
    ((degree + m - 1) / m) * m
}

/// The zero point is a multiple of `m` in `[degree, degree + m)`.
pub proof fn lemma_neg_zero_point_bounds(degree: int, m: int)
    requires
        0 <= degree,
        2 <= m,
    ensures
        degree <= neg_zero_point(degree, m) < degree + m,
        neg_zero_point(degree, m) % m == 0,
{
    let x = degree + m - 1;
    lemma_fundamental_div_mod(x, m);
    lemma_mod_division_less_than_divisor(x, m);
    vstd::arithmetic::div_mod::lemma_mod_multiples_basic(x / m, m);
    vstd::arithmetic::mul::lemma_mul_is_commutative(m, x / m);
}

/// The low digit of a blockwise product: `(x * y) % m`.
pub open spec fn mul_lsb_value(x: int, y: int, m: int) -> int {
    (x * y) % m
}

/// The high digit of a blockwise product: `(x * y) / m % m`.
pub open spec fn mul_msb_value(x: int, y: int, m: int) -> int {
    (x * y) / m % m
}

/// The server-side key for one block: in this model, the cleartext
/// parameters the operations dispatch on.
#[derive(Clone, Copy, Debug, PartialEq, Eq, Structural)]
pub struct ServerKey {
    pub message_modulus: u64,
    pub carry_modulus: u64,
    pub max_degree: MaxDegree,
}

/// The client-side key for one block: in this model, the parameters used to
/// encode and read digits.
#[derive(Clone, Copy, Debug, PartialEq, Eq, Structural)]
pub struct ClientKey {
    pub parameters: Parameters,
}

impl ServerKey {
    /// Parameters are workable and the degree ceiling leaves room for one
    /// incoming carry below capacity.
    pub open spec fn wf(self) -> bool {
        &&& 2 <= self.message_modulus
        &&& 2 <= self.carry_modulus
        &&& self.message_modulus * self.carry_modulus <= 0x1_0000_0000
        &&& self.max_degree.0 == (self.message_modulus - 1) * self.carry_modulus - 1
    }

    /// A block produced by this key's parameter set.
    pub open spec fn owns(self, b: Ciphertext) -> bool {
        b.message_modulus == self.message_modulus && b.carry_modulus == self.carry_modulus
    }

    pub fn new_with_max_degree(cks: &ClientKey, max_degree: MaxDegree) -> (r: ServerKey)
        ensures
            r.message_modulus == cks.parameters.message_modulus,
            r.carry_modulus == cks.parameters.carry_modulus,
            r.max_degree == max_degree,
    {
        ServerKey {
            message_modulus: cks.parameters.message_modulus,
            carry_modulus: cks.parameters.carry_modulus,
            max_degree,
        }
    }

    /// A deterministic encoding of a small cleartext digit as a block.
    pub fn create_trivial(&self, value: u8) -> (r: Ciphertext)
        requires
            self.wf(),
            (value as u64) < self.message_modulus,
        ensures
            r.wf(),
            self.owns(r),
            r.value == value as u64,
            r.degree == value as u64,
            r.canonical(),
    {
        proof {
            vstd::arithmetic::mul::lemma_mul_inequality(
                2,
                self.carry_modulus as int,
                self.message_modulus as int,
            );
            vstd::arithmetic::mul::lemma_mul_is_commutative(
                self.message_modulus as int,
                self.carry_modulus as int,
            );
        }
        Ciphertext {
            value: value as u64,
            degree: value as u64,
            message_modulus: self.message_modulus,
            carry_modulus: self.carry_modulus,
        }
    }

    /// Homomorphic blockwise addition; payloads and degrees both add, with no
    /// reduction of either.
    pub fn unchecked_add_assign(&self, ct_left: &mut Ciphertext, ct_right: &Ciphertext)
        requires
            old(ct_left).wf(),
            ct_right.wf(),
            old(ct_left).same_parameters(*ct_right),
            old(ct_left).degree + ct_right.degree <= u64::MAX,
        ensures
            final(ct_left).wf(),
            final(ct_left).same_parameters(*old(ct_left)),
            final(ct_left).value == old(ct_left).value + ct_right.value,
            final(ct_left).degree == old(ct_left).degree + ct_right.degree,
    {
        ct_left.value = ct_left.value + ct_right.value;
        ct_left.degree = ct_left.degree + ct_right.degree;
    }

    /// Homomorphic negation about the block's zero point: the payload becomes
    /// `z - value` for the smallest multiple `z` of the block's own message
    /// modulus at or above the degree, which is the additive inverse modulo
    /// that modulus; the degree becomes `z`.
    pub fn unchecked_neg_assign(&self, ct: &mut Ciphertext)
        requires
            old(ct).wf(),
            old(ct).degree + old(ct).message_modulus <= u64::MAX,
        ensures
            final(ct).wf(),
            final(ct).same_parameters(*old(ct)),
            final(ct).value == neg_zero_point(
                old(ct).degree as int,
                old(ct).message_modulus as int,
            ) - old(ct).value,
            final(ct).degree == neg_zero_point(
                old(ct).degree as int,
                old(ct).message_modulus as int,
            ),
    {
        let m = ct.message_modulus;
        proof {
            lemma_neg_zero_point_bounds(ct.degree as int, m as int);
        }
        let z = ((ct.degree + m - 1) / m) * m;
        ct.value = z - ct.value;
        ct.degree = z;
    }

    /// Homomorphic multiplication by a cleartext scalar; payload and degree
    /// both scale.
    pub fn unchecked_scalar_mul_assign(&self, ct: &mut Ciphertext, scalar: u64)
        requires
            old(ct).wf(),
            old(ct).degree * scalar <= u64::MAX,
        ensures
            final(ct).wf(),
            final(ct).same_parameters(*old(ct)),
            final(ct).value == old(ct).value * scalar,
            final(ct).degree == old(ct).degree * scalar,
    {
        proof {
            vstd::arithmetic::mul::lemma_mul_inequality(
                ct.value as int,
                ct.degree as int,
                scalar as int,
            );
            vstd::arithmetic::mul::lemma_mul_is_commutative(ct.value as int, scalar as int);
            vstd::arithmetic::mul::lemma_mul_is_commutative(ct.degree as int, scalar as int);
        }
        ct.value = ct.value * scalar;
        ct.degree = ct.degree * scalar;
    }

    /// One bootstrap reducing the block to its canonical digit range: the
    /// payload becomes `value % message_modulus` and the degree resets to the
    /// canonical maximum.
    pub fn message_extract_assign(&self, ct: &mut Ciphertext)
        requires
            old(ct).wf(),
            old(ct).readable(),
        ensures
            final(ct).wf(),
            final(ct).same_parameters(*old(ct)),
            final(ct).value == old(ct).value % old(ct).message_modulus,
            final(ct).degree == old(ct).message_modulus - 1,
            final(ct).canonical(),
    {
        ct.value = ct.value % ct.message_modulus;
        ct.degree = ct.message_modulus - 1;
    }

    /// As [`Self::message_extract_assign`], returning a fresh block.
    pub fn message_extract(&self, ct: &Ciphertext) -> (r: Ciphertext)
        requires
            ct.wf(),
            ct.readable(),
        ensures
            r.wf(),
            r.same_parameters(*ct),
            r.value == ct.value % ct.message_modulus,
            r.degree == ct.message_modulus - 1,
            r.canonical(),
    {
        let mut r = *ct;
        self.message_extract_assign(&mut r);
        r
    }

    /// One bootstrap reading the overflow digit of the block: the payload
    /// becomes `value / message_modulus`; the degree shrinks accordingly.
    pub fn carry_extract(&self, ct: &Ciphertext) -> (r: Ciphertext)
        requires
            ct.wf(),
            ct.readable(),
        ensures
            r.wf(),
            r.same_parameters(*ct),
            r.value == ct.value / ct.message_modulus,
            r.degree == ct.degree / ct.message_modulus,
    {
        proof {
            lemma_div_is_ordered(
                ct.value as int,
                ct.degree as int,
                ct.message_modulus as int,
            );
        }
        Ciphertext {
            value: ct.value / ct.message_modulus,
            degree: ct.degree / ct.message_modulus,
            message_modulus: ct.message_modulus,
            carry_modulus: ct.carry_modulus,
        }
    }

    /// The canonical digit and the overflow digit of one block, computed by a
    /// single multi-output bootstrap instead of two sequential ones;
    /// behaviorally identical to [`Self::message_extract`] followed by
    /// [`Self::carry_extract`].
    pub fn message_and_carry_extract(&self, ct: &Ciphertext) -> (r: (Ciphertext, Ciphertext))
        requires
            ct.wf(),
            ct.readable(),
        ensures
            r.0.wf(),
            r.0.same_parameters(*ct),
            r.0.value == ct.value % ct.message_modulus,
            r.0.degree == ct.message_modulus - 1,
            r.0.canonical(),
            r.1.wf(),
            r.1.same_parameters(*ct),
            r.1.value == ct.value / ct.message_modulus,
            r.1.degree == ct.degree / ct.message_modulus,
    {
        let msg = self.message_extract(ct);
        let carry = self.carry_extract(ct);
        (msg, carry)
    }

    /// One bootstrap computing the low digit of a blockwise product:
    /// `(x * y) % message_modulus`, degree reset to the canonical maximum.
    pub fn unchecked_mul_lsb_assign(&self, ct_left: &mut Ciphertext, ct_right: &Ciphertext)
        requires
            old(ct_left).wf(),
            ct_right.wf(),
            old(ct_left).same_parameters(*ct_right),
            old(ct_left).readable(),
            ct_right.readable(),
        ensures
            final(ct_left).wf(),
            final(ct_left).same_parameters(*old(ct_left)),
            final(ct_left).value == mul_lsb_value(
                old(ct_left).value as int,
                ct_right.value as int,
                old(ct_left).message_modulus as int,
            ),
            final(ct_left).degree == old(ct_left).message_modulus - 1,
            final(ct_left).canonical(),
    {
        proof {
            lemma_product_below_u64(*old(ct_left), *ct_right);
        }
        ct_left.value = (ct_left.value * ct_right.value) % ct_left.message_modulus;
        ct_left.degree = ct_left.message_modulus - 1;
    }

    /// One bootstrap computing the high digit of a blockwise product:
    /// `(x * y) / message_modulus % message_modulus`, degree reset to the
    /// canonical maximum.
    pub fn unchecked_mul_msb_assign(&self, ct_left: &mut Ciphertext, ct_right: &Ciphertext)
        requires
            old(ct_left).wf(),
            ct_right.wf(),
            old(ct_left).same_parameters(*ct_right),
            old(ct_left).readable(),
            ct_right.readable(),
        ensures
            final(ct_left).wf(),
            final(ct_left).same_parameters(*old(ct_left)),
            final(ct_left).value == mul_msb_value(
                old(ct_left).value as int,
                ct_right.value as int,
                old(ct_left).message_modulus as int,
            ),
            final(ct_left).degree == old(ct_left).message_modulus - 1,
            final(ct_left).canonical(),
    {
        proof {
            lemma_product_below_u64(*old(ct_left), *ct_right);
        }
        ct_left.value = (ct_left.value * ct_right.value) / ct_left.message_modulus
            % ct_left.message_modulus;
        ct_left.degree = ct_left.message_modulus - 1;
    }

    /// Low and high digits of one blockwise product in a single multi-output
    /// bootstrap; behaviorally identical to [`Self::unchecked_mul_lsb_assign`]
    /// and [`Self::unchecked_mul_msb_assign`] issued separately.
    pub fn bivalue_mul_pbs(&self, ct_left: &Ciphertext, ct_right: &Ciphertext) -> (r: (
        Ciphertext,
        Ciphertext,
    ))
        requires
            ct_left.wf(),
            ct_right.wf(),
            ct_left.same_parameters(*ct_right),
            ct_left.readable(),
            ct_right.readable(),
        ensures
            r.0.wf(),
            r.0.same_parameters(*ct_left),
            r.0.value == mul_lsb_value(
                ct_left.value as int,
                ct_right.value as int,
                ct_left.message_modulus as int,
            ),
            r.0.degree == ct_left.message_modulus - 1,
            r.0.canonical(),
            r.1.wf(),
            r.1.same_parameters(*ct_left),
            r.1.value == mul_msb_value(
                ct_left.value as int,
                ct_right.value as int,
                ct_left.message_modulus as int,
            ),
            r.1.degree == ct_left.message_modulus - 1,
            r.1.canonical(),
    {
        let mut lsb = *ct_left;
        let mut msb = *ct_left;
        self.unchecked_mul_lsb_assign(&mut lsb, ct_right);
        self.unchecked_mul_msb_assign(&mut msb, ct_right);
        (lsb, msb)
    }

    /// Whether two blocks can be added with the result's degree staying at or
    /// below this block's degree ceiling.
    pub fn is_add_possible(&self, ct_left: &Ciphertext, ct_right: &Ciphertext) -> (r: bool)
        requires
            ct_left.wf(),
        ensures
            r == (ct_left.degree + ct_right.degree <= ct_left.max_degree()),
    {
        proof {
            lemma_block_max_in_range(*ct_left);
        }
        let bmax = (ct_left.message_modulus - 1) * ct_left.carry_modulus - 1;
        ct_right.degree <= bmax && ct_left.degree <= bmax - ct_right.degree
    }

    /// Whether a block can be scaled by `scalar` with the degree staying at
    /// or below the block's degree ceiling.
    pub fn is_scalar_mul_possible(&self, ct: &Ciphertext, scalar: u64) -> (r: bool)
        requires
            ct.wf(),
        ensures
            r == (ct.degree * scalar <= ct.max_degree()),
    {
        proof {
            lemma_block_max_in_range(*ct);
        }
        let bmax = (ct.message_modulus - 1) * ct.carry_modulus - 1;
        if scalar == 0 {
            proof {
                vstd::arithmetic::mul::lemma_mul_by_zero_is_zero(ct.degree as int);
            }
            true
        } else {
            let r = ct.degree <= bmax / scalar;
            proof {
                lemma_le_through_div(ct.degree as int, scalar as int, bmax as int);
            }
            r
        }
    }

    /// Whether a block can be negated with the degree staying at or below the
    /// block's degree ceiling.
    pub fn is_neg_possible(&self, ct: &Ciphertext) -> (r: bool)
        requires
            ct.wf(),
        ensures
            r == (neg_zero_point(ct.degree as int, ct.message_modulus as int)
                <= ct.max_degree()),
    {
        proof {
            lemma_block_max_in_range(*ct);
            lemma_neg_zero_point_bounds(ct.degree as int, ct.message_modulus as int);
        }
        let bmax = (ct.message_modulus - 1) * ct.carry_modulus - 1;
        if ct.degree > bmax {
            false
        } else {
            let m = ct.message_modulus;
            proof {
                vstd::arithmetic::mul::lemma_mul_left_inequality(
                    m as int,
                    1,
                    ct.carry_modulus as int,
                );
            }
            let z = ((ct.degree + m - 1) / m) * m;
            z <= bmax
        }
    }
}

/// The degree ceiling of a well-formed block fits in a machine word.
proof fn lemma_block_max_in_range(b: Ciphertext)
    requires
        b.wf(),
    ensures
        0 <= (b.message_modulus - 1) * b.carry_modulus - 1,
        (b.message_modulus - 1) * b.carry_modulus - 1 == b.max_degree(),
        b.max_degree() < b.capacity(),
    decreases 0int,
{
    let m = b.message_modulus as int;
    let c = b.carry_modulus as int;
    assert((m - 1) * c == m * c - c) by {
        vstd::arithmetic::mul::lemma_mul_is_distributive_sub_other_way(c, m, 1);
    }
    assert(2 <= c);
    assert(2 * c <= m * c) by {
        vstd::arithmetic::mul::lemma_mul_inequality(2, m, c);
    }
}

/// `x <= m / s` exactly when `x * s <= m`, for positive `s`.
#[verifier::spinoff_prover]
proof fn lemma_le_through_div(x: int, s: int, m: int)
    requires
        0 <= x,
        1 <= s,
        0 <= m,
    ensures
        (x <= m / s) == (x * s <= m),
{
    lemma_fundamental_div_mod(m, s);
    lemma_mod_division_less_than_divisor(m, s);
    assert(s * (m / s) == m - m % s);
    vstd::arithmetic::mul::lemma_mul_is_commutative(s, m / s);
    if x <= m / s {
        vstd::arithmetic::mul::lemma_mul_inequality(x, m / s, s);
        assert(x * s <= (m / s) * s);
    } else {
        assert(m / s + 1 <= x);
        vstd::arithmetic::mul::lemma_mul_inequality(m / s + 1, x, s);
        assert((m / s + 1) * s == (m / s) * s + 1 * s) by {
            vstd::arithmetic::mul::lemma_mul_is_distributive_add_other_way(s, m / s, 1);
        }
        assert((m / s + 1) * s <= x * s);
        assert(m < (m / s + 1) * s);
    }
}

/// Readable payloads multiply without overflowing a machine word.
proof fn lemma_product_below_u64(a: Ciphertext, b: Ciphertext)
    requires
        a.wf(),
        b.wf(),
        a.readable(),
        b.readable(),
    ensures
        a.value * b.value < 0x1_0000_0000_0000_0000,
        a.value * b.value >= 0,
{
    vstd::arithmetic::mul::lemma_mul_nonnegative(a.value as int, b.value as int);
    assert(a.value * b.value <= 0xffff_ffff * 0xffff_ffff) by {
        vstd::arithmetic::mul::lemma_mul_inequality(a.value as int, 0xffff_ffff, b.value as int);
        vstd::arithmetic::mul::lemma_mul_inequality(b.value as int, 0xffff_ffff, 0xffff_ffff);
        vstd::arithmetic::mul::lemma_mul_is_commutative(a.value as int, b.value as int);
        vstd::arithmetic::mul::lemma_mul_is_commutative(b.value as int, 0xffff_ffff);
    }
}

} // verus!
