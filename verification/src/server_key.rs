//! The server key and the integer operations it evaluates, starting with
//! the carry-propagation engine for the radix representation and the
//! per-block extraction engine for the CRT representation.

use vstd::prelude::*;
use vstd::arithmetic::power::pow;
use vstd::arithmetic::div_mod::lemma_fundamental_div_mod;
use vstd::arithmetic::div_mod::lemma_fundamental_div_mod_converse_div;
use vstd::arithmetic::div_mod::lemma_div_is_ordered;
use vstd::arithmetic::div_mod::lemma_mod_multiples_vanish;
use vstd::arithmetic::mul::lemma_mul_is_distributive_sub_other_way;
use vstd::arithmetic::mul::lemma_mul_is_associative;
use vstd::arithmetic::mul::lemma_mul_is_commutative;
use vstd::arithmetic::mul::lemma_mul_inequality;
use crate::arith;
use crate::arith::le_value;
use crate::ciphertext::Ciphertext;
use crate::ciphertext::KeyId;
use crate::client_key::ClientKey;
use crate::shortint;
use crate::shortint::MaxDegree;

mod add;
mod scalar_add;
mod scalar_mul;
mod shift;
mod mul;
mod add_crt;
mod scalar_mul_crt;
mod sub_crt;
mod neg;
mod neg_crt;
mod treepbs;
mod iterate;

/// Error returned when the carry buffer is full.
pub use crate::shortint::CheckError;

verus! {

/// A structure containing the server public key, which the client publishes
/// so a server can evaluate homomorphic integer circuits.
pub struct ServerKey {
    pub key: shortint::ServerKey,
}

impl ServerKey {
    pub open spec fn wf(self) -> bool {
        self.key.wf()
    }

    /// The radix base: the block parameters' message modulus.
    pub open spec fn base(self) -> int {
        self.key.message_modulus as int
    }

    pub open spec fn carry_modulus(self) -> int {
        self.key.carry_modulus as int
    }

    /// The degree ceiling operations keep blocks at or below.
    pub open spec fn max_degree(self) -> int {
        self.key.max_degree.0 as int
    }

    /// A radix operand of this key: uniform block parameters, sound degree
    /// bookkeeping.
    pub open spec fn radix_ok(self, ct: Ciphertext) -> bool {
        self.wf() && ct.radix_with(self.base(), self.carry_modulus())
    }

    /// A CRT operand of this key: per-block moduli, shared carry headroom.
    pub open spec fn crt_ok(self, ct: Ciphertext) -> bool {
        self.wf() && ct.crt_with(self.carry_modulus())
    }

    /// The modulus of an `n`-block radix integer: `base^n`.
    pub open spec fn modulus(self, ct: Ciphertext) -> int {
        pow(self.base(), ct.ct_vec@.len() as nat)
    }

    /// Generates a server key; the degree ceiling leaves just enough space
    /// below a block's capacity to absorb one incoming carry.
    pub fn new(cks: &ClientKey) -> (r: ServerKey)
        requires
            cks.wf(),
        ensures
            r.wf(),
            r.key.message_modulus == cks.key.parameters.message_modulus,
            r.key.carry_modulus == cks.key.parameters.carry_modulus,
    {
        proof {
            lemma_mul_is_distributive_sub_frame(
                cks.key.parameters.message_modulus as int,
                cks.key.parameters.carry_modulus as int,
            );
        }
        let max = (cks.key.parameters.message_modulus - 1) * cks.key.parameters.carry_modulus
            - 1;
        let sks = shortint::ServerKey::new_with_max_degree(&cks.key, MaxDegree(max));
        ServerKey { key: sks }
    }

    /// Creates a ServerKey from an already generated block-layer key,
    /// re-pinning its degree ceiling to this representation's headroom rule.
    pub fn from_shortint(cks: &ClientKey, key: shortint::ServerKey) -> (r: ServerKey)
        requires
            cks.wf(),
            key.message_modulus == cks.key.parameters.message_modulus,
            key.carry_modulus == cks.key.parameters.carry_modulus,
        ensures
            r.wf(),
            r.key.message_modulus == cks.key.parameters.message_modulus,
            r.key.carry_modulus == cks.key.parameters.carry_modulus,
    {
        proof {
            lemma_mul_is_distributive_sub_frame(
                cks.key.parameters.message_modulus as int,
                cks.key.parameters.carry_modulus as int,
            );
        }
        let max = (cks.key.parameters.message_modulus - 1) * cks.key.parameters.carry_modulus
            - 1;
        let mut key = key;
        key.max_degree = MaxDegree(max);
        ServerKey { key }
    }

    /// Create a ciphertext filled with zeros.
    pub fn create_trivial_zero(
        &self,
        size: usize,
        message_modulus_vec: Vec<u64>,
        key_id_vec: Vec<KeyId>,
    ) -> (r: Ciphertext)
        requires
            self.wf(),
        ensures
            r.ct_vec@.len() == size,
            r.radix_with(self.base(), self.carry_modulus()),
            forall|i: int| 0 <= i < size ==> (#[trigger] r.ct_vec@[i]).value == 0,
            forall|i: int| 0 <= i < size ==> (#[trigger] r.ct_vec@[i]).degree == 0,
            r.all_canonical(),
            r.radix_value(self.base()) == 0,
            r.message_modulus_vec@ == message_modulus_vec@,
            r.key_id_vec@ == key_id_vec@,
    {
        let mut vec_res: Vec<shortint::Ciphertext> = Vec::new();
        let mut i: usize = 0;
        while i < size
            invariant
                0 <= i <= size,
                self.wf(),
                vec_res@.len() == i,
                forall|j: int| 0 <= j < i ==> (#[trigger] vec_res@[j]).wf(),
                forall|j: int| 0 <= j < i ==> (#[trigger] vec_res@[j]).canonical(),
                forall|j: int| 0 <= j < i ==> (#[trigger] vec_res@[j]).value == 0,
                forall|j: int| 0 <= j < i ==> (#[trigger] vec_res@[j]).degree == 0,
                forall|j: int|
                    0 <= j < i ==> (#[trigger] vec_res@[j]).message_modulus
                        == self.key.message_modulus,
                forall|j: int|
                    0 <= j < i ==> (#[trigger] vec_res@[j]).carry_modulus
                        == self.key.carry_modulus,
            decreases size - i,
        {
            vec_res.push(self.key.create_trivial(0u8));
            i = i + 1;
        }
        let r = Ciphertext { ct_vec: vec_res, message_modulus_vec, key_id_vec };
        proof {
            arith::lemma_le_value_all_zero(r.values(), self.base());
        }
        r
    }

    /// Propagate the carry of the `index` block to the next one: the block
    /// is reduced to its canonical digit and its overflow digit is
    /// homomorphically added into block `index + 1` when one exists (at the
    /// last block the overflow is discarded, which is reduction modulo the
    /// representation's modulus).
    pub fn propagate(&self, ctxt: &mut Ciphertext, index: usize)
        requires
            self.radix_ok(*old(ctxt)),
            index < old(ctxt).ct_vec@.len(),
            old(ctxt).ct_vec@[index as int].readable(),
            index + 1 < old(ctxt).ct_vec@.len() ==> old(ctxt).ct_vec@[index + 1].degree + (old(ctxt).ct_vec@[index as int].degree as int) / self.base() <= u64::MAX,
        ensures
            self.radix_ok(*final(ctxt)),
            final(ctxt).ct_vec@.len() == old(ctxt).ct_vec@.len(),
            final(ctxt).message_modulus_vec@ == old(ctxt).message_modulus_vec@,
            final(ctxt).key_id_vec@ == old(ctxt).key_id_vec@,
            final(ctxt).ct_vec@[index as int].canonical(),
            final(ctxt).ct_vec@[index as int].value == old(ctxt).ct_vec@[index as int].value
                as int % self.base(),
            final(ctxt).ct_vec@[index as int].degree == self.base() - 1,
            forall|j: int|
                0 <= j < old(ctxt).ct_vec@.len() && j != index && j != index + 1
                    ==> #[trigger] final(ctxt).ct_vec@[j] == old(ctxt).ct_vec@[j],
            index + 1 < old(ctxt).ct_vec@.len() ==> final(ctxt).ct_vec@[index + 1].value == old(ctxt).ct_vec@[index + 1].value + old(ctxt).ct_vec@[index as int].value as int
                / self.base(),
            index + 1 < old(ctxt).ct_vec@.len() ==> final(ctxt).ct_vec@[index + 1].degree == old(ctxt).ct_vec@[index + 1].degree + old(ctxt).ct_vec@[index as int].degree as int
                / self.base(),
            index + 1 < old(ctxt).ct_vec@.len() ==> final(ctxt).radix_value(self.base()) == old(ctxt).radix_value(self.base()),
            index + 1 == old(ctxt).ct_vec@.len() ==> final(ctxt).radix_value(self.base()) == old(ctxt).radix_value(self.base()) - (old(ctxt).ct_vec@[index as int].value as int
                / self.base()) * self.modulus(*old(ctxt)),
    {
        let ghost s0 = ctxt.values();
        let ghost v = ctxt.ct_vec@[index as int].value as int;
        let ghost b = self.base();
        let carry = self.key.carry_extract(&ctxt.ct_vec[index]);
        let extracted = self.key.message_extract(&ctxt.ct_vec[index]);
        ctxt.ct_vec.set(index, extracted);
        proof {
            assert(ctxt.values() =~= s0.update(index as int, v % b));
            arith::lemma_le_value_update(s0, b, index as int, v % b);
            lemma_fundamental_div_mod(v, b);
        }
        proof {
            // the first update removes (v - v % b) == b * (v / b) weighted by b^index
            let p = pow(b, index as nat);
            assert((v % b - v) * p == -((b * (v / b)) * p)) by {
                vstd::arithmetic::mul::lemma_mul_unary_negation(b * (v / b), p);
            }
            assert((b * (v / b)) * p == (v / b) * (b * p)) by {
                lemma_mul_is_associative(b, v / b, p);
                lemma_mul_is_commutative(b, v / b);
                lemma_mul_is_associative(v / b, b, p);
            }
            lemma_pow_step(b, index as nat);
        }
        // add the carry to the next block
        if index < ctxt.ct_vec.len() - 1 {
            let ghost s1 = ctxt.values();
            let ghost w = ctxt.ct_vec@[index + 1].value as int;
            let mut next = ctxt.ct_vec[index + 1];
            self.key.unchecked_add_assign(&mut next, &carry);
            ctxt.ct_vec.set(index + 1, next);
            proof {
                assert(ctxt.values() =~= s1.update(index + 1, w + v / b));
                arith::lemma_le_value_update(s1, b, index + 1, w + v / b);
                // the second update restores it, weighted by b^(index + 1)
                assert(ctxt.radix_value(b) == le_value(s0, b) + (v % b - v) * pow(
                    b,
                    index as nat,
                ) + (v / b) * pow(b, (index + 1) as nat));
            }
        }
    }

    /// Propagate all the carries, left to right; the result is canonical and
    /// holds the same integer modulo the representation's modulus.  The
    /// sequence is inherently serial: block `i + 1` is correct only once the
    /// carry of block `i` has been added to it.
    pub fn full_propagate(&self, ctxt: &mut Ciphertext)
        requires
            self.radix_ok(*old(ctxt)),
            old(ctxt).bounded(self.max_degree()),
        ensures
            self.radix_ok(*final(ctxt)),
            final(ctxt).ct_vec@.len() == old(ctxt).ct_vec@.len(),
            final(ctxt).message_modulus_vec@ == old(ctxt).message_modulus_vec@,
            final(ctxt).key_id_vec@ == old(ctxt).key_id_vec@,
            final(ctxt).all_canonical(),
            final(ctxt).bounded(self.base() - 1),
            final(ctxt).radix_value(self.base()) == old(ctxt).radix_value(self.base())
                % self.modulus(*old(ctxt)),
    {
        let len = ctxt.ct_vec.len();
        if len == 0 {
            proof {
                vstd::arithmetic::power::lemma_pow0(self.base());
            }
            return ;
        }
        let mut i: usize = 0;
        while i < len
            invariant
                0 < len == ctxt.ct_vec@.len(),
                0 <= i <= len,
                self.radix_ok(*ctxt),
                ctxt.message_modulus_vec@ == old(ctxt).message_modulus_vec@,
                ctxt.key_id_vec@ == old(ctxt).key_id_vec@,
                forall|j: int|
                    0 <= j < i ==> (#[trigger] ctxt.ct_vec@[j]).canonical() && ctxt.ct_vec@[
                    j].degree == self.base() - 1,
                i < len ==> ctxt.ct_vec@[i as int].degree <= self.max_degree()
                    + self.carry_modulus() - 1,
                forall|j: int|
                    i < j < len ==> #[trigger] ctxt.ct_vec@[j] == old(ctxt).ct_vec@[j],
                old(ctxt).ct_vec@.len() == len,
                old(ctxt).bounded(self.max_degree()),
                ctxt.radix_value(self.base()) % self.modulus(*old(ctxt)) == old(ctxt).radix_value(self.base()) % self.modulus(*old(ctxt)),
            decreases len - i,
        {
            proof {
                lemma_headroom(
                    self.base(),
                    self.carry_modulus(),
                    ctxt.ct_vec@[i as int].degree as int,
                );
                lemma_mul_is_distributive_sub_frame(self.base(), self.carry_modulus());
                vstd::arithmetic::div_mod::lemma_div_nonincreasing(
                    ctxt.ct_vec@[i as int].degree as int,
                    self.base(),
                );
                vstd::arithmetic::div_mod::lemma_div_pos_is_pos(
                    ctxt.ct_vec@[i as int].degree as int,
                    self.base(),
                );
            }
            let ghost before = *ctxt;
            self.propagate(ctxt, i);
            proof {
                let b = self.base();
                let m = self.modulus(*old(ctxt));
                vstd::arithmetic::power::lemma_pow_positive(b, len as nat);
                if i + 1 < len {
                    lemma_div_is_ordered(
                        before.ct_vec@[i as int].degree as int,
                        b * self.carry_modulus() - 2,
                        b,
                    );
                    lemma_headroom_carry(b, self.carry_modulus());
                } else {
                    // the dropped multiple of the modulus does not change the
                    // value modulo the modulus
                    let k = before.ct_vec@[i as int].value as int / b;
                    lemma_mod_multiples_vanish(-k, ctxt.radix_value(b) + k * m, m);
                    vstd::arithmetic::mul::lemma_mul_unary_negation(k, m);
                }
            }
            i = i + 1;
        }
        proof {
            let b = self.base();
            let vals = ctxt.values();
            assert(arith::digits_below(vals, b));
            arith::lemma_le_value_bound(vals, b);
            vstd::arithmetic::div_mod::lemma_small_mod(
                ctxt.radix_value(b) as nat,
                self.modulus(*old(ctxt)) as nat,
            );
        }
    }

    /// Propagates all carries except the last one, leaving the top block
    /// holding its full (unreduced) payload; the ciphertext's value is
    /// preserved exactly, with nothing discarded.
    pub fn partial_propagate(&self, ctxt: &mut Ciphertext)
        requires
            self.radix_ok(*old(ctxt)),
            old(ctxt).bounded(self.max_degree()),
            1 <= old(ctxt).ct_vec@.len(),
        ensures
            self.radix_ok(*final(ctxt)),
            final(ctxt).ct_vec@.len() == old(ctxt).ct_vec@.len(),
            final(ctxt).message_modulus_vec@ == old(ctxt).message_modulus_vec@,
            final(ctxt).key_id_vec@ == old(ctxt).key_id_vec@,
            forall|j: int|
                0 <= j < old(ctxt).ct_vec@.len() - 1 ==> (#[trigger] final(
                    ctxt
                ).ct_vec@[j]).canonical(),
            final(ctxt).ct_vec@[old(ctxt).ct_vec@.len() - 1].degree <= self.max_degree()
                + self.carry_modulus() - 1,
            final(ctxt).ct_vec@[old(ctxt).ct_vec@.len() - 1].readable(),
            final(ctxt).radix_value(self.base()) == old(ctxt).radix_value(self.base()),
    {
        let len = ctxt.ct_vec.len() - 1;
        let mut i: usize = 0;
        while i < len
            invariant
                len == ctxt.ct_vec@.len() - 1,
                0 <= i <= len,
                self.radix_ok(*ctxt),
                ctxt.message_modulus_vec@ == old(ctxt).message_modulus_vec@,
                ctxt.key_id_vec@ == old(ctxt).key_id_vec@,
                forall|j: int|
                    0 <= j < i ==> (#[trigger] ctxt.ct_vec@[j]).canonical() && ctxt.ct_vec@[
                    j].degree == self.base() - 1,
                ctxt.ct_vec@[i as int].degree <= self.max_degree() + self.carry_modulus() - 1,
                forall|j: int|
                    i < j <= len ==> #[trigger] ctxt.ct_vec@[j] == old(ctxt).ct_vec@[j],
                old(ctxt).ct_vec@.len() == len + 1,
                old(ctxt).bounded(self.max_degree()),
                ctxt.radix_value(self.base()) == old(ctxt).radix_value(self.base()),
            decreases len - i,
        {
            proof {
                lemma_headroom(
                    self.base(),
                    self.carry_modulus(),
                    ctxt.ct_vec@[i as int].degree as int,
                );
                lemma_mul_is_distributive_sub_frame(self.base(), self.carry_modulus());
                vstd::arithmetic::div_mod::lemma_div_nonincreasing(
                    ctxt.ct_vec@[i as int].degree as int,
                    self.base(),
                );
                vstd::arithmetic::div_mod::lemma_div_pos_is_pos(
                    ctxt.ct_vec@[i as int].degree as int,
                    self.base(),
                );
            }
            let ghost before = *ctxt;
            self.propagate(ctxt, i);
            proof {
                lemma_div_is_ordered(
                    before.ct_vec@[i as int].degree as int,
                    self.base() * self.carry_modulus() - 2,
                    self.base(),
                );
                lemma_headroom_carry(self.base(), self.carry_modulus());
            }
            i = i + 1;
        }
        proof {
            lemma_headroom(
                self.base(),
                self.carry_modulus(),
                ctxt.ct_vec@[len as int].degree as int,
            );
        }
    }

    /// Extract every block's message independently: the CRT normalization.
    /// No carry crosses block boundaries, so each block is reduced in place
    /// to its own modulus and every block's residue is unchanged.
    pub fn full_extract(&self, ctxt: &mut Ciphertext)
        requires
            self.crt_ok(*old(ctxt)),
            old(ctxt).all_readable(),
        ensures
            self.crt_ok(*final(ctxt)),
            final(ctxt).ct_vec@.len() == old(ctxt).ct_vec@.len(),
            final(ctxt).message_modulus_vec@ == old(ctxt).message_modulus_vec@,
            final(ctxt).key_id_vec@ == old(ctxt).key_id_vec@,
            final(ctxt).all_canonical(),
            forall|i: int|
                0 <= i < old(ctxt).ct_vec@.len() ==> (#[trigger] final(ctxt).ct_vec@[i]).value
                    == old(ctxt).ct_vec@[i].value as int % (old(ctxt).ct_vec@[i].message_modulus as int),
            forall|i: int|
                0 <= i < old(ctxt).ct_vec@.len() ==> (#[trigger] final(ctxt).ct_vec@[i]).degree
                    == old(ctxt).ct_vec@[i].message_modulus - 1,
            final(ctxt).crt_residues() =~= old(ctxt).crt_residues(),
    {
        let len = ctxt.ct_vec.len();
        let mut i: usize = 0;
        while i < len
            invariant
                len == ctxt.ct_vec@.len(),
                0 <= i <= len,
                self.crt_ok(*ctxt),
                ctxt.message_modulus_vec@ == old(ctxt).message_modulus_vec@,
                ctxt.key_id_vec@ == old(ctxt).key_id_vec@,
                old(ctxt).ct_vec@.len() == len,
                old(ctxt).all_readable(),
                forall|j: int|
                    i <= j < len ==> #[trigger] ctxt.ct_vec@[j] == old(ctxt).ct_vec@[j],
                forall|j: int|
                    0 <= j < i ==> (#[trigger] ctxt.ct_vec@[j]).value == old(ctxt).ct_vec@[j].value as int % (old(ctxt).ct_vec@[j].message_modulus as int),
                forall|j: int|
                    0 <= j < i ==> (#[trigger] ctxt.ct_vec@[j]).degree == old(ctxt).ct_vec@[j].message_modulus - 1,
                forall|j: int|
                    0 <= j < i ==> (#[trigger] ctxt.ct_vec@[j]).canonical(),
                forall|j: int|
                    0 <= j < i ==> (#[trigger] ctxt.ct_vec@[j]).message_modulus == old(ctxt).ct_vec@[j].message_modulus,
            decreases len - i,
        {
            let mut block = ctxt.ct_vec[i];
            self.key.message_extract_assign(&mut block);
            ctxt.ct_vec.set(i, block);
            i = i + 1;
        }
        proof {
            assert forall|i: int| 0 <= i < len implies ctxt.crt_residues()[i] == old(ctxt).crt_residues()[i] by {
                let m = old(ctxt).ct_vec@[i].message_modulus as int;
                vstd::arithmetic::div_mod::lemma_mod_twice(
                    old(ctxt).ct_vec@[i].value as int,
                    m,
                );
            }
        }
    }
}

/// `(m - 1) * c == m * c - c`, in the frame the key constructors need.
pub(crate) proof fn lemma_mul_is_distributive_sub_frame(m: int, c: int)
    requires
        2 <= m,
        2 <= c,
        m * c <= 0x1_0000_0000,
    ensures
        (m - 1) * c == m * c - c,
        1 <= (m - 1) * c - 1 < m * c,
        2 * (m - 1) <= 0x1_0000_0000,
{
    vstd::arithmetic::mul::lemma_mul_is_distributive_sub_other_way(c, m, 1);
    lemma_mul_inequality(2, c, m);
    lemma_mul_is_commutative(2, m);
    lemma_mul_inequality(2, m, c);
}

/// `pow(b, e + 1) == b * pow(b, e)`.
pub(crate) proof fn lemma_pow_step(b: int, e: nat)
    ensures
        pow(b, e + 1) == b * pow(b, e),
        pow(b, e + 1) == pow(b, e) * b,
{
    vstd::arithmetic::power::lemma_pow_adds(b, 1, e);
    vstd::arithmetic::power::lemma_pow1(b);
    lemma_mul_is_commutative(b, pow(b, e));
}

/// A block at or below `max_degree + carry - 1` is still readable: that sum
/// is `base * carry - 2`, two short of capacity.
pub(crate) proof fn lemma_headroom(base: int, carry: int, degree: int)
    requires
        2 <= base,
        2 <= carry,
        degree <= (base - 1) * carry - 1 + carry - 1,
    ensures
        degree <= base * carry - 2,
        (base - 1) * carry - 1 + carry - 1 == base * carry - 2,
{
    vstd::arithmetic::mul::lemma_mul_is_distributive_sub_other_way(carry, base, 1);
}

/// The carry extracted from a readable block below `base * carry - 2` is at
/// most `carry - 1`, so it fits under the next block's headroom.
pub(crate) proof fn lemma_headroom_carry(base: int, carry: int)
    ensures
        2 <= base && 2 <= carry ==> (base * carry - 2) / base == carry - 1,
{
    if 2 <= base && 2 <= carry {
        assert((carry - 1) * base == carry * base - base) by {
            lemma_mul_is_distributive_sub_other_way(base, carry, 1);
        }
        lemma_mul_is_commutative(base, carry);
        lemma_fundamental_div_mod_converse_div(
            base * carry - 2,
            base,
            carry - 1,
            base - 2,
        );
    }
}

} // verus!
