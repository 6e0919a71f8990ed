//! Client-side keys: deterministic encoding of cleartext integers into
//! block vectors, and the reading back of computed results.

use vstd::prelude::*;
use vstd::arithmetic::power::pow;
use vstd::arithmetic::div_mod::lemma_fundamental_div_mod;
use vstd::arithmetic::div_mod::lemma_fundamental_div_mod_converse_mod;
use vstd::arithmetic::div_mod::lemma_mod_division_less_than_divisor;
use crate::arith;
use crate::arith::le_value;
use crate::arith::seq_product;
use crate::ciphertext::Ciphertext;
use crate::shortint;
use crate::shortint::Parameters;

verus! {

/// The client key for radix integers: block parameters plus the number of
/// blocks one integer spans.
#[derive(Clone, Copy, Debug, PartialEq, Eq, Structural)]
pub struct ClientKey {
    pub key: shortint::ClientKey,
    pub num_blocks: usize,
}

impl ClientKey {
    pub open spec fn wf(self) -> bool {
        self.key.parameters.wf() && 1 <= self.num_blocks
    }

    /// The radix base: the block's canonical digit range.
    pub open spec fn base(self) -> int {
        self.key.parameters.message_modulus as int
    }

    /// The representation's modulus: `base^num_blocks`.
    pub open spec fn modulus(self) -> int {
        pow(self.base(), self.num_blocks as nat)
    }

    pub fn new(parameters: &Parameters, size: usize) -> (r: ClientKey)
        requires
            parameters.wf(),
            1 <= size,
        ensures
            r.wf(),
            r.key.parameters == *parameters,
            r.num_blocks == size,
    {
        ClientKey { key: shortint::ClientKey { parameters: *parameters }, num_blocks: size }
    }

    /// Encodes `message` as `num_blocks` canonical base-`base` digits, least
    /// significant first; the encoded value is `message` modulo the
    /// representation's modulus.
    pub fn encrypt(&self, message: u64) -> (r: Ciphertext)
        requires
            self.wf(),
        ensures
            r.ct_vec@.len() == self.num_blocks,
            r.radix_with(self.base(), self.key.parameters.carry_modulus as int),
            r.all_canonical(),
            r.bounded(self.base() - 1),
            r.radix_value(self.base()) == (message as int) % self.modulus(),
            r.message_modulus_vec@.len() == 0,
            r.key_id_vec@.len() == 0,
    {
        let base = self.key.parameters.message_modulus;
        let carry = self.key.parameters.carry_modulus;
        let mut ct_vec: Vec<shortint::Ciphertext> = Vec::new();
        let mut rest: u64 = message;
        let mut i: usize = 0;
        proof {
            vstd::arithmetic::power::lemma_pow0(base as int);
        }
        while i < self.num_blocks
            invariant
                0 <= i <= self.num_blocks,
                self.wf(),
                base == self.key.parameters.message_modulus,
                carry == self.key.parameters.carry_modulus,
                ct_vec@.len() == i,
                forall|j: int| 0 <= j < i ==> (#[trigger] ct_vec@[j]).wf(),
                forall|j: int| 0 <= j < i ==> (#[trigger] ct_vec@[j]).message_modulus == base,
                forall|j: int| 0 <= j < i ==> (#[trigger] ct_vec@[j]).carry_modulus == carry,
                forall|j: int| 0 <= j < i ==> (#[trigger] ct_vec@[j]).canonical(),
                forall|j: int| 0 <= j < i ==> (#[trigger] ct_vec@[j]).degree == base - 1,
                le_value(
                    ct_vec@.map(|j: int, b: shortint::Ciphertext| b.value as int),
                    base as int,
                ) + pow(base as int, i as nat) * rest == message,
                le_value(
                    ct_vec@.map(|j: int, b: shortint::Ciphertext| b.value as int),
                    base as int,
                ) >= 0,
            decreases self.num_blocks - i,
        {
            let ghost vals_before = ct_vec@.map(|j: int, b: shortint::Ciphertext| b.value as int);
            proof {
                vstd::arithmetic::mul::lemma_mul_left_inequality(
                    base as int,
                    1,
                    carry as int,
                );
            }
            let digit = rest % base;
            let block = shortint::Ciphertext {
                value: digit,
                degree: base - 1,
                message_modulus: base,
                carry_modulus: carry,
            };
            ct_vec.push(block);
            proof {
                let vals_after = ct_vec@.map(|j: int, b: shortint::Ciphertext| b.value as int);
                assert(vals_after =~= vals_before.push(digit as int));
                arith::lemma_le_value_push(vals_before, base as int, digit as int);
                lemma_fundamental_div_mod(rest as int, base as int);
                // pow(base, i) * rest == pow(base, i) * digit + pow(base, i+1) * (rest / base)
                let p = pow(base as int, i as nat);
                vstd::arithmetic::mul::lemma_mul_is_distributive_add(
                    p,
                    digit as int,
                    (base as int) * ((rest / base) as int),
                );
                vstd::arithmetic::mul::lemma_mul_is_associative(
                    p,
                    base as int,
                    (rest / base) as int,
                );
                vstd::arithmetic::power::lemma_pow_adds(base as int, i as nat, 1);
                vstd::arithmetic::power::lemma_pow1(base as int);
                vstd::arithmetic::mul::lemma_mul_is_commutative(p, base as int);
                vstd::arithmetic::power::lemma_pow_positive(base as int, i as nat);
                vstd::arithmetic::mul::lemma_mul_nonnegative(p, digit as int);
            }
            rest = rest / base;
            i = i + 1;
        }
        proof {
            let vals = ct_vec@.map(|j: int, b: shortint::Ciphertext| b.value as int);
            arith::lemma_le_value_bound(vals, self.base());
            // message == modulus * rest + le_value, with le_value in [0, modulus)
            vstd::arithmetic::mul::lemma_mul_is_commutative(self.modulus(), rest as int);
            lemma_fundamental_div_mod_converse_mod(
                message as int,
                self.modulus(),
                rest as int,
                le_value(vals, self.base()),
            );
        }
        Ciphertext { ct_vec, message_modulus_vec: Vec::new(), key_id_vec: Vec::new() }
    }

    /// Reads the integer a radix ciphertext holds, modulo the
    /// representation's modulus.
    pub fn decrypt(&self, ct: &Ciphertext) -> (r: u64)
        requires
            self.wf(),
            ct.radix_with(self.base(), self.key.parameters.carry_modulus as int),
            1 <= ct.ct_vec@.len(),
            pow(self.base(), ct.ct_vec@.len() as nat) <= u64::MAX,
            ct.radix_value(self.base()) <= u64::MAX,
        ensures
            r == ct.radix_decrypt(self.base()),
    {
        let base = self.key.parameters.message_modulus;
        let n = ct.ct_vec.len();
        let modulus = arith::pow_u64(base, n);
        let mut acc: u64 = 0;
        let mut p: u64 = 1;
        let mut i: usize = 0;
        proof {
            vstd::arithmetic::power::lemma_pow0(base as int);
            assert(ct.values().take(0) =~= Seq::<int>::empty());
        }
        while i < n
            invariant
                0 <= i <= n,
                n == ct.ct_vec@.len(),
                self.wf(),
                base == self.key.parameters.message_modulus,
                ct.radix_with(self.base(), self.key.parameters.carry_modulus as int),
                ct.radix_value(self.base()) <= u64::MAX,
                pow(base as int, n as nat) <= u64::MAX,
                i < n ==> p == pow(base as int, i as nat),
                acc == le_value(ct.values().take(i as int), base as int),
            decreases n - i,
        {
            proof {
                // the next partial sum is still a prefix value, hence within bounds
                let vals = ct.values();
                assert(forall|j: int| 0 <= j < vals.len() ==> 0 <= #[trigger] vals[j]);
                assert(vals.take(i + 1) =~= vals.take(i as int).push(vals[i as int]));
                arith::lemma_le_value_push(vals.take(i as int), base as int, vals[i as int]);
                lemma_prefix_value_bounded(vals, base as int, i + 1);
                lemma_prefix_value_bounded(vals, base as int, i as int);
                vstd::arithmetic::mul::lemma_mul_nonnegative(
                    pow(base as int, i as nat),
                    vals[i as int],
                );
                // pow(base, i + 1) <= pow(base, n), so p * base stays in range
                vstd::arithmetic::power::lemma_pow_adds(base as int, i as nat, 1);
                vstd::arithmetic::power::lemma_pow1(base as int);
                vstd::arithmetic::power::lemma_pow_increases(
                    base as nat,
                    (i + 1) as nat,
                    n as nat,
                );
            }
            acc = acc + p * ct.ct_vec[i].value;
            if i + 1 < n {
                p = p * base;
            }
            i = i + 1;
        }
        proof {
            assert(ct.values().take(n as int) =~= ct.values());
            vstd::arithmetic::power::lemma_pow_positive(base as int, n as nat);
        }
        acc % modulus
    }
}

/// With nonnegative digits, every prefix encodes at most the whole value.
proof fn lemma_prefix_value_bounded(vals: Seq<int>, base: int, k: int)
    requires
        2 <= base,
        0 <= k <= vals.len(),
        forall|i: int| 0 <= i < vals.len() ==> 0 <= #[trigger] vals[i],
    ensures
        0 <= le_value(vals.take(k), base) <= le_value(vals, base),
{
    arith::lemma_le_value_split(vals, base, k);
    assert(forall|i: int| 0 <= i < vals.take(k).len() ==> 0 <= #[trigger] vals.take(k)[i]);
    assert(forall|i: int| 0 <= i < vals.skip(k).len() ==> 0 <= #[trigger] vals.skip(k)[i]);
    arith::lemma_le_value_nonneg(vals.take(k), base);
    arith::lemma_le_value_nonneg(vals.skip(k), base);
    vstd::arithmetic::power::lemma_pow_positive(base, k as nat);
    vstd::arithmetic::mul::lemma_mul_nonnegative(
        pow(base, k as nat),
        le_value(vals.skip(k), base),
    );
}

/// The client key for radix integers, bundling the block key with the block
/// count (the shape callers hand around).
#[derive(Clone, Copy, Debug, PartialEq, Eq, Structural)]
pub struct RadixClientKey {
    pub key: ClientKey,
}

impl RadixClientKey {
    pub open spec fn wf(self) -> bool {
        self.key.wf()
    }

    pub fn new(parameters: &Parameters, num_block: usize) -> (r: RadixClientKey)
        requires
            parameters.wf(),
            1 <= num_block,
        ensures
            r.wf(),
            r.key.key.parameters == *parameters,
            r.key.num_blocks == num_block,
    {
        RadixClientKey { key: ClientKey::new(parameters, num_block) }
    }

    pub fn encrypt(&self, message: u64) -> (r: Ciphertext)
        requires
            self.wf(),
        ensures
            r.ct_vec@.len() == self.key.num_blocks,
            r.radix_with(self.key.base(), self.key.key.parameters.carry_modulus as int),
            r.all_canonical(),
            r.bounded(self.key.base() - 1),
            r.radix_value(self.key.base()) == (message as int) % self.key.modulus(),
    {
        self.key.encrypt(message)
    }

    pub fn decrypt(&self, ct: &Ciphertext) -> (r: u64)
        requires
            self.wf(),
            ct.radix_with(self.key.base(), self.key.key.parameters.carry_modulus as int),
            1 <= ct.ct_vec@.len(),
            pow(self.key.base(), ct.ct_vec@.len() as nat) <= u64::MAX,
            ct.radix_value(self.key.base()) <= u64::MAX,
        ensures
            r == ct.radix_decrypt(self.key.base()),
    {
        self.key.decrypt(ct)
    }
}

/// Whether `x` agrees with every residue a CRT ciphertext holds.
pub open spec fn crt_matches(x: int, ct: Ciphertext) -> bool {
    forall|i: int|
        0 <= i < ct.ct_vec@.len() ==> x % (ct.message_modulus_vec@[i] as int)
            == (ct.ct_vec@[i].value as int) % (ct.message_modulus_vec@[i] as int)
}

/// The client key for CRT integers: block parameters plus the pairwise
/// moduli of the representation.
#[derive(Debug, PartialEq, Eq)]
pub struct CrtClientKey {
    pub key: shortint::ClientKey,
    pub moduli: Vec<u64>,
}

impl Clone for CrtClientKey {
    fn clone(&self) -> (r: Self)
        ensures
            r.key == self.key,
            r.moduli@ == self.moduli@,
    {
        CrtClientKey { key: self.key, moduli: crate::ciphertext::clone_u64_vec(&self.moduli) }
    }
}

impl CrtClientKey {
    pub open spec fn wf(self) -> bool {
        &&& self.key.parameters.wf()
        &&& 1 <= self.moduli@.len()
        &&& forall|i: int|
            0 <= i < self.moduli@.len() ==> 2 <= #[trigger] self.moduli@[i]
                && self.moduli@[i] <= self.key.parameters.message_modulus
    }

    /// The moduli as mathematical integers.
    pub open spec fn moduli_seq(self) -> Seq<int> {
        self.moduli@.map(|i: int, m: u64| m as int)
    }

    /// The representation's modulus: the product of the block moduli.
    pub open spec fn modulus(self) -> int {
        seq_product(self.moduli_seq())
    }

    pub fn new(parameters: &Parameters, moduli: Vec<u64>) -> (r: CrtClientKey)
        requires
            parameters.wf(),
            1 <= moduli@.len(),
            forall|i: int|
                0 <= i < moduli@.len() ==> 2 <= #[trigger] moduli@[i] && moduli@[i]
                    <= parameters.message_modulus,
        ensures
            r.wf(),
            r.key.parameters == *parameters,
            r.moduli@ == moduli@,
    {
        CrtClientKey { key: shortint::ClientKey { parameters: *parameters }, moduli }
    }

    /// Encodes `message` as its residue modulo each block modulus, one
    /// canonical block per modulus.
    pub fn encrypt(&self, message: u64) -> (r: Ciphertext)
        requires
            self.wf(),
        ensures
            r.ct_vec@.len() == self.moduli@.len(),
            r.message_modulus_vec@ == self.moduli@,
            r.crt_with(self.key.parameters.carry_modulus as int),
            r.all_canonical(),
            forall|i: int|
                0 <= i < r.ct_vec@.len() ==> (#[trigger] r.ct_vec@[i]).value as int == (
                message as int) % (self.moduli@[i] as int),
            forall|i: int|
                0 <= i < r.ct_vec@.len() ==> (#[trigger] r.ct_vec@[i]).degree
                    == self.moduli@[i] - 1,
    {
        let carry = self.key.parameters.carry_modulus;
        let mut ct_vec: Vec<shortint::Ciphertext> = Vec::new();
        let mut mods: Vec<u64> = Vec::new();
        let mut i: usize = 0;
        while i < self.moduli.len()
            invariant
                0 <= i <= self.moduli@.len(),
                self.wf(),
                carry == self.key.parameters.carry_modulus,
                ct_vec@.len() == i,
                mods@ =~= self.moduli@.take(i as int),
                forall|j: int| 0 <= j < i ==> (#[trigger] ct_vec@[j]).wf(),
                forall|j: int| 0 <= j < i ==> (#[trigger] ct_vec@[j]).canonical(),
                forall|j: int|
                    0 <= j < i ==> (#[trigger] ct_vec@[j]).message_modulus == self.moduli@[j],
                forall|j: int| 0 <= j < i ==> (#[trigger] ct_vec@[j]).carry_modulus == carry,
                forall|j: int|
                    0 <= j < i ==> (#[trigger] ct_vec@[j]).value as int == (message as int)
                        % (self.moduli@[j] as int),
                forall|j: int| 0 <= j < i ==> (#[trigger] ct_vec@[j]).degree == self.moduli@[j] - 1,
            decreases self.moduli@.len() - i,
        {
            let m = self.moduli[i];
            proof {
                vstd::arithmetic::mul::lemma_mul_inequality(
                    m as int,
                    self.key.parameters.message_modulus as int,
                    carry as int,
                );
                lemma_mod_division_less_than_divisor(message as int, m as int);
            }
            let block = shortint::Ciphertext {
                value: message % m,
                degree: m - 1,
                message_modulus: m,
                carry_modulus: carry,
            };
            ct_vec.push(block);
            mods.push(m);
            i = i + 1;
        }
        proof {
            assert(mods@ =~= self.moduli@);
        }
        Ciphertext { ct_vec, message_modulus_vec: mods, key_id_vec: Vec::new() }
    }

    /// Reads a CRT ciphertext back: the smallest nonnegative integer that
    /// agrees with every block residue, or the representation's modulus when
    /// no integer below it does (possible only for residues no encryption
    /// produced).
    pub fn decrypt(&self, ct: &Ciphertext) -> (r: u64)
        requires
            self.wf(),
            ct.crt_with(self.key.parameters.carry_modulus as int),
            ct.message_modulus_vec@ == self.moduli@,
            self.modulus() <= u64::MAX,
        ensures
            r <= self.modulus(),
            forall|y: int| 0 <= y < r ==> !crt_matches(y, *ct),
            r < self.modulus() ==> crt_matches(r as int, *ct),
    {
        let prod = self.modulus_u64();
        let mut x: u64 = 0;
        while x < prod
            invariant
                0 <= x <= prod,
                self.wf(),
                ct.crt_with(self.key.parameters.carry_modulus as int),
                ct.message_modulus_vec@ == self.moduli@,
                prod == self.modulus(),
                forall|y: int| 0 <= y < x ==> !crt_matches(y, *ct),
            decreases prod - x,
        {
            if self.residues_match(ct, x) {
                return x;
            }
            x = x + 1;
        }
        prod
    }

    /// Whether `x` agrees with every block residue of `ct`.
    fn residues_match(&self, ct: &Ciphertext, x: u64) -> (r: bool)
        requires
            self.wf(),
            ct.crt_with(self.key.parameters.carry_modulus as int),
            ct.message_modulus_vec@ == self.moduli@,
        ensures
            r == crt_matches(x as int, *ct),
    {
        let mut i: usize = 0;
        while i < ct.ct_vec.len()
            invariant
                0 <= i <= ct.ct_vec@.len(),
                self.wf(),
                ct.crt_with(self.key.parameters.carry_modulus as int),
                ct.message_modulus_vec@ == self.moduli@,
                forall|j: int|
                    0 <= j < i ==> (x as int) % (ct.message_modulus_vec@[j] as int) == (
                    ct.ct_vec@[j].value as int) % (ct.message_modulus_vec@[j] as int),
            decreases ct.ct_vec@.len() - i,
        {
            let m = ct.message_modulus_vec[i];
            if x % m != ct.ct_vec[i].value % m {
                return false;
            }
            i = i + 1;
        }
        true
    }

    /// The representation's modulus, as a machine word.
    pub fn modulus_u64(&self) -> (r: u64)
        requires
            self.wf(),
            self.modulus() <= u64::MAX,
        ensures
            r == self.modulus(),
    {
        let mut p: u64 = 1;
        let mut i: usize = 0;
        proof {
            assert(self.moduli_seq().take(0) =~= Seq::<int>::empty());
        }
        while i < self.moduli.len()
            invariant
                0 <= i <= self.moduli@.len(),
                self.wf(),
                self.modulus() <= u64::MAX,
                p == seq_product(self.moduli_seq().take(i as int)),
            decreases self.moduli@.len() - i,
        {
            proof {
                let ms = self.moduli_seq();
                assert(ms.take(i + 1) =~= ms.take(i as int).push(ms[i as int]));
                arith::lemma_seq_product_push(ms.take(i as int), ms[i as int]);
                arith::lemma_seq_product_bounds(ms, i + 1);
            }
            p = p * self.moduli[i];
            i = i + 1;
        }
        proof {
            assert(self.moduli_seq().take(self.moduli@.len() as int) =~= self.moduli_seq());
        }
        p
    }
}

} // verus!
