//! Radix-representation operations: correctness of the smart tier,
//! propagation, the checked tier's failure behavior, shifts and
//! multiplication.

use concrete_integer::gen_keys;
use concrete_integer::CheckError;
use concrete_integer::Parameters;

fn params_2_2() -> Parameters {
    Parameters { message_modulus: 4, carry_modulus: 4 }
}

#[test]
fn smart_add_is_modular_addition() {
    let size = 4;
    let (cks, sks) = gen_keys(&params_2_2(), size);
    for (a, b) in [(7u64, 7u64), (0, 0), (255, 255), (200, 100), (1, 254)] {
        let mut ct1 = cks.encrypt(a);
        let mut ct2 = cks.encrypt(b);
        let ct_res = sks.smart_add(&mut ct1, &mut ct2);
        assert_eq!(cks.decrypt(&ct_res), (a + b) % 256);
    }
}

#[test]
fn smart_add_assign_accumulates() {
    let (cks, sks) = gen_keys(&params_2_2(), 4);
    let mut acc = cks.encrypt(10);
    let mut addend = cks.encrypt(10);
    sks.smart_add_assign(&mut acc, &mut addend);
    assert_eq!(cks.decrypt(&acc), 20);
}

#[test]
fn iterated_smart_add_never_corrupts() {
    let (cks, sks) = gen_keys(&params_2_2(), 4);
    let mut acc = cks.encrypt(3);
    let mut addend = cks.encrypt(7);
    for _ in 0..20 {
        sks.smart_add_assign(&mut acc, &mut addend);
    }
    assert_eq!(cks.decrypt(&acc), (3 + 20 * 7) % 256);
}

#[test]
fn repeated_smart_add_matches_formula() {
    let (cks, sks) = gen_keys(&params_2_2(), 4);
    let mut acc = cks.encrypt(5);
    let mut addend = cks.encrypt(11);
    sks.repeated_smart_add(&mut acc, &mut addend, 30);
    assert_eq!(cks.decrypt(&acc), (5 + 30 * 11) % 256);
}

#[test]
fn repeated_smart_mul_matches_powers() {
    let (cks, sks) = gen_keys(&params_2_2(), 4);
    let mut acc = cks.encrypt(1);
    let mut multiplier = cks.encrypt(3);
    sks.repeated_smart_mul(&mut acc, &mut multiplier, 5);
    // 3^5 == 243
    assert_eq!(cks.decrypt(&acc), 243);
}

#[test]
fn full_propagate_reduces_overflowed_digits() {
    // base 10, raw digits (13, 3): propagation must yield (3, 4),
    // the canonical form of 43
    let params = Parameters { message_modulus: 10, carry_modulus: 4 };
    let (cks, sks) = gen_keys(&params, 2);
    let ct7 = cks.encrypt(7);
    let ct6 = cks.encrypt(6);
    let ct30 = cks.encrypt(30);
    let mut ct = sks.unchecked_add(&ct7, &ct6);
    sks.unchecked_add_assign(&mut ct, &ct30);
    assert_eq!(ct.ct_vec[0].value, 13);
    assert_eq!(ct.ct_vec[1].value, 3);
    sks.full_propagate(&mut ct);
    assert_eq!(ct.ct_vec[0].value, 3);
    assert_eq!(ct.ct_vec[1].value, 4);
    assert_eq!(cks.decrypt(&ct), 43);
}

#[test]
fn propagate_moves_one_carry() {
    let (cks, sks) = gen_keys(&params_2_2(), 4);
    let ct1 = cks.encrypt(7);
    let ct2 = cks.encrypt(7);
    let mut ct_res = sks.unchecked_add(&ct1, &ct2);
    sks.propagate(&mut ct_res, 0);
    assert_eq!(ct_res.ct_vec[0].value, 2);
    assert_eq!(ct_res.ct_vec[1].value, 3);
    assert_eq!(cks.decrypt(&ct_res), 14);
}

#[test]
fn checked_add_rejects_full_carries_without_mutating() {
    let (cks, sks) = gen_keys(&params_2_2(), 4);
    let base = cks.encrypt(2);
    let doubled = sks.unchecked_add(&base, &base);
    let mut saturated = sks.unchecked_add(&doubled, &doubled);
    // every block's degree is now 12, above the ceiling of 11
    assert!(!sks.is_add_possible(&saturated, &saturated));
    let before = cks.decrypt(&saturated);
    let snapshot = saturated.clone();
    match sks.checked_add(&saturated, &saturated) {
        Ok(_) => panic!("checked_add accepted an addition past the ceiling"),
        Err(e) => assert_eq!(e, CheckError::CarryFull),
    }
    let r = sks.checked_add_assign(&mut saturated, &snapshot);
    assert_eq!(r, Err(CheckError::CarryFull));
    assert_eq!(cks.decrypt(&saturated), before);
}

#[test]
fn checked_add_accepts_within_capacity() {
    let (cks, sks) = gen_keys(&params_2_2(), 4);
    let ct1 = cks.encrypt(100);
    let ct2 = cks.encrypt(55);
    match sks.checked_add(&ct1, &ct2) {
        Ok(ct) => assert_eq!(cks.decrypt(&ct), 155),
        Err(_) => panic!("checked_add rejected an addition within capacity"),
    }
}

#[test]
fn unchecked_mul_decomposes_by_blocks() {
    // 170 * 3 under the 8-bit modulus is 510, which reduces to 254
    let (cks, sks) = gen_keys(&params_2_2(), 4);
    let mut ct1 = cks.encrypt(170);
    let ct2 = cks.encrypt(3);
    let ct_res = sks.unchecked_mul(&mut ct1, &ct2);
    assert_eq!(cks.decrypt(&ct_res), 254);
}

#[test]
fn smart_mul_is_modular_multiplication() {
    let (cks, sks) = gen_keys(&params_2_2(), 4);
    for (a, b) in [(170u64, 6u64), (3, 5), (255, 255), (16, 16)] {
        let mut ct1 = cks.encrypt(a);
        let mut ct2 = cks.encrypt(b);
        let ct_res = sks.smart_mul(&mut ct1, &mut ct2);
        assert_eq!(cks.decrypt(&ct_res), (a * b) % 256);
    }
}

#[test]
fn smart_mul_assign_matches() {
    let (cks, sks) = gen_keys(&params_2_2(), 4);
    let mut ct1 = cks.encrypt(13);
    let mut ct2 = cks.encrypt(19);
    sks.smart_mul_assign(&mut ct1, &mut ct2);
    assert_eq!(cks.decrypt(&ct1), (13 * 19) % 256);
}

#[test]
fn multivalue_mul_agrees_with_plain_mul() {
    let (cks, sks) = gen_keys(&params_2_2(), 4);
    let mut ct1 = cks.encrypt(170);
    let ct2 = cks.encrypt(3);
    let plain = sks.unchecked_mul(&mut ct1, &ct2);
    let multi = sks.unchecked_multivalue_mul(&mut ct1, &ct2);
    assert_eq!(cks.decrypt(&plain), cks.decrypt(&multi));
    let mut ct3 = cks.encrypt(99);
    sks.unchecked_mutlivalue_mul_assign(&mut ct3, &ct2);
    assert_eq!(cks.decrypt(&ct3), (99 * 3) % 256);
}

#[test]
fn smart_multivalue_mul_matches() {
    let (cks, sks) = gen_keys(&params_2_2(), 4);
    let mut ct1 = cks.encrypt(170);
    let mut ct2 = cks.encrypt(6);
    let r = sks.smart_multivalue_mul(&mut ct1, &mut ct2);
    assert_eq!(cks.decrypt(&r), (170 * 6) % 256);
    let mut ct3 = cks.encrypt(7);
    let mut ct4 = cks.encrypt(9);
    sks.smart_multivalue_mul_assign(&mut ct3, &mut ct4);
    assert_eq!(cks.decrypt(&ct3), 63);
}

#[test]
fn block_mul_places_digit_products() {
    let (cks, sks) = gen_keys(&params_2_2(), 4);
    let clear_1 = 55u64;
    let clear_2 = 3u8;
    let ct_left = cks.encrypt(clear_1);
    let ct_right = sks.key.create_trivial(clear_2);
    let ct_res = sks.unchecked_block_mul(&ct_left, &ct_right, 0);
    assert_eq!(cks.decrypt(&ct_res), (clear_1 * clear_2 as u64) % 256);
    let ct_shifted = sks.unchecked_block_mul(&ct_left, &ct_right, 1);
    assert_eq!(cks.decrypt(&ct_shifted), (clear_1 * clear_2 as u64 * 4) % 256);
}

#[test]
fn smart_block_mul_handles_dirty_operands() {
    let (cks, sks) = gen_keys(&params_2_2(), 4);
    let base = cks.encrypt(85);
    let mut dirty = sks.unchecked_add(&base, &base);
    let digit = sks.key.create_trivial(3);
    let r = sks.smart_block_mul(&mut dirty, &digit, 0);
    assert_eq!(cks.decrypt(&r), (170 * 3) % 256);
    let mut again = cks.encrypt(170);
    sks.smart_block_mul_assign(&mut again, &digit, 0);
    assert_eq!(cks.decrypt(&again), 254);
    let mut multi = cks.encrypt(170);
    let r2 = sks.smart_multivalue_block_mul(&mut multi, &digit, 0);
    assert_eq!(cks.decrypt(&r2), 254);
    let mut multi2 = cks.encrypt(170);
    sks.smart_multivalue_block_mul_assign(&mut multi2, &digit, 0);
    assert_eq!(cks.decrypt(&multi2), 254);
    let r3 = sks.unchecked_multivalue_block_mul(&cks.encrypt(55), &digit, 0);
    assert_eq!(cks.decrypt(&r3), (55 * 3) % 256);
}

#[test]
fn create_trivial_zero_decrypts_to_zero() {
    let (cks, sks) = gen_keys(&params_2_2(), 4);
    let ct = sks.create_trivial_zero(4, vec![], vec![]);
    assert_eq!(cks.decrypt(&ct), 0);
}

#[test]
fn scalar_add_and_sub_are_modular() {
    let (cks, sks) = gen_keys(&params_2_2(), 4);
    let mut ct = cks.encrypt(200);
    sks.smart_scalar_add_assign(&mut ct, 100);
    assert_eq!(cks.decrypt(&ct), (200 + 100) % 256);
    let mut ct2 = cks.encrypt(7);
    let r = sks.smart_scalar_add(&mut ct2, 4);
    assert_eq!(cks.decrypt(&r), 11);
    let r2 = sks.unchecked_scalar_add(&cks.encrypt(1), 2);
    assert_eq!(cks.decrypt(&r2), 3);
    let mut ct3 = cks.encrypt(1);
    sks.unchecked_scalar_add_assign(&mut ct3, 2);
    assert_eq!(cks.decrypt(&ct3), 3);
    let mut ct4 = cks.encrypt(14);
    sks.smart_scalar_sub_assign(&mut ct4, 20);
    assert_eq!(cks.decrypt(&ct4), (14 + 256 - 20) % 256);
    let mut ct5 = cks.encrypt(100);
    let r3 = sks.smart_scalar_sub(&mut ct5, 1);
    assert_eq!(cks.decrypt(&r3), 99);
    let trivial = sks.create_trivial_radix(170, 4);
    assert_eq!(cks.decrypt(&trivial), 170);
}

#[test]
fn smart_neg_is_additive_inverse() {
    let (cks, sks) = gen_keys(&params_2_2(), 4);
    for v in [0u64, 1, 14, 255, 128] {
        let mut ct = cks.encrypt(v);
        sks.smart_neg_assign(&mut ct);
        assert_eq!(cks.decrypt(&ct), (256 - v) % 256, "negation of {v}");
    }
    let mut ct = cks.encrypt(14);
    let r = sks.smart_neg(&mut ct);
    assert_eq!(cks.decrypt(&r), 242);
    let r2 = sks.unchecked_neg(&cks.encrypt(1));
    assert_eq!(cks.decrypt(&r2), 255);
    let mut ct3 = cks.encrypt(100);
    sks.unchecked_neg_assign(&mut ct3);
    assert_eq!(cks.decrypt(&ct3), 156);
}

#[test]
fn smart_sub_is_modular_subtraction() {
    let (cks, sks) = gen_keys(&params_2_2(), 4);
    for (a, b) in [(14u64, 5u64), (5, 14), (0, 0), (255, 1), (0, 255)] {
        let mut ct1 = cks.encrypt(a);
        let mut ct2 = cks.encrypt(b);
        sks.smart_sub_assign(&mut ct1, &mut ct2);
        assert_eq!(cks.decrypt(&ct1), (a + 256 - b) % 256, "{a} - {b}");
    }
    let mut ct1 = cks.encrypt(20);
    let mut ct2 = cks.encrypt(6);
    let r = sks.smart_sub(&mut ct1, &mut ct2);
    assert_eq!(cks.decrypt(&r), 14);
}
