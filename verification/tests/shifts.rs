//! Bit shifts of radix ciphertexts: block moves, left and right shifts,
//! the round trip, and the two-block lookup primitive.

use concrete_integer::gen_keys;
use concrete_integer::Parameters;

fn params_2_2() -> Parameters {
    Parameters { message_modulus: 4, carry_modulus: 4 }
}

#[test]
fn blockshift_right_divides_by_block_base() {
    let (cks, sks) = gen_keys(&params_2_2(), 4);
    let ct = cks.encrypt(16);
    let shifted = sks.blockshift_right(&ct, 2);
    assert_eq!(cks.decrypt(&shifted), 16 / 16);
    let mut ct2 = cks.encrypt(100);
    sks.blockshift_right_assign(&mut ct2, 1);
    assert_eq!(cks.decrypt(&ct2), 100 / 4);
}

#[test]
fn left_shift_multiplies_by_power_of_two() {
    let (cks, sks) = gen_keys(&params_2_2(), 4);
    for (msg, shift) in [(21u64, 2usize), (13, 2), (3, 5), (1, 7), (255, 1)] {
        let ct = cks.encrypt(msg);
        let ct_res = sks.unchecked_scalar_left_shift(&ct, shift);
        assert_eq!(cks.decrypt(&ct_res), (msg << shift) % 256, "<< {shift} of {msg}");
    }
    let mut ct = cks.encrypt(13);
    sks.unchecked_scalar_left_shift_assign(&mut ct, 2);
    assert_eq!(cks.decrypt(&ct), 52);
    let mut ct = cks.encrypt(13);
    sks.unchecked_multivalue_scalar_left_shift_assign(&mut ct, 2);
    assert_eq!(cks.decrypt(&ct), 52);
}

#[test]
fn right_shift_divides_by_power_of_two() {
    let (cks, sks) = gen_keys(&params_2_2(), 4);
    for (msg, shift) in [(128u64, 2usize), (18, 4), (255, 3), (255, 1), (7, 0), (129, 7)] {
        let ct = cks.encrypt(msg);
        let ct_res = sks.unchecked_scalar_right_shift(&ct, shift);
        assert_eq!(cks.decrypt(&ct_res), msg >> shift, ">> {shift} of {msg}");
    }
    let mut ct = cks.encrypt(18);
    sks.unchecked_scalar_right_shift_assign(&mut ct, 4);
    assert_eq!(cks.decrypt(&ct), 1);
    let mut ct = cks.encrypt(18);
    sks.unchecked_multivalue_scalar_right_shift_assign(&mut ct, 4);
    assert_eq!(cks.decrypt(&ct), 1);
}

#[test]
fn shift_round_trip_restores_value() {
    // for values whose shifted form still fits the modulus, a left shift
    // followed by a right shift is the identity
    let (cks, sks) = gen_keys(&params_2_2(), 4);
    for (msg, shift) in [(21u64, 3usize), (1, 7), (5, 4), (63, 2)] {
        let ct = cks.encrypt(msg);
        let mut shifted = sks.unchecked_scalar_left_shift(&ct, shift);
        // the left shift leaves scaled digits; reduce them to canonical
        // form before the right shift reads them
        sks.full_propagate(&mut shifted);
        let ct_back = sks.unchecked_scalar_right_shift(&shifted, shift);
        assert_eq!(cks.decrypt(&ct_back), msg, "round trip of {msg} by {shift}");
    }
}

#[test]
fn message_bits_reads_block_width() {
    let (_, sks) = gen_keys(&params_2_2(), 4);
    assert_eq!(sks.message_bits(), 2);
    let (_, sks8) = gen_keys(&Parameters { message_modulus: 8, carry_modulus: 8 }, 2);
    assert_eq!(sks8.message_bits(), 3);
}

#[test]
fn two_block_pbs_evaluates_table() {
    let (cks, sks) = gen_keys(&params_2_2(), 2);
    // f(x) = x + 1 over the combined two-block domain
    let table: Vec<u64> = (0..256u64).map(|x| x + 1).collect();
    let ct = cks.encrypt(11);
    let r = sks.two_block_pbs(&ct, &table);
    assert_eq!(cks.decrypt(&r), 12);
}

#[test]
fn three_block_pbs_evaluates_table() {
    let (cks, sks) = gen_keys(&params_2_2(), 3);
    // f(x) = 2 * x over the combined three-block domain
    let table: Vec<u64> = (0..4096u64).map(|x| 2 * x).collect();
    let ct = cks.encrypt(21);
    let r = sks.three_block_pbs(&ct, &table);
    assert_eq!(cks.decrypt(&r), 42);
}

#[test]
fn smart_scalar_mul_scales_blocks() {
    let (cks, sks) = gen_keys(&params_2_2(), 4);
    let mut ct = cks.encrypt(51);
    sks.smart_scalar_mul_assign(&mut ct, 3);
    assert_eq!(cks.decrypt(&ct), 153);
    let mut ct2 = cks.encrypt(51);
    sks.smart_multivalue_scalar_mul_assign(&mut ct2, 3);
    assert_eq!(cks.decrypt(&ct2), 153);
    let ct3 = sks.unchecked_small_scalar_mul(&cks.encrypt(10), 2);
    assert_eq!(cks.decrypt(&ct3), 20);
    let mut ct4 = cks.encrypt(10);
    sks.unchecked_small_scalar_mul_assign(&mut ct4, 2);
    assert_eq!(cks.decrypt(&ct4), 20);
    assert!(sks.is_small_scalar_mul_possible(&cks.encrypt(10), 3));
}
