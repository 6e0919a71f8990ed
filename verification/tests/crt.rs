//! CRT-representation operations: blockwise independence, the three tiers
//! of addition, negation, subtraction and scalar multiplication.

use concrete_integer::CheckError;
use concrete_integer::CrtClientKey;
use concrete_integer::ClientKey;
use concrete_integer::Parameters;
use concrete_integer::ServerKey;

fn crt_setup() -> (CrtClientKey, ServerKey) {
    let params = Parameters { message_modulus: 8, carry_modulus: 4 };
    let cks = CrtClientKey::new(&params, vec![2, 3, 5]);
    let sks = ServerKey::new(&ClientKey::new(&params, 1));
    (cks, sks)
}

#[test]
fn crt_encrypt_decrypt_round_trip() {
    let (cks, _) = crt_setup();
    for v in [0u64, 1, 14, 29] {
        let ct = cks.encrypt(v);
        assert_eq!(cks.decrypt(&ct), v);
    }
    // values at or above the modulus come back reduced
    let ct = cks.encrypt(44);
    assert_eq!(cks.decrypt(&ct), 44 % 30);
}

#[test]
fn smart_crt_add_is_modular_addition() {
    let (cks, sks) = crt_setup();
    let mut ct1 = cks.encrypt(14);
    let mut ct2 = cks.encrypt(14);
    sks.smart_crt_add_assign(&mut ct1, &mut ct2);
    assert_eq!(cks.decrypt(&ct1), 28);
    let mut ct3 = cks.encrypt(25);
    let mut ct4 = cks.encrypt(7);
    let r = sks.smart_crt_add(&mut ct3, &mut ct4);
    assert_eq!(cks.decrypt(&r), (25 + 7) % 30);
}

#[test]
fn iterated_smart_crt_add_never_corrupts() {
    let (cks, sks) = crt_setup();
    let mut acc = cks.encrypt(1);
    let mut addend = cks.encrypt(7);
    for _ in 0..12 {
        sks.smart_crt_add_assign(&mut acc, &mut addend);
    }
    assert_eq!(cks.decrypt(&acc), (1 + 12 * 7) % 30);
}

#[test]
fn crt_neg_is_additive_inverse() {
    let (cks, sks) = crt_setup();
    let mut ct = cks.encrypt(14);
    sks.unchecked_crt_neg_assign(&mut ct);
    let mut normalized = ct.clone();
    sks.full_extract(&mut normalized);
    assert_eq!(cks.decrypt(&normalized), 16);
    let mut ct2 = cks.encrypt(14);
    sks.smart_crt_neg_assign(&mut ct2);
    sks.full_extract(&mut ct2);
    assert_eq!(cks.decrypt(&ct2), 16);
    let mut ct3 = cks.encrypt(14);
    let r = sks.smart_crt_neg(&mut ct3);
    let mut r = r;
    sks.full_extract(&mut r);
    assert_eq!(cks.decrypt(&r), 16);
    let r2 = sks.unchecked_crt_neg(&cks.encrypt(1));
    let mut r2 = r2;
    sks.full_extract(&mut r2);
    assert_eq!(cks.decrypt(&r2), 29);
}

#[test]
fn crt_sub_is_modular_subtraction() {
    let (cks, sks) = crt_setup();
    let mut ct1 = cks.encrypt(14);
    let ct2 = cks.encrypt(5);
    let mut r = sks.unchecked_crt_sub(&ct1, &ct2);
    sks.full_extract(&mut r);
    assert_eq!(cks.decrypt(&r), 9);
    sks.unchecked_crt_sub_assign(&mut ct1, &ct2);
    sks.full_extract(&mut ct1);
    assert_eq!(cks.decrypt(&ct1), 9);
}

#[test]
fn smart_crt_sub_matches() {
    let (cks, sks) = crt_setup();
    let mut ct1 = cks.encrypt(14);
    let mut ct2 = cks.encrypt(5);
    let mut r = sks.smart_crt_sub(&mut ct1, &mut ct2);
    sks.full_extract(&mut r);
    assert_eq!(cks.decrypt(&r), 9);
    let mut ct3 = cks.encrypt(5);
    let mut ct4 = cks.encrypt(14);
    sks.smart_crt_sub_assign(&mut ct3, &mut ct4);
    sks.full_extract(&mut ct3);
    assert_eq!(cks.decrypt(&ct3), (5 + 30 - 14) % 30);
}

#[test]
fn crt_scalar_mul_scales_residues() {
    let (cks, sks) = crt_setup();
    let mut ct1 = cks.encrypt(14);
    sks.unchecked_crt_scalar_mul_assign(&mut ct1, 2);
    sks.full_extract(&mut ct1);
    assert_eq!(cks.decrypt(&ct1), 28);
    let mut r = sks.unchecked_crt_scalar_mul(&cks.encrypt(14), 2);
    sks.full_extract(&mut r);
    assert_eq!(cks.decrypt(&r), 28);
    let mut ct2 = cks.encrypt(14);
    let mut r2 = sks.smart_crt_scalar_mul(&mut ct2, 2);
    sks.full_extract(&mut r2);
    assert_eq!(cks.decrypt(&r2), 28);
    let mut ct3 = cks.encrypt(14);
    sks.smart_crt_scalar_mul_assign(&mut ct3, 7);
    sks.full_extract(&mut ct3);
    assert_eq!(cks.decrypt(&ct3), (14 * 7) % 30);
}

#[test]
fn checked_crt_scalar_mul_reports_capacity() {
    let (cks, sks) = crt_setup();
    let ct = cks.encrypt(14);
    assert!(sks.is_crt_scalar_mul_possible(&ct, 2));
    match sks.checked_crt_scalar_mul(&ct, 2) {
        Ok(mut r) => {
            sks.full_extract(&mut r);
            assert_eq!(cks.decrypt(&r), 28);
        }
        Err(_) => panic!("checked_crt_scalar_mul rejected a scaling within capacity"),
    }
    let mut ct2 = cks.encrypt(14);
    assert_eq!(sks.checked_crt_scalar_mul_assign(&mut ct2, 2), Ok(()));
    // inflate the degrees until the predicate fails, then nothing changes
    let mut big = cks.encrypt(14);
    sks.unchecked_crt_scalar_mul_assign(&mut big, 4);
    assert!(!sks.is_crt_scalar_mul_possible(&big, 4));
    let snapshot = big.clone();
    assert_eq!(sks.checked_crt_scalar_mul_assign(&mut big, 4), Err(CheckError::CarryFull));
    let mut before = snapshot;
    let mut after = big;
    sks.full_extract(&mut before);
    sks.full_extract(&mut after);
    assert_eq!(cks.decrypt(&before), cks.decrypt(&after));
}

#[test]
fn corrupting_one_block_leaves_other_residues_alone() {
    let (cks, sks) = crt_setup();
    let clean = cks.encrypt(14);
    let mut corrupted = clean.clone();
    // push the first block past its own modulus without touching the rest
    corrupted.ct_vec[0].value += 7;
    corrupted.ct_vec[0].degree += 7;
    sks.full_extract(&mut corrupted);
    let mut clean = clean;
    sks.full_extract(&mut clean);
    assert_eq!(corrupted.ct_vec[1].value, clean.ct_vec[1].value);
    assert_eq!(corrupted.ct_vec[2].value, clean.ct_vec[2].value);
    assert_eq!(clean.ct_vec[1].value, 14 % 3);
    assert_eq!(clean.ct_vec[2].value, 14 % 5);
}
