//! Key construction, the parameter traits, and the decomposition grid
//! helpers.

use concrete_integer::compute_nb_of_b_l;
use concrete_integer::gen_keys;
use concrete_integer::CrtClientKey;
use concrete_integer::CrtParameters;
use concrete_integer::ClientKey;
use concrete_integer::FromParameters;
use concrete_integer::EvaluationIntegerKey;
use concrete_integer::Parameter;
use concrete_integer::Parameters;
use concrete_integer::PrivateIntegerKey;
use concrete_integer::RadixClientKey;
use concrete_integer::RadixParameters;
use concrete_integer::ServerKey;

#[test]
fn radix_encrypt_decrypt_round_trip() {
    let params = Parameters { message_modulus: 4, carry_modulus: 4 };
    let cks = RadixClientKey::new(&params, 4);
    for v in [0u64, 1, 255, 137] {
        let ct = cks.encrypt(v);
        assert_eq!(cks.decrypt(&ct), v);
    }
    // values past the modulus come back reduced
    let ct = cks.encrypt(1000);
    assert_eq!(cks.decrypt(&ct), 1000 % 256);
}

#[test]
fn server_key_from_shortint_matches_new() {
    let params = Parameters { message_modulus: 4, carry_modulus: 4 };
    let cks = ClientKey::new(&params, 4);
    let sks = ServerKey::new(&cks);
    let rebuilt = ServerKey::from_shortint(&cks, sks.key);
    assert_eq!(rebuilt.key.max_degree.0, 11);
    assert_eq!(rebuilt.key.message_modulus, 4);
}

#[test]
fn from_parameters_builds_working_keys() {
    let block = Parameters { message_modulus: 4, carry_modulus: 4 };
    let radix = RadixClientKey::from_parameters(RadixParameters {
        block_parameters: block,
        num_block: 4,
    });
    let ct = PrivateIntegerKey::encrypt(&radix, 99);
    assert_eq!(PrivateIntegerKey::decrypt(&radix, &ct), 99);

    let crt = CrtClientKey::from_parameters(CrtParameters {
        block_parameters: Parameters { message_modulus: 8, carry_modulus: 4 },
        moduli: vec![2, 3, 5],
    });
    let ct = PrivateIntegerKey::encrypt(&crt, 17);
    assert_eq!(PrivateIntegerKey::decrypt(&crt, &ct), 17);
}

#[test]
fn evaluation_key_from_client_key() {
    let params = Parameters { message_modulus: 4, carry_modulus: 4 };
    let cks = ClientKey::new(&params, 4);
    let sks: ServerKey = EvaluationIntegerKey::new(&cks);
    let mut a = cks.encrypt(8);
    let mut b = cks.encrypt(9);
    let r = sks.smart_add(&mut a, &mut b);
    assert_eq!(cks.decrypt(&r), 17);
}

#[test]
fn grid_parameter_getters() {
    let singleton = Parameter::Singleton(1 << 10);
    assert_eq!(singleton.get_singleton(), 1024);
    let pair = Parameter::BaseLevel { base: 4, level: 6 };
    assert_eq!(pair.get_base(), 4);
    assert_eq!(pair.get_level(), 6);
    assert_eq!(pair.clone(), pair);
}

#[test]
fn counts_only_pairs_within_budget() {
    // 2 * 10 and 4 * 13 fit the 53-bit budget; 3 * 30 does not
    let bases = [2usize, 3, 4];
    let levels = [10usize, 30, 13];
    assert_eq!(compute_nb_of_b_l(&bases, &levels), 2);
    assert_eq!(compute_nb_of_b_l(&[], &[]), 0);
}

#[test]
fn gen_keys_produces_matching_pair() {
    let params = Parameters { message_modulus: 4, carry_modulus: 4 };
    let (cks, sks) = gen_keys(&params, 4);
    let ct = cks.encrypt(200);
    let mut ct = ct;
    sks.full_propagate(&mut ct);
    assert_eq!(cks.decrypt(&ct), 200);
}
