//! End-to-end tests of the decomposition driver and the pairing reduction,
//! on synthetic instances built directly from a chosen secret exponent.

use ark_bls12_381::{Bls12_381, Fr, G1Affine, G2Affine};
use ark_ec::pairing::{Pairing, PairingOutput};
use ark_ec::{AffineRepr, CurveGroup};
use ark_ff::Field;
use ark_serialize::CanonicalSerialize;

use cheon_engine::driver::{attack, derive_params, recover_exponent, AttackError, Params, Stage};
use cheon_engine::group::{G1Elem, G2Elem, GtElem};

fn ser<T: CanonicalSerialize>(t: &T) -> Vec<u8> {
    let mut v: Vec<u8> = Vec::new();
    t.serialize_compressed(&mut v).unwrap();
    v
}

fn base_pairing() -> PairingOutput<Bls12_381> {
    Bls12_381::pairing(G1Affine::generator(), G2Affine::generator())
}

fn gt_elem(e: PairingOutput<Bls12_381>, s: Fr) -> GtElem {
    GtElem::new(ser(&(e * s).0))
}

fn limbs(x: u128) -> [u64; 2] {
    [(x & 0xffff_ffff_ffff_ffff) as u64, (x >> 64) as u64]
}

/// Build `(e, target_a, target_b)` from the window offset and the two partial
/// exponents: `target_a = e^((2^d)^k0)` and `target_b = e^(2^(k0 + k1*qd))`.
fn instance(d: u64, qd: u64, k0: u128, k1: u128) -> (GtElem, GtElem, GtElem, u128) {
    let e = base_pairing();
    let two = Fr::from(2u64);
    let two_d = two.pow([d]);
    let tau: u128 = k0 + k1 * (qd as u128);
    let target_a = gt_elem(e, two_d.pow(limbs(k0)));
    let target_b = gt_elem(e, two.pow(limbs(tau)));
    (gt_elem(e, Fr::from(1u64)), target_a, target_b, tau)
}

#[test]
fn recovers_exact_secret_with_production_constants() {
    let a: u64 = 1089478584172543;
    let b: u64 = 1089547303649280;
    let d: u64 = 702047372;
    let qd: u64 = 1587011986761171;
    let k_star: u64 = a + 12345;
    let params = Params { a, b, d, qd, factor: 112, m: 111, factor1: 2, m1: 2 };
    let (e, ta, tb, tau) = instance(d, qd, k_star as u128, 0);
    assert_eq!(tau, (a + 12345) as u128);
    let got = recover_exponent(&e, &ta, &tb, &params);
    assert_eq!(got, Ok((a + 12345) as u128));
}

#[test]
fn round_trip_with_nonzero_cofactor_part() {
    let params = derive_params(1000, 1100, 50, 977);
    assert_eq!(params.factor, 10);
    assert_eq!(params.m, 10);
    assert_eq!(params.factor1, 8);
    assert_eq!(params.m1, 6);
    let k0: u128 = 1042;
    let k1: u128 = 37;
    let (e, ta, tb, tau) = instance(params.d, params.qd, k0, k1);
    assert_eq!(tau, 1042 + 37 * 977);
    let got = recover_exponent(&e, &ta, &tb, &params);
    assert_eq!(got, Ok(tau));
}

#[test]
fn pairing_reduction_recovers_secret_from_points() {
    let params = derive_params(500, 600, 30, 101);
    let k0: u128 = 577;
    let k1: u128 = 12;
    let tau: u128 = k0 + k1 * 101;
    let two = Fr::from(2u64);
    let two_d = two.pow([params.d]);
    let g1 = G1Affine::generator();
    let g2 = G2Affine::generator();
    let p_g1 = G1Elem::new(ser(&g1));
    let q_g2 = G2Elem::new(ser(&g2));
    let tau_p = G1Elem::new(ser(&(g1 * two.pow(limbs(tau))).into_affine()));
    let tau_d1_p = G1Elem::new(ser(&(g1 * two_d.pow(limbs(k0))).into_affine()));
    let tau_d2_q = G2Elem::new(ser(&g2));
    let got = attack(&p_g1, &tau_p, &tau_d1_p, &q_g2, &tau_d2_q, &params);
    assert_eq!(got, Ok(tau));
}

#[test]
fn unrelated_first_target_exhausts_stage_one() {
    let params = derive_params(10, 30, 4, 7);
    let e = base_pairing();
    let ge = gt_elem(e, Fr::from(1u64));
    let ta = gt_elem(e, Fr::from(3u64));
    let (_, _, tb, _) = instance(params.d, params.qd, 15, 1);
    let got = recover_exponent(&ge, &ta, &tb, &params);
    assert_eq!(got, Err(AttackError::SearchExhausted(Stage::One)));
}

#[test]
fn unrelated_second_target_exhausts_stage_two() {
    let params = derive_params(1000, 1100, 50, 977);
    let k0: u128 = 1042;
    let (e, ta, _, _) = instance(params.d, params.qd, k0, 0);
    let base = base_pairing();
    let tb = gt_elem(base, Fr::from(3u64));
    let got = recover_exponent(&e, &ta, &tb, &params);
    assert_eq!(got, Err(AttackError::SearchExhausted(Stage::Two)));
}

#[test]
fn derived_parameters_balance_the_searches() {
    let p = derive_params(0, 0x1_0000_0000_0000, 0xffff_ffff, 1);
    assert_eq!(p.factor, 0x100_0000);
    assert_eq!(p.m, 0x100_0000);
    assert_eq!(p.factor1, 65536);
    assert_eq!(p.m1, 65535);
}
