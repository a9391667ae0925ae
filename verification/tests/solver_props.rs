//! Tests of the meet-in-the-middle solver, the progression table and the
//! scalar-field operations, against values computed independently with the
//! underlying curve library.

use ark_bls12_381::{Bls12_381, Fr, G1Affine, G2Affine};
use ark_ec::pairing::{Pairing, PairingOutput};
use ark_ec::AffineRepr;
use ark_ff::Field;
use ark_serialize::CanonicalSerialize;

use cheon_engine::driver::isqrt;
use cheon_engine::group::{build_progression_table, table_index_of, GtElem};
use cheon_engine::scalar::{pow_sp, scalar_from_u128, scalar_inverse, scalar_mul};
use cheon_engine::solver::baby_steps_giant_steps;

fn ser<T: CanonicalSerialize>(t: &T) -> Vec<u8> {
    let mut v: Vec<u8> = Vec::new();
    t.serialize_compressed(&mut v).unwrap();
    v
}

fn base_pairing() -> PairingOutput<Bls12_381> {
    Bls12_381::pairing(G1Affine::generator(), G2Affine::generator())
}

fn gt_elem(e: PairingOutput<Bls12_381>, s: Fr) -> GtElem {
    GtElem::new(ser(&(e * s).0))
}

#[test]
fn solver_finds_every_offset_within_bound() {
    let e = base_pairing();
    let gb = gt_elem(e, Fr::from(1u64));
    let seven = Fr::from(7u64);
    let ratio = scalar_from_u128(7);
    let factor: u64 = 5;
    let m: u64 = 5;
    for k in 0..=(factor * m) {
        let bb = gt_elem(e, seven.pow([k]));
        let got = baby_steps_giant_steps(&bb, &gb, &ratio, factor, m);
        let (u, v) = got.expect("a collision must exist within the bound");
        assert_eq!(u + factor * v, k);
    }
}

#[test]
fn solver_returns_nothing_beyond_every_representable_offset() {
    let e = base_pairing();
    let gb = gt_elem(e, Fr::from(1u64));
    let seven = Fr::from(7u64);
    let ratio = scalar_from_u128(7);
    let bb = gt_elem(e, seven.pow([36u64]));
    let got = baby_steps_giant_steps(&bb, &gb, &ratio, 5, 5);
    assert_eq!(got, None);
}

#[test]
fn solver_reports_first_collision_pair() {
    let e = base_pairing();
    let gb = gt_elem(e, Fr::from(1u64));
    let seven = Fr::from(7u64);
    let ratio = scalar_from_u128(7);
    let bb = gt_elem(e, seven.pow([23u64]));
    let got = baby_steps_giant_steps(&bb, &gb, &ratio, 5, 5);
    assert_eq!(got, Some((3, 4)));
}

#[test]
fn progression_table_matches_the_curve_library() {
    let e = base_pairing();
    let base = gt_elem(e, Fr::from(1u64));
    let seven = Fr::from(7u64);
    let ratio = scalar_from_u128(7);
    let t = build_progression_table(&base, &ratio, 3);
    assert_eq!(t.len(), 4);
    assert_eq!(t[0].as_bytes(), &ser(&e.0));
    assert_eq!(t[1].as_bytes(), &ser(&(e * seven).0));
    assert_eq!(t[2].as_bytes(), &ser(&(e * seven.pow([2u64])).0));
    assert_eq!(t[3].as_bytes(), &ser(&(e * seven.pow([3u64])).0));
}

#[test]
fn table_construction_is_idempotent() {
    let e = base_pairing();
    let base = gt_elem(e, Fr::from(5u64));
    let ratio = scalar_from_u128(11);
    let t1 = build_progression_table(&base, &ratio, 8);
    let t2 = build_progression_table(&base, &ratio, 8);
    assert_eq!(t1.len(), t2.len());
    for i in 0..t1.len() {
        assert_eq!(t1[i].as_bytes(), t2[i].as_bytes());
    }
    let key = base.duplicate();
    assert_eq!(table_index_of(&t1, &key), table_index_of(&t2, &key));
    assert_eq!(table_index_of(&t1, &key), Some(0));
}

#[test]
fn lookup_returns_first_index_of_duplicates() {
    let e = base_pairing();
    let one = gt_elem(e, Fr::from(1u64));
    let ratio = scalar_from_u128(1);
    let t = build_progression_table(&one, &ratio, 4);
    assert_eq!(table_index_of(&t, &one), Some(0));
    let other = gt_elem(e, Fr::from(2u64));
    assert_eq!(table_index_of(&t, &other), None);
}

#[test]
fn scalar_power_has_exact_small_values() {
    let three = scalar_from_u128(3);
    let got = pow_sp(&three, 5);
    let expect = scalar_from_u128(243);
    assert_eq!(got.as_bytes(), expect.as_bytes());
    let two = scalar_from_u128(2);
    let got2 = pow_sp(&two, 0);
    assert_eq!(got2.as_bytes(), scalar_from_u128(1).as_bytes());
}

#[test]
fn scalar_power_matches_the_curve_library_on_wide_exponents() {
    let two = scalar_from_u128(2);
    let wide: u128 = 0xdead_beef_0123_4567_89ab_cdef_5555;
    let got = pow_sp(&two, wide);
    let lo: u64 = (wide & 0xffff_ffff_ffff_ffff) as u64;
    let hi: u64 = (wide >> 64) as u64;
    let expect = Fr::from(2u64).pow([lo, hi]);
    assert_eq!(got.as_bytes(), &ser(&expect));
}

#[test]
fn scalar_inverse_cancels_multiplication() {
    let two = scalar_from_u128(2);
    let inv = scalar_inverse(&two).expect("two is invertible");
    let prod = scalar_mul(&two, &inv);
    assert_eq!(prod.as_bytes(), scalar_from_u128(1).as_bytes());
    let zero = scalar_from_u128(0);
    assert!(scalar_inverse(&zero).is_none());
}

#[test]
fn integer_square_root_brackets_its_argument() {
    assert_eq!(isqrt(0), 0);
    assert_eq!(isqrt(1), 1);
    assert_eq!(isqrt(99), 9);
    assert_eq!(isqrt(100), 10);
    assert_eq!(isqrt(68719476737), 262144);
    assert_eq!(isqrt(0x1_0000_0000_0000), 0x100_0000);
}
