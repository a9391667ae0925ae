//! The exponent domain: elements of the scalar field of BLS12-381, carried as
//! their canonical 32-byte little-endian encodings, with exact modular
//! contracts on every operation.

use vstd::prelude::*;
use vstd::arithmetic::power::{pow, lemma_pow_multiplies, lemma_square_is_pow2, lemma_pow_mod_noop};
use vstd::arithmetic::div_mod::{lemma_small_mod, lemma_mul_mod_noop_general};
use vstd::arithmetic::mul::{lemma_mul_is_associative, lemma_mul_is_commutative};
use vstd::calc;
use ark_ff::Field;
use ark_serialize::{CanonicalSerialize, CanonicalDeserialize};

verus! {

/// The integer a little-endian byte string stands for.
pub open spec fn le_int(s: Seq<u8>) -> int
    decreases s.len(),
{
    if s.len() == 0 {
        0
    } else {
        s[0] + 256 * le_int(s.skip(1))
    }
}

/// The order of the scalar field of BLS12-381 (the order of the pairing
/// target group the engine searches in).
pub open spec fn r_mod() -> int {
    ((0x73eda753299d7d48int * 0x1_0000_0000_0000_0000 + 0x3339d80809a1d805)
        * 0x1_0000_0000_0000_0000 + 0x53bda402fffe5bfe) * 0x1_0000_0000_0000_0000
        + 0xffffffff00000001
}

/// A scalar field element: canonical little-endian bytes of an integer
/// strictly below the field order.
pub struct FrElem {
    bytes: Vec<u8>,
}

impl View for FrElem {
    type V = Seq<u8>;

    closed spec fn view(&self) -> Seq<u8> {
        self.bytes@
    }
}

impl FrElem {
    /// Canonical form: exactly 32 bytes, value reduced below the field order.
    pub open spec fn wf(&self) -> bool {
        self@.len() == 32 && 0 <= le_int(self@) && le_int(self@) < r_mod()
    }

    pub fn as_bytes(&self) -> (r: &Vec<u8>)
        ensures
            r@ == self@,
    {
        &self.bytes
    }
}

/// Relies on `ark_ff`'s `Fr::from(u128)`, which reduces the integer modulo the
/// field order, and on `ark_serialize`, whose compressed form of a field
/// element is its canonical 32-byte little-endian encoding.
#[verifier::external_body]
fn fr_from_u128_raw(x: u128) -> (r: FrElem)
    ensures
        r.wf(),
        le_int(r@) == x as int % r_mod(),
{
    let f = ark_bls12_381::Fr::from(x);
    let mut bytes: Vec<u8> = Vec::new();
    f.serialize_compressed(&mut bytes).unwrap();
    FrElem { bytes }
}

/// Relies on `ark_ff` field multiplication in `Fr`: the canonical value of the
/// product is the product of the canonical values, reduced modulo the field
/// order. Deserialization accepts exactly the canonical encodings.
#[verifier::external_body]
fn fr_mul_raw(a: &FrElem, b: &FrElem) -> (r: FrElem)
    requires
        a.wf(),
        b.wf(),
    ensures
        r.wf(),
        le_int(r@) == (le_int(a@) * le_int(b@)) % r_mod(),
{
    let fa = ark_bls12_381::Fr::deserialize_compressed(&a.bytes[..]).unwrap();
    let fb = ark_bls12_381::Fr::deserialize_compressed(&b.bytes[..]).unwrap();
    let fc = fa * fb;
    let mut bytes: Vec<u8> = Vec::new();
    fc.serialize_compressed(&mut bytes).unwrap();
    FrElem { bytes }
}

/// Relies on `ark_ff`'s `Field::inverse`: it returns `None` exactly on zero,
/// and otherwise the unique multiplicative inverse in the field.
#[verifier::external_body]
fn fr_inv_raw(a: &FrElem) -> (r: Option<FrElem>)
    requires
        a.wf(),
    ensures
        match r {
            Some(inv) => inv.wf() && le_int(a@) != 0 && (le_int(a@) * le_int(inv@)) % r_mod()
                == 1,
            None => le_int(a@) == 0,
        },
{
    let fa = ark_bls12_381::Fr::deserialize_compressed(&a.bytes[..]).unwrap();
    match fa.inverse() {
        None => None,
        Some(fi) => {
            let mut bytes: Vec<u8> = Vec::new();
            fi.serialize_compressed(&mut bytes).unwrap();
            Some(FrElem { bytes })
        },
    }
}

/// Build the scalar with the given small value.
pub fn scalar_from_u128(x: u128) -> (r: FrElem)
    ensures
        r.wf(),
        le_int(r@) == x as int % r_mod(),
{
    fr_from_u128_raw(x)
}

/// Multiplication in the scalar field.
pub fn scalar_mul(a: &FrElem, b: &FrElem) -> (r: FrElem)
    requires
        a.wf(),
        b.wf(),
    ensures
        r.wf(),
        le_int(r@) == (le_int(a@) * le_int(b@)) % r_mod(),
{
    fr_mul_raw(a, b)
}

/// The multiplicative inverse of `a` modulo the field order, as an integer.
pub open spec fn inv_mod(a: int) -> int {
    choose|x: int| 0 <= x < r_mod() && (#[trigger] (a * x)) % r_mod() == 1
}

/// An element of the field has at most one multiplicative inverse.
pub proof fn lemma_inv_unique(a: int, x: int, y: int)
    requires
        0 <= x < r_mod(),
        0 <= y < r_mod(),
        (a * x) % r_mod() == 1,
        (a * y) % r_mod() == 1,
    ensures
        x == y,
{
    let r: int = r_mod();
    assert(((a * x) % r * y) % r == (a * x * y) % r) by {
        lemma_mul_mod_noop_general(a * x, y, r);
    }
    assert((1 * y) % r == y) by {
        lemma_small_mod(y as nat, r as nat);
    }
    assert(((a * y) % r * x) % r == (a * y * x) % r) by {
        lemma_mul_mod_noop_general(a * y, x, r);
    }
    assert((1 * x) % r == x) by {
        lemma_small_mod(x as nat, r as nat);
    }
    assert(a * x * y == a * y * x) by {
        lemma_mul_is_associative(a, x, y);
        lemma_mul_is_associative(a, y, x);
        lemma_mul_is_commutative(x, y);
    }
}

/// Field inversion. Returns `None` exactly on zero; on success the result is
/// the inverse of `a`.
pub fn scalar_inverse(a: &FrElem) -> (r: Option<FrElem>)
    requires
        a.wf(),
    ensures
        match r {
            Some(inv) => inv.wf() && le_int(a@) != 0 && le_int(inv@) == inv_mod(le_int(a@)),
            None => le_int(a@) == 0,
        },
{
    let r = fr_inv_raw(a);
    match r {
        None => None,
        Some(inv) => {
            proof {
                let a_val: int = le_int(a@);
                let w: int = le_int(inv@);
                assert(0 <= w < r_mod() && (a_val * w) % r_mod() == 1);
                let c: int = inv_mod(a_val);
                assert(0 <= c < r_mod() && (a_val * c) % r_mod() == 1) by {
                    assert(exists|x: int| 0 <= x < r_mod() && (#[trigger] (a_val * x)) % r_mod() == 1);
                }
                lemma_inv_unique(a_val, w, c);
            }
            Some(inv)
        },
    }
}

/// Binary exponentiation in the scalar field: `base` raised to `exp`,
/// handled across the full width of the exponent type.
pub fn pow_sp(base: &FrElem, exp: u128) -> (r: FrElem)
    requires
        base.wf(),
    ensures
        r.wf(),
        le_int(r@) == pow(le_int(base@), exp as nat) % r_mod(),
{
    let ghost b0: int = le_int(base@);
    let one = fr_from_u128_raw(1);
    proof {
        lemma_small_mod(1nat, r_mod() as nat);
    }
    let mut result = one;
    let unit = fr_from_u128_raw(1);
    let mut cur = fr_mul_raw(base, &unit);
    proof {
        lemma_small_mod(b0 as nat, r_mod() as nat);
        assert(le_int(cur@) == b0);
    }
    let mut e: u128 = exp;
    while e > 0
        invariant
            result.wf(),
            cur.wf(),
            (le_int(result@) * pow(le_int(cur@), e as nat)) % r_mod() == pow(b0, exp as nat)
                % r_mod(),
        decreases e,
    {
        let ghost rr: int = le_int(result@);
        let ghost c: int = le_int(cur@);
        let ghost r: int = r_mod();
        let ghost e0: nat = e as nat;
        if e % 2 == 1 {
            result = fr_mul_raw(&result, &cur);
        }
        cur = fr_mul_raw(&cur, &cur);
        e = e / 2;
        proof {
            reveal(pow);
            let t: nat = e as nat;
            let c2: int = (c * c) % r;
            assert(pow(c2, t) % r == pow(c * c, t) % r) by {
                lemma_pow_mod_noop(c * c, t, r);
            }
            assert(pow(c, 2) == c * c) by {
                lemma_square_is_pow2(c);
            }
            assert(pow(c * c, t) == pow(c, 2 * t)) by {
                lemma_pow_multiplies(c, 2, t);
            }
            if e0 % 2 == 1 {
                assert(e0 == 2 * t + 1);
                let rr2: int = (rr * c) % r;
                assert(le_int(result@) == rr2);
                calc! {
                    (==)
                    (rr2 * pow(c2, t)) % r; {
                        lemma_mul_mod_noop_general(rr * c, pow(c2, t), r);
                    }
                    ((rr * c) * pow(c2, t)) % r; {
                        lemma_mul_mod_noop_general(rr * c, pow(c2, t), r);
                    }
                    ((rr * c) * (pow(c2, t) % r)) % r; {}
                    ((rr * c) * (pow(c, 2 * t) % r)) % r; {
                        lemma_mul_mod_noop_general(rr * c, pow(c, 2 * t), r);
                    }
                    ((rr * c) * pow(c, 2 * t)) % r; {
                        lemma_mul_is_associative(rr, c, pow(c, 2 * t));
                    }
                    (rr * (c * pow(c, 2 * t))) % r; {
                        assert(c * pow(c, 2 * t) == pow(c, e0)) by {
                            assert(pow(c, e0) == c * pow(c, (e0 - 1) as nat));
                        }
                    }
                    (rr * pow(c, e0)) % r;
                }
            } else {
                assert(e0 == 2 * t);
                calc! {
                    (==)
                    (rr * pow(c2, t)) % r; {
                        lemma_mul_mod_noop_general(rr, pow(c2, t), r);
                    }
                    (rr * (pow(c2, t) % r)) % r; {}
                    (rr * (pow(c, 2 * t) % r)) % r; {
                        lemma_mul_mod_noop_general(rr, pow(c, 2 * t), r);
                    }
                    (rr * pow(c, e0)) % r;
                }
            }
        }
    }
    proof {
        assert(pow(le_int(cur@), 0) == 1) by {
            vstd::arithmetic::power::lemma_pow0(le_int(cur@));
        }
        lemma_small_mod(le_int(result@) as nat, r_mod() as nat);
    }
    result
}

/// A power of two is never divisible by an odd modulus.
pub proof fn lemma_pow2_mod_odd_nonzero(d: nat, m: int)
    requires
        m > 1,
        m % 2 == 1,
    ensures
        pow(2, d) % m != 0,
    decreases d,
{
    if d == 0 {
        assert(pow(2, d) == 1) by {
            vstd::arithmetic::power::lemma_pow0(2);
        }
        lemma_small_mod(1nat, m as nat);
    } else {
        lemma_pow2_mod_odd_nonzero((d - 1) as nat, m);
        let x: int = pow(2, (d - 1) as nat);
        assert(pow(2, d) == 2 * x) by {
            reveal(pow);
        }
        let xm: int = x % m;
        assert(0 < xm < m) by {
            vstd::arithmetic::div_mod::lemma_mod_bound(x, m);
        }
        if (2 * x) % m == 0 {
            assert((2 * xm) % m == (2 * x) % m) by {
                lemma_mul_mod_noop_general(2, x, m);
            }
            let t: int = 2 * xm;
            assert(0 < t < 2 * m);
            if t < m {
                lemma_small_mod(t as nat, m as nat);
                assert(false);
            }
            assert((m * 1 + (t - m)) % m == (t - m) % m) by {
                vstd::arithmetic::div_mod::lemma_mod_multiples_vanish(1, t - m, m);
            }
            assert(t == m * 1 + (t - m));
            lemma_small_mod((t - m) as nat, m as nat);
            assert(t == m);
            assert(m % 2 == 0) by {
                vstd::arithmetic::div_mod::lemma_mod_multiples_basic(xm, 2);
                assert(m == xm * 2);
            }
            assert(false);
        }
    }
}

} // verus!
