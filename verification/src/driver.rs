//! The two-stage exponent decomposition driver and the pairing reduction.
//!
//! Stage one searches a bounded window `[A, B]` for the partial logarithm
//! `k0`; stage two searches the smooth cofactor range `[0, D)` for `k1`; the
//! full exponent is recombined as `k0 + k1 * qd`. After each stage the driver
//! re-derives the matching input from the recovered partial logarithm and
//! refuses to continue on a mismatch.

use vstd::prelude::*;
use vstd::arithmetic::power::pow;
use vstd::arithmetic::div_mod::{lemma_small_mod, lemma_fundamental_div_mod, lemma_div_is_ordered,
    lemma_div_multiples_vanish, lemma_div_pos_is_pos};
use vstd::arithmetic::mul::{lemma_mul_inequality, lemma_mul_is_commutative,
    lemma_mul_nonnegative, lemma_mul_is_distributive_sub_other_way};
use crate::scalar::{le_int, r_mod, inv_mod, pow_sp, scalar_inverse, scalar_from_u128,
    lemma_pow2_mod_odd_nonzero};
use crate::group::{GtElem, G1Elem, G2Elem, gt_pow, pairing, gt_pow_of, pairing_of, bytes_eq};
use crate::solver::{baby_steps_giant_steps, collides_at, baby_at, giant_at,
    lemma_collisions_pin_offset};

verus! {

/// Which part of the attack a failure belongs to.
#[derive(Clone, Copy, Debug, PartialEq, Eq)]
pub enum Stage {
    /// The search over the bounded window `[A, B]`.
    One,
    /// The search over the smooth cofactor range `[0, D)`.
    Two,
    /// The closing re-derivation of the second target from the full exponent.
    Recheck,
}

/// The engine's two failure kinds: a search that found no collision within
/// its bound, and a recovered partial exponent whose re-derivation does not
/// match the observed input.
#[derive(Clone, Copy, Debug, PartialEq, Eq)]
pub enum AttackError {
    SearchExhausted(Stage),
    StructuralMismatch(Stage),
}

/// The structural parameters of one attack: the window `[A, B]`, the smooth
/// cofactor `D`, the quotient `qd` of the group order less one by `D`, and a
/// step factor and step count for each of the two searches.
#[derive(Clone, Copy, Debug)]
pub struct Params {
    pub a: u64,
    pub b: u64,
    pub d: u64,
    pub qd: u64,
    pub factor: u64,
    pub m: u64,
    pub factor1: u64,
    pub m1: u64,
}

/// The largest partial logarithm stage one can report.
pub open spec fn k0_cap(p: Params) -> int {
    p.a + p.m + p.factor * p.m
}

/// The largest partial logarithm stage two can report.
pub open spec fn k1_cap(p: Params) -> int {
    p.m1 + p.factor1 * p.m1
}

/// Bounds under which every exponent the driver computes fits its machine
/// representation.
pub open spec fn params_wf(p: Params) -> bool {
    &&& 1 <= p.factor
    &&& 1 <= p.factor1
    &&& p.m <= 0xffff_fffe
    &&& p.m1 <= 0xffff_fffe
    &&& k0_cap(p) + k1_cap(p) * p.qd < 0x100000000000000000000000000000000
}

/// The stage-one step ratio: two raised to `D`, as a field value.
pub open spec fn rho1(p: Params) -> int {
    pow(2, p.d as nat) % r_mod()
}

/// The stage-two step ratio: two raised to `qd`, as a field value.
pub open spec fn rho2(p: Params) -> int {
    pow(2, p.qd as nat) % r_mod()
}

/// The stage-one baby base: the first target with the known contribution of
/// the window offset `A` divided out.
pub open spec fn stage1_baby(ta: Seq<u8>, p: Params) -> Seq<u8> {
    gt_pow_of(ta, pow(inv_mod(rho1(p)), p.a as nat) % r_mod())
}

/// The stage-two baby base: the second target with the stage-one recovery
/// `k0` divided out.
pub open spec fn stage2_baby(tb: Seq<u8>, p: Params, k0: int) -> Seq<u8> {
    gt_pow_of(tb, pow(inv_mod(2), k0 as nat) % r_mod())
}

/// Stage one's re-derivation holds: raising the base pairing to the stage-one
/// ratio to the `k0` reproduces the first target.
pub open spec fn stage1_ok(e: Seq<u8>, ta: Seq<u8>, p: Params, k0: int) -> bool {
    gt_pow_of(e, pow(rho1(p), k0 as nat) % r_mod()) == ta
}

/// Stage two's re-derivation holds for the partial logarithms `k0` and `k1`.
pub open spec fn stage2_ok(e: Seq<u8>, tb: Seq<u8>, p: Params, k0: int, k1: int) -> bool {
    gt_pow_of(e, pow(rho2(p), k1 as nat) % r_mod()) == stage2_baby(tb, p, k0)
}

/// The closing re-derivation holds: two to the recovered exponent reproduces
/// the second target.
pub open spec fn final_ok(e: Seq<u8>, tb: Seq<u8>, tau: int) -> bool {
    gt_pow_of(e, pow(2, tau as nat) % r_mod()) == tb
}

/// The stage-one progressions share no element within the bound.
pub open spec fn stage1_no_collision(e: Seq<u8>, ta: Seq<u8>, p: Params) -> bool {
    forall|i: int, j: int|
        0 <= i <= p.m && 0 <= j <= p.m ==> !#[trigger] collides_at(
            stage1_baby(ta, p),
            e,
            rho1(p),
            p.factor as nat,
            i as nat,
            j as nat,
        )
}

/// The stage-two progressions for the recovery `k0` share no element within
/// the bound.
pub open spec fn stage2_no_collision(e: Seq<u8>, tb: Seq<u8>, p: Params, k0: int) -> bool {
    forall|i: int, j: int|
        0 <= i <= p.m1 && 0 <= j <= p.m1 ==> !#[trigger] collides_at(
            stage2_baby(tb, p, k0),
            e,
            rho2(p),
            p.factor1 as nat,
            i as nat,
            j as nat,
        )
}

/// There is a stage-one collision at `(u, v)`.
pub open spec fn stage1_hit(e: Seq<u8>, ta: Seq<u8>, p: Params, u: int, v: int) -> bool {
    collides_at(stage1_baby(ta, p), e, rho1(p), p.factor as nat, u as nat, v as nat)
}

/// There is a stage-two collision at `(u1, v1)` for the recovery `k0`.
pub open spec fn stage2_hit(e: Seq<u8>, tb: Seq<u8>, p: Params, k0: int, u1: int, v1: int) -> bool {
    collides_at(stage2_baby(tb, p, k0), e, rho2(p), p.factor1 as nat, u1 as nat, v1 as nat)
}

/// A successful recovery in full, witnessed by the four collision indices.
pub open spec fn ok_witness(
    e: Seq<u8>,
    ta: Seq<u8>,
    tb: Seq<u8>,
    p: Params,
    tau: int,
    u: int,
    v: int,
    u1: int,
    v1: int,
) -> bool {
    &&& 0 <= u <= p.m
    &&& 0 <= v <= p.m
    &&& 0 <= u1 <= p.m1
    &&& 0 <= v1 <= p.m1
    &&& tau == (p.a + u + p.factor * v) + (u1 + p.factor1 * v1) * p.qd
    &&& stage1_hit(e, ta, p, u, v)
    &&& stage1_ok(e, ta, p, p.a + u + p.factor * v)
    &&& stage2_hit(e, tb, p, p.a + u + p.factor * v, u1, v1)
    &&& stage2_ok(e, tb, p, p.a + u + p.factor * v, u1 + p.factor1 * v1)
    &&& final_ok(e, tb, tau)
}

/// A stage-one collision whose re-derivation failed.
pub open spec fn mismatch1_witness(e: Seq<u8>, ta: Seq<u8>, p: Params, u: int, v: int) -> bool {
    &&& 0 <= u <= p.m
    &&& 0 <= v <= p.m
    &&& stage1_hit(e, ta, p, u, v)
    &&& !stage1_ok(e, ta, p, p.a + u + p.factor * v)
}

/// A passed stage one after which stage two found no collision.
pub open spec fn exhausted2_witness(
    e: Seq<u8>,
    ta: Seq<u8>,
    tb: Seq<u8>,
    p: Params,
    u: int,
    v: int,
) -> bool {
    &&& 0 <= u <= p.m
    &&& 0 <= v <= p.m
    &&& stage1_hit(e, ta, p, u, v)
    &&& stage1_ok(e, ta, p, p.a + u + p.factor * v)
    &&& stage2_no_collision(e, tb, p, p.a + u + p.factor * v)
}

/// A stage-two collision whose re-derivation failed.
pub open spec fn mismatch2_witness(
    e: Seq<u8>,
    ta: Seq<u8>,
    tb: Seq<u8>,
    p: Params,
    u: int,
    v: int,
    u1: int,
    v1: int,
) -> bool {
    &&& 0 <= u <= p.m
    &&& 0 <= v <= p.m
    &&& 0 <= u1 <= p.m1
    &&& 0 <= v1 <= p.m1
    &&& stage1_hit(e, ta, p, u, v)
    &&& stage1_ok(e, ta, p, p.a + u + p.factor * v)
    &&& stage2_hit(e, tb, p, p.a + u + p.factor * v, u1, v1)
    &&& !stage2_ok(e, tb, p, p.a + u + p.factor * v, u1 + p.factor1 * v1)
}

/// Both stages passed, but the recombined exponent fails to reproduce the
/// second target.
pub open spec fn recheck_witness(
    e: Seq<u8>,
    ta: Seq<u8>,
    tb: Seq<u8>,
    p: Params,
    u: int,
    v: int,
    u1: int,
    v1: int,
) -> bool {
    &&& 0 <= u <= p.m
    &&& 0 <= v <= p.m
    &&& 0 <= u1 <= p.m1
    &&& 0 <= v1 <= p.m1
    &&& stage1_hit(e, ta, p, u, v)
    &&& stage1_ok(e, ta, p, p.a + u + p.factor * v)
    &&& stage2_hit(e, tb, p, p.a + u + p.factor * v, u1, v1)
    &&& stage2_ok(e, tb, p, p.a + u + p.factor * v, u1 + p.factor1 * v1)
    &&& !final_ok(e, tb, (p.a + u + p.factor * v) + (u1 + p.factor1 * v1) * p.qd)
}

/// The driver's contract, assembled for a successful exit.
proof fn lemma_ok_post(
    rr: Result<u128, AttackError>,
    e: Seq<u8>,
    ta: Seq<u8>,
    tb: Seq<u8>,
    p: Params,
    tau: u128,
)
    requires
        rr == Result::<u128, AttackError>::Ok(tau),
        !stage1_no_collision(e, ta, p),
        exists|u: int, v: int, u1: int, v1: int|
            #[trigger] ok_witness(e, ta, tb, p, tau as int, u, v, u1, v1),
    ensures
        recover_post(rr, e, ta, tb, p),
{
    assert(rr is Ok);
    assert(!(rr == Result::<u128, AttackError>::Err(AttackError::SearchExhausted(Stage::One))));
    assert(rr == Result::<u128, AttackError>::Err(AttackError::SearchExhausted(Stage::One))
        <==> stage1_no_collision(e, ta, p));
    assert(match rr {
        Ok(t) => t == tau,
        Err(err) => false,
    });
    assert(match rr {
        Ok(t) => exists|u: int, v: int, u1: int, v1: int|
            #[trigger] ok_witness(e, ta, tb, p, t as int, u, v, u1, v1),
        Err(err) => false,
    });
}

/// Everything the decomposition driver promises of its result.
pub open spec fn recover_post(
    r: Result<u128, AttackError>,
    e: Seq<u8>,
    ta: Seq<u8>,
    tb: Seq<u8>,
    p: Params,
) -> bool {
    &&& (r == Result::<u128, AttackError>::Err(AttackError::SearchExhausted(Stage::One))
        <==> stage1_no_collision(e, ta, p))
    &&& match r {
        Ok(tau) => exists|u: int, v: int, u1: int, v1: int|
            #[trigger] ok_witness(e, ta, tb, p, tau as int, u, v, u1, v1),
        Err(AttackError::SearchExhausted(st)) => match st {
            Stage::One => true,
            Stage::Two => exists|u: int, v: int| #[trigger] exhausted2_witness(e, ta, tb, p, u, v),
            Stage::Recheck => false,
        },
        Err(AttackError::StructuralMismatch(st)) => match st {
            Stage::One => exists|u: int, v: int| #[trigger] mismatch1_witness(e, ta, p, u, v),
            Stage::Two => exists|u: int, v: int, u1: int, v1: int|
                #[trigger] mismatch2_witness(e, ta, tb, p, u, v, u1, v1),
            Stage::Recheck => exists|u: int, v: int, u1: int, v1: int|
                #[trigger] recheck_witness(e, ta, tb, p, u, v, u1, v1),
        },
    }
}

/// The two-stage decomposition driver: from the base pairing `e` and the two
/// targets, recover the full exponent, or report which stage failed and how.
#[verifier::rlimit(60)]
pub fn recover_exponent(e: &GtElem, target_a: &GtElem, target_b: &GtElem, p: &Params) -> (r:
    Result<u128, AttackError>)
    requires
        params_wf(*p),
    ensures
        recover_post(r, e@, target_a@, target_b@, *p),
{
    proof {
        assert(r_mod() > 2);
        assert(r_mod() % 2 == 1);
        lemma_mul_nonnegative(p.factor1 as int, p.m1 as int);
        lemma_mul_nonnegative(k1_cap(*p), p.qd as int);
    }
    let two = scalar_from_u128(2);
    proof {
        lemma_small_mod(2nat, r_mod() as nat);
    }
    let two_d = pow_sp(&two, p.d as u128);
    proof {
        lemma_pow2_mod_odd_nonzero(p.d as nat, r_mod());
        assert(le_int(two_d@) == rho1(*p));
    }
    let two_d_inv = match scalar_inverse(&two_d) {
        Some(x) => x,
        None => {
            proof {
                assert(false);
            }
            return Err(AttackError::SearchExhausted(Stage::One));
        },
    };
    let two_d_a_inv = pow_sp(&two_d_inv, p.a as u128);
    let e_d_a = gt_pow(target_a, &two_d_a_inv);
    proof {
        assert(e_d_a@ == stage1_baby(target_a@, *p));
    }
    let s1 = baby_steps_giant_steps(&e_d_a, e, &two_d, p.factor, p.m);
    let (u, v) = match s1 {
        Some(pair) => pair,
        None => {
            return Err(AttackError::SearchExhausted(Stage::One));
        },
    };
    proof {
        assert(stage1_hit(e@, target_a@, *p, u as int, v as int));
        assert(!stage1_no_collision(e@, target_a@, *p));
        assert((p.factor as int) * (v as int) <= (p.factor as int) * (p.m as int)) by {
            lemma_mul_inequality(v as int, p.m as int, p.factor as int);
            lemma_mul_is_commutative(p.factor as int, v as int);
            lemma_mul_is_commutative(p.factor as int, p.m as int);
        }
    }
    let k0: u128 = p.a as u128 + u as u128 + (p.factor as u128) * (v as u128);
    let ghost k0i: int = p.a + u + p.factor * v;
    proof {
        assert(k0 == k0i);
        assert(k0i <= k0_cap(*p));
    }
    let exp1 = pow_sp(&two_d, k0);
    let chk1 = gt_pow(e, &exp1);
    if !bytes_eq(chk1.as_bytes(), target_a.as_bytes()) {
        proof {
            assert(!stage1_ok(e@, target_a@, *p, k0i));
            assert(mismatch1_witness(e@, target_a@, *p, u as int, v as int));
        }
        return Err(AttackError::StructuralMismatch(Stage::One));
    }
    proof {
        assert(stage1_ok(e@, target_a@, *p, k0i));
    }
    let two_inv = match scalar_inverse(&two) {
        Some(x) => x,
        None => {
            proof {
                assert(false);
            }
            return Err(AttackError::SearchExhausted(Stage::One));
        },
    };
    let two_k0_inv = pow_sp(&two_inv, k0);
    let e_1 = gt_pow(target_b, &two_k0_inv);
    proof {
        assert(e_1@ == stage2_baby(target_b@, *p, k0i));
    }
    let two_qd = pow_sp(&two, p.qd as u128);
    proof {
        lemma_pow2_mod_odd_nonzero(p.qd as nat, r_mod());
        assert(le_int(two_qd@) == rho2(*p));
    }
    let s2 = baby_steps_giant_steps(&e_1, e, &two_qd, p.factor1, p.m1);
    let (u1, v1) = match s2 {
        Some(pair) => pair,
        None => {
            proof {
                assert(stage2_no_collision(e@, target_b@, *p, k0i));
                assert(exhausted2_witness(e@, target_a@, target_b@, *p, u as int, v as int));
            }
            return Err(AttackError::SearchExhausted(Stage::Two));
        },
    };
    proof {
        assert(stage2_hit(e@, target_b@, *p, k0i, u1 as int, v1 as int));
        assert((p.factor1 as int) * (v1 as int) <= (p.factor1 as int) * (p.m1 as int)) by {
            lemma_mul_inequality(v1 as int, p.m1 as int, p.factor1 as int);
            lemma_mul_is_commutative(p.factor1 as int, v1 as int);
            lemma_mul_is_commutative(p.factor1 as int, p.m1 as int);
        }
    }
    proof {
        assert(u1 as int + (p.factor1 as int) * (v1 as int)
            < 0x100000000000000000000000000000000) by (nonlinear_arith)
            requires
                u1 <= 0xffff_fffe,
                v1 <= 0xffff_fffe,
                p.factor1 <= 0xffff_ffff_ffff_ffff,
        ;
    }
    let k1: u128 = u1 as u128 + (p.factor1 as u128) * (v1 as u128);
    let ghost k1i: int = u1 + p.factor1 * v1;
    proof {
        assert(k1 == k1i);
        assert(k1i <= k1_cap(*p));
        assert(k1i * p.qd <= k1_cap(*p) * p.qd) by {
            lemma_mul_inequality(k1i, k1_cap(*p), p.qd as int);
            lemma_mul_is_commutative(k1i, p.qd as int);
            lemma_mul_is_commutative(k1_cap(*p), p.qd as int);
        }
        lemma_mul_nonnegative(k1i, p.qd as int);
    }
    let expq = pow_sp(&two_qd, k1);
    let chk2 = gt_pow(e, &expq);
    if !bytes_eq(chk2.as_bytes(), e_1.as_bytes()) {
        proof {
            assert(!stage2_ok(e@, target_b@, *p, k0i, k1i));
            assert(mismatch2_witness(
                e@,
                target_a@,
                target_b@,
                *p,
                u as int,
                v as int,
                u1 as int,
                v1 as int,
            ));
        }
        return Err(AttackError::StructuralMismatch(Stage::Two));
    }
    proof {
        assert(stage2_ok(e@, target_b@, *p, k0i, k1i));
    }
    let tau: u128 = k0 + k1 * (p.qd as u128);
    let ghost taui: int = k0i + k1i * p.qd;
    proof {
        assert(tau == taui);
    }
    let expt = pow_sp(&two, tau);
    let chkf = gt_pow(e, &expt);
    if !bytes_eq(chkf.as_bytes(), target_b.as_bytes()) {
        proof {
            assert(!final_ok(e@, target_b@, taui));
            assert(recheck_witness(
                e@,
                target_a@,
                target_b@,
                *p,
                u as int,
                v as int,
                u1 as int,
                v1 as int,
            ));
        }
        return Err(AttackError::StructuralMismatch(Stage::Recheck));
    }
    proof {
        assert(final_ok(e@, target_b@, taui));
        assert(ok_witness(
            e@,
            target_a@,
            target_b@,
            *p,
            taui,
            u as int,
            v as int,
            u1 as int,
            v1 as int,
        ));
        let rr: Result<u128, AttackError> = Ok(tau);
        assert(exists|uw: int, vw: int, u1w: int, v1w: int|
            #[trigger] ok_witness(e@, target_a@, target_b@, *p, tau as int, uw, vw, u1w, v1w));
        assert(stage1_hit(e@, target_a@, *p, u as int, v as int));
        assert(!stage1_no_collision(e@, target_a@, *p));
        lemma_ok_post(rr, e@, target_a@, target_b@, *p, tau);
    }
    Ok(tau)
}

/// The pairing reduction: move the leaked source-group points into the target
/// group, where the unknown exponents sit over one base pairing, then run the
/// decomposition driver on the three pairing values.
pub fn attack(
    p_g1: &G1Elem,
    tau_p: &G1Elem,
    tau_d1_p: &G1Elem,
    q_g2: &G2Elem,
    tau_d2_q: &G2Elem,
    params: &Params,
) -> (r: Result<u128, AttackError>)
    requires
        params_wf(*params),
    ensures
        recover_post(
            r,
            pairing_of(p_g1@, q_g2@),
            pairing_of(tau_d1_p@, tau_d2_q@),
            pairing_of(tau_p@, q_g2@),
            *params,
        ),
{
    let e = pairing(p_g1, q_g2);
    let ta = pairing(tau_d1_p, tau_d2_q);
    let tb = pairing(tau_p, q_g2);
    recover_exponent(&e, &ta, &tb, params)
}

/// Integer square root by bisection.
pub fn isqrt(n: u64) -> (r: u64)
    requires
        n <= 0x1_0000_0000_0000,
    ensures
        r <= 0x100_0000,
        r * r <= n,
        n < (r + 1) * (r + 1),
{
    let mut lo: u64 = 0;
    let mut hi: u64 = 0x100_0001;
    proof {
        assert((0x100_0001 as int) * (0x100_0001 as int) > n);
    }
    while hi - lo > 1
        invariant
            lo < hi <= 0x100_0001,
            lo * lo <= n,
            n < hi * hi,
        decreases hi - lo,
    {
        let mid = lo + (hi - lo) / 2;
        proof {
            assert(lo < mid < hi);
            assert((mid as int) * (mid as int) <= (0x100_0001 as int) * (0x100_0001 as int)) by {
                lemma_mul_inequality(mid as int, 0x100_0001, mid as int);
                lemma_mul_inequality(mid as int, 0x100_0001, 0x100_0001);
                lemma_mul_is_commutative(mid as int, 0x100_0001);
            }
        }
        if mid * mid <= n {
            lo = mid;
        } else {
            hi = mid;
        }
    }
    lo
}

/// Derive the per-stage step factors and counts from the window and cofactor,
/// as the attack balances them: stage one uses the floor square root of the
/// window size, stage two the floor square root of the cofactor plus one.
pub fn derive_params(a: u64, b: u64, d: u64, qd: u64) -> (p: Params)
    requires
        a < b,
        b - a <= 0x1_0000_0000_0000,
        1 <= d <= 0xffff_ffff,
    ensures
        params_wf(p),
        p.a == a,
        p.b == b,
        p.d == d,
        p.qd == qd,
        p.factor * p.factor <= b - a < (p.factor + 1) * (p.factor + 1),
        p.m == (b - a) as int / p.factor as int,
        (p.factor1 - 1) * (p.factor1 - 1) <= d < p.factor1 * p.factor1,
        p.m1 == d as int / p.factor1 as int,
{
    let n = b - a;
    let factor = isqrt(n);
    proof {
        if factor == 0 {
            assert((factor + 1) * (factor + 1) == 1) by (nonlinear_arith)
                requires
                    factor == 0,
            ;
            assert(n < 1);
        }
        let f: int = factor as int;
        let ni: int = n as int;
        lemma_fundamental_div_mod(ni, f);
        assert(f * (ni / f) <= ni) by {
            vstd::arithmetic::div_mod::lemma_mod_bound(ni, f);
        }
        assert(ni / f <= f + 2) by {
            assert(ni < (f + 1) * (f + 1));
            assert((f + 1) * (f + 1) <= f * (f + 2) + 1) by (nonlinear_arith);
            assert(ni <= f * (f + 2));
            lemma_div_is_ordered(ni, f * (f + 2), f);
            lemma_div_multiples_vanish(f + 2, f);
        }
        assert(ni / f >= 0) by {
            lemma_div_pos_is_pos(ni, f);
        }
    }
    let m = n / factor;
    let f1 = isqrt(d) + 1;
    proof {
        let g: int = f1 as int;
        let di: int = d as int;
        assert(di < g * g);
        lemma_fundamental_div_mod(di, g);
        assert(g * (di / g) <= di) by {
            vstd::arithmetic::div_mod::lemma_mod_bound(di, g);
        }
        assert(di / g <= g) by {
            lemma_div_is_ordered(di, g * g, g);
            lemma_div_multiples_vanish(g, g);
        }
        assert(di / g >= 0) by {
            lemma_div_pos_is_pos(di, g);
        }
    }
    let m1 = d / f1;
    let p = Params { a, b, d, qd, factor, m, factor1: f1, m1 };
    proof {
        assert(k0_cap(p) < 0x3_0000_0000_0000_0000) by {
            assert(p.factor * p.m <= n) by {
                lemma_fundamental_div_mod(n as int, p.factor as int);
                vstd::arithmetic::div_mod::lemma_mod_bound(n as int, p.factor as int);
            }
        }
        assert(k1_cap(p) <= 0x2_0000_0000) by {
            assert(p.factor1 * p.m1 <= d) by {
                lemma_fundamental_div_mod(d as int, p.factor1 as int);
                vstd::arithmetic::div_mod::lemma_mod_bound(d as int, p.factor1 as int);
            }
        }
        assert(k1_cap(p) * p.qd < 0x2_0000_0001 * 0x1_0000_0000_0000_0000) by {
            lemma_mul_nonnegative(p.factor1 as int, p.m1 as int);
            assert(k1_cap(p) >= 0);
            lemma_mul_inequality(k1_cap(p), 0x2_0000_0000, p.qd as int);
            assert(k1_cap(p) * p.qd <= 0x2_0000_0000 * p.qd) by {
                lemma_mul_is_commutative(k1_cap(p), p.qd as int);
                lemma_mul_is_commutative(0x2_0000_0000, p.qd as int);
            }
            assert(0x2_0000_0000 * (p.qd as int) < 0x2_0000_0001 * 0x1_0000_0000_0000_0000)
                by (nonlinear_arith)
                requires
                    p.qd <= 0xffff_ffff_ffff_ffff,
            ;
        }
    }
    p
}

/// Combination law: an instance whose second target was derived from the
/// recombined exponent `k0 + k1 * qd` satisfies the engine's closing
/// re-derivation for exactly that exponent, for every window part `k0` and
/// cofactor part `k1` in range.
pub proof fn lemma_combination_law(
    e: Seq<u8>,
    tb: Seq<u8>,
    a: int,
    b: int,
    d: int,
    qd: int,
    k0: int,
    k1: int,
)
    requires
        a <= k0 <= b,
        0 <= k1 < d,
        0 <= qd,
        0 <= a,
        tb == gt_pow_of(e, pow(2, (k0 + k1 * qd) as nat) % r_mod()),
    ensures
        final_ok(e, tb, k0 + k1 * qd),
{
}

/// The recombination `(k0, k1) -> k0 + k1 * qd` is one-to-one on the window
/// `[A, B]` and cofactor range `[0, D)` whenever `qd` exceeds the window
/// size: two decompositions that recombine to the same exponent agree part
/// for part.
pub proof fn lemma_combination_unique(
    a: int,
    b: int,
    d: int,
    qd: int,
    k0: int,
    k1: int,
    k0b: int,
    k1b: int,
)
    requires
        a <= k0 <= b,
        a <= k0b <= b,
        0 <= k1 < d,
        0 <= k1b < d,
        qd > b - a,
        k0 + k1 * qd == k0b + k1b * qd,
    ensures
        k0 == k0b,
        k1 == k1b,
{
    if k1 != k1b {
        if k1 < k1b {
            assert((k1b - k1) * qd >= 1 * qd) by {
                lemma_mul_inequality(1, k1b - k1, qd);
            }
            assert(k0 - k0b == (k1b - k1) * qd) by {
                lemma_mul_is_distributive_sub_other_way(qd, k1b, k1);
            }
        } else {
            assert((k1 - k1b) * qd >= 1 * qd) by {
                lemma_mul_inequality(1, k1 - k1b, qd);
            }
            assert(k0b - k0 == (k1 - k1b) * qd) by {
                lemma_mul_is_distributive_sub_other_way(qd, k1, k1b);
            }
        }
        assert(false);
    }
}

/// Round-trip correctness, uniqueness direction: on an instance whose second
/// target was derived from a chosen exponent, a successful recovery that
/// meets the driver's contract is exactly that exponent, provided distinct
/// exponents in range give distinct powers of the base pairing.
pub proof fn lemma_recovery_roundtrip(
    e: Seq<u8>,
    ta: Seq<u8>,
    tb: Seq<u8>,
    p: Params,
    kstar: nat,
    r: Result<u128, AttackError>,
)
    requires
        params_wf(p),
        recover_post(r, e, ta, tb, p),
        r is Ok,
        kstar <= k0_cap(p) + k1_cap(p) * p.qd,
        tb == gt_pow_of(e, pow(2, kstar) % r_mod()),
        forall|x: nat, y: nat|
            #![trigger pow(2, x), pow(2, y)]
            x <= k0_cap(p) + k1_cap(p) * p.qd && y <= k0_cap(p) + k1_cap(p) * p.qd && x != y
                ==> gt_pow_of(e, pow(2, x) % r_mod()) != gt_pow_of(e, pow(2, y) % r_mod()),
    ensures
        r matches Ok(tau) && tau == kstar,
{
    let tau = r->Ok_0;
    let cap: int = k0_cap(p) + k1_cap(p) * p.qd;
    assert(exists|u: int, v: int, u1: int, v1: int| ok_witness(e, ta, tb, p, tau as int, u, v, u1, v1));
    let (u, v, u1, v1) = choose|u: int, v: int, u1: int, v1: int|
        ok_witness(e, ta, tb, p, tau as int, u, v, u1, v1);
    assert(ok_witness(e, ta, tb, p, tau as int, u, v, u1, v1));
    assert(tau <= cap) by {
        assert(p.factor * v <= p.factor * p.m) by {
            lemma_mul_inequality(v, p.m as int, p.factor as int);
            lemma_mul_is_commutative(p.factor as int, v);
            lemma_mul_is_commutative(p.factor as int, p.m as int);
        }
        assert(p.factor1 * v1 <= p.factor1 * p.m1) by {
            lemma_mul_inequality(v1, p.m1 as int, p.factor1 as int);
            lemma_mul_is_commutative(p.factor1 as int, v1);
            lemma_mul_is_commutative(p.factor1 as int, p.m1 as int);
        }
        assert((u1 + p.factor1 * v1) * p.qd <= k1_cap(p) * p.qd) by {
            lemma_mul_inequality(u1 + p.factor1 * v1, k1_cap(p), p.qd as int);
            lemma_mul_is_commutative(u1 + p.factor1 * v1, p.qd as int);
            lemma_mul_is_commutative(k1_cap(p), p.qd as int);
        }
    }
    if tau != kstar {
        assert(gt_pow_of(e, pow(2, tau as nat) % r_mod()) != gt_pow_of(e, pow(2, kstar) % r_mod()));
        assert(false);
    }
}


/// Round-trip correctness, completeness direction: on an instance whose two
/// stages' progressions are windows onto exponential maps that keep distinct
/// exponents distinct, and whose targets were derived from the window part
/// `k0s` and cofactor part `k1s`, a result meeting the driver's contract is
/// a success, and its value is exactly `k0s + k1s * qd`.
#[verifier::rlimit(60)]
pub proof fn lemma_recovery_completeness(
    ee1: spec_fn(int) -> Seq<u8>,
    ee2: spec_fn(int) -> Seq<u8>,
    e: Seq<u8>,
    ta: Seq<u8>,
    tb: Seq<u8>,
    p: Params,
    k0s: int,
    k1s: int,
    r: Result<u128, AttackError>,
)
    requires
        params_wf(p),
        recover_post(r, e, ta, tb, p),
        p.factor <= p.m + 1,
        p.factor1 <= p.m1 + 1,
        p.a <= k0s,
        k0s - p.a <= p.factor * p.m,
        0 <= k1s <= p.factor1 * p.m1,
        forall|i: int|
            0 <= i <= p.m ==> #[trigger] baby_at(stage1_baby(ta, p), rho1(p), i as nat) == ee1(
                k0s - p.a - i,
            ),
        forall|j: int|
            0 <= j <= p.m ==> #[trigger] giant_at(e, rho1(p), p.factor as nat, j as nat) == ee1(
                p.factor * j,
            ),
        forall|t1: int, t2: int|
            #![trigger ee1(t1), ee1(t2)]
            -p.m <= t1 <= p.factor * p.m && -p.m <= t2 <= p.factor * p.m && t1 != t2 ==> ee1(t1)
                != ee1(t2),
        forall|i: int|
            0 <= i <= p.m1 ==> #[trigger] baby_at(stage2_baby(tb, p, k0s), rho2(p), i as nat)
                == ee2(k1s - i),
        forall|j: int|
            0 <= j <= p.m1 ==> #[trigger] giant_at(e, rho2(p), p.factor1 as nat, j as nat) == ee2(
                p.factor1 * j,
            ),
        forall|t1: int, t2: int|
            #![trigger ee2(t1), ee2(t2)]
            -p.m1 <= t1 <= p.factor1 * p.m1 && -p.m1 <= t2 <= p.factor1 * p.m1 && t1 != t2 ==> ee2(
                t1,
            ) != ee2(t2),
        stage1_ok(e, ta, p, k0s),
        stage2_ok(e, tb, p, k0s, k1s),
        final_ok(e, tb, k0s + k1s * p.qd),
    ensures
        r == Result::<u128, AttackError>::Ok((k0s + k1s * p.qd) as u128),
{
    lemma_collisions_pin_offset(
        ee1,
        stage1_baby(ta, p),
        e,
        rho1(p),
        p.factor as int,
        p.m as int,
        k0s - p.a,
    );
    lemma_collisions_pin_offset(
        ee2,
        stage2_baby(tb, p, k0s),
        e,
        rho2(p),
        p.factor1 as int,
        p.m1 as int,
        k1s,
    );
    let tau_s: int = k0s + k1s * p.qd;
    assert(0 <= tau_s < 0x100000000000000000000000000000000) by {
        lemma_mul_nonnegative(k1s, p.qd as int);
        lemma_mul_nonnegative(p.factor as int, p.m as int);
        lemma_mul_nonnegative(p.factor1 as int, p.m1 as int);
        assert(k1s * p.qd <= k1_cap(p) * p.qd) by {
            lemma_mul_inequality(k1s, k1_cap(p), p.qd as int);
            lemma_mul_is_commutative(k1s, p.qd as int);
            lemma_mul_is_commutative(k1_cap(p), p.qd as int);
        }
    }
    match r {
        Ok(tau) => {
            let (u, v, u1, v1) = choose|u: int, v: int, u1: int, v1: int|
                ok_witness(e, ta, tb, p, tau as int, u, v, u1, v1);
            assert(ok_witness(e, ta, tb, p, tau as int, u, v, u1, v1));
            assert(u + p.factor * v == k0s - p.a);
            assert(u1 + p.factor1 * v1 == k1s);
            assert(tau as int == tau_s);
        },
        Err(err) => {
            match err {
                AttackError::SearchExhausted(st) => {
                    if st is One {
                        assert(stage1_no_collision(e, ta, p));
                        let (u, v) = choose|u: int, v: int|
                            0 <= u <= p.m && 0 <= v <= p.m && #[trigger] collides_at(
                                stage1_baby(ta, p),
                                e,
                                rho1(p),
                                p.factor as nat,
                                u as nat,
                                v as nat,
                            );
                        assert(false);
                    } else if st is Two {
                        let (u, v) = choose|u: int, v: int|
                            exhausted2_witness(e, ta, tb, p, u, v);
                        assert(exhausted2_witness(e, ta, tb, p, u, v));
                        assert(u + p.factor * v == k0s - p.a);
                        assert(stage2_no_collision(e, tb, p, k0s));
                        let (u2, v2) = choose|u2: int, v2: int|
                            0 <= u2 <= p.m1 && 0 <= v2 <= p.m1 && #[trigger] collides_at(
                                stage2_baby(tb, p, k0s),
                                e,
                                rho2(p),
                                p.factor1 as nat,
                                u2 as nat,
                                v2 as nat,
                            );
                        assert(false);
                    }
                },
                AttackError::StructuralMismatch(st) => {
                    if st is One {
                        let (u, v) = choose|u: int, v: int| mismatch1_witness(e, ta, p, u, v);
                        assert(mismatch1_witness(e, ta, p, u, v));
                        assert(u + p.factor * v == k0s - p.a);
                        assert(false);
                    } else if st is Two {
                        let (u, v, u1, v1) = choose|u: int, v: int, u1: int, v1: int|
                            mismatch2_witness(e, ta, tb, p, u, v, u1, v1);
                        assert(mismatch2_witness(e, ta, tb, p, u, v, u1, v1));
                        assert(u + p.factor * v == k0s - p.a);
                        assert(u1 + p.factor1 * v1 == k1s);
                        assert(false);
                    } else {
                        let (u, v, u1, v1) = choose|u: int, v: int, u1: int, v1: int|
                            recheck_witness(e, ta, tb, p, u, v, u1, v1);
                        assert(recheck_witness(e, ta, tb, p, u, v, u1, v1));
                        assert(u + p.factor * v == k0s - p.a);
                        assert(u1 + p.factor1 * v1 == k1s);
                        assert(false);
                    }
                },
            }
        },
    }
}

} // verus!
