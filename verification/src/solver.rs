//! The meet-in-the-middle (baby-step/giant-step) solver.
//!
//! Given a baby-step element, a giant-step element and a step ratio, the
//! solver builds two progression tables — the baby table stepping by the
//! ratio's inverse, the giant table stepping by the ratio raised to `factor` —
//! and returns the first pair of indices at which the tables collide.

use vstd::prelude::*;
use vstd::arithmetic::power::pow;
use vstd::arithmetic::div_mod::{
    lemma_fundamental_div_mod,
    lemma_mod_bound,
    lemma_div_is_ordered,
    lemma_div_multiples_vanish,
    lemma_div_pos_is_pos,
};
use vstd::arithmetic::mul::{
    lemma_mul_inequality,
    lemma_mul_is_commutative,
    lemma_mul_nonnegative,
};
use crate::scalar::{FrElem, le_int, r_mod, inv_mod, pow_sp, scalar_inverse};
use crate::group::{GtElem, iter_pow, build_progression_table, table_index_of};

verus! {

/// The `i`-th baby-step element: the baby base raised to the `i`-th power of
/// the inverse of the step ratio.
pub open spec fn baby_at(bb: Seq<u8>, ratio: int, i: nat) -> Seq<u8> {
    iter_pow(bb, inv_mod(ratio), i)
}

/// The `j`-th giant-step element: the giant base raised to the `j`-th power
/// of the step ratio raised to `factor`.
pub open spec fn giant_at(gb: Seq<u8>, ratio: int, factor: nat, j: nat) -> Seq<u8> {
    iter_pow(gb, pow(ratio, factor) % r_mod(), j)
}

/// The two progressions meet at indices `(u, v)`.
pub open spec fn collides_at(
    bb: Seq<u8>,
    gb: Seq<u8>,
    ratio: int,
    factor: nat,
    u: nat,
    v: nat,
) -> bool {
    baby_at(bb, ratio, u) == giant_at(gb, ratio, factor, v)
}

/// Everything the solver promises of its result: a returned pair is the
/// first collision (in giant-step order, then baby-step order) of the two
/// progressions; no result means the progressions share no element at all
/// within the bound.
pub open spec fn solver_post(
    r: Option<(u64, u64)>,
    bb: Seq<u8>,
    gb: Seq<u8>,
    ratio: int,
    factor: nat,
    m: nat,
) -> bool {
    match r {
        Some(pair) => {
            &&& pair.0 <= m
            &&& pair.1 <= m
            &&& collides_at(bb, gb, ratio, factor, pair.0 as nat, pair.1 as nat)
            &&& forall|j: int, i: int|
                0 <= j < pair.1 && 0 <= i <= m ==> !#[trigger] collides_at(
                    bb,
                    gb,
                    ratio,
                    factor,
                    i as nat,
                    j as nat,
                )
            &&& forall|i: int|
                0 <= i < pair.0 ==> !#[trigger] collides_at(
                    bb,
                    gb,
                    ratio,
                    factor,
                    i as nat,
                    pair.1 as nat,
                )
        },
        None => forall|i: int, j: int|
            0 <= i <= m && 0 <= j <= m ==> !#[trigger] collides_at(
                bb,
                gb,
                ratio,
                factor,
                i as nat,
                j as nat,
            ),
    }
}

/// The meet-in-the-middle search. Builds the two tables of `m + 1` entries
/// each (both seeded with their base at index 0), walks the giant table and
/// returns the first pair of indices at which an element of the giant table
/// is also an element of the baby table.
pub fn baby_steps_giant_steps(
    baby_base: &GtElem,
    giant_base: &GtElem,
    step_ratio: &FrElem,
    factor: u64,
    m: u64,
) -> (r: Option<(u64, u64)>)
    requires
        step_ratio.wf(),
        le_int(step_ratio@) != 0,
        m <= 0xffff_fffe,
    ensures
        solver_post(r, baby_base@, giant_base@, le_int(step_ratio@), factor as nat, m as nat),
{
    let ghost rt: int = le_int(step_ratio@);
    let inv_opt = scalar_inverse(step_ratio);
    let inv = match inv_opt {
        Some(x) => x,
        None => {
            proof {
                assert(false);
            }
            return None;
        },
    };
    let eta_f = pow_sp(step_ratio, factor as u128);
    let baby = build_progression_table(baby_base, &inv, m);
    let giant = build_progression_table(giant_base, &eta_f, m);
    proof {
        assert(forall|i: int|
            0 <= i <= m ==> #[trigger] baby@[i]@ == baby_at(baby_base@, rt, i as nat));
        assert(forall|j: int|
            0 <= j <= m ==> #[trigger] giant@[j]@ == giant_at(
                giant_base@,
                rt,
                factor as nat,
                j as nat,
            ));
    }
    let mut v: usize = 0;
    while v < giant.len()
        invariant
            rt == le_int(step_ratio@),
            giant@.len() == m + 1,
            baby@.len() == m + 1,
            m <= 0xffff_fffe,
            v <= m + 1,
            forall|i: int| 0 <= i <= m ==> #[trigger] baby@[i]@ == baby_at(
                baby_base@,
                rt,
                i as nat,
            ),
            forall|j: int| 0 <= j <= m ==> #[trigger] giant@[j]@ == giant_at(
                giant_base@,
                rt,
                factor as nat,
                j as nat,
            ),
            forall|j: int, i: int|
                0 <= j < v && 0 <= i <= m ==> !#[trigger] collides_at(
                    baby_base@,
                    giant_base@,
                    rt,
                    factor as nat,
                    i as nat,
                    j as nat,
                ),
        decreases giant@.len() - v,
    {
        let hit = table_index_of(&baby, &giant[v]);
        match hit {
            Some(u) => {
                proof {
                    assert(giant@[v as int]@ == giant_at(giant_base@, rt, factor as nat, v as nat));
                    assert(baby@[u as int]@ == baby_at(baby_base@, rt, u as nat));
                    assert(collides_at(
                        baby_base@,
                        giant_base@,
                        rt,
                        factor as nat,
                        u as nat,
                        v as nat,
                    ));
                    assert forall|i: int| 0 <= i < u implies !#[trigger] collides_at(
                        baby_base@,
                        giant_base@,
                        rt,
                        factor as nat,
                        i as nat,
                        v as nat,
                    ) by {
                        assert(baby@[i]@ == baby_at(baby_base@, rt, i as nat));
                        assert(baby@[i]@ != giant@[v as int]@);
                    }
                }
                return Some((u, v as u64));
            },
            None => {
                proof {
                    assert(giant@[v as int]@ == giant_at(giant_base@, rt, factor as nat, v as nat));
                    assert forall|i: int| 0 <= i <= m implies !#[trigger] collides_at(
                        baby_base@,
                        giant_base@,
                        rt,
                        factor as nat,
                        i as nat,
                        v as nat,
                    ) by {
                        assert(baby@[i]@ == baby_at(baby_base@, rt, i as nat));
                        assert(baby@[i]@ != giant@[v as int]@);
                    }
                }
            },
        }
        v = v + 1;
    }
    None
}


/// Under the window and distinctness hypotheses, the two tables meet
/// somewhere, and every pair of indices at which they meet recombines to
/// exactly the offset `k`.
pub proof fn lemma_collisions_pin_offset(
    ee: spec_fn(int) -> Seq<u8>,
    bb: Seq<u8>,
    gb: Seq<u8>,
    ratio: int,
    factor: int,
    m: int,
    k: int,
)
    requires
        1 <= factor,
        0 <= m,
        factor <= m + 1,
        0 <= k <= factor * m,
        forall|i: int| 0 <= i <= m ==> #[trigger] baby_at(bb, ratio, i as nat) == ee(k - i),
        forall|j: int|
            0 <= j <= m ==> #[trigger] giant_at(gb, ratio, factor as nat, j as nat) == ee(
                factor * j,
            ),
        forall|t1: int, t2: int|
            #![trigger ee(t1), ee(t2)]
            -m <= t1 <= factor * m && -m <= t2 <= factor * m && t1 != t2 ==> ee(t1) != ee(t2),
    ensures
        exists|u: int, v: int|
            0 <= u <= m && 0 <= v <= m && #[trigger] collides_at(
                bb,
                gb,
                ratio,
                factor as nat,
                u as nat,
                v as nat,
            ),
        forall|u: int, v: int|
            0 <= u <= m && 0 <= v <= m && #[trigger] collides_at(
                bb,
                gb,
                ratio,
                factor as nat,
                u as nat,
                v as nat,
            ) ==> u + factor * v == k,
{
    let v0: int = k / factor;
    let u0: int = k % factor;
    lemma_fundamental_div_mod(k, factor);
    lemma_mod_bound(k, factor);
    assert(0 <= v0) by {
        lemma_div_pos_is_pos(k, factor);
    }
    assert(v0 <= m) by {
        lemma_div_is_ordered(k, factor * m, factor);
        lemma_div_multiples_vanish(m, factor);
        lemma_mul_is_commutative(factor, m);
    }
    assert(k - u0 == factor * v0);
    assert(baby_at(bb, ratio, u0 as nat) == ee(k - u0));
    assert(giant_at(gb, ratio, factor as nat, v0 as nat) == ee(factor * v0));
    assert(collides_at(bb, gb, ratio, factor as nat, u0 as nat, v0 as nat));
    assert forall|u: int, v: int|
        0 <= u <= m && 0 <= v <= m && #[trigger] collides_at(
            bb,
            gb,
            ratio,
            factor as nat,
            u as nat,
            v as nat,
        ) implies u + factor * v == k by {
        assert(baby_at(bb, ratio, u as nat) == ee(k - u));
        assert(giant_at(gb, ratio, factor as nat, v as nat) == ee(factor * v));
        assert(0 <= factor * v <= factor * m) by {
            lemma_mul_nonnegative(factor, v);
            lemma_mul_inequality(v, m, factor);
            lemma_mul_is_commutative(factor, v);
            lemma_mul_is_commutative(factor, m);
        }
        assert(-m <= k - u <= factor * m);
        if k - u != factor * v {
            assert(ee(k - u) != ee(factor * v));
        }
    }
}

/// Completeness of the search within its bound: if both tables are windows
/// onto one exponential progression `ee` — the baby table walking down from
/// the unknown offset `k`, the giant table walking up in strides of `factor`
/// — and distinct exponents in the searched range yield distinct elements,
/// then any result satisfying the solver's contract is a pair `(u, v)` with
/// `u + factor * v == k`, for every `k` from `0` through `factor * m`.
pub proof fn lemma_solver_completeness(
    ee: spec_fn(int) -> Seq<u8>,
    bb: Seq<u8>,
    gb: Seq<u8>,
    ratio: int,
    factor: int,
    m: int,
    k: int,
    r: Option<(u64, u64)>,
)
    requires
        1 <= factor,
        0 <= m,
        factor <= m + 1,
        0 <= k <= factor * m,
        forall|i: int| 0 <= i <= m ==> #[trigger] baby_at(bb, ratio, i as nat) == ee(k - i),
        forall|j: int|
            0 <= j <= m ==> #[trigger] giant_at(gb, ratio, factor as nat, j as nat) == ee(
                factor * j,
            ),
        forall|t1: int, t2: int|
            #![trigger ee(t1), ee(t2)]
            -m <= t1 <= factor * m && -m <= t2 <= factor * m && t1 != t2 ==> ee(t1) != ee(t2),
        solver_post(r, bb, gb, ratio, factor as nat, m as nat),
    ensures
        r is Some,
        r matches Some(pair) ==> pair.0 as int + factor * (pair.1 as int) == k,
{
    let v0: int = k / factor;
    let u0: int = k % factor;
    lemma_fundamental_div_mod(k, factor);
    lemma_mod_bound(k, factor);
    assert(0 <= v0) by {
        lemma_div_pos_is_pos(k, factor);
    }
    assert(v0 <= m) by {
        lemma_div_is_ordered(k, factor * m, factor);
        lemma_div_multiples_vanish(m, factor);
        lemma_mul_is_commutative(factor, m);
    }
    assert(k - u0 == factor * v0);
    assert(baby_at(bb, ratio, u0 as nat) == ee(k - u0));
    assert(giant_at(gb, ratio, factor as nat, v0 as nat) == ee(factor * v0));
    assert(collides_at(bb, gb, ratio, factor as nat, u0 as nat, v0 as nat));
    if r is None {
        assert(!collides_at(bb, gb, ratio, factor as nat, u0 as nat, v0 as nat));
        assert(false);
    }
    let pair = r->0;
    let u: int = pair.0 as int;
    let v: int = pair.1 as int;
    assert(collides_at(bb, gb, ratio, factor as nat, u as nat, v as nat));
    assert(baby_at(bb, ratio, u as nat) == ee(k - u));
    assert(giant_at(gb, ratio, factor as nat, v as nat) == ee(factor * v));
    assert(0 <= factor * v <= factor * m) by {
        lemma_mul_nonnegative(factor, v);
        lemma_mul_inequality(v, m, factor);
        lemma_mul_is_commutative(factor, v);
        lemma_mul_is_commutative(factor, m);
    }
    assert(-m <= k - u <= factor * m);
    if k - u != factor * v {
        assert(ee(k - u) != ee(factor * v));
        assert(false);
    }
}

/// Soundness of the search beyond its bound: if the true offset `k` lies
/// strictly beyond every index pair the tables can represent, and the
/// exponents the two tables draw on are pairwise distinct as elements, a
/// result satisfying the solver's contract is no result at all.
pub proof fn lemma_solver_soundness(
    ee: spec_fn(int) -> Seq<u8>,
    bb: Seq<u8>,
    gb: Seq<u8>,
    ratio: int,
    factor: int,
    m: int,
    k: int,
    r: Option<(u64, u64)>,
)
    requires
        1 <= factor,
        0 <= m,
        k > factor * m + m,
        forall|i: int| 0 <= i <= m ==> #[trigger] baby_at(bb, ratio, i as nat) == ee(k - i),
        forall|j: int|
            0 <= j <= m ==> #[trigger] giant_at(gb, ratio, factor as nat, j as nat) == ee(
                factor * j,
            ),
        forall|t1: int, t2: int|
            #![trigger ee(t1), ee(t2)]
            k - m <= t1 <= k && 0 <= t2 <= factor * m ==> ee(t1) != ee(t2),
        solver_post(r, bb, gb, ratio, factor as nat, m as nat),
    ensures
        r is None,
{
    if r is Some {
        let pair = r->0;
        let u: int = pair.0 as int;
        let v: int = pair.1 as int;
        assert(collides_at(bb, gb, ratio, factor as nat, u as nat, v as nat));
        assert(baby_at(bb, ratio, u as nat) == ee(k - u));
        assert(giant_at(gb, ratio, factor as nat, v as nat) == ee(factor * v));
        assert(0 <= factor * v <= factor * m) by {
            lemma_mul_nonnegative(factor, v);
            lemma_mul_inequality(v, m, factor);
            lemma_mul_is_commutative(factor, v);
            lemma_mul_is_commutative(factor, m);
        }
        assert(k - m <= k - u <= k);
        assert(ee(k - u) != ee(factor * v));
        assert(false);
    }
}

/// The first index of `key` in a table, scanning from the front: the value a
/// lookup finds when duplicate elements keep their first inserted index.
pub open spec fn table_find(t: Seq<Seq<u8>>, key: Seq<u8>) -> Option<int>
    decreases t.len(),
{
    if t.len() == 0 {
        None
    } else if t[0] == key {
        Some(0)
    } else {
        match table_find(t.skip(1), key) {
            Some(i) => Some(i + 1),
            None => None,
        }
    }
}

/// Idempotence of table construction: two progression tables built from
/// identical inputs hold identical entries, and every lookup agrees between
/// them.
pub proof fn lemma_table_idempotent(
    t1: Seq<Seq<u8>>,
    t2: Seq<Seq<u8>>,
    base: Seq<u8>,
    ratio: int,
    count: nat,
)
    requires
        t1.len() == count + 1,
        t2.len() == count + 1,
        forall|i: int| 0 <= i <= count ==> #[trigger] t1[i] == iter_pow(base, ratio, i as nat),
        forall|i: int| 0 <= i <= count ==> #[trigger] t2[i] == iter_pow(base, ratio, i as nat),
    ensures
        t1 == t2,
        forall|key: Seq<u8>| table_find(t1, key) == table_find(t2, key),
{
    assert(t1 =~= t2);
}

} // verus!
