//! Group elements, carried as canonical byte encodings.
//!
//! Elements of the pairing target group are opaque to the engine: it only
//! raises them to scalar powers, compares them, and files them in lookup
//! tables. Both operations that need the curve itself — exponentiation in the
//! target group and the pairing — stand behind trusted wrappers whose results
//! are named, uninterpreted functions of the argument bytes.

use vstd::prelude::*;
use crate::scalar::{FrElem, le_int};
use ark_ec::pairing::Pairing;
use ark_serialize::{CanonicalSerialize, CanonicalDeserialize};
use ark_ff::Field;

verus! {

/// An element of the pairing target group, as canonical bytes.
pub struct GtElem {
    bytes: Vec<u8>,
}

/// A point of the first pairing source group, as canonical compressed bytes.
pub struct G1Elem {
    bytes: Vec<u8>,
}

/// A point of the second pairing source group, as canonical compressed bytes.
pub struct G2Elem {
    bytes: Vec<u8>,
}

impl View for GtElem {
    type V = Seq<u8>;

    closed spec fn view(&self) -> Seq<u8> {
        self.bytes@
    }
}

impl View for G1Elem {
    type V = Seq<u8>;

    closed spec fn view(&self) -> Seq<u8> {
        self.bytes@
    }
}

impl View for G2Elem {
    type V = Seq<u8>;

    closed spec fn view(&self) -> Seq<u8> {
        self.bytes@
    }
}

impl GtElem {
    pub fn new(bytes: Vec<u8>) -> (r: GtElem)
        ensures
            r@ == bytes@,
    {
        GtElem { bytes }
    }

    pub fn as_bytes(&self) -> (r: &Vec<u8>)
        ensures
            r@ == self@,
    {
        &self.bytes
    }

    pub fn duplicate(&self) -> (r: GtElem)
        ensures
            r@ == self@,
    {
        GtElem { bytes: clone_bytes(&self.bytes) }
    }
}

impl G1Elem {
    pub fn new(bytes: Vec<u8>) -> (r: G1Elem)
        ensures
            r@ == bytes@,
    {
        G1Elem { bytes }
    }
}

impl G2Elem {
    pub fn new(bytes: Vec<u8>) -> (r: G2Elem)
        ensures
            r@ == bytes@,
    {
        G2Elem { bytes }
    }
}

/// What raising the target-group element `g` to the scalar with canonical
/// value `e` returns, as computed by the underlying pairing library.
pub uninterp spec fn gt_pow_of(g: Seq<u8>, e: int) -> Seq<u8>;

/// What pairing the two encoded source-group points returns.
pub uninterp spec fn pairing_of(p: Seq<u8>, q: Seq<u8>) -> Seq<u8>;

/// Relies on `ark_ff`'s `Field::pow` on the target field and on
/// `ark_serialize`'s canonical encoding: the power of a target-group element
/// is a function of the element bytes and the scalar's canonical value alone.
/// Bytes that decode to no element are passed through unchanged.
#[verifier::external_body]
pub(crate) fn gt_pow(g: &GtElem, s: &FrElem) -> (r: GtElem)
    requires
        s.wf(),
    ensures
        r@ == gt_pow_of(g@, le_int(s@)),
{
    let fs = ark_bls12_381::Fr::deserialize_compressed(&s.as_bytes()[..]).unwrap();
    match ark_bls12_381::Fq12::deserialize_compressed(&g.bytes[..]) {
        Err(_) => GtElem { bytes: g.bytes.clone() },
        Ok(fg) => {
            let out = fg.pow(ark_ff::PrimeField::into_bigint(fs));
            let mut bytes: Vec<u8> = Vec::new();
            out.serialize_compressed(&mut bytes).unwrap();
            GtElem { bytes }
        },
    }
}

/// Relies on `ark_ec`'s `Bls12_381::pairing` and on `ark_serialize`: the
/// pairing value is a function of the two canonical point encodings alone.
/// Bytes that decode to no point yield the empty encoding.
#[verifier::external_body]
pub(crate) fn pairing(p: &G1Elem, q: &G2Elem) -> (r: GtElem)
    ensures
        r@ == pairing_of(p@, q@),
{
    let pa = ark_bls12_381::G1Affine::deserialize_compressed(&p.bytes[..]);
    let qa = ark_bls12_381::G2Affine::deserialize_compressed(&q.bytes[..]);
    match (pa, qa) {
        (Ok(pp), Ok(qq)) => {
            let out = ark_bls12_381::Bls12_381::pairing(pp, qq);
            let mut bytes: Vec<u8> = Vec::new();
            out.0.serialize_compressed(&mut bytes).unwrap();
            GtElem { bytes }
        },
        _ => GtElem { bytes: Vec::new() },
    }
}

/// Byte-for-byte copy of a vector.
pub fn clone_bytes(v: &Vec<u8>) -> (r: Vec<u8>)
    ensures
        r@ == v@,
{
    let mut r: Vec<u8> = Vec::new();
    let mut i: usize = 0;
    while i < v.len()
        invariant
            i <= v.len(),
            r@ == v@.subrange(0, i as int),
        decreases v.len() - i,
    {
        r.push(v[i]);
        i = i + 1;
        proof {
            assert(r@ =~= v@.subrange(0, i as int));
        }
    }
    proof {
        assert(r@ =~= v@);
    }
    r
}

/// Byte-for-byte equality of two vectors.
pub fn bytes_eq(a: &Vec<u8>, b: &Vec<u8>) -> (r: bool)
    ensures
        r == (a@ == b@),
{
    if a.len() != b.len() {
        return false;
    }
    let mut i: usize = 0;
    while i < a.len()
        invariant
            i <= a.len(),
            a@.len() == b@.len(),
            forall|j: int| 0 <= j < i ==> a@[j] == b@[j],
        decreases a.len() - i,
    {
        if a[i] != b[i] {
            return false;
        }
        i = i + 1;
    }
    proof {
        assert(a@ =~= b@);
    }
    true
}

/// The element reached from `g` after `n` successive exponentiations by the
/// scalar value `s`: the spine of a geometric progression of `g`.
pub open spec fn iter_pow(g: Seq<u8>, s: int, n: nat) -> Seq<u8>
    decreases n,
{
    if n == 0 {
        g
    } else {
        gt_pow_of(iter_pow(g, s, (n - 1) as nat), s)
    }
}

/// Build the progression table of `base` under repeated exponentiation by
/// `ratio`: entry `i` holds `base` raised to the `i`-th power of `ratio`, for
/// `i` in `0..=count`. Keyed by element, the table maps an element to a step
/// index; a duplicate element keeps its first (lowest) index, which lookups
/// honour by scanning from the front.
pub fn build_progression_table(base: &GtElem, ratio: &FrElem, count: u64) -> (t: Vec<GtElem>)
    requires
        ratio.wf(),
        count <= 0xffff_fffe,
    ensures
        t@.len() == count + 1,
        forall|i: int| 0 <= i <= count ==> #[trigger] t@[i]@ == iter_pow(base@, le_int(ratio@), i as nat),
{
    let mut t: Vec<GtElem> = Vec::new();
    t.push(base.duplicate());
    while (t.len() as u64) <= count
        invariant
            ratio.wf(),
            count <= 0xffff_fffe,
            1 <= t@.len() <= count + 1,
            forall|i: int| 0 <= i < t@.len() ==> #[trigger] t@[i]@ == iter_pow(
                base@,
                le_int(ratio@),
                i as nat,
            ),
        decreases count + 1 - t@.len(),
    {
        let last = t.len() - 1;
        let next = gt_pow(&t[last], ratio);
        t.push(next);
    }
    t
}

/// Look `key` up in a progression table: the first index whose entry equals
/// `key`, if any.
pub fn table_index_of(t: &Vec<GtElem>, key: &GtElem) -> (r: Option<u64>)
    requires
        t@.len() <= 0xffff_ffff,
    ensures
        match r {
            Some(i) => 0 <= i < t@.len() && t@[i as int]@ == key@ && forall|j: int|
                0 <= j < i ==> t@[j]@ != key@,
            None => forall|j: int| 0 <= j < t@.len() ==> t@[j]@ != key@,
        },
{
    let mut i: usize = 0;
    while i < t.len()
        invariant
            i <= t@.len(),
            t@.len() <= 0xffff_ffff,
            forall|j: int| 0 <= j < i ==> t@[j]@ != key@,
        decreases t@.len() - i,
    {
        if bytes_eq(t[i].as_bytes(), key.as_bytes()) {
            return Some(i as u64);
        }
        i = i + 1;
    }
    None
}

} // verus!
