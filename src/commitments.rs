//! Pedersen commitments `C = v·H + r·G` over the group.
use vstd::prelude::*;
use vstd::arithmetic::div_mod::{lemma_add_mod_noop, lemma_mod_twice, lemma_small_mod};
use vstd::arithmetic::mul::{lemma_mul_is_distributive_add_other_way, lemma_mul_basics};
use crate::group::{
    Point, Scalar, group_order, multiple_of_base, point_from_uniform, blake2b_512_of, encodes,
    is_point, log_of, lemma_log_of, mul_base, mul_point, add_points, sub_points, blake2b_512,
    from_uniform_bytes, le_value,
};

verus! {

/// The bytes hashed to obtain `H`: a domain tag, then the compressed basepoint.
pub open spec fn h_seed() -> Seq<u8> {
    seq![80u8, 101, 100, 101, 114, 115, 101, 110, 72] + multiple_of_base(1)
}

/// The compressed second generator `H`, hashed from `G` into the group.
pub open spec fn generator_h() -> Seq<u8> {
    point_from_uniform(blake2b_512_of(h_seed()))
}

/// The discrete log of `H` with respect to `G`, which nobody knows.
pub open spec fn h_log() -> int {
    log_of(generator_h())
}

/// The discrete log of the commitment to value `v` with blinding `r`.
pub open spec fn commitment_log(v: int, r: int) -> int {
    (v * h_log() + r) % group_order()
}

/// A commitment: a single group element.
#[derive(Clone, Copy, Debug, PartialEq, Eq)]
pub struct Commitment {
    pub point: Point,
}

impl Commitment {
    /// The discrete log of the committed point.
    pub open spec fn log(&self) -> int {
        self.point.log()
    }

    pub open spec fn wf(&self) -> bool {
        self.point.wf()
    }
}

/// The generators of the commitment scheme; `G` is the basepoint.
#[derive(Clone, Copy, Debug)]
pub struct PedersenCommitment {
    pub h: Point,
}

impl PedersenCommitment {
    pub open spec fn wf(&self) -> bool {
        &&& self.h.bytes@ == generator_h()
        &&& is_point(self.h.bytes@)
    }

    /// Derives `H` from `G` by hashing.
    pub fn new() -> (r: PedersenCommitment)
        ensures
            r.wf(),
    {
        let g = mul_base(&Scalar::from_u64(1));
        let mut seed: Vec<u8> = vec![80u8, 101, 100, 101, 114, 115, 101, 110, 72];
        let mut i: usize = 0;
        while i < 32
            invariant
                0 <= i <= 32,
                seed@ == seq![80u8, 101, 100, 101, 114, 115, 101, 110, 72] + g.bytes@.subrange(0, i as int),
            decreases 32 - i,
        {
            seed.push(g.bytes[i]);
            i = i + 1;
            assert(seed@ =~= seq![80u8, 101, 100, 101, 114, 115, 101, 110, 72] + g.bytes@.subrange(0, i as int));
        }
        assert(g.bytes@.subrange(0, 32) =~= g.bytes@);
        let digest = blake2b_512(seed.as_slice());
        let h = from_uniform_bytes(&digest);
        PedersenCommitment { h }
    }

    /// `v·H + r·G`.
    pub fn commit(&self, value: u64, blinding: &Scalar) -> (r: Commitment)
        requires
            self.wf(),
        ensures
            encodes(r.point.bytes@, commitment_log(value as int, blinding.val())),
            r.wf(),
            r.log() == commitment_log(value as int, blinding.val()),
    {
        let vh = mul_point(&Scalar::from_u64(value), &self.h);
        let rg = mul_base(blinding);
        proof {
            lemma_log_of(vh.bytes@, (value * h_log()) % group_order());
            lemma_log_of(rg.bytes@, blinding.val());
        }
        let p = add_points(&vh, &rg);
        proof {
            lemma_add_mod_noop(value * h_log(), blinding.val(), group_order());
            lemma_mod_twice(le_value(blinding.bytes@), group_order());
            lemma_log_of(p.bytes@, commitment_log(value as int, blinding.val()));
        }
        Commitment { point: p }
    }

    /// The sum of two commitments.
    pub fn add_commitments(a: &Commitment, b: &Commitment) -> (r: Commitment)
        requires
            a.wf(),
            b.wf(),
        ensures
            encodes(r.point.bytes@, (a.log() + b.log()) % group_order()),
            r.wf(),
            r.log() == (a.log() + b.log()) % group_order(),
    {
        let p = add_points(&a.point, &b.point);
        proof {
            lemma_log_of(p.bytes@, (a.log() + b.log()) % group_order());
        }
        Commitment { point: p }
    }

    /// The difference of two commitments.
    pub fn subtract_commitments(a: &Commitment, b: &Commitment) -> (r: Commitment)
        requires
            a.wf(),
            b.wf(),
        ensures
            encodes(r.point.bytes@, (a.log() - b.log()) % group_order()),
            r.wf(),
            r.log() == (a.log() - b.log()) % group_order(),
    {
        let p = sub_points(&a.point, &b.point);
        proof {
            lemma_log_of(p.bytes@, (a.log() - b.log()) % group_order());
        }
        Commitment { point: p }
    }
}

/// Homomorphism: the sum of the commitments to `(v1, r1)` and `(v2, r2)` is the
/// commitment to `(v1 + v2, r1 + r2)`, values added as integers and blindings modulo ℓ.
pub proof fn lemma_commit_homomorphic(v1: int, r1: int, v2: int, r2: int)
    ensures
        (commitment_log(v1, r1) + commitment_log(v2, r2)) % group_order()
            == commitment_log(v1 + v2, r1 + r2),
        commitment_log(v1 + v2, r1 + r2) == commitment_log(v1 + v2, (r1 + r2) % group_order()),
{
    let l = group_order();
    let h = h_log();
    lemma_add_mod_noop(v1 * h + r1, v2 * h + r2, l);
    lemma_mul_is_distributive_add_other_way(h, v1, v2);
    assert((v1 * h + r1) + (v2 * h + r2) == (v1 + v2) * h + (r1 + r2));
    lemma_add_mod_noop((v1 + v2) * h, r1 + r2, l);
    lemma_add_mod_noop((v1 + v2) * h, (r1 + r2) % l, l);
    lemma_mod_twice(r1 + r2, l);
}

/// Identity: the commitment to `(0, 0)` is the identity, and a commitment minus itself
/// is the identity.
pub proof fn lemma_commit_identity(v: int, r: int)
    ensures
        commitment_log(0, 0) == 0,
        (commitment_log(v, r) - commitment_log(v, r)) % group_order() == 0,
{
    lemma_mul_basics(h_log());
    lemma_small_mod(0, group_order() as nat);
}

} // verus!
