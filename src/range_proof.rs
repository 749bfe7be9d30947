//! Range proofs: a committed value lies in `[0, 2^n)`.
//!
//! The value is split into bits. Each bit gets its own commitment `C_i = b_i·2^i·H + r_i·G`,
//! the bit commitments add up to the committed point, and for each bit a proof of
//! knowledge shows that `C_i` or `C_i − 2^i·H` is a multiple of `G` with a known exponent.
//! One challenge, hashed from the whole transcript, binds all the bit proofs together.
use vstd::prelude::*;
use vstd::arithmetic::power2::{
    pow2, lemma2_to64, lemma2_to64_rest, lemma_pow2_unfold, lemma_pow2_strictly_increases,
};
use crate::group::{
    Point, Scalar, group_order, encodes, is_point, log_of, lemma_log_of, lemma_encodes_eq,
    mul_base, mul_point, add_points, sub_points, decompress, hash_to_scalar, hash_scalar_of,
    append_bytes,
};
use vstd::arithmetic::div_mod::{lemma_add_mod_noop, lemma_sub_mod_noop, lemma_mod_twice, lemma_small_mod};
use vstd::arithmetic::mul::{lemma_mul_is_distributive_add_other_way, lemma_mul_basics};
use crate::commitments::{Commitment, PedersenCommitment, h_log, commitment_log};
use crate::group::{random_scalar, multiple_of_base, le_value};
use crate::CoreError;

verus! {

/// The proof for one bit of the value.
#[derive(Clone, Copy, Debug, PartialEq, Eq)]
pub struct BitProof {
    /// Commitment to the bit, weighted by its power of two.
    pub commitment: Point,
    /// Nonce commitment of the branch "the bit is 0".
    pub a0: Point,
    /// Nonce commitment of the branch "the bit is 1".
    pub a1: Point,
    /// Challenge share of the branch "the bit is 0"; the other share is `e − e0`.
    pub e0: Scalar,
    /// Response of the branch "the bit is 0".
    pub z0: Scalar,
    /// Response of the branch "the bit is 1".
    pub z1: Scalar,
}

impl BitProof {
    pub open spec fn points_wf(&self) -> bool {
        self.commitment.wf() && self.a0.wf() && self.a1.wf()
    }

    /// The discrete log of `C_i − 2^i·H`, for `pow == 2^i`.
    pub open spec fn shifted_log(&self, pow: int) -> int {
        (self.commitment.log() - (pow * h_log()) % group_order()) % group_order()
    }

    /// Both verification equations of the bit hold under challenge `e`, for `pow == 2^i`:
    /// `z0·G == A0 + e0·C_i` and `z1·G == A1 + (e − e0)·(C_i − 2^i·H)`.
    pub open spec fn holds(&self, pow: int, e: int) -> bool {
        let l = group_order();
        let e1 = (e - self.e0.val()) % l;
        &&& self.z0.val() == (self.a0.log() + (self.e0.val() * self.commitment.log()) % l) % l
        &&& self.z1.val() == (self.a1.log() + (e1 * self.shifted_log(pow)) % l) % l
    }
}

/// A proof that a commitment opens to a value in `[0, 2^n)`, with `n` the number of bit proofs.
#[derive(Clone, Debug, PartialEq, Eq)]
pub struct RangeProof {
    pub bits: Vec<BitProof>,
}

/// The bytes of the bit proofs that the challenge covers: each bit's commitment and nonces.
pub open spec fn bits_transcript(bits: Seq<BitProof>) -> Seq<u8>
    decreases bits.len(),
{
    if bits.len() == 0 {
        Seq::empty()
    } else {
        let b = bits.last();
        bits_transcript(bits.drop_last()) + b.commitment.bytes@ + b.a0.bytes@ + b.a1.bytes@
    }
}

/// The challenge of a proof against the commitment `c`.
pub open spec fn challenge(c: Seq<u8>, bits: Seq<BitProof>) -> int {
    hash_scalar_of(c + bits_transcript(bits))
}

/// The discrete log of the sum of the bit commitments.
pub open spec fn sum_logs(bits: Seq<BitProof>) -> int
    decreases bits.len(),
{
    if bits.len() == 0 {
        0
    } else {
        (sum_logs(bits.drop_last()) + bits.last().commitment.log()) % group_order()
    }
}

/// The proof `bits` is accepted against the compressed commitment `c`.
pub open spec fn proof_accepts(bits: Seq<BitProof>, c: Seq<u8>) -> bool {
    &&& 1 <= bits.len() <= 64
    &&& is_point(c)
    &&& forall|i: int| 0 <= i < bits.len() ==> (#[trigger] bits[i]).points_wf()
    &&& sum_logs(bits) == log_of(c)
    &&& forall|i: int| 0 <= i < bits.len() ==>
            (#[trigger] bits[i]).holds(pow2(i as nat) as int, challenge(c, bits))
}

/// The transcript bytes `c ‖ C_0 ‖ A0_0 ‖ A1_0 ‖ …`.
fn transcript(c: &Point, bits: &Vec<BitProof>) -> (r: Vec<u8>)
    ensures
        r@ == c.bytes@ + bits_transcript(bits@),
{
    let mut out: Vec<u8> = Vec::new();
    append_bytes(&mut out, &c.bytes);
    let mut i: usize = 0;
    while i < bits.len()
        invariant
            0 <= i <= bits.len(),
            out@ == c.bytes@ + bits_transcript(bits@.subrange(0, i as int)),
        decreases bits.len() - i,
    {
        let b = &bits[i];
        append_bytes(&mut out, &b.commitment.bytes);
        append_bytes(&mut out, &b.a0.bytes);
        append_bytes(&mut out, &b.a1.bytes);
        proof {
            let s = bits@.subrange(0, i + 1);
            assert(s.drop_last() =~= bits@.subrange(0, i as int));
        }
        i = i + 1;
    }
    assert(bits@.subrange(0, bits.len() as int) =~= bits@);
    out
}

/// Checks both equations of one bit; `pow` is `2^i`.
fn check_bit(pc: &PedersenCommitment, b: &BitProof, pow: u64, e: &Scalar) -> (r: bool)
    requires
        pc.wf(),
        b.points_wf(),
    ensures
        r == b.holds(pow as int, e.val()),
{
    let l = Ghost(group_order());
    let lhs0 = mul_base(&b.z0);
    let t0 = mul_point(&b.e0, &b.commitment);
    proof {
        lemma_log_of(t0.bytes@, (b.e0.val() * b.commitment.log()) % l@);
    }
    let rhs0 = add_points(&b.a0, &t0);
    proof {
        lemma_encodes_eq(lhs0.bytes@, b.z0.val(), rhs0.bytes@,
            (b.a0.log() + (b.e0.val() * b.commitment.log()) % l@) % l@);
    }
    if !lhs0.equals(&rhs0) {
        return false;
    }
    let e1 = e.minus(&b.e0);
    let ph = mul_point(&Scalar::from_u64(pow), &pc.h);
    proof {
        lemma_log_of(pc.h.bytes@, log_of(pc.h.bytes@));
        lemma_log_of(ph.bytes@, (pow * h_log()) % l@);
    }
    let d1 = sub_points(&b.commitment, &ph);
    proof {
        lemma_log_of(d1.bytes@, b.shifted_log(pow as int));
    }
    let lhs1 = mul_base(&b.z1);
    let t1 = mul_point(&e1, &d1);
    proof {
        lemma_log_of(t1.bytes@, (e1.val() * b.shifted_log(pow as int)) % l@);
    }
    let rhs1 = add_points(&b.a1, &t1);
    proof {
        lemma_encodes_eq(lhs1.bytes@, b.z1.val(), rhs1.bytes@,
            (b.a1.log() + (e1.val() * b.shifted_log(pow as int)) % l@) % l@);
    }
    lhs1.equals(&rhs1)
}

/// Whether the three points of a bit proof are valid group elements.
fn bit_points_valid(b: &BitProof) -> (r: bool)
    ensures
        r == b.points_wf(),
{
    decompress(b.commitment.bytes).is_some() && decompress(b.a0.bytes).is_some()
        && decompress(b.a1.bytes).is_some()
}

impl RangeProof {
    /// Checks the proof against a commitment.
    pub fn verify(&self, commitment: &Commitment) -> (r: bool)
        ensures
            r == proof_accepts(self.bits@, commitment.point.bytes@),
    {
        let n = self.bits.len();
        if n == 0 || n > 64 {
            return false;
        }
        if decompress(commitment.point.bytes).is_none() {
            return false;
        }
        let mut i: usize = 0;
        while i < n
            invariant
                0 <= i <= n,
                n == self.bits.len(),
                forall|j: int| 0 <= j < i ==> (#[trigger] self.bits@[j]).points_wf(),
            decreases n - i,
        {
            if !bit_points_valid(&self.bits[i]) {
                return false;
            }
            i = i + 1;
        }
        let mut sum = mul_base(&Scalar::zero());
        proof {
            lemma_log_of(sum.bytes@, 0);
        }
        i = 0;
        while i < n
            invariant
                0 <= i <= n,
                n == self.bits.len(),
                forall|j: int| 0 <= j < n ==> (#[trigger] self.bits@[j]).points_wf(),
                encodes(sum.bytes@, sum_logs(self.bits@.subrange(0, i as int))),
            decreases n - i,
        {
            proof {
                lemma_log_of(sum.bytes@, sum_logs(self.bits@.subrange(0, i as int)));
                assert(self.bits@[i as int].points_wf());
            }
            sum = add_points(&sum, &self.bits[i].commitment);
            proof {
                let s = self.bits@.subrange(0, i + 1);
                assert(s.drop_last() =~= self.bits@.subrange(0, i as int));
            }
            i = i + 1;
        }
        proof {
            assert(self.bits@.subrange(0, n as int) =~= self.bits@);
            let c = commitment.point.bytes@;
            lemma_log_of(c, log_of(c));
            lemma_encodes_eq(sum.bytes@, sum_logs(self.bits@), c, log_of(c));
        }
        if !sum.equals(&commitment.point) {
            return false;
        }
        let t = transcript(&commitment.point, &self.bits);
        let e = hash_to_scalar(t.as_slice());
        let pc = PedersenCommitment::new();
        let mut pow: u64 = 1;
        proof {
            lemma2_to64();
        }
        i = 0;
        while i < n
            invariant
                0 <= i <= n <= 64,
                n == self.bits.len(),
                pc.wf(),
                i < 64 ==> pow == pow2(i as nat),
                e.val() == challenge(commitment.point.bytes@, self.bits@),
                forall|j: int| 0 <= j < n ==> (#[trigger] self.bits@[j]).points_wf(),
                forall|j: int| 0 <= j < i ==>
                    (#[trigger] self.bits@[j]).holds(pow2(j as nat) as int, e.val()),
            decreases n - i,
        {
            if !check_bit(&pc, &self.bits[i], pow, &e) {
                return false;
            }
            if i < 63 {
                proof {
                    lemma_pow2_unfold((i + 1) as nat);
                    lemma_pow2_fits(i as nat);
                }
                pow = pow * 2;
            }
            i = i + 1;
        }
        true
    }
}

/// Powers of two below `2^63` double without leaving `u64`.
proof fn lemma_pow2_fits(i: nat)
    requires
        i < 63,
    ensures
        pow2(i) * 2 <= 0x8000000000000000,
{
    lemma2_to64_rest();
    lemma_pow2_unfold(i + 1);
    if i + 1 < 63 {
        lemma_pow2_strictly_increases(i + 1, 63);
    }
}


/// The value with its lowest `i` bits shifted out.
pub open spec fn shifted(v: int, i: nat) -> int
    decreases i,
{
    if i == 0 {
        v
    } else {
        shifted(v, (i - 1) as nat) / 2
    }
}

/// What the prover keeps for one bit until the challenge is known.
struct BitSecret {
    bit: u64,
    blinding: Scalar,
    nonce: Scalar,
    fake_e: Scalar,
    fake_z: Scalar,
}

/// The draft `d` of bit proof `i` (weight `pow`) was built from the secret `s`: the known
/// branch commits to the nonce, the other branch is simulated from `fake_e` and `fake_z`.
spec fn drafted(d: BitProof, s: BitSecret, pow: int) -> bool {
    let l = group_order();
    &&& s.bit == 0 || s.bit == 1
    &&& d.points_wf()
    &&& d.commitment.log() == commitment_log(s.bit * pow, s.blinding.val())
    &&& s.bit == 0 ==> {
        &&& d.a0.log() == s.nonce.val()
        &&& d.a1.log() == (s.fake_z.val() - (s.fake_e.val() * d.shifted_log(pow)) % l) % l
    }
    &&& s.bit == 1 ==> {
        &&& d.a1.log() == s.nonce.val()
        &&& d.a0.log() == (s.fake_z.val() - (s.fake_e.val() * d.commitment.log()) % l) % l
    }
}

proof fn lemma_scalar_range(s: Scalar)
    ensures
        0 <= s.val() < group_order(),
        s.val() % group_order() == s.val(),
{
    lemma_mod_twice(le_value(s.bytes@), group_order());
}

/// Adding back what was taken away: `((x − t) mod ℓ + t) mod ℓ == x` for reduced `x`, `t`.
proof fn lemma_unshift(x: int, t: int)
    requires
        0 <= x < group_order(),
        0 <= t < group_order(),
    ensures
        ((x - t) % group_order() + t) % group_order() == x,
{
    let l = group_order();
    lemma_add_mod_noop(x - t, t, l);
    lemma_small_mod(t as nat, l as nat);
    lemma_small_mod(x as nat, l as nat);
}

/// A simulated branch satisfies its equation.
proof fn lemma_simulated(z: int, a: int, e: int, d: int)
    requires
        0 <= z < group_order(),
        a == (z - (e * d) % group_order()) % group_order(),
    ensures
        z == (a + (e * d) % group_order()) % group_order(),
{
    lemma_unshift(z, (e * d) % group_order());
}

/// One step of the running sum of the bit commitments.
proof fn lemma_sum_step(low: int, acc: int, bv: int, ri: int)
    ensures
        ((low * h_log() + acc) % group_order() + (bv * h_log() + ri) % group_order()) % group_order()
            == ((low + bv) * h_log() + (acc + ri) % group_order()) % group_order(),
{
    let l = group_order();
    let h = h_log();
    lemma_add_mod_noop(low * h + acc, bv * h + ri, l);
    lemma_mul_is_distributive_add_other_way(h, low, bv);
    assert((low * h + acc) + (bv * h + ri) == (low + bv) * h + (acc + ri));
    lemma_add_mod_noop((low + bv) * h, acc + ri, l);
    lemma_add_mod_noop((low + bv) * h, (acc + ri) % l, l);
    lemma_mod_twice(acc + ri, l);
}

/// The finished bit proof `b` holds, given the draft it keeps the points of.
proof fn lemma_bit_complete(d: BitProof, s: BitSecret, b: BitProof, pow: int, e: int)
    requires
        drafted(d, s, pow),
        0 <= e < group_order(),
        b.commitment == d.commitment,
        b.a0 == d.a0,
        b.a1 == d.a1,
        s.bit == 0 ==> {
            &&& b.e0.val() == (e - s.fake_e.val()) % group_order()
            &&& b.z0.val() == (s.nonce.val() + (b.e0.val() * s.blinding.val()) % group_order())
                % group_order()
            &&& b.z1 == s.fake_z
        },
        s.bit == 1 ==> {
            &&& b.e0 == s.fake_e
            &&& b.z1.val() == (s.nonce.val() + (((e - s.fake_e.val()) % group_order())
                * s.blinding.val()) % group_order()) % group_order()
            &&& b.z0 == s.fake_z
        },
    ensures
        b.holds(pow, e),
{
    let l = group_order();
    let h = h_log();
    let r = s.blinding.val();
    lemma_scalar_range(s.blinding);
    lemma_scalar_range(s.fake_e);
    lemma_scalar_range(s.fake_z);
    lemma_scalar_range(s.nonce);
    let c = d.commitment.log();
    if s.bit == 0 {
        lemma_mul_basics(pow);
        lemma_mul_basics(h);
        assert(c == r);
        // the challenge share of branch 1 comes back as the simulated one
        lemma_sub_mod_noop(e, e - s.fake_e.val(), l);
        lemma_small_mod(e as nat, l as nat);
        assert((e - b.e0.val()) % l == s.fake_e.val());
        lemma_simulated(s.fake_z.val(), d.a1.log(), s.fake_e.val(), d.shifted_log(pow));
    } else {
        lemma_mul_basics(pow);
        lemma_sub_mod_noop(pow * h + r, pow * h, l);
        assert(d.shifted_log(pow) == r);
        lemma_simulated(s.fake_z.val(), d.a0.log(), s.fake_e.val(), c);
    }
}

/// Value decomposition: after step `i`, `low` holds the lowest `i` bits.
proof fn lemma_split_step(v: int, i: nat, low: int, pow: int, b: int)
    requires
        low + shifted(v, i) * pow == v,
        0 <= low < pow,
        shifted(v, i) >= 0,
        b == shifted(v, i) % 2,
    ensures
        (low + b * pow) + shifted(v, i + 1) * (2 * pow) == v,
        0 <= low + b * pow < 2 * pow,
        shifted(v, i + 1) >= 0,
{
    let rest = shifted(v, i);
    assert(shifted(v, i + 1) == rest / 2);
    assert(rest == 2 * (rest / 2) + b);
    assert((low + b * pow) + (rest / 2) * (2 * pow) == low + rest * pow) by (nonlinear_arith)
        requires
            rest == 2 * (rest / 2) + b,
    ;
    assert(0 <= b * pow <= pow) by (nonlinear_arith)
        requires
            0 <= b <= 1,
            pow > 0,
    ;
}


/// Bit proofs with the same points have the same transcript and the same commitment sum.
proof fn lemma_same_points(s1: Seq<BitProof>, s2: Seq<BitProof>)
    requires
        s1.len() == s2.len(),
        forall|j: int| 0 <= j < s1.len() ==> {
            &&& (#[trigger] s1[j]).commitment == s2[j].commitment
            &&& s1[j].a0 == s2[j].a0
            &&& s1[j].a1 == s2[j].a1
        },
    ensures
        bits_transcript(s1) == bits_transcript(s2),
        sum_logs(s1) == sum_logs(s2),
    decreases s1.len(),
{
    if s1.len() > 0 {
        lemma_same_points(s1.drop_last(), s2.drop_last());
        assert(s1[s1.len() - 1].commitment == s2[s2.len() - 1].commitment);
    }
}

/// Builds the draft of one bit proof: the commitment `ci` to the bit `b` of weight `pow`,
/// the known branch from the nonce `k`, the other simulated from `fe` and `fz`.
fn draft_bit(pc: &PedersenCommitment, ci: &Commitment, b: u64, ri: &Scalar, pow: u64, k: &Scalar,
    fe: &Scalar, fz: &Scalar) -> (r: BitProof)
    requires
        pc.wf(),
        b == 0 || b == 1,
        encodes(ci.point.bytes@, commitment_log(b * pow, ri.val())),
    ensures
        drafted(r, BitSecret { bit: b, blinding: *ri, nonce: *k, fake_e: *fe, fake_z: *fz }, pow as int),
{
    let ghost l = group_order();
    let ghost h = h_log();
    proof {
        lemma_log_of(ci.point.bytes@, commitment_log(b * pow, ri.val()));
    }
    let zg = mul_base(fz);
    let known = mul_base(k);
    proof {
        lemma_log_of(zg.bytes@, fz.val());
        lemma_log_of(known.bytes@, k.val());
    }
    if b == 0 {
        let ph = mul_point(&Scalar::from_u64(pow), &pc.h);
        proof {
            lemma_log_of(pc.h.bytes@, log_of(pc.h.bytes@));
            lemma_log_of(ph.bytes@, (pow * h) % l);
        }
        let d1 = sub_points(&ci.point, &ph);
        proof {
            lemma_log_of(d1.bytes@, (ci.log() - (pow * h) % l) % l);
        }
        let t = mul_point(fe, &d1);
        proof {
            lemma_log_of(t.bytes@, (fe.val() * d1.log()) % l);
        }
        let a1 = sub_points(&zg, &t);
        proof {
            lemma_log_of(a1.bytes@, (fz.val() - t.log()) % l);
        }
        BitProof { commitment: ci.point, a0: known, a1, e0: *fe, z0: *fz, z1: *fz }
    } else {
        let t = mul_point(fe, &ci.point);
        proof {
            lemma_log_of(t.bytes@, (fe.val() * ci.log()) % l);
        }
        let a0 = sub_points(&zg, &t);
        proof {
            lemma_log_of(a0.bytes@, (fz.val() - t.log()) % l);
        }
        BitProof { commitment: ci.point, a0, a1: known, e0: *fe, z0: *fz, z1: *fz }
    }
}

/// Answers the challenge in every drafted bit proof.
fn finish(c: &Commitment, draft: &Vec<BitProof>, secrets: &Vec<BitSecret>) -> (r: RangeProof)
    requires
        c.wf(),
        1 <= draft@.len() <= 64,
        secrets@.len() == draft@.len(),
        sum_logs(draft@) == c.log(),
        forall|j: int| 0 <= j < draft@.len() ==>
            drafted(#[trigger] draft@[j], secrets@[j], pow2(j as nat) as int),
    ensures
        r.bits@.len() == draft@.len(),
        proof_accepts(r.bits@, c.point.bytes@),
{
    let t = transcript(&c.point, draft);
    let e = hash_to_scalar(t.as_slice());
    proof {
        lemma_scalar_range(e);
    }
    let n = draft.len();
    let mut bits: Vec<BitProof> = Vec::new();
    let mut i: usize = 0;
    while i < n
        invariant
            0 <= i <= n,
            n == draft@.len(),
            secrets@.len() == n,
            e.val() == hash_scalar_of(c.point.bytes@ + bits_transcript(draft@)),
            0 <= e.val() < group_order(),
            bits@.len() == i,
            forall|j: int| 0 <= j < n ==>
                drafted(#[trigger] draft@[j], secrets@[j], pow2(j as nat) as int),
            forall|j: int| 0 <= j < i ==> {
                &&& (#[trigger] bits@[j]).commitment == draft@[j].commitment
                &&& bits@[j].a0 == draft@[j].a0
                &&& bits@[j].a1 == draft@[j].a1
                &&& bits@[j].holds(pow2(j as nat) as int, e.val())
            },
        decreases n - i,
    {
        let d = &draft[i];
        let s = &secrets[i];
        let b = if s.bit == 0 {
            let e0 = e.minus(&s.fake_e);
            let z0 = s.nonce.plus(&e0.times(&s.blinding));
            BitProof { commitment: d.commitment, a0: d.a0, a1: d.a1, e0, z0, z1: s.fake_z }
        } else {
            let e1 = e.minus(&s.fake_e);
            let z1 = s.nonce.plus(&e1.times(&s.blinding));
            BitProof { commitment: d.commitment, a0: d.a0, a1: d.a1, e0: s.fake_e, z0: s.fake_z, z1 }
        };
        proof {
            lemma_bit_complete(*d, *s, b, pow2(i as nat) as int, e.val());
        }
        bits.push(b);
        i = i + 1;
    }
    proof {
        lemma_same_points(bits@, draft@);
        assert forall|j: int| 0 <= j < bits@.len() implies (#[trigger] bits@[j]).points_wf() by {
            assert(drafted(draft@[j], secrets@[j], pow2(j as nat) as int));
        }
    }
    RangeProof { bits }
}

/// Completeness: a proof that `prove(v, r, n)` returns is accepted by `verify` against the
/// commitment that `commit(v, r)` returns.
pub proof fn lemma_range_proof_complete(v: int, r: int, bits: Seq<BitProof>, c: Seq<u8>)
    requires
        proof_accepts(bits, multiple_of_base(commitment_log(v, r))),
        encodes(c, commitment_log(v, r)),
    ensures
        proof_accepts(bits, c),
{
}

/// Binding: a proof accepted against one commitment is rejected against every other,
/// since its bit commitments add up to the commitment it proves.
pub proof fn lemma_range_proof_binds(bits: Seq<BitProof>, c1: Seq<u8>, c2: Seq<u8>)
    requires
        proof_accepts(bits, c1),
        proof_accepts(bits, c2),
    ensures
        c1 == c2,
{
    lemma_log_of(c1, log_of(c1));
    lemma_log_of(c2, log_of(c2));
    lemma_encodes_eq(c1, log_of(c1), c2, log_of(c2));
}

impl RangeProof {
    /// Proves that `value·H + blinding·G` opens to a value below `2^n`. Fails, as a
    /// commitment error, when `n` is not in `1..=64` or the value needs more than `n` bits.
    pub fn prove(value: u64, blinding: &Scalar, n: usize) -> (r: Result<RangeProof, CoreError>)
        ensures
            r is Ok <==> (1 <= n <= 64 && value < pow2(n as nat)),
            r is Ok ==> r->Ok_0.bits@.len() == n,
            r is Ok ==> proof_accepts(
                r->Ok_0.bits@,
                multiple_of_base(commitment_log(value as int, blinding.val())),
            ),
            r is Err ==> r->Err_0 is Commitment,
    {
        if n == 0 || n > 64 {
            return Err(CoreError::Commitment("range proof size must be between 1 and 64 bits".to_owned()));
        }
        let pc = PedersenCommitment::new();
        let c = pc.commit(value, blinding);
        let ghost l = group_order();
        let ghost h = h_log();
        let mut draft: Vec<BitProof> = Vec::new();
        let mut secrets: Vec<BitSecret> = Vec::new();
        let mut acc = Scalar::zero();
        let mut rest: u64 = value;
        let mut pow: u64 = 1;
        let ghost mut low: int = 0;
        let mut i: usize = 0;
        proof {
            lemma2_to64();
            lemma_mul_basics(h);
            lemma_small_mod(0, l as nat);
        }
        while i < n
            invariant
                1 <= n <= 64,
                0 <= i <= n,
                pc.wf(),
                l == group_order(),
                h == h_log(),
                i < 64 ==> pow == pow2(i as nat),
                rest == shifted(value as int, i as nat),
                low + rest * pow2(i as nat) == value,
                0 <= low < pow2(i as nat),
                draft@.len() == i,
                secrets@.len() == i,
                0 <= acc.val() < l,
                i == n ==> acc.val() == blinding.val(),
                sum_logs(draft@) == (low * h + acc.val()) % l,
                forall|j: int| 0 <= j < i ==>
                    drafted(#[trigger] draft@[j], secrets@[j], pow2(j as nat) as int),
            decreases n - i,
        {
            let b: u64 = rest % 2;
            let ri = if i + 1 == n {
                blinding.minus(&acc)
            } else {
                random_scalar()
            };
            let ghost acc_before = acc.val();
            acc = acc.plus(&ri);
            let bv: u64 = if b == 1 { pow } else { 0 };
            let ci = pc.commit(bv, &ri);
            let k = random_scalar();
            let fe = random_scalar();
            let fz = random_scalar();
            proof {
                assert(bv == b * pow) by (nonlinear_arith)
                    requires
                        b == 0 || b == 1,
                        bv == (if b == 1 { pow } else { 0 }),
                ;
            }
            let d = draft_bit(&pc, &ci, b, &ri, pow, &k, &fe, &fz);
            let sec = BitSecret { bit: b, blinding: ri, nonce: k, fake_e: fe, fake_z: fz };
            let ghost old_draft = draft@;
            proof {
                lemma_scalar_range(ri);
                lemma_scalar_range(*blinding);
                lemma_sum_step(low, acc_before, bv as int, ri.val());
                lemma_split_step(value as int, i as nat, low, pow as int, b as int);
                lemma_pow2_unfold((i + 1) as nat);
                low = low + bv;
                lemma_scalar_range(acc);
                if i + 1 == n {
                    lemma_add_mod_noop(acc_before, blinding.val() - acc_before, l);
                    lemma_small_mod(acc_before as nat, l as nat);
                }
            }
            draft.push(d);
            secrets.push(sec);
            proof {
                assert(draft@.drop_last() =~= old_draft);
            }
            rest = rest / 2;
            if i < 63 {
                proof {
                    lemma_pow2_fits(i as nat);
                }
                pow = pow * 2;
            }
            i = i + 1;
        }
        if rest != 0 {
            proof {
                assert(low + rest * pow2(n as nat) >= pow2(n as nat)) by (nonlinear_arith)
                    requires
                        rest >= 1,
                        low >= 0,
                ;
            }
            return Err(CoreError::Commitment("value does not fit in the range".to_owned()));
        }
        proof {
            lemma_mul_basics(pow2(n as nat) as int);
            assert(low == value);
            lemma_log_of(c.point.bytes@, commitment_log(value as int, blinding.val()));
        }
        Ok(finish(&c, &draft, &secrets))
    }
}

} // verus!
