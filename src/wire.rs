//! The binary form of a private transaction.
//!
//! Integers are little-endian; counts and lengths take 8 bytes; an optional byte string
//! is a tag byte, 0 or 1, then its length and bytes. The layout is
//! `inputs ‖ outputs ‖ range proofs ‖ fee ‖ metadata`, each list preceded by its count.
use vstd::prelude::*;
use crate::group::{Point, Scalar, is_point, le_value, append_bytes, array32_at, decompress};
use crate::commitments::Commitment;
use crate::range_proof::{BitProof, RangeProof};
use crate::transaction::{PrivateTransaction, TransactionInput, TransactionOutput};
use crate::CoreError;

verus! {

/// `256^k`.
pub open spec fn pow256(k: nat) -> int
    decreases k,
{
    if k == 0 { 1 } else { 256 * pow256((k - 1) as nat) }
}

/// The `k` low bytes of `n`, least significant first.
pub open spec fn le_bytes(n: int, k: nat) -> Seq<u8>
    decreases k,
{
    if k == 0 {
        Seq::empty()
    } else {
        seq![(n % 256) as u8] + le_bytes(n / 256, (k - 1) as nat)
    }
}

/// A byte string preceded by its length.
pub open spec fn len_field(b: Seq<u8>) -> Seq<u8> {
    le_bytes(b.len() as int, 8) + b
}

/// The view of optional bytes.
pub open spec fn opt_view(o: Option<Vec<u8>>) -> Option<Seq<u8>> {
    match o {
        Some(b) => Some(b@),
        None => None,
    }
}

/// An optional byte string: tag 0, or tag 1 and the string with its length.
pub open spec fn opt_field(o: Option<Seq<u8>>) -> Seq<u8> {
    match o {
        Some(b) => seq![1u8] + len_field(b),
        None => seq![0u8],
    }
}

pub open spec fn input_bytes(i: TransactionInput) -> Seq<u8> {
    i.prev_tx_hash@ + le_bytes(i.prev_output_index as int, 4) + i.commitment.point.bytes@
        + len_field(i.signature@)
}

pub open spec fn output_bytes(o: TransactionOutput) -> Seq<u8> {
    len_field(o.address@) + o.commitment.point.bytes@ + opt_field(opt_view(o.encrypted_amount))
}

pub open spec fn bit_bytes(b: BitProof) -> Seq<u8> {
    b.commitment.bytes@ + b.a0.bytes@ + b.a1.bytes@ + b.e0.bytes@ + b.z0.bytes@ + b.z1.bytes@
}

pub open spec fn bits_concat(s: Seq<BitProof>) -> Seq<u8>
    decreases s.len(),
{
    if s.len() == 0 { Seq::empty() } else { bits_concat(s.drop_last()) + bit_bytes(s.last()) }
}

pub open spec fn proof_bytes(p: RangeProof) -> Seq<u8> {
    le_bytes(p.bits@.len() as int, 8) + bits_concat(p.bits@)
}

pub open spec fn inputs_concat(s: Seq<TransactionInput>) -> Seq<u8>
    decreases s.len(),
{
    if s.len() == 0 { Seq::empty() } else { inputs_concat(s.drop_last()) + input_bytes(s.last()) }
}

pub open spec fn outputs_concat(s: Seq<TransactionOutput>) -> Seq<u8>
    decreases s.len(),
{
    if s.len() == 0 { Seq::empty() } else { outputs_concat(s.drop_last()) + output_bytes(s.last()) }
}

pub open spec fn proofs_concat(s: Seq<RangeProof>) -> Seq<u8>
    decreases s.len(),
{
    if s.len() == 0 { Seq::empty() } else { proofs_concat(s.drop_last()) + proof_bytes(s.last()) }
}

/// The binary form of a transaction.
pub open spec fn tx_bytes(tx: PrivateTransaction) -> Seq<u8> {
    le_bytes(tx.inputs@.len() as int, 8) + inputs_concat(tx.inputs@)
        + le_bytes(tx.outputs@.len() as int, 8) + outputs_concat(tx.outputs@)
        + le_bytes(tx.range_proofs@.len() as int, 8) + proofs_concat(tx.range_proofs@)
        + le_bytes(tx.fee as int, 8) + opt_field(opt_view(tx.metadata))
}

/// Every point of the transaction, in commitments and in range proofs, is valid.
pub open spec fn points_valid(tx: PrivateTransaction) -> bool {
    &&& forall|i: int| 0 <= i < tx.inputs@.len() ==> (#[trigger] tx.inputs@[i]).commitment.wf()
    &&& forall|j: int| 0 <= j < tx.outputs@.len() ==> (#[trigger] tx.outputs@[j]).commitment.wf()
    &&& forall|k: int, m: int| 0 <= k < tx.range_proofs@.len() && 0 <= m < tx.range_proofs@[k].bits@.len()
        ==> (#[trigger] tx.range_proofs@[k].bits@[m]).points_wf()
}

proof fn lemma_le_bytes_len(n: int, k: nat)
    ensures
        le_bytes(n, k).len() == k,
    decreases k,
{
    if k > 0 {
        lemma_le_bytes_len(n / 256, (k - 1) as nat);
    }
}

/// Reading bytes as an integer and writing it back gives the same bytes.
proof fn lemma_le_bytes_of_value(b: Seq<u8>)
    ensures
        le_bytes(le_value(b), b.len()) == b,
        0 <= le_value(b) < pow256(b.len()),
    decreases b.len(),
{
    if b.len() > 0 {
        let rest = b.subrange(1, b.len() as int);
        lemma_le_bytes_of_value(rest);
        let x = le_value(rest);
        let b0 = b[0] as int;
        assert((b0 + 256 * x) % 256 == b0 && (b0 + 256 * x) / 256 == x) by (nonlinear_arith)
            requires
                0 <= b0 < 256,
                x >= 0,
        ;
        assert(0 <= b0 + 256 * x < 256 * pow256(rest.len())) by (nonlinear_arith)
            requires
                0 <= b0 < 256,
                0 <= x < pow256(rest.len()),
        ;
        assert(le_bytes(le_value(b), b.len()) =~= b);
    }
}

/// Writing an integer below `256^k` in `k` bytes and reading them back gives it again.
proof fn lemma_value_of_le_bytes(n: int, k: nat)
    requires
        0 <= n < pow256(k),
    ensures
        le_value(le_bytes(n, k)) == n,
    decreases k,
{
    if k > 0 {
        assert(0 <= n / 256 < pow256((k - 1) as nat)) by (nonlinear_arith)
            requires
                0 <= n < 256 * pow256((k - 1) as nat),
        ;
        lemma_value_of_le_bytes(n / 256, (k - 1) as nat);
        let s = le_bytes(n, k);
        assert(s.subrange(1, s.len() as int) =~= le_bytes(n / 256, (k - 1) as nat));
    }
}

proof fn lemma_pow256_values()
    ensures
        pow256(4) == 0x100000000,
        pow256(8) == 0x10000000000000000,
{
    reveal_with_fuel(pow256, 9);
}

/// Appends the `k` low bytes of `n`.
fn append_le(out: &mut Vec<u8>, n: u64, k: usize)
    requires
        k <= 8,
    ensures
        final(out)@ == old(out)@ + le_bytes(n as int, k as nat),
{
    let ghost start = out@;
    let mut x: u64 = n;
    let mut i: usize = 0;
    while i < k
        invariant
            0 <= i <= k <= 8,
            out@ + le_bytes(x as int, (k - i) as nat) == start + le_bytes(n as int, k as nat),
        decreases k - i,
    {
        let ghost before = out@;
        out.push((x % 256) as u8);
        proof {
            assert(le_bytes(x as int, (k - i) as nat) =~= seq![(x % 256) as u8]
                + le_bytes(x as int / 256, (k - i - 1) as nat));
            assert(out@ + le_bytes(x as int / 256, (k - i - 1) as nat)
                =~= before + le_bytes(x as int, (k - i) as nat));
        }
        x = x / 256;
        i = i + 1;
    }
    assert(out@ =~= start + le_bytes(n as int, k as nat));
}

/// Appends a byte string preceded by its length.
fn append_field(out: &mut Vec<u8>, b: &Vec<u8>)
    ensures
        final(out)@ == old(out)@ + len_field(b@),
{
    append_le(out, b.len() as u64, 8);
    let ghost mid = out@;
    let mut i: usize = 0;
    while i < b.len()
        invariant
            0 <= i <= b@.len(),
            out@ == mid + b@.subrange(0, i as int),
        decreases b@.len() - i,
    {
        out.push(b[i]);
        i = i + 1;
        assert(out@ =~= mid + b@.subrange(0, i as int));
    }
    assert(b@.subrange(0, b@.len() as int) =~= b@);
    assert(out@ =~= old(out)@ + len_field(b@));
}

/// Appends optional bytes.
fn append_opt_field(out: &mut Vec<u8>, o: &Option<Vec<u8>>)
    ensures
        final(out)@ == old(out)@ + opt_field(opt_view(*o)),
{
    match o {
        Some(b) => {
            out.push(1u8);
            append_field(out, b);
            assert(out@ =~= old(out)@ + opt_field(opt_view(*o)));
        },
        None => {
            out.push(0u8);
            assert(out@ =~= old(out)@ + opt_field(opt_view(*o)));
        },
    }
}

impl PrivateTransaction {
    /// The binary form of the transaction.
    pub fn to_bytes(&self) -> (r: Result<Vec<u8>, CoreError>)
        ensures
            r is Ok,
            r->Ok_0@ == tx_bytes(*self),
    {
        let mut out: Vec<u8> = Vec::new();
        append_le(&mut out, self.inputs.len() as u64, 8);
        let ghost s0 = out@;
        let mut i: usize = 0;
        while i < self.inputs.len()
            invariant
                0 <= i <= self.inputs@.len(),
                out@ == s0 + inputs_concat(self.inputs@.subrange(0, i as int)),
            decreases self.inputs@.len() - i,
        {
            let inp = &self.inputs[i];
            let ghost before = out@;
            append_bytes(&mut out, &inp.prev_tx_hash);
            append_le(&mut out, inp.prev_output_index as u64, 4);
            append_bytes(&mut out, &inp.commitment.point.bytes);
            append_field(&mut out, &inp.signature);
            proof {
                assert(self.inputs@.subrange(0, i + 1).drop_last() =~= self.inputs@.subrange(0, i as int));
                assert(out@ =~= before + input_bytes(*inp));
            }
            i = i + 1;
        }
        assert(self.inputs@.subrange(0, self.inputs@.len() as int) =~= self.inputs@);
        append_le(&mut out, self.outputs.len() as u64, 8);
        let ghost s1 = out@;
        i = 0;
        while i < self.outputs.len()
            invariant
                0 <= i <= self.outputs@.len(),
                out@ == s1 + outputs_concat(self.outputs@.subrange(0, i as int)),
            decreases self.outputs@.len() - i,
        {
            let o = &self.outputs[i];
            let ghost before = out@;
            append_field(&mut out, &o.address);
            append_bytes(&mut out, &o.commitment.point.bytes);
            append_opt_field(&mut out, &o.encrypted_amount);
            proof {
                assert(self.outputs@.subrange(0, i + 1).drop_last() =~= self.outputs@.subrange(0, i as int));
                assert(out@ =~= before + output_bytes(*o));
            }
            i = i + 1;
        }
        assert(self.outputs@.subrange(0, self.outputs@.len() as int) =~= self.outputs@);
        append_le(&mut out, self.range_proofs.len() as u64, 8);
        let ghost s2 = out@;
        i = 0;
        while i < self.range_proofs.len()
            invariant
                0 <= i <= self.range_proofs@.len(),
                out@ == s2 + proofs_concat(self.range_proofs@.subrange(0, i as int)),
            decreases self.range_proofs@.len() - i,
        {
            let p = &self.range_proofs[i];
            let ghost before = out@;
            append_le(&mut out, p.bits.len() as u64, 8);
            let ghost mid = out@;
            let mut j: usize = 0;
            while j < p.bits.len()
                invariant
                    0 <= j <= p.bits@.len(),
                    out@ == mid + bits_concat(p.bits@.subrange(0, j as int)),
                decreases p.bits@.len() - j,
            {
                let b = &p.bits[j];
                let ghost bb = out@;
                append_bytes(&mut out, &b.commitment.bytes);
                append_bytes(&mut out, &b.a0.bytes);
                append_bytes(&mut out, &b.a1.bytes);
                append_bytes(&mut out, &b.e0.bytes);
                append_bytes(&mut out, &b.z0.bytes);
                append_bytes(&mut out, &b.z1.bytes);
                proof {
                    assert(p.bits@.subrange(0, j + 1).drop_last() =~= p.bits@.subrange(0, j as int));
                    assert(out@ =~= bb + bit_bytes(*b));
                }
                j = j + 1;
            }
            proof {
                assert(p.bits@.subrange(0, p.bits@.len() as int) =~= p.bits@);
                assert(self.range_proofs@.subrange(0, i + 1).drop_last() =~= self.range_proofs@.subrange(0, i as int));
                assert(out@ =~= before + proof_bytes(*p));
            }
            i = i + 1;
        }
        assert(self.range_proofs@.subrange(0, self.range_proofs@.len() as int) =~= self.range_proofs@);
        append_le(&mut out, self.fee, 8);
        append_opt_field(&mut out, &self.metadata);
        assert(out@ =~= tx_bytes(*self));
        Ok(out)
    }
}

/// `s` stands in `data` at `pos`.
pub open spec fn stands_at(data: Seq<u8>, pos: int, s: Seq<u8>) -> bool {
    0 <= pos && pos + s.len() <= data.len() && data.subrange(pos, pos + s.len()) == s
}

proof fn lemma_pow256_mono(a: nat, b: nat)
    requires
        a <= b,
    ensures
        1 <= pow256(a) <= pow256(b),
    decreases b,
{
    if b > 0 {
        if a < b {
            lemma_pow256_mono(a, (b - 1) as nat);
        } else {
            lemma_pow256_mono((b - 1) as nat, (b - 1) as nat);
        }
    }
}

/// Where a length field stands, its first 8 bytes give the length and the rest the bytes.
proof fn lemma_field_parts(d: Seq<u8>, pos: int, x: Seq<u8>)
    requires
        stands_at(d, pos, len_field(x)),
        d.len() <= usize::MAX,
    ensures
        le_value(d.subrange(pos, pos + 8)) == x.len(),
        d.subrange(pos + 8, pos + 8 + x.len()) == x,
        pos + 8 + x.len() <= d.len(),
{
    lemma_le_bytes_len(x.len() as int, 8);
    let full = d.subrange(pos, pos + 8 + x.len());
    assert(full.subrange(0, 8) =~= d.subrange(pos, pos + 8));
    assert(len_field(x).subrange(0, 8) =~= le_bytes(x.len() as int, 8));
    assert(full.subrange(8, 8 + x.len() as int) =~= d.subrange(pos + 8, pos + 8 + x.len()));
    assert(len_field(x).subrange(8, 8 + x.len() as int) =~= x);
    lemma_pow256_values();
    lemma_value_of_le_bytes(x.len() as int, 8);
}

/// Where `[t] + s` stands, `s` stands one byte further.
proof fn lemma_after_tag(d: Seq<u8>, pos: int, t: u8, s: Seq<u8>)
    requires
        stands_at(d, pos, seq![t] + s),
    ensures
        stands_at(d, pos + 1, s),
        d[pos] == t,
{
    let full = d.subrange(pos, pos + 1 + s.len());
    assert(full.subrange(1, 1 + s.len() as int) =~= d.subrange(pos + 1, pos + 1 + s.len()));
    assert((seq![t] + s).subrange(1, 1 + s.len() as int) =~= s);
    assert(full[0] == d[pos]);
}

/// Reads a `k`-byte little-endian integer at `pos`.
fn read_le(data: &[u8], pos: usize, k: usize) -> (r: Option<(u64, usize)>)
    requires
        1 <= k <= 8,
    ensures
        r is Some <==> pos + k <= data@.len(),
        r is Some ==> r.unwrap().1 == pos + k && r.unwrap().0 == le_value(data@.subrange(pos as int, pos + k))
            && stands_at(data@, pos as int, le_bytes(r.unwrap().0 as int, k as nat)),
{
    let len = data.len();
    if pos > len || k > len - pos {
        return None;
    }
    let mut acc: u64 = 0;
    let mut j: usize = k;
    proof {
        lemma_pow256_values();
        assert(data@.subrange(pos + k, pos + k).len() == 0);
    }
    while j > 0
        invariant
            0 <= j <= k <= 8,
            pos + k <= len == data@.len(),
            acc == le_value(data@.subrange(pos + j, pos + k)),
            acc < pow256((k - j) as nat),
            pow256(8) == 0x10000000000000000,
        decreases j,
    {
        let b = data[pos + j - 1];
        proof {
            let t = data@.subrange(pos + j - 1, pos + k);
            assert(t.subrange(1, t.len() as int) =~= data@.subrange(pos + j, pos + k));
            lemma_pow256_mono((k - j + 1) as nat, 8);
            assert(acc * 256 + b < 0x10000000000000000) by (nonlinear_arith)
                requires
                    acc < pow256((k - j) as nat),
                    256 * pow256((k - j) as nat) <= 0x10000000000000000,
                    b < 256,
            ;
            assert(acc * 256 + b < pow256((k - j + 1) as nat)) by (nonlinear_arith)
                requires
                    acc < pow256((k - j) as nat),
                    pow256((k - j + 1) as nat) == 256 * pow256((k - j) as nat),
                    b < 256,
            ;
        }
        acc = acc * 256 + b as u64;
        j = j - 1;
    }
    proof {
        let t = data@.subrange(pos as int, pos + k);
        lemma_le_bytes_of_value(t);
    }
    Some((acc, pos + k))
}

/// Reads 32 bytes at `pos`.
fn read_array(data: &[u8], pos: usize) -> (r: Option<([u8; 32], usize)>)
    ensures
        r is Some <==> pos + 32 <= data@.len(),
        r is Some ==> r.unwrap().1 == pos + 32 && stands_at(data@, pos as int, r.unwrap().0@),
{
    if pos > data.len() || 32 > data.len() - pos {
        return None;
    }
    Some((array32_at(data, pos), pos + 32))
}

/// Reads a compressed point at `pos`; it must decompress.
fn read_point(data: &[u8], pos: usize) -> (r: Option<(Point, usize)>)
    ensures
        r is Some <==> (pos + 32 <= data@.len() && is_point(data@.subrange(pos as int, pos + 32))),
        r is Some ==> r.unwrap().1 == pos + 32 && stands_at(data@, pos as int, r.unwrap().0.bytes@)
            && r.unwrap().0.wf(),
{
    match read_array(data, pos) {
        Some((a, p)) => match decompress(a) {
            Some(pt) => Some((pt, p)),
            None => None,
        },
        None => None,
    }
}

/// Reads a length-prefixed byte string at `pos`.
fn read_field(data: &[u8], pos: usize) -> (r: Option<(Vec<u8>, usize)>)
    ensures
        r is Some ==> pos <= r.unwrap().1 <= data@.len() && r.unwrap().1 == pos + len_field(r.unwrap().0@).len()
            && stands_at(data@, pos as int, len_field(r.unwrap().0@)),
        forall|x: Seq<u8>| #[trigger] stands_at(data@, pos as int, len_field(x)) ==> r is Some
            && r.unwrap().0@ == x,
{
    let ghost d = data@;
    assert(d.len() == data.len());
    let (n, p) = match read_le(data, pos, 8) {
        Some(v) => v,
        None => {
            proof {
                assert forall|x: Seq<u8>| #[trigger] stands_at(d, pos as int, len_field(x)) implies false by {
                    lemma_le_bytes_len(x.len() as int, 8);
                }
            }
            return None;
        },
    };
    let len = data.len();
    if n > (len - p) as u64 {
        proof {
            assert forall|x: Seq<u8>| #[trigger] stands_at(d, pos as int, len_field(x)) implies false by {
                lemma_field_parts(d, pos as int, x);
            }
        }
        return None;
    }
    let m = n as usize;
    let mut out: Vec<u8> = Vec::new();
    let mut i: usize = 0;
    while i < m
        invariant
            0 <= i <= m,
            p + m <= len == data@.len(),
            out@ == data@.subrange(p as int, p + i),
        decreases m - i,
    {
        out.push(data[p + i]);
        i = i + 1;
        assert(out@ =~= data@.subrange(p as int, p + i));
    }
    proof {
        lemma_le_bytes_len(n as int, 8);
        assert(le_bytes(out@.len() as int, 8) == le_bytes(n as int, 8));
        assert(data@.subrange(pos as int, p + m) =~= len_field(out@));
        assert forall|x: Seq<u8>| #[trigger] stands_at(d, pos as int, len_field(x)) implies out@ == x by {
            lemma_field_parts(d, pos as int, x);
        }
    }
    Some((out, p + m))
}

/// Reads an optional byte string at `pos`.
fn read_opt_field(data: &[u8], pos: usize) -> (r: Option<(Option<Vec<u8>>, usize)>)
    ensures
        r is Some ==> pos <= r.unwrap().1 <= data@.len()
            && r.unwrap().1 == pos + opt_field(opt_view(r.unwrap().0)).len()
            && stands_at(data@, pos as int, opt_field(opt_view(r.unwrap().0))),
        forall|x: Option<Seq<u8>>| #[trigger] stands_at(data@, pos as int, opt_field(x)) ==> r is Some
            && opt_view(r.unwrap().0) == x,
{
    let ghost d = data@;
    if pos >= data.len() {
        return None;
    }
    let tag = data[pos];
    if tag == 0 {
        proof {
            assert(d.subrange(pos as int, pos + 1) =~= seq![0u8]);
            assert forall|x: Option<Seq<u8>>| #[trigger] stands_at(d, pos as int, opt_field(x)) implies x is None by {
                if x is Some {
                    assert(opt_field(x)[0] == 1u8);
                    assert(d.subrange(pos as int, pos + opt_field(x).len())[0] == d[pos as int]);
                }
            }
        }
        Some((None, pos + 1))
    } else if tag == 1 {
        match read_field(data, pos + 1) {
            Some((b, p)) => {
                proof {
                    assert(d.subrange(pos as int, p as int) =~= seq![1u8] + len_field(b@));
                    assert forall|x: Option<Seq<u8>>| #[trigger] stands_at(d, pos as int, opt_field(x)) implies x == Some(b@) by {
                        if x is Some {
                            lemma_after_tag(d, pos as int, 1u8, len_field(x->0));
                        } else {
                            assert(d.subrange(pos as int, pos + 1)[0] == d[pos as int]);
                        }
                    }
                }
                Some((Some(b), p))
            },
            None => {
                proof {
                    assert forall|x: Option<Seq<u8>>| #[trigger] stands_at(d, pos as int, opt_field(x)) implies false by {
                        if x is Some {
                            lemma_after_tag(d, pos as int, 1u8, len_field(x->0));
                        } else {
                            assert(d.subrange(pos as int, pos + 1)[0] == d[pos as int]);
                        }
                    }
                }
                None
            },
        }
    } else {
        proof {
            assert forall|x: Option<Seq<u8>>| #[trigger] stands_at(d, pos as int, opt_field(x)) implies false by {
                assert(opt_field(x)[0] == d.subrange(pos as int, pos + opt_field(x).len())[0]);
            }
        }
        None
    }
}

proof fn lemma_stands_split(d: Seq<u8>, pos: int, a: Seq<u8>, b: Seq<u8>)
    requires
        stands_at(d, pos, a + b),
    ensures
        stands_at(d, pos, a),
        stands_at(d, pos + a.len(), b),
{
    let full = d.subrange(pos, pos + a.len() + b.len());
    assert(full.subrange(0, a.len() as int) =~= d.subrange(pos, pos + a.len()));
    assert((a + b).subrange(0, a.len() as int) =~= a);
    assert(full.subrange(a.len() as int, (a.len() + b.len()) as int) =~= d.subrange(pos + a.len(), pos + a.len() + b.len()));
    assert((a + b).subrange(a.len() as int, (a.len() + b.len()) as int) =~= b);
}

proof fn lemma_stands_join(d: Seq<u8>, pos: int, a: Seq<u8>, b: Seq<u8>)
    requires
        stands_at(d, pos, a),
        stands_at(d, pos + a.len(), b),
    ensures
        stands_at(d, pos, a + b),
{
    assert(d.subrange(pos, pos + a.len() + b.len()) =~= a + b);
}

proof fn lemma_stands_prefix(d: Seq<u8>, pos: int, a: Seq<u8>, b: Seq<u8>)
    requires
        stands_at(d, pos, a + b),
    ensures
        stands_at(d, pos, a),
{
    lemma_stands_split(d, pos, a, b);
}

/// The encoding of a list starts with the encoding of each of its prefixes.
proof fn lemma_inputs_prefix(s: Seq<TransactionInput>, k: int)
    requires
        0 <= k <= s.len(),
    ensures
        inputs_concat(s) == inputs_concat(s.subrange(0, k))
            + inputs_concat(s).subrange(inputs_concat(s.subrange(0, k)).len() as int, inputs_concat(s).len() as int),
        inputs_concat(s.subrange(0, k)).len() <= inputs_concat(s).len(),
    decreases s.len() - k,
{
    if k < s.len() {
        lemma_inputs_prefix(s.drop_last(), k);
        assert(s.drop_last().subrange(0, k) =~= s.subrange(0, k));
    } else {
        assert(s.subrange(0, k) =~= s);
    }
    assert(inputs_concat(s) =~= inputs_concat(s.subrange(0, k))
        + inputs_concat(s).subrange(inputs_concat(s.subrange(0, k)).len() as int, inputs_concat(s).len() as int));
}

proof fn lemma_outputs_prefix(s: Seq<TransactionOutput>, k: int)
    requires
        0 <= k <= s.len(),
    ensures
        outputs_concat(s) == outputs_concat(s.subrange(0, k))
            + outputs_concat(s).subrange(outputs_concat(s.subrange(0, k)).len() as int, outputs_concat(s).len() as int),
        outputs_concat(s.subrange(0, k)).len() <= outputs_concat(s).len(),
    decreases s.len() - k,
{
    if k < s.len() {
        lemma_outputs_prefix(s.drop_last(), k);
        assert(s.drop_last().subrange(0, k) =~= s.subrange(0, k));
    } else {
        assert(s.subrange(0, k) =~= s);
    }
    assert(outputs_concat(s) =~= outputs_concat(s.subrange(0, k))
        + outputs_concat(s).subrange(outputs_concat(s.subrange(0, k)).len() as int, outputs_concat(s).len() as int));
}

proof fn lemma_proofs_prefix(s: Seq<RangeProof>, k: int)
    requires
        0 <= k <= s.len(),
    ensures
        proofs_concat(s) == proofs_concat(s.subrange(0, k))
            + proofs_concat(s).subrange(proofs_concat(s.subrange(0, k)).len() as int, proofs_concat(s).len() as int),
        proofs_concat(s.subrange(0, k)).len() <= proofs_concat(s).len(),
    decreases s.len() - k,
{
    if k < s.len() {
        lemma_proofs_prefix(s.drop_last(), k);
        assert(s.drop_last().subrange(0, k) =~= s.subrange(0, k));
    } else {
        assert(s.subrange(0, k) =~= s);
    }
    assert(proofs_concat(s) =~= proofs_concat(s.subrange(0, k))
        + proofs_concat(s).subrange(proofs_concat(s.subrange(0, k)).len() as int, proofs_concat(s).len() as int));
}

proof fn lemma_bits_prefix(s: Seq<BitProof>, k: int)
    requires
        0 <= k <= s.len(),
    ensures
        bits_concat(s) == bits_concat(s.subrange(0, k))
            + bits_concat(s).subrange(bits_concat(s.subrange(0, k)).len() as int, bits_concat(s).len() as int),
        bits_concat(s.subrange(0, k)).len() <= bits_concat(s).len(),
    decreases s.len() - k,
{
    if k < s.len() {
        lemma_bits_prefix(s.drop_last(), k);
        assert(s.drop_last().subrange(0, k) =~= s.subrange(0, k));
    } else {
        assert(s.subrange(0, k) =~= s);
    }
    assert(bits_concat(s) =~= bits_concat(s.subrange(0, k))
        + bits_concat(s).subrange(bits_concat(s.subrange(0, k)).len() as int, bits_concat(s).len() as int));
}

/// Each element takes at least one byte.
proof fn lemma_concat_lens(si: Seq<TransactionInput>, so: Seq<TransactionOutput>, sp: Seq<RangeProof>, sb: Seq<BitProof>)
    ensures
        si.len() <= inputs_concat(si).len(),
        so.len() <= outputs_concat(so).len(),
        sp.len() <= proofs_concat(sp).len(),
        sb.len() <= bits_concat(sb).len(),
    decreases si.len() + so.len() + sp.len() + sb.len(),
{
    if si.len() > 0 {
        lemma_concat_lens(si.drop_last(), so, sp, sb);
    } else if so.len() > 0 {
        lemma_concat_lens(si, so.drop_last(), sp, sb);
    } else if sp.len() > 0 {
        lemma_le_bytes_len(sp.last().bits@.len() as int, 8);
        lemma_concat_lens(si, so, sp.drop_last(), sb);
    } else if sb.len() > 0 {
        lemma_concat_lens(si, so, sp, sb.drop_last());
    }
}

/// Where a `k`-byte integer below `256^k` stands, `read_le` reads it back.
proof fn lemma_le_stands(d: Seq<u8>, pos: int, n: int, k: nat)
    requires
        stands_at(d, pos, le_bytes(n, k)),
        0 <= n < pow256(k),
    ensures
        le_value(d.subrange(pos, pos + k)) == n,
        pos + k <= d.len(),
{
    lemma_le_bytes_len(n, k);
    lemma_value_of_le_bytes(n, k);
}

/// Same input, field by field.
pub open spec fn same_input(a: TransactionInput, b: TransactionInput) -> bool {
    &&& a.prev_tx_hash == b.prev_tx_hash
    &&& a.prev_output_index == b.prev_output_index
    &&& a.commitment == b.commitment
    &&& a.signature@ == b.signature@
}

/// Same output, field by field.
pub open spec fn same_output(a: TransactionOutput, b: TransactionOutput) -> bool {
    &&& a.address@ == b.address@
    &&& a.commitment == b.commitment
    &&& opt_view(a.encrypted_amount) == opt_view(b.encrypted_amount)
}

/// Same transaction, field by field.
pub open spec fn same_tx(a: PrivateTransaction, b: PrivateTransaction) -> bool {
    &&& a.inputs@.len() == b.inputs@.len()
    &&& forall|i: int| 0 <= i < a.inputs@.len() ==> same_input(#[trigger] a.inputs@[i], b.inputs@[i])
    &&& a.outputs@.len() == b.outputs@.len()
    &&& forall|j: int| 0 <= j < a.outputs@.len() ==> same_output(#[trigger] a.outputs@[j], b.outputs@[j])
    &&& a.range_proofs@.len() == b.range_proofs@.len()
    &&& forall|k: int| 0 <= k < a.range_proofs@.len() ==> (#[trigger] a.range_proofs@[k]).bits@ == b.range_proofs@[k].bits@
    &&& a.fee == b.fee
    &&& opt_view(a.metadata) == opt_view(b.metadata)
}

proof fn lemma_same_array(a: [u8; 32], b: [u8; 32])
    requires
        a@ == b@,
    ensures
        a == b,
{
    assert(a =~= b);
}

/// Reads a point where its bytes must stand.
proof fn lemma_point_stands(d: Seq<u8>, pos: int, p: Point, q: Point)
    requires
        stands_at(d, pos, p.bytes@),
        stands_at(d, pos, q.bytes@),
    ensures
        p == q,
{
    lemma_same_array(p.bytes, q.bytes);
}

fn read_input(data: &[u8], pos: usize) -> (r: Option<(TransactionInput, usize)>)
    ensures
        r is Some ==> r.unwrap().1 == pos + input_bytes(r.unwrap().0).len()
            && stands_at(data@, pos as int, input_bytes(r.unwrap().0)) && r.unwrap().0.commitment.wf(),
        forall|x: TransactionInput| x.commitment.wf() && #[trigger] stands_at(data@, pos as int, input_bytes(x))
            ==> r is Some && same_input(r.unwrap().0, x),
{
    let ghost d = data@;
    let ghost parts = |x: TransactionInput| {
        &&& stands_at(d, pos as int, x.prev_tx_hash@)
        &&& stands_at(d, pos + 32, le_bytes(x.prev_output_index as int, 4))
        &&& stands_at(d, pos + 36, x.commitment.point.bytes@)
        &&& stands_at(d, pos + 68, len_field(x.signature@))
    };
    proof {
        assert forall|x: TransactionInput| #[trigger] stands_at(d, pos as int, input_bytes(x)) implies parts(x) by {
            lemma_le_bytes_len(x.prev_output_index as int, 4);
            let a = x.prev_tx_hash@;
            let b = le_bytes(x.prev_output_index as int, 4);
            let c = x.commitment.point.bytes@;
            lemma_stands_split(d, pos as int, a + b + c, len_field(x.signature@));
            lemma_stands_split(d, pos as int, a + b, c);
            lemma_stands_split(d, pos as int, a, b);
        }
        lemma_pow256_values();
    }
    let (hash, p1) = match read_array(data, pos) {
        Some(v) => v,
        None => return None,
    };
    let (index, p2) = match read_le(data, p1, 4) {
        Some(v) => v,
        None => return None,
    };
    let (point, p3) = match read_point(data, p2) {
        Some(v) => v,
        None => {
            proof {
                assert forall|x: TransactionInput| x.commitment.wf() && #[trigger] stands_at(d, pos as int, input_bytes(x)) implies false by {
                    assert(parts(x));
                    assert(d.subrange(pos + 36, pos + 68) == x.commitment.point.bytes@);
                }
            }
            return None;
        },
    };
    let (signature, p4) = match read_field(data, p3) {
        Some(v) => v,
        None => {
            proof {
                assert forall|x: TransactionInput| x.commitment.wf() && #[trigger] stands_at(d, pos as int, input_bytes(x)) implies false by {
                    assert(parts(x));
                }
            }
            return None;
        },
    };
    let x = TransactionInput {
        prev_tx_hash: hash,
        prev_output_index: index as u32,
        commitment: Commitment { point },
        signature,
    };
    proof {
        lemma_le_bytes_of_value(d.subrange(p1 as int, p1 + 4));
        assert(index as u32 as u64 == index);
        lemma_stands_join(d, pos as int, hash@, le_bytes(index as int, 4));
        lemma_le_bytes_len(index as int, 4);
        lemma_stands_join(d, pos as int, hash@ + le_bytes(index as int, 4), point.bytes@);
        lemma_stands_join(d, pos as int, hash@ + le_bytes(index as int, 4) + point.bytes@, len_field(signature@));
        assert forall|y: TransactionInput| y.commitment.wf() && #[trigger] stands_at(d, pos as int, input_bytes(y)) implies same_input(x, y) by {
            assert(parts(y));
            lemma_same_array(hash, y.prev_tx_hash);
            lemma_le_stands(d, pos + 32, y.prev_output_index as int, 4);
            lemma_point_stands(d, pos + 36, point, y.commitment.point);
        }
    }
    Some((x, p4))
}

fn read_output(data: &[u8], pos: usize) -> (r: Option<(TransactionOutput, usize)>)
    ensures
        r is Some ==> r.unwrap().1 == pos + output_bytes(r.unwrap().0).len()
            && stands_at(data@, pos as int, output_bytes(r.unwrap().0)) && r.unwrap().0.commitment.wf(),
        forall|x: TransactionOutput| x.commitment.wf() && #[trigger] stands_at(data@, pos as int, output_bytes(x))
            ==> r is Some && same_output(r.unwrap().0, x),
{
    let ghost d = data@;
    let ghost parts = |x: TransactionOutput| {
        &&& stands_at(d, pos as int, len_field(x.address@))
        &&& stands_at(d, pos + len_field(x.address@).len(), x.commitment.point.bytes@)
        &&& stands_at(d, pos + len_field(x.address@).len() + 32, opt_field(opt_view(x.encrypted_amount)))
    };
    proof {
        assert forall|x: TransactionOutput| #[trigger] stands_at(d, pos as int, output_bytes(x)) implies parts(x) by {
            let a = len_field(x.address@);
            let c = x.commitment.point.bytes@;
            lemma_stands_split(d, pos as int, a + c, opt_field(opt_view(x.encrypted_amount)));
            lemma_stands_split(d, pos as int, a, c);
        }
    }
    let (address, p1) = match read_field(data, pos) {
        Some(v) => v,
        None => {
            proof {
                assert forall|x: TransactionOutput| x.commitment.wf() && #[trigger] stands_at(d, pos as int, output_bytes(x)) implies false by {
                    assert(parts(x));
                }
            }
            return None;
        },
    };
    let (point, p2) = match read_point(data, p1) {
        Some(v) => v,
        None => {
            proof {
                assert forall|x: TransactionOutput| x.commitment.wf() && #[trigger] stands_at(d, pos as int, output_bytes(x)) implies false by {
                    assert(parts(x));
                    assert(x.address@ == address@);
                    assert(d.subrange(p1 as int, p1 + 32) == x.commitment.point.bytes@);
                }
            }
            return None;
        },
    };
    let (encrypted_amount, p3) = match read_opt_field(data, p2) {
        Some(v) => v,
        None => {
            proof {
                assert forall|x: TransactionOutput| x.commitment.wf() && #[trigger] stands_at(d, pos as int, output_bytes(x)) implies false by {
                    assert(parts(x));
                    assert(x.address@ == address@);
                }
            }
            return None;
        },
    };
    let x = TransactionOutput { address, commitment: Commitment { point }, encrypted_amount };
    proof {
        lemma_stands_join(d, pos as int, len_field(address@), point.bytes@);
        lemma_stands_join(d, pos as int, len_field(address@) + point.bytes@, opt_field(opt_view(encrypted_amount)));
        assert forall|y: TransactionOutput| y.commitment.wf() && #[trigger] stands_at(d, pos as int, output_bytes(y)) implies same_output(x, y) by {
            assert(parts(y));
            assert(y.address@ == address@);
            lemma_point_stands(d, p1 as int, point, y.commitment.point);
        }
    }
    Some((x, p3))
}

fn read_scalar(data: &[u8], pos: usize) -> (r: Option<(Scalar, usize)>)
    ensures
        r is Some <==> pos + 32 <= data@.len(),
        r is Some ==> r.unwrap().1 == pos + 32 && stands_at(data@, pos as int, r.unwrap().0.bytes@),
{
    match read_array(data, pos) {
        Some((a, p)) => Some((Scalar { bytes: a }, p)),
        None => None,
    }
}

fn read_bit(data: &[u8], pos: usize) -> (r: Option<(BitProof, usize)>)
    ensures
        r is Some ==> r.unwrap().1 == pos + 192 && stands_at(data@, pos as int, bit_bytes(r.unwrap().0))
            && r.unwrap().0.points_wf(),
        forall|x: BitProof| x.points_wf() && #[trigger] stands_at(data@, pos as int, bit_bytes(x))
            ==> r is Some && r.unwrap().0 == x,
{
    let ghost d = data@;
    let ghost parts = |x: BitProof| {
        &&& stands_at(d, pos as int, x.commitment.bytes@)
        &&& stands_at(d, pos + 32, x.a0.bytes@)
        &&& stands_at(d, pos + 64, x.a1.bytes@)
        &&& stands_at(d, pos + 96, x.e0.bytes@)
        &&& stands_at(d, pos + 128, x.z0.bytes@)
        &&& stands_at(d, pos + 160, x.z1.bytes@)
    };
    proof {
        assert forall|x: BitProof| #[trigger] stands_at(d, pos as int, bit_bytes(x)) implies parts(x) by {
            let c = x.commitment.bytes@;
            lemma_stands_split(d, pos as int, c + x.a0.bytes@ + x.a1.bytes@ + x.e0.bytes@ + x.z0.bytes@, x.z1.bytes@);
            lemma_stands_split(d, pos as int, c + x.a0.bytes@ + x.a1.bytes@ + x.e0.bytes@, x.z0.bytes@);
            lemma_stands_split(d, pos as int, c + x.a0.bytes@ + x.a1.bytes@, x.e0.bytes@);
            lemma_stands_split(d, pos as int, c + x.a0.bytes@, x.a1.bytes@);
            lemma_stands_split(d, pos as int, c, x.a0.bytes@);
        }
    }
    let (c, p1) = match read_point(data, pos) {
        Some(v) => v,
        None => {
            proof {
                assert forall|x: BitProof| x.points_wf() && #[trigger] stands_at(d, pos as int, bit_bytes(x)) implies false by {
                    assert(parts(x));
                    assert(d.subrange(pos as int, pos + 32) == x.commitment.bytes@);
                }
            }
            return None;
        },
    };
    let (a0, p2) = match read_point(data, p1) {
        Some(v) => v,
        None => {
            proof {
                assert forall|x: BitProof| x.points_wf() && #[trigger] stands_at(d, pos as int, bit_bytes(x)) implies false by {
                    assert(parts(x));
                    assert(d.subrange(pos + 32, pos + 64) == x.a0.bytes@);
                }
            }
            return None;
        },
    };
    let (a1, p3) = match read_point(data, p2) {
        Some(v) => v,
        None => {
            proof {
                assert forall|x: BitProof| x.points_wf() && #[trigger] stands_at(d, pos as int, bit_bytes(x)) implies false by {
                    assert(parts(x));
                    assert(d.subrange(pos + 64, pos + 96) == x.a1.bytes@);
                }
            }
            return None;
        },
    };
    let (e0, p4) = match read_scalar(data, p3) {
        Some(v) => v,
        None => {
            proof {
                assert forall|x: BitProof| x.points_wf() && #[trigger] stands_at(d, pos as int, bit_bytes(x)) implies false by {
                    assert(parts(x));
                }
            }
            return None;
        },
    };
    let (z0, p5) = match read_scalar(data, p4) {
        Some(v) => v,
        None => {
            proof {
                assert forall|x: BitProof| x.points_wf() && #[trigger] stands_at(d, pos as int, bit_bytes(x)) implies false by {
                    assert(parts(x));
                }
            }
            return None;
        },
    };
    let (z1, p6) = match read_scalar(data, p5) {
        Some(v) => v,
        None => {
            proof {
                assert forall|x: BitProof| x.points_wf() && #[trigger] stands_at(d, pos as int, bit_bytes(x)) implies false by {
                    assert(parts(x));
                }
            }
            return None;
        },
    };
    let b = BitProof { commitment: c, a0, a1, e0, z0, z1 };
    proof {
        lemma_stands_join(d, pos as int, c.bytes@, a0.bytes@);
        lemma_stands_join(d, pos as int, c.bytes@ + a0.bytes@, a1.bytes@);
        lemma_stands_join(d, pos as int, c.bytes@ + a0.bytes@ + a1.bytes@, e0.bytes@);
        lemma_stands_join(d, pos as int, c.bytes@ + a0.bytes@ + a1.bytes@ + e0.bytes@, z0.bytes@);
        lemma_stands_join(d, pos as int, c.bytes@ + a0.bytes@ + a1.bytes@ + e0.bytes@ + z0.bytes@, z1.bytes@);
        assert forall|y: BitProof| y.points_wf() && #[trigger] stands_at(d, pos as int, bit_bytes(y)) implies b == y by {
            assert(parts(y));
            lemma_point_stands(d, pos as int, c, y.commitment);
            lemma_point_stands(d, pos + 32, a0, y.a0);
            lemma_point_stands(d, pos + 64, a1, y.a1);
            lemma_same_array(e0.bytes, y.e0.bytes);
            lemma_same_array(z0.bytes, y.z0.bytes);
            lemma_same_array(z1.bytes, y.z1.bytes);
        }
    }
    Some((b, p6))
}

pub open spec fn wf_input(x: TransactionInput) -> bool {
    x.commitment.wf()
}

pub open spec fn wf_output(x: TransactionOutput) -> bool {
    x.commitment.wf()
}

pub open spec fn wf_bit(x: BitProof) -> bool {
    x.points_wf()
}

pub open spec fn wf_proof(x: RangeProof) -> bool {
    forall|m: int| 0 <= m < x.bits@.len() ==> (#[trigger] x.bits@[m]).points_wf()
}

pub open spec fn same_bit(a: BitProof, b: BitProof) -> bool {
    a == b
}

pub open spec fn same_proof(a: RangeProof, b: RangeProof) -> bool {
    a.bits@ == b.bits@
}

/// Reads one range proof: its bit count, then its bit proofs.
fn read_proof(data: &[u8], pos: usize) -> (r: Option<(RangeProof, usize)>)
    ensures
        r is Some ==> r.unwrap().1 == pos + proof_bytes(r.unwrap().0).len()
            && stands_at(data@, pos as int, proof_bytes(r.unwrap().0)) && wf_proof(r.unwrap().0),
        forall|x: RangeProof| wf_proof(x) && #[trigger] stands_at(data@, pos as int, proof_bytes(x))
            ==> r is Some && same_proof(r.unwrap().0, x),
{
    let ghost d = data@;
    proof {
        lemma_pow256_values();
        assert forall|x: RangeProof| wf_proof(x) && #[trigger] stands_at(d, pos as int, proof_bytes(x))
            implies stands_at(d, pos as int, le_bytes(x.bits@.len() as int, 8))
            && stands_at(d, pos + 8, bits_concat(x.bits@)) && valid_bits(d, pos + 8, x.bits@.len() as int, x.bits@) by {
            lemma_le_bytes_len(x.bits@.len() as int, 8);
            lemma_stands_split(d, pos as int, le_bytes(x.bits@.len() as int, 8), bits_concat(x.bits@));
        }
    }
    let (n, p) = match read_le(data, pos, 8) {
        Some(v) => v,
        None => {
            proof {
                assert forall|x: RangeProof| wf_proof(x) && #[trigger] stands_at(d, pos as int, proof_bytes(x)) implies false by {
                    lemma_le_bytes_len(x.bits@.len() as int, 8);
                }
            }
            return None;
        },
    };
    proof {
        assert(d.len() == data.len());
        assert forall|x: RangeProof| wf_proof(x) && #[trigger] stands_at(d, pos as int, proof_bytes(x)) implies x.bits@.len() == n by {
            lemma_concat_lens(Seq::empty(), Seq::empty(), Seq::empty(), x.bits@);
            lemma_le_stands(d, pos as int, x.bits@.len() as int, 8);
        }
    }
    let (bits, q) = match read_bits(data, p, n) {
        Some(v) => v,
        None => {
            proof {
                assert forall|x: RangeProof| wf_proof(x) && #[trigger] stands_at(d, pos as int, proof_bytes(x)) implies false by {
                    assert(valid_bits(d, p as int, n as int, x.bits@));
                }
            }
            return None;
        },
    };
    let proof_value = RangeProof { bits };
    proof {
        lemma_le_bytes_len(n as int, 8);
        lemma_stands_join(d, pos as int, le_bytes(n as int, 8), bits_concat(bits@));
        assert forall|x: RangeProof| wf_proof(x) && #[trigger] stands_at(d, pos as int, proof_bytes(x)) implies same_proof(proof_value, x) by {
            assert(valid_bits(d, p as int, n as int, x.bits@));
            assert(proof_value.bits@ =~= x.bits@);
        }
    }
    Some((proof_value, q))
}

/// `s` is a list of inputs whose encoding stands at `pos`, each with valid points.
pub open spec fn valid_inputs(d: Seq<u8>, pos: int, n: int, s: Seq<TransactionInput>) -> bool {
    &&& s.len() == n
    &&& forall|i: int| 0 <= i < s.len() ==> wf_input(#[trigger] s[i])
    &&& stands_at(d, pos, inputs_concat(s))
}

/// Reads `n` inputs at `pos`.
fn read_inputs(data: &[u8], pos: usize, n: u64) -> (r: Option<(Vec<TransactionInput>, usize)>)
    requires
        pos <= data@.len(),
    ensures
        r is Some ==> r.unwrap().0@.len() == n && stands_at(data@, pos as int, inputs_concat(r.unwrap().0@))
            && r.unwrap().1 == pos + inputs_concat(r.unwrap().0@).len()
            && forall|i: int| 0 <= i < n ==> wf_input(#[trigger] r.unwrap().0@[i]),
        forall|s: Seq<TransactionInput>| #[trigger] valid_inputs(data@, pos as int, n as int, s) ==> r is Some
            && forall|i: int| 0 <= i < n ==> same_input(#[trigger] r.unwrap().0@[i], s[i])
            && inputs_concat(r.unwrap().0@) == inputs_concat(s),
{
    let ghost d = data@;
    let len = data.len();
    if n > (len - pos) as u64 {
        proof {
            assert forall|s: Seq<TransactionInput>| #[trigger] valid_inputs(d, pos as int, n as int, s) implies false by {
                lemma_concat_lens(s, Seq::empty(), Seq::empty(), Seq::empty());
            }
        }
        return None;
    }
    let m = n as usize;
    let mut items: Vec<TransactionInput> = Vec::new();
    let mut cur: usize = pos;
    let mut i: usize = 0;
    proof {
        assert(inputs_concat(items@) =~= Seq::<u8>::empty());
        assert(d.subrange(pos as int, pos as int) =~= Seq::<u8>::empty());
        assert forall|s: Seq<TransactionInput>| #[trigger] valid_inputs(d, pos as int, n as int, s) implies inputs_concat(s.subrange(0, 0)) == inputs_concat(items@) by {
            assert(s.subrange(0, 0) =~= Seq::<TransactionInput>::empty());
        }
    }
    while i < m
        invariant
            0 <= i <= m,
            m == n,
            len == d.len(),
            d == data@,
            items@.len() == i,
            stands_at(d, pos as int, inputs_concat(items@)),
            cur == pos + inputs_concat(items@).len(),
            forall|j: int| 0 <= j < i ==> wf_input(#[trigger] items@[j]),
            forall|s: Seq<TransactionInput>| #[trigger] valid_inputs(d, pos as int, n as int, s) ==> {
                &&& inputs_concat(s.subrange(0, i as int)) == inputs_concat(items@)
                &&& forall|j: int| 0 <= j < i ==> same_input(#[trigger] items@[j], s[j])
            },
        decreases m - i,
    {
        proof {
            assert forall|s: Seq<TransactionInput>| #[trigger] valid_inputs(d, pos as int, n as int, s) implies stands_at(d, cur as int, input_bytes(s[i as int])) by {
                lemma_inputs_prefix(s, i + 1);
                assert(s.subrange(0, i + 1).drop_last() =~= s.subrange(0, i as int));
                lemma_stands_prefix(d, pos as int, inputs_concat(s.subrange(0, i + 1)),
                    inputs_concat(s).subrange(inputs_concat(s.subrange(0, i + 1)).len() as int, inputs_concat(s).len() as int));
                lemma_stands_split(d, pos as int, inputs_concat(s.subrange(0, i as int)), input_bytes(s[i as int]));
            }
        }
        let (x, next) = match read_input(data, cur) {
            Some(v) => v,
            None => {
                proof {
                    assert forall|s: Seq<TransactionInput>| #[trigger] valid_inputs(d, pos as int, n as int, s) implies false by {
                        assert(wf_input(s[i as int]));
                        assert(stands_at(d, cur as int, input_bytes(s[i as int])));
                    }
                }
                return None;
            },
        };
        let ghost before = items@;
        items.push(x);
        proof {
            assert(items@.drop_last() =~= before);
            lemma_stands_join(d, pos as int, inputs_concat(before), input_bytes(x));
            assert forall|s: Seq<TransactionInput>| #[trigger] valid_inputs(d, pos as int, n as int, s) implies {
                &&& inputs_concat(s.subrange(0, i + 1)) == inputs_concat(items@)
                &&& forall|j: int| 0 <= j < i + 1 ==> same_input(#[trigger] items@[j], s[j])
            } by {
                assert(wf_input(s[i as int]));
                assert(stands_at(d, cur as int, input_bytes(s[i as int])));
                assert(same_input(x, s[i as int]));
                assert(input_bytes(x) == input_bytes(s[i as int]));
                assert(s.subrange(0, i + 1).drop_last() =~= s.subrange(0, i as int));
                assert(forall|j: int| 0 <= j < i ==> same_input(#[trigger] items@[j], s[j]) <== same_input(before[j], s[j]));
            }
        }
        cur = next;
        i = i + 1;
    }
    proof {
        assert forall|s: Seq<TransactionInput>| #[trigger] valid_inputs(d, pos as int, n as int, s) implies inputs_concat(items@) == inputs_concat(s) by {
            assert(s.subrange(0, m as int) =~= s);
        }
    }
    Some((items, cur))
}

/// `s` is a list of outputs whose encoding stands at `pos`, each with valid points.
pub open spec fn valid_outputs(d: Seq<u8>, pos: int, n: int, s: Seq<TransactionOutput>) -> bool {
    &&& s.len() == n
    &&& forall|i: int| 0 <= i < s.len() ==> wf_output(#[trigger] s[i])
    &&& stands_at(d, pos, outputs_concat(s))
}

/// Reads `n` outputs at `pos`.
fn read_outputs(data: &[u8], pos: usize, n: u64) -> (r: Option<(Vec<TransactionOutput>, usize)>)
    requires
        pos <= data@.len(),
    ensures
        r is Some ==> r.unwrap().0@.len() == n && stands_at(data@, pos as int, outputs_concat(r.unwrap().0@))
            && r.unwrap().1 == pos + outputs_concat(r.unwrap().0@).len()
            && forall|i: int| 0 <= i < n ==> wf_output(#[trigger] r.unwrap().0@[i]),
        forall|s: Seq<TransactionOutput>| #[trigger] valid_outputs(data@, pos as int, n as int, s) ==> r is Some
            && forall|i: int| 0 <= i < n ==> same_output(#[trigger] r.unwrap().0@[i], s[i])
            && outputs_concat(r.unwrap().0@) == outputs_concat(s),
{
    let ghost d = data@;
    let len = data.len();
    if n > (len - pos) as u64 {
        proof {
            assert forall|s: Seq<TransactionOutput>| #[trigger] valid_outputs(d, pos as int, n as int, s) implies false by {
                lemma_concat_lens(Seq::empty(), s, Seq::empty(), Seq::empty());
            }
        }
        return None;
    }
    let m = n as usize;
    let mut items: Vec<TransactionOutput> = Vec::new();
    let mut cur: usize = pos;
    let mut i: usize = 0;
    proof {
        assert(outputs_concat(items@) =~= Seq::<u8>::empty());
        assert(d.subrange(pos as int, pos as int) =~= Seq::<u8>::empty());
        assert forall|s: Seq<TransactionOutput>| #[trigger] valid_outputs(d, pos as int, n as int, s) implies outputs_concat(s.subrange(0, 0)) == outputs_concat(items@) by {
            assert(s.subrange(0, 0) =~= Seq::<TransactionOutput>::empty());
        }
    }
    while i < m
        invariant
            0 <= i <= m,
            m == n,
            len == d.len(),
            d == data@,
            items@.len() == i,
            stands_at(d, pos as int, outputs_concat(items@)),
            cur == pos + outputs_concat(items@).len(),
            forall|j: int| 0 <= j < i ==> wf_output(#[trigger] items@[j]),
            forall|s: Seq<TransactionOutput>| #[trigger] valid_outputs(d, pos as int, n as int, s) ==> {
                &&& outputs_concat(s.subrange(0, i as int)) == outputs_concat(items@)
                &&& forall|j: int| 0 <= j < i ==> same_output(#[trigger] items@[j], s[j])
            },
        decreases m - i,
    {
        proof {
            assert forall|s: Seq<TransactionOutput>| #[trigger] valid_outputs(d, pos as int, n as int, s) implies stands_at(d, cur as int, output_bytes(s[i as int])) by {
                lemma_outputs_prefix(s, i + 1);
                assert(s.subrange(0, i + 1).drop_last() =~= s.subrange(0, i as int));
                lemma_stands_prefix(d, pos as int, outputs_concat(s.subrange(0, i + 1)),
                    outputs_concat(s).subrange(outputs_concat(s.subrange(0, i + 1)).len() as int, outputs_concat(s).len() as int));
                lemma_stands_split(d, pos as int, outputs_concat(s.subrange(0, i as int)), output_bytes(s[i as int]));
            }
        }
        let (x, next) = match read_output(data, cur) {
            Some(v) => v,
            None => {
                proof {
                    assert forall|s: Seq<TransactionOutput>| #[trigger] valid_outputs(d, pos as int, n as int, s) implies false by {
                        assert(wf_output(s[i as int]));
                        assert(stands_at(d, cur as int, output_bytes(s[i as int])));
                    }
                }
                return None;
            },
        };
        let ghost before = items@;
        items.push(x);
        proof {
            assert(items@.drop_last() =~= before);
            lemma_stands_join(d, pos as int, outputs_concat(before), output_bytes(x));
            assert forall|s: Seq<TransactionOutput>| #[trigger] valid_outputs(d, pos as int, n as int, s) implies {
                &&& outputs_concat(s.subrange(0, i + 1)) == outputs_concat(items@)
                &&& forall|j: int| 0 <= j < i + 1 ==> same_output(#[trigger] items@[j], s[j])
            } by {
                assert(wf_output(s[i as int]));
                assert(stands_at(d, cur as int, output_bytes(s[i as int])));
                assert(same_output(x, s[i as int]));
                assert(output_bytes(x) == output_bytes(s[i as int]));
                assert(s.subrange(0, i + 1).drop_last() =~= s.subrange(0, i as int));
                assert(forall|j: int| 0 <= j < i ==> same_output(#[trigger] items@[j], s[j]) <== same_output(before[j], s[j]));
            }
        }
        cur = next;
        i = i + 1;
    }
    proof {
        assert forall|s: Seq<TransactionOutput>| #[trigger] valid_outputs(d, pos as int, n as int, s) implies outputs_concat(items@) == outputs_concat(s) by {
            assert(s.subrange(0, m as int) =~= s);
        }
    }
    Some((items, cur))
}

/// `s` is a list of bit proofs whose encoding stands at `pos`, each with valid points.
pub open spec fn valid_bits(d: Seq<u8>, pos: int, n: int, s: Seq<BitProof>) -> bool {
    &&& s.len() == n
    &&& forall|i: int| 0 <= i < s.len() ==> wf_bit(#[trigger] s[i])
    &&& stands_at(d, pos, bits_concat(s))
}

/// Reads `n` bit proofs at `pos`.
fn read_bits(data: &[u8], pos: usize, n: u64) -> (r: Option<(Vec<BitProof>, usize)>)
    requires
        pos <= data@.len(),
    ensures
        r is Some ==> r.unwrap().0@.len() == n && stands_at(data@, pos as int, bits_concat(r.unwrap().0@))
            && r.unwrap().1 == pos + bits_concat(r.unwrap().0@).len()
            && forall|i: int| 0 <= i < n ==> wf_bit(#[trigger] r.unwrap().0@[i]),
        forall|s: Seq<BitProof>| #[trigger] valid_bits(data@, pos as int, n as int, s) ==> r is Some
            && forall|i: int| 0 <= i < n ==> same_bit(#[trigger] r.unwrap().0@[i], s[i])
            && bits_concat(r.unwrap().0@) == bits_concat(s),
{
    let ghost d = data@;
    let len = data.len();
    if n > (len - pos) as u64 {
        proof {
            assert forall|s: Seq<BitProof>| #[trigger] valid_bits(d, pos as int, n as int, s) implies false by {
                lemma_concat_lens(Seq::empty(), Seq::empty(), Seq::empty(), s);
            }
        }
        return None;
    }
    let m = n as usize;
    let mut items: Vec<BitProof> = Vec::new();
    let mut cur: usize = pos;
    let mut i: usize = 0;
    proof {
        assert(bits_concat(items@) =~= Seq::<u8>::empty());
        assert(d.subrange(pos as int, pos as int) =~= Seq::<u8>::empty());
        assert forall|s: Seq<BitProof>| #[trigger] valid_bits(d, pos as int, n as int, s) implies bits_concat(s.subrange(0, 0)) == bits_concat(items@) by {
            assert(s.subrange(0, 0) =~= Seq::<BitProof>::empty());
        }
    }
    while i < m
        invariant
            0 <= i <= m,
            m == n,
            len == d.len(),
            d == data@,
            items@.len() == i,
            stands_at(d, pos as int, bits_concat(items@)),
            cur == pos + bits_concat(items@).len(),
            forall|j: int| 0 <= j < i ==> wf_bit(#[trigger] items@[j]),
            forall|s: Seq<BitProof>| #[trigger] valid_bits(d, pos as int, n as int, s) ==> {
                &&& bits_concat(s.subrange(0, i as int)) == bits_concat(items@)
                &&& forall|j: int| 0 <= j < i ==> same_bit(#[trigger] items@[j], s[j])
            },
        decreases m - i,
    {
        proof {
            assert forall|s: Seq<BitProof>| #[trigger] valid_bits(d, pos as int, n as int, s) implies stands_at(d, cur as int, bit_bytes(s[i as int])) by {
                lemma_bits_prefix(s, i + 1);
                assert(s.subrange(0, i + 1).drop_last() =~= s.subrange(0, i as int));
                lemma_stands_prefix(d, pos as int, bits_concat(s.subrange(0, i + 1)),
                    bits_concat(s).subrange(bits_concat(s.subrange(0, i + 1)).len() as int, bits_concat(s).len() as int));
                lemma_stands_split(d, pos as int, bits_concat(s.subrange(0, i as int)), bit_bytes(s[i as int]));
            }
        }
        let (x, next) = match read_bit(data, cur) {
            Some(v) => v,
            None => {
                proof {
                    assert forall|s: Seq<BitProof>| #[trigger] valid_bits(d, pos as int, n as int, s) implies false by {
                        assert(wf_bit(s[i as int]));
                        assert(stands_at(d, cur as int, bit_bytes(s[i as int])));
                    }
                }
                return None;
            },
        };
        let ghost before = items@;
        items.push(x);
        proof {
            assert(items@.drop_last() =~= before);
            lemma_stands_join(d, pos as int, bits_concat(before), bit_bytes(x));
            assert forall|s: Seq<BitProof>| #[trigger] valid_bits(d, pos as int, n as int, s) implies {
                &&& bits_concat(s.subrange(0, i + 1)) == bits_concat(items@)
                &&& forall|j: int| 0 <= j < i + 1 ==> same_bit(#[trigger] items@[j], s[j])
            } by {
                assert(wf_bit(s[i as int]));
                assert(stands_at(d, cur as int, bit_bytes(s[i as int])));
                assert(same_bit(x, s[i as int]));
                assert(bit_bytes(x) == bit_bytes(s[i as int]));
                assert(s.subrange(0, i + 1).drop_last() =~= s.subrange(0, i as int));
                assert(forall|j: int| 0 <= j < i ==> same_bit(#[trigger] items@[j], s[j]) <== same_bit(before[j], s[j]));
            }
        }
        cur = next;
        i = i + 1;
    }
    proof {
        assert forall|s: Seq<BitProof>| #[trigger] valid_bits(d, pos as int, n as int, s) implies bits_concat(items@) == bits_concat(s) by {
            assert(s.subrange(0, m as int) =~= s);
        }
    }
    Some((items, cur))
}

/// `s` is a list of range proofs whose encoding stands at `pos`, each with valid points.
pub open spec fn valid_proofs(d: Seq<u8>, pos: int, n: int, s: Seq<RangeProof>) -> bool {
    &&& s.len() == n
    &&& forall|i: int| 0 <= i < s.len() ==> wf_proof(#[trigger] s[i])
    &&& stands_at(d, pos, proofs_concat(s))
}

/// Reads `n` range proofs at `pos`.
fn read_proofs(data: &[u8], pos: usize, n: u64) -> (r: Option<(Vec<RangeProof>, usize)>)
    requires
        pos <= data@.len(),
    ensures
        r is Some ==> r.unwrap().0@.len() == n && stands_at(data@, pos as int, proofs_concat(r.unwrap().0@))
            && r.unwrap().1 == pos + proofs_concat(r.unwrap().0@).len()
            && forall|i: int| 0 <= i < n ==> wf_proof(#[trigger] r.unwrap().0@[i]),
        forall|s: Seq<RangeProof>| #[trigger] valid_proofs(data@, pos as int, n as int, s) ==> r is Some
            && forall|i: int| 0 <= i < n ==> same_proof(#[trigger] r.unwrap().0@[i], s[i])
            && proofs_concat(r.unwrap().0@) == proofs_concat(s),
{
    let ghost d = data@;
    let len = data.len();
    if n > (len - pos) as u64 {
        proof {
            assert forall|s: Seq<RangeProof>| #[trigger] valid_proofs(d, pos as int, n as int, s) implies false by {
                lemma_concat_lens(Seq::empty(), Seq::empty(), s, Seq::empty());
            }
        }
        return None;
    }
    let m = n as usize;
    let mut items: Vec<RangeProof> = Vec::new();
    let mut cur: usize = pos;
    let mut i: usize = 0;
    proof {
        assert(proofs_concat(items@) =~= Seq::<u8>::empty());
        assert(d.subrange(pos as int, pos as int) =~= Seq::<u8>::empty());
        assert forall|s: Seq<RangeProof>| #[trigger] valid_proofs(d, pos as int, n as int, s) implies proofs_concat(s.subrange(0, 0)) == proofs_concat(items@) by {
            assert(s.subrange(0, 0) =~= Seq::<RangeProof>::empty());
        }
    }
    while i < m
        invariant
            0 <= i <= m,
            m == n,
            len == d.len(),
            d == data@,
            items@.len() == i,
            stands_at(d, pos as int, proofs_concat(items@)),
            cur == pos + proofs_concat(items@).len(),
            forall|j: int| 0 <= j < i ==> wf_proof(#[trigger] items@[j]),
            forall|s: Seq<RangeProof>| #[trigger] valid_proofs(d, pos as int, n as int, s) ==> {
                &&& proofs_concat(s.subrange(0, i as int)) == proofs_concat(items@)
                &&& forall|j: int| 0 <= j < i ==> same_proof(#[trigger] items@[j], s[j])
            },
        decreases m - i,
    {
        proof {
            assert forall|s: Seq<RangeProof>| #[trigger] valid_proofs(d, pos as int, n as int, s) implies stands_at(d, cur as int, proof_bytes(s[i as int])) by {
                lemma_proofs_prefix(s, i + 1);
                assert(s.subrange(0, i + 1).drop_last() =~= s.subrange(0, i as int));
                lemma_stands_prefix(d, pos as int, proofs_concat(s.subrange(0, i + 1)),
                    proofs_concat(s).subrange(proofs_concat(s.subrange(0, i + 1)).len() as int, proofs_concat(s).len() as int));
                lemma_stands_split(d, pos as int, proofs_concat(s.subrange(0, i as int)), proof_bytes(s[i as int]));
            }
        }
        let (x, next) = match read_proof(data, cur) {
            Some(v) => v,
            None => {
                proof {
                    assert forall|s: Seq<RangeProof>| #[trigger] valid_proofs(d, pos as int, n as int, s) implies false by {
                        assert(wf_proof(s[i as int]));
                        assert(stands_at(d, cur as int, proof_bytes(s[i as int])));
                    }
                }
                return None;
            },
        };
        let ghost before = items@;
        items.push(x);
        proof {
            assert(items@.drop_last() =~= before);
            lemma_stands_join(d, pos as int, proofs_concat(before), proof_bytes(x));
            assert forall|s: Seq<RangeProof>| #[trigger] valid_proofs(d, pos as int, n as int, s) implies {
                &&& proofs_concat(s.subrange(0, i + 1)) == proofs_concat(items@)
                &&& forall|j: int| 0 <= j < i + 1 ==> same_proof(#[trigger] items@[j], s[j])
            } by {
                assert(wf_proof(s[i as int]));
                assert(stands_at(d, cur as int, proof_bytes(s[i as int])));
                assert(same_proof(x, s[i as int]));
                assert(proof_bytes(x) == proof_bytes(s[i as int]));
                assert(s.subrange(0, i + 1).drop_last() =~= s.subrange(0, i as int));
                assert(forall|j: int| 0 <= j < i ==> same_proof(#[trigger] items@[j], s[j]) <== same_proof(before[j], s[j]));
            }
        }
        cur = next;
        i = i + 1;
    }
    proof {
        assert forall|s: Seq<RangeProof>| #[trigger] valid_proofs(d, pos as int, n as int, s) implies proofs_concat(items@) == proofs_concat(s) by {
            assert(s.subrange(0, m as int) =~= s);
        }
    }
    Some((items, cur))
}

/// Where the encoding of a transaction with valid points is the whole of `d`, each of its
/// fields stands at its place.
proof fn lemma_tx_parts(d: Seq<u8>, t: PrivateTransaction)
    requires
        points_valid(t),
        tx_bytes(t) == d,
        d.len() <= usize::MAX,
    ensures
        ({
            let a2 = inputs_concat(t.inputs@);
            let a4 = outputs_concat(t.outputs@);
            let a6 = proofs_concat(t.range_proofs@);
            let o2: int = 8 + a2.len() as int;
            let o4: int = o2 + 8 + a4.len() as int;
            let o6: int = o4 + 8 + a6.len() as int;
            &&& stands_at(d, 0, le_bytes(t.inputs@.len() as int, 8))
            &&& valid_inputs(d, 8, t.inputs@.len() as int, t.inputs@)
            &&& stands_at(d, o2, le_bytes(t.outputs@.len() as int, 8))
            &&& valid_outputs(d, o2 + 8, t.outputs@.len() as int, t.outputs@)
            &&& stands_at(d, o4, le_bytes(t.range_proofs@.len() as int, 8))
            &&& valid_proofs(d, o4 + 8, t.range_proofs@.len() as int, t.range_proofs@)
            &&& stands_at(d, o6, le_bytes(t.fee as int, 8))
            &&& stands_at(d, o6 + 8, opt_field(opt_view(t.metadata)))
            &&& o6 + 8 + opt_field(opt_view(t.metadata)).len() == d.len()
            &&& t.inputs@.len() < pow256(8)
            &&& t.outputs@.len() < pow256(8)
            &&& t.range_proofs@.len() < pow256(8)
        }),
{
    lemma_pow256_values();
    let a1 = le_bytes(t.inputs@.len() as int, 8);
    let a2 = inputs_concat(t.inputs@);
    let a3 = le_bytes(t.outputs@.len() as int, 8);
    let a4 = outputs_concat(t.outputs@);
    let a5 = le_bytes(t.range_proofs@.len() as int, 8);
    let a6 = proofs_concat(t.range_proofs@);
    let a7 = le_bytes(t.fee as int, 8);
    let a8 = opt_field(opt_view(t.metadata));
    lemma_le_bytes_len(t.inputs@.len() as int, 8);
    lemma_le_bytes_len(t.outputs@.len() as int, 8);
    lemma_le_bytes_len(t.range_proofs@.len() as int, 8);
    lemma_le_bytes_len(t.fee as int, 8);
    assert(d.subrange(0, d.len() as int) =~= d);
    assert(stands_at(d, 0, a1 + a2 + a3 + a4 + a5 + a6 + a7 + a8));
    lemma_stands_split(d, 0, a1 + a2 + a3 + a4 + a5 + a6 + a7, a8);
    lemma_stands_split(d, 0, a1 + a2 + a3 + a4 + a5 + a6, a7);
    lemma_stands_split(d, 0, a1 + a2 + a3 + a4 + a5, a6);
    lemma_stands_split(d, 0, a1 + a2 + a3 + a4, a5);
    lemma_stands_split(d, 0, a1 + a2 + a3, a4);
    lemma_stands_split(d, 0, a1 + a2, a3);
    lemma_stands_split(d, 0, a1, a2);
    lemma_concat_lens(t.inputs@, t.outputs@, t.range_proofs@, Seq::empty());
    assert forall|i: int| 0 <= i < t.inputs@.len() implies wf_input(#[trigger] t.inputs@[i]) by {}
    assert forall|i: int| 0 <= i < t.outputs@.len() implies wf_output(#[trigger] t.outputs@[i]) by {}
    assert forall|i: int| 0 <= i < t.range_proofs@.len() implies wf_proof(#[trigger] t.range_proofs@[i]) by {
        assert forall|m: int| 0 <= m < t.range_proofs@[i].bits@.len() implies
            (#[trigger] t.range_proofs@[i].bits@[m]).points_wf() by {}
    }
}

/// Two byte strings of one length that stand at one place are equal.
proof fn lemma_stands_same(d: Seq<u8>, pos: int, a: Seq<u8>, b: Seq<u8>)
    requires
        stands_at(d, pos, a),
        stands_at(d, pos, b),
        a.len() == b.len(),
    ensures
        a == b,
{
}

/// Two integers of `k` bytes below `256^k` that stand at one place are equal.
proof fn lemma_le_same(d: Seq<u8>, pos: int, m: int, n: int, k: nat)
    requires
        stands_at(d, pos, le_bytes(m, k)),
        stands_at(d, pos, le_bytes(n, k)),
        0 <= m < pow256(k),
        0 <= n < pow256(k),
    ensures
        m == n,
{
    lemma_le_stands(d, pos, m, k);
    lemma_le_stands(d, pos, n, k);
}

/// Two length fields that stand at one place hold the same bytes.
proof fn lemma_field_same(d: Seq<u8>, pos: int, a: Seq<u8>, b: Seq<u8>)
    requires
        stands_at(d, pos, len_field(a)),
        stands_at(d, pos, len_field(b)),
        d.len() <= usize::MAX,
    ensures
        a == b,
{
    lemma_field_parts(d, pos, a);
    lemma_field_parts(d, pos, b);
}

proof fn lemma_opt_same(d: Seq<u8>, pos: int, a: Option<Seq<u8>>, b: Option<Seq<u8>>)
    requires
        stands_at(d, pos, opt_field(a)),
        stands_at(d, pos, opt_field(b)),
        d.len() <= usize::MAX,
    ensures
        a == b,
{
    assert(opt_field(a)[0] == d.subrange(pos, pos + opt_field(a).len())[0]);
    assert(opt_field(b)[0] == d.subrange(pos, pos + opt_field(b).len())[0]);
    if a is Some && b is Some {
        lemma_after_tag(d, pos, 1u8, len_field(a->0));
        lemma_after_tag(d, pos, 1u8, len_field(b->0));
        lemma_field_same(d, pos + 1, a->0, b->0);
    }
}

proof fn lemma_input_same(d: Seq<u8>, pos: int, x: TransactionInput, y: TransactionInput)
    requires
        stands_at(d, pos, input_bytes(x)),
        stands_at(d, pos, input_bytes(y)),
        d.len() <= usize::MAX,
    ensures
        same_input(x, y),
        input_bytes(x) == input_bytes(y),
{
    lemma_pow256_values();
    lemma_le_bytes_len(x.prev_output_index as int, 4);
    lemma_le_bytes_len(y.prev_output_index as int, 4);
    let (a, b, c) = (x.prev_tx_hash@, le_bytes(x.prev_output_index as int, 4), x.commitment.point.bytes@);
    lemma_stands_split(d, pos, a + b + c, len_field(x.signature@));
    lemma_stands_split(d, pos, a + b, c);
    lemma_stands_split(d, pos, a, b);
    let (a2, b2, c2) = (y.prev_tx_hash@, le_bytes(y.prev_output_index as int, 4), y.commitment.point.bytes@);
    lemma_stands_split(d, pos, a2 + b2 + c2, len_field(y.signature@));
    lemma_stands_split(d, pos, a2 + b2, c2);
    lemma_stands_split(d, pos, a2, b2);
    lemma_same_array(x.prev_tx_hash, y.prev_tx_hash);
    lemma_le_same(d, pos + 32, x.prev_output_index as int, y.prev_output_index as int, 4);
    lemma_same_array(x.commitment.point.bytes, y.commitment.point.bytes);
    lemma_field_same(d, pos + 68, x.signature@, y.signature@);
}

proof fn lemma_output_same(d: Seq<u8>, pos: int, x: TransactionOutput, y: TransactionOutput)
    requires
        stands_at(d, pos, output_bytes(x)),
        stands_at(d, pos, output_bytes(y)),
        d.len() <= usize::MAX,
    ensures
        same_output(x, y),
        output_bytes(x) == output_bytes(y),
{
    let (a, c) = (len_field(x.address@), x.commitment.point.bytes@);
    lemma_stands_split(d, pos, a + c, opt_field(opt_view(x.encrypted_amount)));
    lemma_stands_split(d, pos, a, c);
    let (a2, c2) = (len_field(y.address@), y.commitment.point.bytes@);
    lemma_stands_split(d, pos, a2 + c2, opt_field(opt_view(y.encrypted_amount)));
    lemma_stands_split(d, pos, a2, c2);
    lemma_field_same(d, pos, x.address@, y.address@);
    lemma_same_array(x.commitment.point.bytes, y.commitment.point.bytes);
    lemma_opt_same(d, pos + a.len() + 32, opt_view(x.encrypted_amount), opt_view(y.encrypted_amount));
}

proof fn lemma_bit_same(d: Seq<u8>, pos: int, x: BitProof, y: BitProof)
    requires
        stands_at(d, pos, bit_bytes(x)),
        stands_at(d, pos, bit_bytes(y)),
        d.len() <= usize::MAX,
    ensures
        x == y,
        bit_bytes(x) == bit_bytes(y),
{
    lemma_stands_same(d, pos, bit_bytes(x), bit_bytes(y));
    let bx = bit_bytes(x);
    assert(x.commitment.bytes@ =~= bx.subrange(0, 32));
    assert(x.a0.bytes@ =~= bx.subrange(32, 64));
    assert(x.a1.bytes@ =~= bx.subrange(64, 96));
    assert(x.e0.bytes@ =~= bx.subrange(96, 128));
    assert(x.z0.bytes@ =~= bx.subrange(128, 160));
    assert(x.z1.bytes@ =~= bx.subrange(160, 192));
    let by = bit_bytes(y);
    assert(y.commitment.bytes@ =~= by.subrange(0, 32));
    assert(y.a0.bytes@ =~= by.subrange(32, 64));
    assert(y.a1.bytes@ =~= by.subrange(64, 96));
    assert(y.e0.bytes@ =~= by.subrange(96, 128));
    assert(y.z0.bytes@ =~= by.subrange(128, 160));
    assert(y.z1.bytes@ =~= by.subrange(160, 192));
    lemma_same_array(x.commitment.bytes, y.commitment.bytes);
    lemma_same_array(x.a0.bytes, y.a0.bytes);
    lemma_same_array(x.a1.bytes, y.a1.bytes);
    lemma_same_array(x.e0.bytes, y.e0.bytes);
    lemma_same_array(x.z0.bytes, y.z0.bytes);
    lemma_same_array(x.z1.bytes, y.z1.bytes);
}

proof fn lemma_inputs_same(d: Seq<u8>, pos: int, s1: Seq<TransactionInput>, s2: Seq<TransactionInput>)
    requires
        s1.len() == s2.len(),
        stands_at(d, pos, inputs_concat(s1)),
        stands_at(d, pos, inputs_concat(s2)),
        d.len() <= usize::MAX,
    ensures
        forall|i: int| 0 <= i < s1.len() ==> same_input(#[trigger] s1[i], s2[i]),
        inputs_concat(s1) == inputs_concat(s2),
    decreases s1.len(),
{
    if s1.len() > 0 {
        let n = s1.len() - 1;
        lemma_stands_split(d, pos, inputs_concat(s1.drop_last()), input_bytes(s1[n]));
        lemma_stands_split(d, pos, inputs_concat(s2.drop_last()), input_bytes(s2[n]));
        lemma_inputs_same(d, pos, s1.drop_last(), s2.drop_last());
        lemma_input_same(d, pos + inputs_concat(s1.drop_last()).len(), s1[n], s2[n]);
        assert forall|i: int| 0 <= i < s1.len() implies same_input(#[trigger] s1[i], s2[i]) by {
            if i < n {
                assert(s1.drop_last()[i] == s1[i]);
                assert(s2.drop_last()[i] == s2[i]);
            }
        }
    }
}

proof fn lemma_outputs_same(d: Seq<u8>, pos: int, s1: Seq<TransactionOutput>, s2: Seq<TransactionOutput>)
    requires
        s1.len() == s2.len(),
        stands_at(d, pos, outputs_concat(s1)),
        stands_at(d, pos, outputs_concat(s2)),
        d.len() <= usize::MAX,
    ensures
        forall|i: int| 0 <= i < s1.len() ==> same_output(#[trigger] s1[i], s2[i]),
        outputs_concat(s1) == outputs_concat(s2),
    decreases s1.len(),
{
    if s1.len() > 0 {
        let n = s1.len() - 1;
        lemma_stands_split(d, pos, outputs_concat(s1.drop_last()), output_bytes(s1[n]));
        lemma_stands_split(d, pos, outputs_concat(s2.drop_last()), output_bytes(s2[n]));
        lemma_outputs_same(d, pos, s1.drop_last(), s2.drop_last());
        lemma_output_same(d, pos + outputs_concat(s1.drop_last()).len(), s1[n], s2[n]);
        assert forall|i: int| 0 <= i < s1.len() implies same_output(#[trigger] s1[i], s2[i]) by {
            if i < n {
                assert(s1.drop_last()[i] == s1[i]);
                assert(s2.drop_last()[i] == s2[i]);
            }
        }
    }
}

proof fn lemma_bits_same(d: Seq<u8>, pos: int, s1: Seq<BitProof>, s2: Seq<BitProof>)
    requires
        s1.len() == s2.len(),
        stands_at(d, pos, bits_concat(s1)),
        stands_at(d, pos, bits_concat(s2)),
        d.len() <= usize::MAX,
    ensures
        forall|i: int| 0 <= i < s1.len() ==> same_bit(#[trigger] s1[i], s2[i]),
        bits_concat(s1) == bits_concat(s2),
    decreases s1.len(),
{
    if s1.len() > 0 {
        let n = s1.len() - 1;
        lemma_stands_split(d, pos, bits_concat(s1.drop_last()), bit_bytes(s1[n]));
        lemma_stands_split(d, pos, bits_concat(s2.drop_last()), bit_bytes(s2[n]));
        lemma_bits_same(d, pos, s1.drop_last(), s2.drop_last());
        lemma_bit_same(d, pos + bits_concat(s1.drop_last()).len(), s1[n], s2[n]);
        assert forall|i: int| 0 <= i < s1.len() implies same_bit(#[trigger] s1[i], s2[i]) by {
            if i < n {
                assert(s1.drop_last()[i] == s1[i]);
                assert(s2.drop_last()[i] == s2[i]);
            }
        }
    }
}

proof fn lemma_proof_same(d: Seq<u8>, pos: int, x: RangeProof, y: RangeProof)
    requires
        stands_at(d, pos, proof_bytes(x)),
        stands_at(d, pos, proof_bytes(y)),
        d.len() <= usize::MAX,
    ensures
        same_proof(x, y),
        proof_bytes(x) == proof_bytes(y),
{
    lemma_pow256_values();
    lemma_le_bytes_len(x.bits@.len() as int, 8);
    lemma_le_bytes_len(y.bits@.len() as int, 8);
    lemma_stands_split(d, pos, le_bytes(x.bits@.len() as int, 8), bits_concat(x.bits@));
    lemma_stands_split(d, pos, le_bytes(y.bits@.len() as int, 8), bits_concat(y.bits@));
    lemma_concat_lens(Seq::empty(), Seq::empty(), Seq::empty(), x.bits@);
    lemma_concat_lens(Seq::empty(), Seq::empty(), Seq::empty(), y.bits@);
    lemma_le_same(d, pos, x.bits@.len() as int, y.bits@.len() as int, 8);
    lemma_bits_same(d, pos + 8, x.bits@, y.bits@);
    assert(x.bits@ =~= y.bits@);
}

proof fn lemma_proofs_same(d: Seq<u8>, pos: int, s1: Seq<RangeProof>, s2: Seq<RangeProof>)
    requires
        s1.len() == s2.len(),
        stands_at(d, pos, proofs_concat(s1)),
        stands_at(d, pos, proofs_concat(s2)),
        d.len() <= usize::MAX,
    ensures
        forall|i: int| 0 <= i < s1.len() ==> same_proof(#[trigger] s1[i], s2[i]),
        proofs_concat(s1) == proofs_concat(s2),
    decreases s1.len(),
{
    if s1.len() > 0 {
        let n = s1.len() - 1;
        lemma_stands_split(d, pos, proofs_concat(s1.drop_last()), proof_bytes(s1[n]));
        lemma_stands_split(d, pos, proofs_concat(s2.drop_last()), proof_bytes(s2[n]));
        lemma_proofs_same(d, pos, s1.drop_last(), s2.drop_last());
        lemma_proof_same(d, pos + proofs_concat(s1.drop_last()).len(), s1[n], s2[n]);
        assert forall|i: int| 0 <= i < s1.len() implies same_proof(#[trigger] s1[i], s2[i]) by {
            if i < n {
                assert(s1.drop_last()[i] == s1[i]);
                assert(s2.drop_last()[i] == s2[i]);
            }
        }
    }
}

/// Round trip: the binary form determines the transaction. `to_bytes` returns exactly
/// `tx_bytes(tx)`, and `from_bytes` reads every valid encoding back as a transaction with
/// that same binary form and valid points; by this lemma that transaction is `tx`, field by
/// field, so reading what was written gives the transaction back.
pub proof fn lemma_transaction_round_trip(tx: PrivateTransaction, read: PrivateTransaction)
    requires
        points_valid(tx),
        points_valid(read),
        tx_bytes(read) == tx_bytes(tx),
        tx_bytes(tx).len() <= usize::MAX,
    ensures
        same_tx(read, tx),
{
    let d = tx_bytes(tx);
    lemma_pow256_values();
    lemma_tx_parts(d, tx);
    lemma_tx_parts(d, read);
    lemma_le_same(d, 0, read.inputs@.len() as int, tx.inputs@.len() as int, 8);
    lemma_inputs_same(d, 8, read.inputs@, tx.inputs@);
    let o2: int = 8 + inputs_concat(tx.inputs@).len() as int;
    lemma_le_same(d, o2, read.outputs@.len() as int, tx.outputs@.len() as int, 8);
    lemma_outputs_same(d, o2 + 8, read.outputs@, tx.outputs@);
    let o4: int = o2 + 8 + outputs_concat(tx.outputs@).len() as int;
    lemma_le_same(d, o4, read.range_proofs@.len() as int, tx.range_proofs@.len() as int, 8);
    lemma_proofs_same(d, o4 + 8, read.range_proofs@, tx.range_proofs@);
    let o6: int = o4 + 8 + proofs_concat(tx.range_proofs@).len() as int;
    lemma_le_same(d, o6, read.fee as int, tx.fee as int, 8);
    lemma_opt_same(d, o6 + 8, opt_view(read.metadata), opt_view(tx.metadata));
    assert forall|k: int| 0 <= k < read.range_proofs@.len() implies
        (#[trigger] read.range_proofs@[k]).bits@ == tx.range_proofs@[k].bits@ by {
        assert(same_proof(read.range_proofs@[k], tx.range_proofs@[k]));
    }
}

impl PrivateTransaction {
    /// Reads a transaction from its binary form. Every valid encoding is accepted and
    /// read back as the transaction it encodes; malformed bytes, points that do not
    /// decompress and trailing bytes are serialization errors.
    #[verifier::rlimit(100)]
    #[verifier::spinoff_prover]
    pub fn from_bytes(bytes: &[u8]) -> (r: Result<PrivateTransaction, CoreError>)
        ensures
            r is Ok ==> tx_bytes(r->Ok_0) == bytes@ && points_valid(r->Ok_0),
            forall|t: PrivateTransaction| points_valid(t) && #[trigger] tx_bytes(t) == bytes@
                ==> r is Ok && same_tx(r->Ok_0, t),
            r is Err ==> r->Err_0 is Serialization,
    {
        let ghost d = bytes@;
        let len = bytes.len();
        proof {
            lemma_pow256_values();
            assert(d.len() == len);
        }
        let bad = Err(CoreError::Serialization("malformed transaction bytes".to_owned()));
        let (n_in, p1) = match read_le(bytes, 0, 8) {
            Some(v) => v,
            None => {
                proof {
                    assert forall|t: PrivateTransaction| points_valid(t) && #[trigger] tx_bytes(t) == d implies false by {
                        lemma_tx_parts(d, t);
                        lemma_le_bytes_len(t.inputs@.len() as int, 8);
                    }
                }
                return bad;
            },
        };
        proof {
            assert forall|t: PrivateTransaction| points_valid(t) && #[trigger] tx_bytes(t) == d implies t.inputs@.len() == n_in by {
                lemma_tx_parts(d, t);
                lemma_le_stands(d, 0, t.inputs@.len() as int, 8);
            }
        }
        let (inputs, p2) = match read_inputs(bytes, p1, n_in) {
            Some(v) => v,
            None => {
                proof {
                    assert forall|t: PrivateTransaction| points_valid(t) && #[trigger] tx_bytes(t) == d implies false by {
                        lemma_tx_parts(d, t);
                    }
                }
                return bad;
            },
        };
        let (n_out, p3) = match read_le(bytes, p2, 8) {
            Some(v) => v,
            None => {
                proof {
                    assert forall|t: PrivateTransaction| points_valid(t) && #[trigger] tx_bytes(t) == d implies false by {
                        lemma_tx_parts(d, t);
                        assert(valid_inputs(d, 8, n_in as int, t.inputs@));
                        lemma_le_bytes_len(t.outputs@.len() as int, 8);
                    }
                }
                return bad;
            },
        };
        proof {
            assert forall|t: PrivateTransaction| points_valid(t) && #[trigger] tx_bytes(t) == d implies t.outputs@.len() == n_out by {
                lemma_tx_parts(d, t);
                assert(valid_inputs(d, 8, n_in as int, t.inputs@));
                lemma_le_stands(d, p2 as int, t.outputs@.len() as int, 8);
            }
        }
        let (outputs, p4) = match read_outputs(bytes, p3, n_out) {
            Some(v) => v,
            None => {
                proof {
                    assert forall|t: PrivateTransaction| points_valid(t) && #[trigger] tx_bytes(t) == d implies false by {
                        lemma_tx_parts(d, t);
                        assert(valid_inputs(d, 8, n_in as int, t.inputs@));
                    }
                }
                return bad;
            },
        };
        let (n_pr, p5) = match read_le(bytes, p4, 8) {
            Some(v) => v,
            None => {
                proof {
                    assert forall|t: PrivateTransaction| points_valid(t) && #[trigger] tx_bytes(t) == d implies false by {
                        lemma_tx_parts(d, t);
                        assert(valid_inputs(d, 8, n_in as int, t.inputs@));
                        assert(valid_outputs(d, p3 as int, n_out as int, t.outputs@));
                        lemma_le_bytes_len(t.range_proofs@.len() as int, 8);
                    }
                }
                return bad;
            },
        };
        proof {
            assert forall|t: PrivateTransaction| points_valid(t) && #[trigger] tx_bytes(t) == d implies t.range_proofs@.len() == n_pr by {
                lemma_tx_parts(d, t);
                assert(valid_inputs(d, 8, n_in as int, t.inputs@));
                assert(valid_outputs(d, p3 as int, n_out as int, t.outputs@));
                lemma_le_stands(d, p4 as int, t.range_proofs@.len() as int, 8);
            }
        }
        let (range_proofs, p6) = match read_proofs(bytes, p5, n_pr) {
            Some(v) => v,
            None => {
                proof {
                    assert forall|t: PrivateTransaction| points_valid(t) && #[trigger] tx_bytes(t) == d implies false by {
                        lemma_tx_parts(d, t);
                        assert(valid_inputs(d, 8, n_in as int, t.inputs@));
                        assert(valid_outputs(d, p3 as int, n_out as int, t.outputs@));
                    }
                }
                return bad;
            },
        };
        let (fee, p7) = match read_le(bytes, p6, 8) {
            Some(v) => v,
            None => {
                proof {
                    assert forall|t: PrivateTransaction| points_valid(t) && #[trigger] tx_bytes(t) == d implies false by {
                        lemma_tx_parts(d, t);
                        assert(valid_inputs(d, 8, n_in as int, t.inputs@));
                        assert(valid_outputs(d, p3 as int, n_out as int, t.outputs@));
                        assert(valid_proofs(d, p5 as int, n_pr as int, t.range_proofs@));
                        lemma_le_bytes_len(t.fee as int, 8);
                    }
                }
                return bad;
            },
        };
        let (metadata, p8) = match read_opt_field(bytes, p7) {
            Some(v) => v,
            None => {
                proof {
                    assert forall|t: PrivateTransaction| points_valid(t) && #[trigger] tx_bytes(t) == d implies false by {
                        lemma_tx_parts(d, t);
                        assert(valid_inputs(d, 8, n_in as int, t.inputs@));
                        assert(valid_outputs(d, p3 as int, n_out as int, t.outputs@));
                        assert(valid_proofs(d, p5 as int, n_pr as int, t.range_proofs@));
                        lemma_le_bytes_len(t.fee as int, 8);
                    }
                }
                return bad;
            },
        };
        if p8 != len {
            proof {
                assert forall|t: PrivateTransaction| points_valid(t) && #[trigger] tx_bytes(t) == d implies false by {
                    lemma_tx_parts(d, t);
                    assert(valid_inputs(d, 8, n_in as int, t.inputs@));
                    assert(valid_outputs(d, p3 as int, n_out as int, t.outputs@));
                    assert(valid_proofs(d, p5 as int, n_pr as int, t.range_proofs@));
                    lemma_le_bytes_len(t.fee as int, 8);
                }
            }
            return bad;
        }
        let tx = PrivateTransaction { inputs, outputs, range_proofs, fee, metadata };
        proof {
            let a1 = le_bytes(n_in as int, 8);
            let a2 = inputs_concat(inputs@);
            let a3 = le_bytes(n_out as int, 8);
            let a4 = outputs_concat(outputs@);
            let a5 = le_bytes(n_pr as int, 8);
            let a6 = proofs_concat(range_proofs@);
            let a7 = le_bytes(fee as int, 8);
            let a8 = opt_field(opt_view(metadata));
            lemma_le_bytes_len(n_in as int, 8);
            lemma_le_bytes_len(n_out as int, 8);
            lemma_le_bytes_len(n_pr as int, 8);
            lemma_le_bytes_len(fee as int, 8);
            lemma_stands_join(d, 0, a1, a2);
            lemma_stands_join(d, 0, a1 + a2, a3);
            lemma_stands_join(d, 0, a1 + a2 + a3, a4);
            lemma_stands_join(d, 0, a1 + a2 + a3 + a4, a5);
            lemma_stands_join(d, 0, a1 + a2 + a3 + a4 + a5, a6);
            lemma_stands_join(d, 0, a1 + a2 + a3 + a4 + a5 + a6, a7);
            lemma_stands_join(d, 0, a1 + a2 + a3 + a4 + a5 + a6 + a7, a8);
            assert(tx_bytes(tx) =~= d);
            assert forall|k: int, m: int| 0 <= k < tx.range_proofs@.len() && 0 <= m < tx.range_proofs@[k].bits@.len()
                implies (#[trigger] tx.range_proofs@[k].bits@[m]).points_wf() by {
                assert(wf_proof(range_proofs@[k]));
            }
            assert forall|t: PrivateTransaction| points_valid(t) && #[trigger] tx_bytes(t) == d implies same_tx(tx, t) by {
                lemma_tx_parts(d, t);
                assert(valid_inputs(d, 8, n_in as int, t.inputs@));
                assert(valid_outputs(d, p3 as int, n_out as int, t.outputs@));
                assert(valid_proofs(d, p5 as int, n_pr as int, t.range_proofs@));
                lemma_le_stands(d, p6 as int, t.fee as int, 8);
                assert forall|k: int| 0 <= k < tx.range_proofs@.len() implies
                    (#[trigger] tx.range_proofs@[k]).bits@ == t.range_proofs@[k].bits@ by {
                    assert(same_proof(range_proofs@[k], t.range_proofs@[k]));
                }
            }
        }
        Ok(tx)
    }
}

} // verus!
