//! Private transactions: their structure, the builder that closes the value balance,
//! and the verifier of balance and range proofs.
use vstd::prelude::*;
use vstd::arithmetic::div_mod::{
    lemma_add_mod_noop, lemma_small_mod, lemma_mod_twice, lemma_mod_add_multiples_vanish,
    lemma_sub_mod_noop,
};
use crate::group::{
    Scalar, group_order, encodes, lemma_log_of, mul_base, add_points,
    sub_points, is_identity, decompress, random_scalar, le_value, };
use crate::commitments::{
    Commitment, PedersenCommitment, commitment_log, lemma_commit_homomorphic, lemma_commit_identity,
};
use crate::range_proof::{RangeProof, proof_accepts, lemma_range_proof_binds};
use vstd::arithmetic::power2::{pow2, lemma2_to64};
use crate::CoreError;

verus! {

/// A transaction input: a reference to an earlier output and the commitment to its amount.
#[derive(Clone, Debug, PartialEq, Eq)]
pub struct TransactionInput {
    pub prev_tx_hash: [u8; 32],
    pub prev_output_index: u32,
    pub commitment: Commitment,
    /// Proof of ownership, opaque here.
    pub signature: Vec<u8>,
}

/// A transaction output: a destination and the commitment to its amount.
#[derive(Clone, Debug, PartialEq, Eq)]
pub struct TransactionOutput {
    pub address: Vec<u8>,
    pub commitment: Commitment,
    pub encrypted_amount: Option<Vec<u8>>,
}

/// A transaction whose amounts are hidden; `range_proofs[i]` belongs to `outputs[i]`.
#[derive(Clone, Debug, PartialEq, Eq)]
pub struct PrivateTransaction {
    pub inputs: Vec<TransactionInput>,
    pub outputs: Vec<TransactionOutput>,
    pub range_proofs: Vec<RangeProof>,
    /// The fee, in the clear.
    pub fee: u64,
    pub metadata: Option<Vec<u8>>,
}

/// The discrete log of the sum of the input commitments.
pub open spec fn input_sum_log(s: Seq<TransactionInput>) -> int
    decreases s.len(),
{
    if s.len() == 0 {
        0
    } else {
        (input_sum_log(s.drop_last()) + s.last().commitment.log()) % group_order()
    }
}

/// The discrete log of the sum of the output commitments.
pub open spec fn output_sum_log(s: Seq<TransactionOutput>) -> int
    decreases s.len(),
{
    if s.len() == 0 {
        0
    } else {
        (output_sum_log(s.drop_last()) + s.last().commitment.log()) % group_order()
    }
}

/// The commitments balance: with at least one input and one output, all valid points,
/// `Σ inputs − Σ outputs − commit(fee, 0)` is the identity.
pub open spec fn balance_holds(tx: PrivateTransaction) -> bool {
    &&& tx.inputs@.len() > 0
    &&& tx.outputs@.len() > 0
    &&& forall|i: int| 0 <= i < tx.inputs@.len() ==> (#[trigger] tx.inputs@[i]).commitment.wf()
    &&& forall|j: int| 0 <= j < tx.outputs@.len() ==> (#[trigger] tx.outputs@[j]).commitment.wf()
    &&& input_sum_log(tx.inputs@)
        == (output_sum_log(tx.outputs@) + commitment_log(tx.fee as int, 0)) % group_order()
}

/// Every range proof is accepted against the commitment of its output.
pub open spec fn proofs_hold(tx: PrivateTransaction) -> bool {
    &&& tx.range_proofs@.len() == tx.outputs@.len()
    &&& forall|j: int| 0 <= j < tx.outputs@.len() ==> proof_accepts(
        (#[trigger] tx.range_proofs@[j]).bits@,
        tx.outputs@[j].commitment.point.bytes@,
    )
}

/// The transaction is valid: balanced, and every output's amount proven in range.
pub open spec fn tx_valid(tx: PrivateTransaction) -> bool {
    balance_holds(tx) && proofs_hold(tx)
}

/// A tampered proof is caught: when the proof of output `j` is one accepted against a
/// different commitment (say, one that `prove` made for another value or blinding), the
/// transaction is not valid, so `verify` returns `Ok(false)` when the proof count matches.
pub proof fn lemma_tampered_proof_rejected(tx: PrivateTransaction, j: int, other: Seq<u8>)
    requires
        0 <= j < tx.range_proofs@.len(),
        proof_accepts(tx.range_proofs@[j].bits@, other),
        j < tx.outputs@.len() ==> other != tx.outputs@[j].commitment.point.bytes@,
    ensures
        !tx_valid(tx),
{
    if tx_valid(tx) {
        lemma_range_proof_binds(tx.range_proofs@[j].bits@, other, tx.outputs@[j].commitment.point.bytes@);
    }
}

/// For reduced `a`, `b`: `(a − b) mod ℓ` is zero exactly when `a == b`.
proof fn lemma_diff_zero(a: int, b: int)
    requires
        0 <= a < group_order(),
        0 <= b < group_order(),
    ensures
        ((a - b) % group_order() == 0) == (a == b),
{
    let l = group_order();
    if a >= b {
        lemma_small_mod((a - b) as nat, l as nat);
    } else {
        lemma_mod_add_multiples_vanish(a - b, l);
        lemma_small_mod((l + (a - b)) as nat, l as nat);
    }
}

impl PrivateTransaction {
    /// Whether the input commitments equal the output commitments plus the fee's.
    /// Empty inputs or empty outputs never balance; an invalid point never does either.
    pub fn verify_balance(&self) -> (r: bool)
        ensures
            r == balance_holds(*self),
    {
        let ni = self.inputs.len();
        let no = self.outputs.len();
        if ni == 0 || no == 0 {
            return false;
        }
        let ghost l = group_order();
        let mut sum_in = mul_base(&Scalar::zero());
        proof {
            lemma_log_of(sum_in.bytes@, 0);
        }
        let mut i: usize = 0;
        while i < ni
            invariant
                0 <= i <= ni,
                ni == self.inputs@.len(),
                l == group_order(),
                forall|j: int| 0 <= j < i ==> (#[trigger] self.inputs@[j]).commitment.wf(),
                encodes(sum_in.bytes@, input_sum_log(self.inputs@.subrange(0, i as int))),
            decreases ni - i,
        {
            if decompress(self.inputs[i].commitment.point.bytes).is_none() {
                return false;
            }
            proof {
                lemma_log_of(sum_in.bytes@, input_sum_log(self.inputs@.subrange(0, i as int)));
                let s = self.inputs@.subrange(0, i + 1);
                assert(s.drop_last() =~= self.inputs@.subrange(0, i as int));
            }
            sum_in = add_points(&sum_in, &self.inputs[i].commitment.point);
            i = i + 1;
        }
        let mut sum_out = mul_base(&Scalar::zero());
        proof {
            lemma_log_of(sum_out.bytes@, 0);
        }
        i = 0;
        while i < no
            invariant
                0 <= i <= no,
                no == self.outputs@.len(),
                l == group_order(),
                forall|j: int| 0 <= j < i ==> (#[trigger] self.outputs@[j]).commitment.wf(),
                encodes(sum_out.bytes@, output_sum_log(self.outputs@.subrange(0, i as int))),
            decreases no - i,
        {
            if decompress(self.outputs[i].commitment.point.bytes).is_none() {
                return false;
            }
            proof {
                lemma_log_of(sum_out.bytes@, output_sum_log(self.outputs@.subrange(0, i as int)));
                let s = self.outputs@.subrange(0, i + 1);
                assert(s.drop_last() =~= self.outputs@.subrange(0, i as int));
            }
            sum_out = add_points(&sum_out, &self.outputs[i].commitment.point);
            i = i + 1;
        }
        proof {
            assert(self.inputs@.subrange(0, ni as int) =~= self.inputs@);
            assert(self.outputs@.subrange(0, no as int) =~= self.outputs@);
            lemma_log_of(sum_out.bytes@, output_sum_log(self.outputs@));
            lemma_log_of(sum_in.bytes@, input_sum_log(self.inputs@));
        }
        let pc = PedersenCommitment::new();
        let fee_commitment = pc.commit(self.fee, &Scalar::zero());
        let total_out = add_points(&sum_out, &fee_commitment.point);
        let ghost out_log = (output_sum_log(self.outputs@) + commitment_log(self.fee as int, 0)) % l;
        proof {
            lemma_log_of(total_out.bytes@, out_log);
        }
        let diff = sub_points(&sum_in, &total_out);
        proof {
            lemma_log_of(diff.bytes@, (input_sum_log(self.inputs@) - out_log) % l);
            lemma_diff_zero(input_sum_log(self.inputs@), out_log);
        }
        is_identity(&diff)
    }

    /// Checks the transaction. More or fewer range proofs than outputs is a structural
    /// error; otherwise the result says whether the commitments balance and every range
    /// proof holds for its output.
    pub fn verify(&self) -> (r: Result<bool, CoreError>)
        ensures
            r is Err <==> self.range_proofs@.len() != self.outputs@.len(),
            r is Err ==> r->Err_0 is InvalidParameter,
            r is Ok ==> r->Ok_0 == tx_valid(*self),
    {
        if self.range_proofs.len() != self.outputs.len() {
            return Err(CoreError::InvalidParameter("range proof count differs from output count".to_owned()));
        }
        if !self.verify_balance() {
            return Ok(false);
        }
        let n = self.range_proofs.len();
        let mut i: usize = 0;
        while i < n
            invariant
                0 <= i <= n,
                n == self.range_proofs@.len(),
                n == self.outputs@.len(),
                forall|j: int| 0 <= j < i ==> proof_accepts(
                    (#[trigger] self.range_proofs@[j]).bits@,
                    self.outputs@[j].commitment.point.bytes@,
                ),
            decreases n - i,
        {
            if !self.range_proofs[i].verify(&self.outputs[i].commitment) {
                return Ok(false);
            }
            i = i + 1;
        }
        Ok(true)
    }
}

/// Copies a byte vector.
pub(crate) fn copy_bytes(v: &Vec<u8>) -> (r: Vec<u8>)
    ensures
        r@ == v@,
{
    let mut out: Vec<u8> = Vec::new();
    let mut i: usize = 0;
    while i < v.len()
        invariant
            0 <= i <= v@.len(),
            out@ == v@.subrange(0, i as int),
        decreases v@.len() - i,
    {
        out.push(v[i]);
        i = i + 1;
        assert(out@ =~= v@.subrange(0, i as int));
    }
    assert(v@.subrange(0, v@.len() as int) =~= v@);
    out
}

/// Copies optional bytes.
pub(crate) fn copy_opt_bytes(v: &Option<Vec<u8>>) -> (r: Option<Vec<u8>>)
    ensures
        r is Some <==> v is Some,
        r is Some ==> r->0@ == v->0@,
{
    match v {
        Some(b) => Some(copy_bytes(b)),
        None => None,
    }
}

/// An input of the builder, with its opening.
#[derive(Clone, Debug)]
pub struct BuilderInput {
    pub prev_tx_hash: [u8; 32],
    pub prev_output_index: u32,
    pub value: u64,
    pub blinding: Scalar,
    pub commitment: Commitment,
}

/// An output of the builder, with its opening.
#[derive(Clone, Debug)]
pub struct BuilderOutput {
    pub address: Vec<u8>,
    pub value: u64,
    pub blinding: Scalar,
    pub commitment: Commitment,
}

impl BuilderInput {
    /// The commitment is `value·H + blinding·G`.
    pub open spec fn opens(&self) -> bool {
        encodes(self.commitment.point.bytes@, commitment_log(self.value as int, self.blinding.val()))
    }
}

impl BuilderOutput {
    /// The commitment is `value·H + blinding·G`.
    pub open spec fn opens(&self) -> bool {
        encodes(self.commitment.point.bytes@, commitment_log(self.value as int, self.blinding.val()))
    }
}

/// The sum of the input values.
pub open spec fn input_value_total(s: Seq<BuilderInput>) -> int
    decreases s.len(),
{
    if s.len() == 0 { 0 } else { input_value_total(s.drop_last()) + s.last().value }
}

/// The sum of the output values.
pub open spec fn output_value_total(s: Seq<BuilderOutput>) -> int
    decreases s.len(),
{
    if s.len() == 0 { 0 } else { output_value_total(s.drop_last()) + s.last().value }
}

/// The sum of the input blindings, as integers.
pub open spec fn input_blinding_total(s: Seq<BuilderInput>) -> int
    decreases s.len(),
{
    if s.len() == 0 { 0 } else { input_blinding_total(s.drop_last()) + s.last().blinding.val() }
}

/// The sum of the output blindings, as integers.
pub open spec fn output_blinding_total(s: Seq<BuilderOutput>) -> int
    decreases s.len(),
{
    if s.len() == 0 { 0 } else { output_blinding_total(s.drop_last()) + s.last().blinding.val() }
}

/// The blinding that closes the balance: input blindings minus output blindings, mod ℓ.
pub open spec fn change_blinding_of(ins: Seq<BuilderInput>, outs: Seq<BuilderOutput>) -> int {
    (input_blinding_total(ins) - output_blinding_total(outs)) % group_order()
}

/// Assembles a private transaction from inputs and outputs with known openings.
pub struct TransactionBuilder {
    pedersen: PedersenCommitment,
    inputs: Vec<BuilderInput>,
    outputs: Vec<BuilderOutput>,
    fee: u64,
    metadata: Option<Vec<u8>>,
}

/// `tx` is what building from `b` gives: the same inputs, outputs, fee and metadata,
/// no signatures and no encrypted amounts, and one accepted range proof per output.
pub open spec fn built_from(b: TransactionBuilder, tx: PrivateTransaction) -> bool {
    let ins = b.spec_inputs();
    let outs = b.spec_outputs();
    &&& tx.inputs@.len() == ins.len()
    &&& forall|i: int| 0 <= i < ins.len() ==> {
        &&& (#[trigger] tx.inputs@[i]).prev_tx_hash == ins[i].prev_tx_hash
        &&& tx.inputs@[i].prev_output_index == ins[i].prev_output_index
        &&& tx.inputs@[i].commitment == ins[i].commitment
        &&& encodes(tx.inputs@[i].commitment.point.bytes@,
            commitment_log(ins[i].value as int, ins[i].blinding.val()))
        &&& tx.inputs@[i].signature@.len() == 0
    }
    &&& tx.outputs@.len() == outs.len()
    &&& forall|j: int| 0 <= j < outs.len() ==> {
        &&& (#[trigger] tx.outputs@[j]).address@ == outs[j].address@
        &&& tx.outputs@[j].commitment == outs[j].commitment
        &&& encodes(tx.outputs@[j].commitment.point.bytes@,
            commitment_log(outs[j].value as int, outs[j].blinding.val()))
        &&& tx.outputs@[j].encrypted_amount is None
    }
    &&& tx.range_proofs@.len() == outs.len()
    &&& forall|j: int| 0 <= j < outs.len() ==> proof_accepts(
        (#[trigger] tx.range_proofs@[j]).bits@,
        outs[j].commitment.point.bytes@,
    ) && tx.range_proofs@[j].bits@.len() == 64
    &&& tx.fee == b.spec_fee()
    &&& tx.metadata is Some <==> b.spec_metadata() is Some
    &&& tx.metadata is Some ==> tx.metadata->0@ == b.spec_metadata()->0
}

/// The decimal digit `d < 10`.
pub open spec fn decimal_digit(d: int) -> char {
    seq!['0', '1', '2', '3', '4', '5', '6', '7', '8', '9'][d]
}

/// The decimal form of `n >= 0`: no sign, no leading zeros.
pub open spec fn decimal(n: int) -> Seq<char>
    decreases n,
{
    if n < 10 {
        seq![decimal_digit(n)]
    } else {
        decimal(n / 10).push(decimal_digit(n % 10))
    }
}

/// The diagnostic of an unbalanced transaction, with the input sum, the output sum and the fee.
pub open spec fn unbalanced_text(inputs: int, outputs: int, fee: int) -> Seq<char> {
    "Unbalanced transaction: inputs="@ + decimal(inputs) + ", outputs="@ + decimal(outputs)
        + ", fee="@ + decimal(fee)
}

/// Relies on `format!` with the `Display` of unsigned integers, which writes them in
/// decimal without sign or leading zeros.
#[verifier::external_body]
fn unbalanced_message(inputs: u128, outputs: u128, fee: u64) -> (r: String)
    ensures
        r@ == unbalanced_text(inputs as int, outputs as int, fee as int),
{
    format!("Unbalanced transaction: inputs={}, outputs={}, fee={}", inputs, outputs, fee)
}

/// A sum of `i` values of `u64` leaves room in `u128` for one more value.
proof fn lemma_u128_room(total: int, i: int)
    requires
        0 <= i <= usize::MAX,
        0 <= total <= i * 0xffff_ffff_ffff_ffff,
    ensures
        total + 0xffff_ffff_ffff_ffff <= (i + 1) * 0xffff_ffff_ffff_ffff,
        (i + 1) * 0xffff_ffff_ffff_ffff <= u128::MAX,
{
    assert((i + 1) * 0xffff_ffff_ffff_ffff <= 0x1_0000_0000_0000_0000 * 0xffff_ffff_ffff_ffff) by (nonlinear_arith)
        requires
            0 <= i + 1 <= 0x1_0000_0000_0000_0000,
    ;
}

impl TransactionBuilder {
    pub closed spec fn spec_inputs(&self) -> Seq<BuilderInput> {
        self.inputs@
    }

    pub closed spec fn spec_outputs(&self) -> Seq<BuilderOutput> {
        self.outputs@
    }

    pub closed spec fn spec_fee(&self) -> u64 {
        self.fee
    }

    pub closed spec fn spec_metadata(&self) -> Option<Seq<u8>> {
        match self.metadata {
            Some(m) => Some(m@),
            None => None,
        }
    }

    /// Every recorded commitment opens to its recorded value and blinding.
    pub closed spec fn wf(&self) -> bool {
        &&& self.pedersen.wf()
        &&& forall|i: int| 0 <= i < self.inputs@.len() ==> (#[trigger] self.inputs@[i]).opens()
        &&& forall|j: int| 0 <= j < self.outputs@.len() ==> (#[trigger] self.outputs@[j]).opens()
    }

    /// An empty builder: no inputs, no outputs, fee 0, no metadata.
    pub fn new() -> (r: TransactionBuilder)
        ensures
            r.wf(),
            r.spec_inputs().len() == 0,
            r.spec_outputs().len() == 0,
            r.spec_fee() == 0,
            r.spec_metadata() is None,
    {
        TransactionBuilder {
            pedersen: PedersenCommitment::new(),
            inputs: Vec::new(),
            outputs: Vec::new(),
            fee: 0,
            metadata: None,
        }
    }

    /// Records an input whose opening `(value, blinding)` is known.
    pub fn add_input(&mut self, prev_tx_hash: [u8; 32], prev_output_index: u32, value: u64, blinding: Scalar)
        requires
            old(self).wf(),
        ensures
            final(self).wf(),
            final(self).spec_inputs().len() == old(self).spec_inputs().len() + 1,
            final(self).spec_inputs().drop_last() == old(self).spec_inputs(),
            final(self).spec_inputs().last().prev_tx_hash == prev_tx_hash,
            final(self).spec_inputs().last().prev_output_index == prev_output_index,
            final(self).spec_inputs().last().value == value,
            final(self).spec_inputs().last().blinding == blinding,
            final(self).spec_inputs().last().opens(),
            final(self).spec_outputs() == old(self).spec_outputs(),
            final(self).spec_fee() == old(self).spec_fee(),
            final(self).spec_metadata() == old(self).spec_metadata(),
    {
        let commitment = self.pedersen.commit(value, &blinding);
        self.inputs.push(BuilderInput { prev_tx_hash, prev_output_index, value, blinding, commitment });
        proof {
            assert(self.inputs@.drop_last() =~= old(self).inputs@);
        }
    }

    /// Records an output with a freshly drawn blinding. The last output should instead
    /// take `calculate_change_blinding` through `add_output_with_blinding`.
    pub fn add_output(&mut self, address: Vec<u8>, value: u64)
        requires
            old(self).wf(),
        ensures
            final(self).wf(),
            final(self).spec_outputs().len() == old(self).spec_outputs().len() + 1,
            final(self).spec_outputs().drop_last() == old(self).spec_outputs(),
            final(self).spec_outputs().last().address@ == address@,
            final(self).spec_outputs().last().value == value,
            final(self).spec_outputs().last().opens(),
            final(self).spec_inputs() == old(self).spec_inputs(),
            final(self).spec_fee() == old(self).spec_fee(),
            final(self).spec_metadata() == old(self).spec_metadata(),
    {
        let blinding = random_scalar();
        self.add_output_with_blinding(address, value, blinding);
    }

    /// Records an output with the given blinding.
    pub fn add_output_with_blinding(&mut self, address: Vec<u8>, value: u64, blinding: Scalar)
        requires
            old(self).wf(),
        ensures
            final(self).wf(),
            final(self).spec_outputs().len() == old(self).spec_outputs().len() + 1,
            final(self).spec_outputs().drop_last() == old(self).spec_outputs(),
            final(self).spec_outputs().last().address@ == address@,
            final(self).spec_outputs().last().value == value,
            final(self).spec_outputs().last().blinding == blinding,
            final(self).spec_outputs().last().opens(),
            final(self).spec_inputs() == old(self).spec_inputs(),
            final(self).spec_fee() == old(self).spec_fee(),
            final(self).spec_metadata() == old(self).spec_metadata(),
    {
        let commitment = self.pedersen.commit(value, &blinding);
        self.outputs.push(BuilderOutput { address, value, blinding, commitment });
        proof {
            assert(self.outputs@.drop_last() =~= old(self).outputs@);
        }
    }

    /// Sets the fee.
    pub fn set_fee(&mut self, fee: u64)
        requires
            old(self).wf(),
        ensures
            final(self).wf(),
            final(self).spec_fee() == fee,
            final(self).spec_inputs() == old(self).spec_inputs(),
            final(self).spec_outputs() == old(self).spec_outputs(),
            final(self).spec_metadata() == old(self).spec_metadata(),
    {
        self.fee = fee;
    }

    /// Sets the metadata.
    pub fn set_metadata(&mut self, metadata: Vec<u8>)
        requires
            old(self).wf(),
        ensures
            final(self).wf(),
            final(self).spec_metadata() == Some(metadata@),
            final(self).spec_inputs() == old(self).spec_inputs(),
            final(self).spec_outputs() == old(self).spec_outputs(),
            final(self).spec_fee() == old(self).spec_fee(),
    {
        self.metadata = Some(metadata);
    }

    /// The blinding for the change output: input blindings minus output blindings, mod ℓ.
    pub fn calculate_change_blinding(&self) -> (r: Scalar)
        ensures
            r.val() == change_blinding_of(self.spec_inputs(), self.spec_outputs()),
    {
        let ghost l = group_order();
        let mut input_sum = Scalar::zero();
        let mut i: usize = 0;
        proof {
            lemma_small_mod(0, l as nat);
        }
        while i < self.inputs.len()
            invariant
                0 <= i <= self.inputs@.len(),
                l == group_order(),
                input_sum.val() == input_blinding_total(self.inputs@.subrange(0, i as int)) % l,
            decreases self.inputs@.len() - i,
        {
            let ghost before = input_blinding_total(self.inputs@.subrange(0, i as int));
            input_sum = input_sum.plus(&self.inputs[i].blinding);
            proof {
                let s = self.inputs@.subrange(0, i + 1);
                assert(s.drop_last() =~= self.inputs@.subrange(0, i as int));
                lemma_add_mod_noop(before, self.inputs@[i as int].blinding.val(), l);
                lemma_mod_twice(le_value(self.inputs@[i as int].blinding.bytes@), l);
            }
            i = i + 1;
        }
        let mut output_sum = Scalar::zero();
        let mut j: usize = 0;
        while j < self.outputs.len()
            invariant
                0 <= j <= self.outputs@.len(),
                l == group_order(),
                output_sum.val() == output_blinding_total(self.outputs@.subrange(0, j as int)) % l,
            decreases self.outputs@.len() - j,
        {
            let ghost before = output_blinding_total(self.outputs@.subrange(0, j as int));
            output_sum = output_sum.plus(&self.outputs[j].blinding);
            proof {
                let s = self.outputs@.subrange(0, j + 1);
                assert(s.drop_last() =~= self.outputs@.subrange(0, j as int));
                lemma_add_mod_noop(before, self.outputs@[j as int].blinding.val(), l);
                lemma_mod_twice(le_value(self.outputs@[j as int].blinding.bytes@), l);
            }
            j = j + 1;
        }
        proof {
            assert(self.inputs@.subrange(0, self.inputs@.len() as int) =~= self.inputs@);
            assert(self.outputs@.subrange(0, self.outputs@.len() as int) =~= self.outputs@);
            lemma_sub_mod_noop(input_blinding_total(self.inputs@), output_blinding_total(self.outputs@), l);
        }
        input_sum.minus(&output_sum)
    }

    /// A rough size of the transaction in bytes, for fee estimation:
    /// 150 per input, 100 per output, 650 per range proof, and 50 of overhead.
    pub fn estimate_size(&self) -> (r: usize)
        requires
            150 * self.spec_inputs().len() + 750 * self.spec_outputs().len() + 50 <= usize::MAX,
        ensures
            r == 150 * self.spec_inputs().len() + 100 * self.spec_outputs().len()
                + 650 * self.spec_outputs().len() + 50,
    {
        let input_size = self.inputs.len() * 150;
        let output_size = self.outputs.len() * 100;
        let proof_size = self.outputs.len() * 650;
        input_size + output_size + proof_size + 50
    }

    /// Checks that the values balance and emits the transaction with one range proof
    /// per output. An unbalanced transaction, or one whose value sums leave `u64`, is
    /// rejected as an invalid parameter.
    pub fn build(&self) -> (r: Result<PrivateTransaction, CoreError>)
        requires
            self.wf(),
        ensures
            r is Ok <==> (input_value_total(self.spec_inputs())
                == output_value_total(self.spec_outputs()) + self.spec_fee()
                && input_value_total(self.spec_inputs()) <= u64::MAX),
            r is Err ==> r->Err_0 is InvalidParameter && r->Err_0->InvalidParameter_0@ == unbalanced_text(
                input_value_total(self.spec_inputs()),
                output_value_total(self.spec_outputs()),
                self.spec_fee() as int,
            ),
            r is Ok ==> built_from(*self, r->Ok_0),
    {
        let mut total_input: u128 = 0;
        let mut i: usize = 0;
        while i < self.inputs.len()
            invariant
                0 <= i <= self.inputs@.len(),
                total_input == input_value_total(self.inputs@.subrange(0, i as int)),
                total_input <= i * 0xffff_ffff_ffff_ffffu128,
            decreases self.inputs@.len() - i,
        {
            proof {
                let s = self.inputs@.subrange(0, i + 1);
                assert(s.drop_last() =~= self.inputs@.subrange(0, i as int));
                lemma_value_totals_grow(self.inputs@, self.outputs@);
                lemma_u128_room(total_input as int, i as int);
            }
            let v = self.inputs[i].value;
            total_input = total_input + v as u128;
            i = i + 1;
        }
        proof {
            assert(self.inputs@.subrange(0, self.inputs@.len() as int) =~= self.inputs@);
        }
        let mut total_output: u128 = 0;
        let mut j: usize = 0;
        while j < self.outputs.len()
            invariant
                0 <= j <= self.outputs@.len(),
                total_output == output_value_total(self.outputs@.subrange(0, j as int)),
                total_output <= j * 0xffff_ffff_ffff_ffffu128,
                total_input == input_value_total(self.inputs@),
            decreases self.outputs@.len() - j,
        {
            proof {
                let s = self.outputs@.subrange(0, j + 1);
                assert(s.drop_last() =~= self.outputs@.subrange(0, j as int));
                lemma_value_totals_grow(self.inputs@, self.outputs@);
                lemma_u128_room(total_output as int, j as int);
            }
            let v = self.outputs[j].value;
            total_output = total_output + v as u128;
            j = j + 1;
        }
        proof {
            assert(self.inputs@.subrange(0, self.inputs@.len() as int) =~= self.inputs@);
            assert(self.outputs@.subrange(0, self.outputs@.len() as int) =~= self.outputs@);
            lemma_u128_room(total_output as int, j as int);
        }
        if total_input != total_output + self.fee as u128 || total_input > u64::MAX as u128 {
            return Err(CoreError::InvalidParameter(unbalanced_message(total_input, total_output, self.fee)));
        }
        let mut inputs: Vec<TransactionInput> = Vec::new();
        i = 0;
        while i < self.inputs.len()
            invariant
                0 <= i <= self.inputs@.len(),
                inputs@.len() == i,
                forall|k: int| 0 <= k < i ==> {
                    &&& (#[trigger] inputs@[k]).prev_tx_hash == self.inputs@[k].prev_tx_hash
                    &&& inputs@[k].prev_output_index == self.inputs@[k].prev_output_index
                    &&& inputs@[k].commitment == self.inputs@[k].commitment
                    &&& inputs@[k].signature@.len() == 0
                },
            decreases self.inputs@.len() - i,
        {
            let bi = &self.inputs[i];
            inputs.push(TransactionInput {
                prev_tx_hash: bi.prev_tx_hash,
                prev_output_index: bi.prev_output_index,
                commitment: bi.commitment,
                signature: Vec::new(),
            });
            i = i + 1;
        }
        let mut outputs: Vec<TransactionOutput> = Vec::new();
        let mut range_proofs: Vec<RangeProof> = Vec::new();
        proof {
            lemma2_to64();
        }
        j = 0;
        while j < self.outputs.len()
            invariant
                0 <= j <= self.outputs@.len(),
                self.wf(),
                pow2(64) == 0x10000000000000000,
                outputs@.len() == j,
                range_proofs@.len() == j,
                forall|k: int| 0 <= k < j ==> {
                    &&& (#[trigger] outputs@[k]).address@ == self.outputs@[k].address@
                    &&& outputs@[k].commitment == self.outputs@[k].commitment
                    &&& outputs@[k].encrypted_amount is None
                },
                forall|k: int| 0 <= k < j ==> proof_accepts(
                    (#[trigger] range_proofs@[k]).bits@,
                    self.outputs@[k].commitment.point.bytes@,
                ) && range_proofs@[k].bits@.len() == 64,
            decreases self.outputs@.len() - j,
        {
            let bo = &self.outputs[j];
            let proof = match RangeProof::prove(bo.value, &bo.blinding, 64) {
                Ok(p) => p,
                Err(e) => {
                    return Err(e);
                },
            };
            proof {
                assert(self.outputs@[j as int].opens());
            }
            outputs.push(TransactionOutput {
                address: copy_bytes(&bo.address),
                commitment: bo.commitment,
                encrypted_amount: None,
            });
            range_proofs.push(proof);
            j = j + 1;
        }
        let tx = PrivateTransaction {
            inputs,
            outputs,
            range_proofs,
            fee: self.fee,
            metadata: copy_opt_bytes(&self.metadata),
        };
        proof {
            assert forall|k: int| 0 <= k < self.inputs@.len() implies (#[trigger] self.inputs@[k]).opens() by {}
            assert forall|k: int| 0 <= k < self.outputs@.len() implies (#[trigger] self.outputs@[k]).opens() by {}
        }
        Ok(tx)
    }
}

impl Default for TransactionBuilder {
    /// The empty builder of `new`.
    fn default() -> (r: TransactionBuilder)
        ensures
            r.wf(),
            r.spec_inputs().len() == 0,
            r.spec_outputs().len() == 0,
            r.spec_fee() == 0,
            r.spec_metadata() is None,
    {
        TransactionBuilder::new()
    }
}

/// Value totals of prefixes grow by the next value.
proof fn lemma_value_totals_grow(ins: Seq<BuilderInput>, outs: Seq<BuilderOutput>)
    ensures
        forall|i: int| 0 <= i < ins.len() ==> #[trigger] input_value_total(ins.subrange(0, i + 1))
            == input_value_total(ins.subrange(0, i)) + ins[i].value,
        forall|j: int| 0 <= j < outs.len() ==> #[trigger] output_value_total(outs.subrange(0, j + 1))
            == output_value_total(outs.subrange(0, j)) + outs[j].value,
{
    assert forall|i: int| 0 <= i < ins.len() implies #[trigger] input_value_total(ins.subrange(0, i + 1))
        == input_value_total(ins.subrange(0, i)) + ins[i].value by {
        assert(ins.subrange(0, i + 1).drop_last() =~= ins.subrange(0, i));
    }
    assert forall|j: int| 0 <= j < outs.len() implies #[trigger] output_value_total(outs.subrange(0, j + 1))
        == output_value_total(outs.subrange(0, j)) + outs[j].value by {
        assert(outs.subrange(0, j + 1).drop_last() =~= outs.subrange(0, j));
    }
}

/// The input commitments of a built transaction add up to the commitment to the input
/// totals.
proof fn lemma_input_sum(ti: Seq<TransactionInput>, bi: Seq<BuilderInput>)
    requires
        ti.len() == bi.len(),
        forall|i: int| 0 <= i < bi.len() ==> (#[trigger] bi[i]).opens() && ti[i].commitment == bi[i].commitment,
    ensures
        input_sum_log(ti) == commitment_log(input_value_total(bi), input_blinding_total(bi)),
        forall|i: int| 0 <= i < ti.len() ==> (#[trigger] ti[i]).commitment.wf(),
    decreases ti.len(),
{
    if ti.len() == 0 {
        lemma_commit_identity(0, 0);
    } else {
        let n = ti.len() - 1;
        lemma_input_sum(ti.drop_last(), bi.drop_last());
        assert(bi[n].opens());
        lemma_log_of(bi[n].commitment.point.bytes@, commitment_log(bi[n].value as int, bi[n].blinding.val()));
        lemma_commit_homomorphic(input_value_total(bi.drop_last()), input_blinding_total(bi.drop_last()),
            bi[n].value as int, bi[n].blinding.val());
        assert forall|i: int| 0 <= i < ti.len() implies (#[trigger] ti[i]).commitment.wf() by {
            assert(bi[i].opens());
            lemma_log_of(bi[i].commitment.point.bytes@, commitment_log(bi[i].value as int, bi[i].blinding.val()));
        }
    }
}

/// The output commitments of a built transaction add up to the commitment to the output
/// totals.
proof fn lemma_output_sum(to: Seq<TransactionOutput>, bo: Seq<BuilderOutput>)
    requires
        to.len() == bo.len(),
        forall|i: int| 0 <= i < bo.len() ==> (#[trigger] bo[i]).opens() && to[i].commitment == bo[i].commitment,
    ensures
        output_sum_log(to) == commitment_log(output_value_total(bo), output_blinding_total(bo)),
        forall|i: int| 0 <= i < to.len() ==> (#[trigger] to[i]).commitment.wf(),
    decreases to.len(),
{
    if to.len() == 0 {
        lemma_commit_identity(0, 0);
    } else {
        let n = to.len() - 1;
        lemma_output_sum(to.drop_last(), bo.drop_last());
        assert(bo[n].opens());
        lemma_log_of(bo[n].commitment.point.bytes@, commitment_log(bo[n].value as int, bo[n].blinding.val()));
        lemma_commit_homomorphic(output_value_total(bo.drop_last()), output_blinding_total(bo.drop_last()),
            bo[n].value as int, bo[n].blinding.val());
        assert forall|i: int| 0 <= i < to.len() implies (#[trigger] to[i]).commitment.wf() by {
            assert(bo[i].opens());
            lemma_log_of(bo[i].commitment.point.bytes@, commitment_log(bo[i].value as int, bo[i].blinding.val()));
        }
    }
}

/// Balance closure: when the values balance and the last output took the change
/// blinding computed after all other outputs were added, the transaction that `build`
/// returns verifies.
pub proof fn lemma_balance_closure(b: TransactionBuilder, tx: PrivateTransaction)
    requires
        b.wf(),
        b.spec_inputs().len() > 0,
        b.spec_outputs().len() > 0,
        b.spec_outputs().last().blinding.val()
            == change_blinding_of(b.spec_inputs(), b.spec_outputs().drop_last()),
        input_value_total(b.spec_inputs()) == output_value_total(b.spec_outputs()) + b.spec_fee(),
        built_from(b, tx),
    ensures
        tx_valid(tx),
{
    let l = group_order();
    let ins = b.spec_inputs();
    let outs = b.spec_outputs();
    let v = input_value_total(ins);
    let w = output_value_total(outs);
    let bin = input_blinding_total(ins);
    let bp = output_blinding_total(outs.drop_last());
    let bout = output_blinding_total(outs);
    lemma_input_sum(tx.inputs@, ins);
    lemma_output_sum(tx.outputs@, outs);
    lemma_commit_homomorphic(w, bout, b.spec_fee() as int, 0);
    // the output blindings add up to the input blindings, modulo ℓ
    assert(bout == bp + (bin - bp) % l);
    lemma_add_mod_noop(bp, (bin - bp) % l, l);
    lemma_mod_twice(bin - bp, l);
    lemma_add_mod_noop(bp, bin - bp, l);
    assert(bout % l == bin % l);
    lemma_commit_homomorphic(v, bout, 0, 0);
    lemma_commit_homomorphic(v, bin, 0, 0);
}

/// A prefix of the inputs holds no more value than all of them.
proof fn lemma_input_total_mono(s: Seq<BuilderInput>, k: int)
    requires
        0 <= k <= s.len(),
    ensures
        input_value_total(s.subrange(0, k)) <= input_value_total(s.subrange(0, s.len() as int)),
    decreases s.len() - k,
{
    if k < s.len() {
        lemma_value_totals_grow(s, Seq::empty());
        lemma_input_total_mono(s, k + 1);
    }
}

/// A prefix of the outputs holds no more value than all of them.
proof fn lemma_output_total_mono(s: Seq<BuilderOutput>, k: int)
    requires
        0 <= k <= s.len(),
    ensures
        output_value_total(s.subrange(0, k)) <= output_value_total(s.subrange(0, s.len() as int)),
    decreases s.len() - k,
{
    if k < s.len() {
        lemma_value_totals_grow(Seq::empty(), s);
        lemma_output_total_mono(s, k + 1);
    }
}

/// A transaction output that an owner can spend: its full opening.
#[derive(Clone, Debug)]
pub struct UTXO {
    pub tx_hash: [u8; 32],
    pub output_index: u32,
    pub value: u64,
    pub commitment: Commitment,
    pub blinding: Scalar,
    pub address: Vec<u8>,
}

impl UTXO {
    pub fn new(tx_hash: [u8; 32], output_index: u32, value: u64, commitment: Commitment,
        blinding: Scalar, address: Vec<u8>) -> (r: UTXO)
        ensures
            r.tx_hash == tx_hash,
            r.output_index == output_index,
            r.value == value,
            r.commitment == commitment,
            r.blinding == blinding,
            r.address@ == address@,
    {
        UTXO { tx_hash, output_index, value, commitment, blinding, address }
    }
}

} // verus!
