//! Stealth addresses: one-time destinations derived by Diffie-Hellman on the group.
//!
//! A recipient publishes `(S, V) = (s·G, v·G)`. A sender draws `r`, publishes `R = r·G`
//! and pays to `P = H_s(r·V)·G + S`. The recipient recognises `P` from `v·R = r·V`, and
//! spends it with `p = H_s(v·R) + s`.
use vstd::prelude::*;
use vstd::arithmetic::div_mod::lemma_mod_twice;
use vstd::arithmetic::mul::lemma_mul_is_commutative;
use crate::group::{
    Point, Scalar, group_order, encodes, is_point, log_of, lemma_log_of, multiple_of_base, mul_base, mul_point, add_points, decompress, hash_to_scalar, hash_scalar_of,
    append_bytes, array32_at, random_bytes, le_value,
};
use crate::CoreError;

verus! {

/// The text form of a byte string in base58.
pub uninterp spec fn base58_of(b: Seq<u8>) -> Seq<char>;

/// The error of `bs58::decode(..).into_vec()`, carried through unread.
#[verifier::external_type_specification]
#[verifier::external_body]
pub struct ExBase58Error(bs58::decode::Error);

/// Relies on `bs58::encode(..).into_string()`: the base58 text of the bytes.
#[verifier::external_body]
fn base58_encode(b: &[u8]) -> (r: String)
    ensures
        r@ == base58_of(b@),
{
    bs58::encode(b).into_string()
}

/// Relies on `bs58::decode(..).into_vec()`, which inverts `bs58::encode`.
#[verifier::external_body]
fn base58_decode(s: &str) -> (r: Result<Vec<u8>, bs58::decode::Error>)
    ensures
        forall|b: Seq<u8>| #[trigger] base58_of(b) == s@ ==> (r is Ok && r->Ok_0@ == b),
{
    bs58::decode(s).into_vec()
}

/// The one-time destination log for the spend public key of log `s_log`, given the
/// Diffie-Hellman secret of log `shared`: `H_s(shared·G)·G + S`.
pub open spec fn one_time_log(shared: int, s_log: int) -> int {
    (hash_scalar_of(multiple_of_base(shared)) + s_log) % group_order()
}

/// The shared secret's log from the sender's side: `r·V`.
pub open spec fn sender_shared(r: int, view_public: Seq<u8>) -> int {
    (r * log_of(view_public)) % group_order()
}

/// Bytes that split into two valid compressed points.
pub open spec fn splits_into_points(b: Seq<u8>) -> bool {
    &&& b.len() == 64
    &&& is_point(b.subrange(0, 32))
    &&& is_point(b.subrange(32, 64))
}

/// Reads two compressed points from 64 bytes.
fn read_point_pair(bytes: &[u8]) -> (r: Result<(Point, Point), CoreError>)
    ensures
        r is Ok <==> splits_into_points(bytes@),
        r is Ok ==> (r->Ok_0).0.bytes@ == bytes@.subrange(0, 32) && (r->Ok_0).1.bytes@ == bytes@.subrange(32, 64),
        r is Err ==> r->Err_0 is Serialization,
{
    if bytes.len() != 64 {
        return Err(CoreError::Serialization("expected 64 bytes".to_owned()));
    }
    let first = match decompress(array32_at(bytes, 0)) {
        Some(p) => p,
        None => {
            return Err(CoreError::Serialization("first point does not decompress".to_owned()));
        },
    };
    let second = match decompress(array32_at(bytes, 32)) {
        Some(p) => p,
        None => {
            return Err(CoreError::Serialization("second point does not decompress".to_owned()));
        },
    };
    Ok((first, second))
}

/// A recipient's master keys: spend pair `(s, S)` and view pair `(v, V)`.
#[derive(Clone, Debug, PartialEq, Eq)]
pub struct StealthMasterKey {
    pub spend_private: Scalar,
    pub spend_public: Point,
    pub view_private: Scalar,
    pub view_public: Point,
}

/// The public pair `(S, V)` that a recipient hands to senders.
#[derive(Clone, Debug, PartialEq, Eq)]
pub struct StealthAddress {
    pub spend_public: Point,
    pub view_public: Point,
}

/// A one-time output `(R, P)`. The ephemeral secret `r` is not kept once the output
/// is assembled.
#[derive(Clone, Copy, Debug, PartialEq, Eq)]
pub struct StealthTransaction {
    pub ephemeral_public: Point,
    pub one_time_public: Point,
}

impl StealthMasterKey {
    /// The public keys are the multiples of the basepoint by the private keys.
    pub open spec fn wf(&self) -> bool {
        &&& encodes(self.spend_public.bytes@, self.spend_private.val())
        &&& encodes(self.view_public.bytes@, self.view_private.val())
    }

    /// What scanning `(R, P)` gives. `P` is recognised from the view key and `S` alone:
    /// it must be `H_s(v·R)·G + S`. Then the result is the spending key `H_s(v·R) + s`,
    /// which is the discrete log of `P` when `s` belongs to `S`.
    pub open spec fn scan_result(&self, r: Seq<u8>, p: Seq<u8>) -> Option<int> {
        let shared = (self.view_private.val() * log_of(r)) % group_order();
        if is_point(r) && p == multiple_of_base(one_time_log(shared, log_of(self.spend_public.bytes@))) {
            Some(one_time_log(shared, self.spend_private.val()))
        } else {
            None
        }
    }

    /// The key can scan: its spend public key is a valid point. An auditor who holds the
    /// view key and `S` but not `s` can scan, and detects exactly what the owner detects.
    pub open spec fn can_scan(&self) -> bool {
        self.spend_public.wf()
    }

    /// Derives the public keys from the private ones.
    pub fn from_keys(spend_private: Scalar, view_private: Scalar) -> (r: StealthMasterKey)
        ensures
            r.wf(),
            r.spend_private == spend_private,
            r.view_private == view_private,
    {
        let spend_public = mul_base(&spend_private);
        let view_public = mul_base(&view_private);
        StealthMasterKey { spend_private, spend_public, view_private, view_public }
    }

    /// Draws two fresh private keys.
    pub fn generate() -> (r: StealthMasterKey)
        ensures
            r.wf(),
    {
        let spend = Scalar::from_bytes_mod_order(random_bytes());
        let view = Scalar::from_bytes_mod_order(random_bytes());
        StealthMasterKey::from_keys(spend, view)
    }

    /// The spend private key's bytes, for backup.
    pub fn export_spend_private(&self) -> (r: [u8; 32])
        ensures
            le_value(r@) == self.spend_private.val(),
    {
        self.spend_private.to_bytes()
    }

    /// The view private key's bytes, which lets an auditor scan without spending.
    pub fn export_view_private(&self) -> (r: [u8; 32])
        ensures
            le_value(r@) == self.view_private.val(),
    {
        self.view_private.to_bytes()
    }

    /// The address `(S, V)`.
    pub fn get_stealth_address(&self) -> (r: StealthAddress)
        ensures
            r.spend_public == self.spend_public,
            r.view_public == self.view_public,
    {
        StealthAddress { spend_public: self.spend_public, view_public: self.view_public }
    }

    /// Tests whether the output `(R, P)` belongs to this key; if so, returns its
    /// spending key `p = H_s(v·R) + s`, with `p·G = P` when the key is well formed.
    pub fn scan_transaction(&self, ephemeral_public: &Point, output_public: &Point) -> (r: Option<Scalar>)
        requires
            self.can_scan(),
        ensures
            r is Some <==> self.scan_result(ephemeral_public.bytes@, output_public.bytes@) is Some,
            r is Some ==> r->0.val() == self.scan_result(ephemeral_public.bytes@, output_public.bytes@)->0,
    {
        if decompress(ephemeral_public.bytes).is_none() {
            return None;
        }
        let shared = mul_point(&self.view_private, ephemeral_public);
        let h = hash_to_scalar(&shared.bytes);
        let hg = mul_base(&h);
        proof {
            lemma_log_of(hg.bytes@, h.val());
        }
        let expected = add_points(&hg, &self.spend_public);
        if expected.equals(output_public) {
            Some(h.plus(&self.spend_private))
        } else {
            None
        }
    }

    /// Overwrites both private keys with zeros.
    pub fn invalidate(&mut self)
        ensures
            final(self).spend_private.val() == 0,
            final(self).view_private.val() == 0,
            final(self).spend_public == old(self).spend_public,
            final(self).view_public == old(self).view_public,
    {
        self.spend_private.wipe();
        self.view_private.wipe();
    }
}

impl StealthAddress {
    pub open spec fn wf(&self) -> bool {
        self.spend_public.wf() && self.view_public.wf()
    }

    /// The 64 bytes `S ‖ V`.
    pub open spec fn bytes_spec(&self) -> Seq<u8> {
        self.spend_public.bytes@ + self.view_public.bytes@
    }

    /// The one-time output that the ephemeral scalar `r` gives: `(r·G, H_s(r·V)·G + S)`.
    pub fn generate_one_time_address_with(&self, ephemeral_private: Scalar) -> (r: StealthTransaction)
        requires
            self.wf(),
        ensures
            r.ephemeral_public.bytes@ == multiple_of_base(ephemeral_private.val()),
            r.one_time_public.bytes@ == multiple_of_base(one_time_log(
                sender_shared(ephemeral_private.val(), self.view_public.bytes@),
                log_of(self.spend_public.bytes@),
            )),
            encodes(r.ephemeral_public.bytes@, ephemeral_private.val()),
    {
        let ephemeral_public = mul_base(&ephemeral_private);
        let shared = mul_point(&ephemeral_private, &self.view_public);
        let h = hash_to_scalar(&shared.bytes);
        let hg = mul_base(&h);
        proof {
            lemma_log_of(hg.bytes@, h.val());
        }
        let one_time_public = add_points(&hg, &self.spend_public);
        StealthTransaction { ephemeral_public, one_time_public }
    }

    /// A fresh one-time output for this recipient.
    pub fn generate_one_time_address(&self) -> (r: StealthTransaction)
        requires
            self.wf(),
        ensures
            exists|e: int| {
                &&& encodes(r.ephemeral_public.bytes@, e)
                &&& r.one_time_public.bytes@ == multiple_of_base(one_time_log(
                    sender_shared(e, self.view_public.bytes@),
                    log_of(self.spend_public.bytes@),
                ))
            },
    {
        let ephemeral = Scalar::from_bytes_mod_order(random_bytes());
        let r = self.generate_one_time_address_with(ephemeral);
        proof {
            lemma_mod_twice(le_value(ephemeral.bytes@), group_order());
        }
        r
    }

    /// `S ‖ V`, 64 bytes.
    pub fn to_bytes(&self) -> (r: Vec<u8>)
        ensures
            r@ == self.bytes_spec(),
    {
        let mut bytes: Vec<u8> = Vec::with_capacity(64);
        append_bytes(&mut bytes, &self.spend_public.bytes);
        append_bytes(&mut bytes, &self.view_public.bytes);
        bytes
    }

    /// Reads `S ‖ V`; both points must decompress.
    pub fn from_bytes(bytes: &[u8]) -> (r: Result<StealthAddress, CoreError>)
        ensures
            r is Ok <==> splits_into_points(bytes@),
            r is Ok ==> r->Ok_0.bytes_spec() == bytes@,
            r is Err ==> r->Err_0 is Serialization,
    {
        match read_point_pair(bytes) {
            Ok((spend_public, view_public)) => {
                let a = StealthAddress { spend_public, view_public };
                proof {
                    assert(a.bytes_spec() =~= bytes@);
                }
                Ok(a)
            },
            Err(e) => Err(e),
        }
    }

    /// The base58 text of `S ‖ V`.
    pub fn to_base58(&self) -> (r: String)
        ensures
            r@ == base58_of(self.bytes_spec()),
    {
        let b = self.to_bytes();
        base58_encode(b.as_slice())
    }

    /// Reads an address from base58 text.
    pub fn from_base58(s: &str) -> (r: Result<StealthAddress, CoreError>)
        ensures
            forall|b: Seq<u8>| #[trigger] base58_of(b) == s@ ==> {
                &&& r is Ok <==> splits_into_points(b)
                &&& r is Ok ==> r->Ok_0.bytes_spec() == b
            },
            r is Err ==> r->Err_0 is Serialization,
    {
        match base58_decode(s) {
            Ok(bytes) => StealthAddress::from_bytes(bytes.as_slice()),
            Err(_) => Err(CoreError::Serialization("Invalid base58".to_owned())),
        }
    }
}

impl StealthTransaction {
    /// The 64 bytes `R ‖ P`.
    pub open spec fn bytes_spec(&self) -> Seq<u8> {
        self.ephemeral_public.bytes@ + self.one_time_public.bytes@
    }

    /// `R ‖ P`, 64 bytes, for inclusion on chain.
    pub fn to_transaction_data(&self) -> (r: Vec<u8>)
        ensures
            r@ == self.bytes_spec(),
    {
        let mut data: Vec<u8> = Vec::with_capacity(64);
        append_bytes(&mut data, &self.ephemeral_public.bytes);
        append_bytes(&mut data, &self.one_time_public.bytes);
        data
    }

    /// Reads `R ‖ P`; both points must decompress.
    pub fn from_transaction_data(data: &[u8]) -> (r: Result<StealthTransaction, CoreError>)
        ensures
            r is Ok <==> splits_into_points(data@),
            r is Ok ==> r->Ok_0.bytes_spec() == data@,
            r is Err ==> r->Err_0 is Serialization,
    {
        match read_point_pair(data) {
            Ok((ephemeral_public, one_time_public)) => {
                let t = StealthTransaction { ephemeral_public, one_time_public };
                proof {
                    assert(t.bytes_spec() =~= data@);
                }
                Ok(t)
            },
            Err(e) => Err(e),
        }
    }

    /// The one-time destination `P`.
    pub fn destination_address(&self) -> (r: Point)
        ensures
            r == self.one_time_public,
    {
        self.one_time_public
    }
}

/// Scan correctness: an output generated for a key's address with any ephemeral scalar
/// `e` is recognised by that key, and the spending key found is the discrete log of the
/// one-time destination: `p·G = P`.
pub proof fn lemma_scan_correct(key: StealthMasterKey, e: int, tx: StealthTransaction)
    requires
        key.wf(),
        encodes(tx.ephemeral_public.bytes@, e),
        tx.one_time_public.bytes@ == multiple_of_base(one_time_log(
            sender_shared(e, key.view_public.bytes@),
            log_of(key.spend_public.bytes@),
        )),
    ensures
        key.scan_result(tx.ephemeral_public.bytes@, tx.one_time_public.bytes@) is Some,
        multiple_of_base(key.scan_result(tx.ephemeral_public.bytes@, tx.one_time_public.bytes@)->0)
            == tx.one_time_public.bytes@,
{
    lemma_log_of(tx.ephemeral_public.bytes@, e);
    lemma_log_of(key.view_public.bytes@, key.view_private.val());
    lemma_log_of(key.spend_public.bytes@, key.spend_private.val());
    lemma_mul_is_commutative(e, key.view_private.val());
}

/// Two addresses with the same bytes are the same address.
proof fn lemma_address_bytes_inj(a: StealthAddress, b: StealthAddress)
    requires
        a.bytes_spec() == b.bytes_spec(),
    ensures
        a == b,
{
    assert(a.spend_public.bytes@ =~= a.bytes_spec().subrange(0, 32));
    assert(b.spend_public.bytes@ =~= b.bytes_spec().subrange(0, 32));
    assert(a.view_public.bytes@ =~= a.bytes_spec().subrange(32, 64));
    assert(b.view_public.bytes@ =~= b.bytes_spec().subrange(32, 64));
    assert(a.spend_public.bytes =~= b.spend_public.bytes);
    assert(a.view_public.bytes =~= b.view_public.bytes);
}

/// Address round trip: the bytes of a valid address read back, through `from_bytes`
/// or through base58 and `from_base58`, as that same address and no other.
pub proof fn lemma_address_round_trip(a: StealthAddress)
    requires
        a.wf(),
    ensures
        splits_into_points(a.bytes_spec()),
        forall|b: StealthAddress| #[trigger] b.bytes_spec() == a.bytes_spec() ==> b == a,
{
    assert(a.bytes_spec().subrange(0, 32) =~= a.spend_public.bytes@);
    assert(a.bytes_spec().subrange(32, 64) =~= a.view_public.bytes@);
    assert forall|b: StealthAddress| #[trigger] b.bytes_spec() == a.bytes_spec() implies b == a by {
        lemma_address_bytes_inj(a, b);
    }
}

/// One-time output round trip: the transaction data of an output whose points are valid
/// reads back, through `from_transaction_data`, as that same output and no other.
pub proof fn lemma_transaction_data_round_trip(t: StealthTransaction)
    requires
        t.ephemeral_public.wf(),
        t.one_time_public.wf(),
    ensures
        splits_into_points(t.bytes_spec()),
        forall|u: StealthTransaction| #[trigger] u.bytes_spec() == t.bytes_spec() ==> u == t,
{
    assert(t.bytes_spec().subrange(0, 32) =~= t.ephemeral_public.bytes@);
    assert(t.bytes_spec().subrange(32, 64) =~= t.one_time_public.bytes@);
    assert forall|u: StealthTransaction| #[trigger] u.bytes_spec() == t.bytes_spec() implies u == t by {
        assert(u.ephemeral_public.bytes@ =~= u.bytes_spec().subrange(0, 32));
        assert(u.one_time_public.bytes@ =~= u.bytes_spec().subrange(32, 64));
        assert(u.ephemeral_public.bytes =~= t.ephemeral_public.bytes);
        assert(u.one_time_public.bytes =~= t.one_time_public.bytes);
    }
}

/// The outputs among `txs` that `key` recognises, in order: each index with the value of
/// its spending key.
pub open spec fn scan_hits(key: StealthMasterKey, txs: Seq<StealthTransaction>) -> Seq<(int, int)>
    decreases txs.len(),
{
    if txs.len() == 0 {
        Seq::empty()
    } else {
        let prev = scan_hits(key, txs.drop_last());
        let t = txs.last();
        match key.scan_result(t.ephemeral_public.bytes@, t.one_time_public.bytes@) {
            Some(p) => prev.push(((txs.len() - 1) as int, p)),
            None => prev,
        }
    }
}

/// Scans batches of outputs for one master key, remembering what it recognised.
pub struct StealthScanner {
    master_key: StealthMasterKey,
    /// Recognised outputs: transaction data `R ‖ P` and the spending key found for it.
    scanned_outputs: Vec<(Vec<u8>, Scalar)>,
}

impl StealthScanner {
    pub closed spec fn key(&self) -> StealthMasterKey {
        self.master_key
    }

    /// The output with data `data` is remembered.
    pub closed spec fn remembers(&self, data: Seq<u8>) -> bool {
        cached(self.scanned_outputs@, data)
    }

    /// The key is well formed and every remembered entry is a scan result of that key.
    pub closed spec fn wf(&self) -> bool {
        &&& self.master_key.can_scan()
        &&& forall|i: int| 0 <= i < self.scanned_outputs@.len() ==> {
            let e = #[trigger] self.scanned_outputs@[i];
            &&& e.0@.len() == 64
            &&& self.master_key.scan_result(e.0@.subrange(0, 32), e.0@.subrange(32, 64))
                == Some(e.1.val())
        }
    }

    /// A scanner with an empty cache; an auditor's key will do.
    pub fn new(master_key: StealthMasterKey) -> (r: StealthScanner)
        requires
            master_key.can_scan(),
        ensures
            r.wf(),
            r.key() == master_key,
            forall|data: Seq<u8>| !#[trigger] r.remembers(data),
    {
        StealthScanner { master_key, scanned_outputs: Vec::new() }
    }

    /// The position of `data` in the cache, if it is there.
    fn find(&self, data: &[u8]) -> (r: Option<usize>)
        ensures
            r is Some ==> r->0 < self.scanned_outputs@.len() && self.scanned_outputs@[r->0 as int].0@ == data@,
            r is None ==> forall|i: int| 0 <= i < self.scanned_outputs@.len() ==>
                (#[trigger] self.scanned_outputs@[i]).0@ != data@,
    {
        let mut i: usize = 0;
        while i < self.scanned_outputs.len()
            invariant
                0 <= i <= self.scanned_outputs@.len(),
                forall|j: int| 0 <= j < i ==> (#[trigger] self.scanned_outputs@[j]).0@ != data@,
            decreases self.scanned_outputs@.len() - i,
        {
            if bytes_equal(self.scanned_outputs[i].0.as_slice(), data) {
                return Some(i);
            }
            i = i + 1;
        }
        None
    }

    /// The spending key remembered for the output with data `R ‖ P`, if it was recognised.
    pub fn get_private_key(&self, tx_data: &[u8]) -> (r: Option<Scalar>)
        requires
            self.wf(),
        ensures
            r is Some <==> self.remembers(tx_data@),
            r is Some ==> tx_data@.len() == 64 && self.key().scan_result(
                tx_data@.subrange(0, 32),
                tx_data@.subrange(32, 64),
            ) == Some(r->0.val()),
    {
        match self.find(tx_data) {
            Some(i) => {
                Some(self.scanned_outputs[i].1)
            },
            None => None,
        }
    }

    /// Scans a batch: returns, in order, the index and spending key of every output that
    /// belongs to the key, and remembers each of them. An output recognised before is
    /// answered from memory without deriving its key again.
    pub fn scan_transactions(&mut self, transactions: &[StealthTransaction]) -> (r: Vec<(usize, Scalar)>)
        requires
            old(self).wf(),
        ensures
            final(self).wf(),
            final(self).key() == old(self).key(),
            r@.len() == scan_hits(old(self).key(), transactions@).len(),
            forall|k: int| 0 <= k < r@.len() ==> {
                &&& (#[trigger] r@[k]).0 == scan_hits(old(self).key(), transactions@)[k].0
                &&& r@[k].1.val() == scan_hits(old(self).key(), transactions@)[k].1
            },
            forall|k: int| 0 <= k < r@.len() ==> final(self).remembers(
                transactions@[(#[trigger] r@[k]).0 as int].bytes_spec(),
            ),
            forall|d: Seq<u8>| #[trigger] final(self).remembers(d)
                <==> (old(self).remembers(d) || batch_hit(transactions@, r@, d)),
    {
        let ghost key = self.master_key;
        let ghost start = self.scanned_outputs@;
        let mut owned: Vec<(usize, Scalar)> = Vec::new();
        let mut i: usize = 0;
        while i < transactions.len()
            invariant
                0 <= i <= transactions@.len(),
                self.wf(),
                self.master_key == key,
                owned@.len() == scan_hits(key, transactions@.subrange(0, i as int)).len(),
                forall|k: int| 0 <= k < owned@.len() ==> {
                    &&& (#[trigger] owned@[k]).0 == scan_hits(key, transactions@.subrange(0, i as int))[k].0
                    &&& owned@[k].1.val() == scan_hits(key, transactions@.subrange(0, i as int))[k].1
                    &&& owned@[k].0 < i
                },
                forall|k: int| 0 <= k < owned@.len() ==> self.remembers(
                    transactions@[(#[trigger] owned@[k]).0 as int].bytes_spec(),
                ),
                forall|d: Seq<u8>| #[trigger] cached(self.scanned_outputs@, d)
                    <==> (cached(start, d) || batch_hit(transactions@, owned@, d)),
            decreases transactions@.len() - i,
        {
            let tx = &transactions[i];
            let ghost prefix = transactions@.subrange(0, i as int);
            proof {
                assert(transactions@.subrange(0, i + 1).drop_last() =~= prefix);
            }
            let tx_id = tx.to_transaction_data();
            proof {
                assert(tx_id@.subrange(0, 32) =~= tx.ephemeral_public.bytes@);
                assert(tx_id@.subrange(32, 64) =~= tx.one_time_public.bytes@);
            }
            match self.find(tx_id.as_slice()) {
                Some(j) => {
                    // recognised before: the remembered key is the scan result
                    let private_key = self.scanned_outputs[j].1;
                    let ghost before = owned@;
                    owned.push((i, private_key));
                    proof {
                        assert(self.scanned_outputs@[j as int].0@ == tx.bytes_spec());
                        lemma_hit_push(transactions@, before, (i, private_key));
                    }
                },
                None => {
                    if let Some(private_key) = self.master_key.scan_transaction(&tx.ephemeral_public, &tx.one_time_public) {
                        let ghost old_cache = self.scanned_outputs@;
                        self.scanned_outputs.push((tx_id, private_key));
                        proof {
                            assert forall|k: int| 0 <= k < owned@.len() implies self.remembers(
                                transactions@[(#[trigger] owned@[k]).0 as int].bytes_spec()) by {
                                let m = choose|m: int| 0 <= m < old_cache.len()
                                    && (#[trigger] old_cache[m]).0@ == transactions@[owned@[k].0 as int].bytes_spec();
                                assert(self.scanned_outputs@[m] == old_cache[m]);
                            }
                            assert(self.scanned_outputs@[old_cache.len() as int].0@ == tx.bytes_spec());
                            lemma_cached_push(old_cache, (tx_id, private_key));
                        }
                        let ghost before = owned@;
                        owned.push((i, private_key));
                        proof {
                            lemma_hit_push(transactions@, before, (i, private_key));
                        }
                    }
                },
            }
            i = i + 1;
        }
        proof {
            assert(transactions@.subrange(0, transactions@.len() as int) =~= transactions@);
        }
        owned
    }
}

/// Some entry of `s` holds the data `d`.
spec fn cached(s: Seq<(Vec<u8>, Scalar)>, d: Seq<u8>) -> bool {
    exists|j: int| 0 <= j < s.len() && (#[trigger] s[j]).0@ == d
}

/// `d` is the data of one of the outputs of `txs` that `hits` lists.
pub open spec fn batch_hit(txs: Seq<StealthTransaction>, hits: Seq<(usize, Scalar)>, d: Seq<u8>) -> bool {
    exists|k: int| 0 <= k < hits.len() && d == txs[(#[trigger] hits[k]).0 as int].bytes_spec()
}

proof fn lemma_cached_push(s: Seq<(Vec<u8>, Scalar)>, e: (Vec<u8>, Scalar))
    ensures
        forall|d: Seq<u8>| #[trigger] cached(s.push(e), d) <==> (cached(s, d) || e.0@ == d),
{
    assert forall|d: Seq<u8>| #[trigger] cached(s.push(e), d) <==> (cached(s, d) || e.0@ == d) by {
        if cached(s.push(e), d) {
            let j = choose|j: int| 0 <= j < s.push(e).len() && (#[trigger] s.push(e)[j]).0@ == d;
            if j < s.len() {
                assert(s[j] == s.push(e)[j]);
            }
        }
        if cached(s, d) {
            let j = choose|j: int| 0 <= j < s.len() && (#[trigger] s[j]).0@ == d;
            assert(s.push(e)[j] == s[j]);
        }
        if e.0@ == d {
            assert(s.push(e)[s.len() as int] == e);
        }
    }
}

proof fn lemma_hit_push(txs: Seq<StealthTransaction>, hits: Seq<(usize, Scalar)>, x: (usize, Scalar))
    ensures
        forall|d: Seq<u8>| #[trigger] batch_hit(txs, hits.push(x), d)
            <==> (batch_hit(txs, hits, d) || d == txs[x.0 as int].bytes_spec()),
{
    assert forall|d: Seq<u8>| #[trigger] batch_hit(txs, hits.push(x), d)
        <==> (batch_hit(txs, hits, d) || d == txs[x.0 as int].bytes_spec()) by {
        if batch_hit(txs, hits.push(x), d) {
            let k = choose|k: int| 0 <= k < hits.push(x).len() && d == txs[(#[trigger] hits.push(x)[k]).0 as int].bytes_spec();
            if k < hits.len() {
                assert(hits[k] == hits.push(x)[k]);
            }
        }
        if batch_hit(txs, hits, d) {
            let k = choose|k: int| 0 <= k < hits.len() && d == txs[(#[trigger] hits[k]).0 as int].bytes_spec();
            assert(hits.push(x)[k] == hits[k]);
        }
        if d == txs[x.0 as int].bytes_spec() {
            assert(hits.push(x)[hits.len() as int] == x);
        }
    }
}

/// Byte-wise equality of two slices.
fn bytes_equal(a: &[u8], b: &[u8]) -> (r: bool)
    ensures
        r == (a@ == b@),
{
    if a.len() != b.len() {
        return false;
    }
    let mut i: usize = 0;
    while i < a.len()
        invariant
            0 <= i <= a@.len(),
            a@.len() == b@.len(),
            forall|j: int| 0 <= j < i ==> a@[j] == b@[j],
        decreases a@.len() - i,
    {
        if a[i] != b[i] {
            return false;
        }
        i = i + 1;
    }
    assert(a@ =~= b@);
    true
}

} // verus!
