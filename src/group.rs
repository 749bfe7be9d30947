//! The prime-order group: scalars modulo the group order and compressed points.
//!
//! The group is ristretto255: it has prime order ℓ, the basepoint `G` generates it, and
//! every element has exactly one 32-byte compressed form. So every element is `x·G` for
//! exactly one `x` in `[0, ℓ)`, and a point is modelled by that discrete log:
//! `encodes(b, x)` says that the bytes `b` are the compressed form of `x·G`. Addition of
//! points adds their logs modulo ℓ, and multiplication by a scalar multiplies them; the
//! contracts of the point operations below say exactly that.
use vstd::prelude::*;
use curve25519_dalek::ristretto::{CompressedRistretto, RistrettoPoint};
use curve25519_dalek::traits::IsIdentity;
use rand::Rng;
use blake2::Digest;

verus! {

/// The order ℓ of the group: 2^252 + 27742317777372353535851937790883648493.
pub open spec fn group_order() -> int {
    85070591730234615865843651857942052864int * 85070591730234615865843651857942052864int
        + 27742317777372353535851937790883648493int
}

/// The unsigned integer that a byte string holds, least significant byte first.
pub open spec fn le_value(b: Seq<u8>) -> int
    decreases b.len(),
{
    if b.len() == 0 {
        0
    } else {
        b[0] as int + 256 * le_value(b.subrange(1, b.len() as int))
    }
}

/// The compressed form of `k·G`.
pub uninterp spec fn multiple_of_base(k: int) -> Seq<u8>;

/// The BLAKE2b-512 digest of `data`.
pub uninterp spec fn blake2b_512_of(data: Seq<u8>) -> Seq<u8>;

/// The compressed form of the point that 64 uniform bytes map to.
pub uninterp spec fn point_from_uniform(b: Seq<u8>) -> Seq<u8>;

/// `b` is the compressed form of `x·G`, and no other exponent below the order gives `b`.
pub open spec fn encodes(b: Seq<u8>, x: int) -> bool {
    &&& 0 <= x < group_order()
    &&& b == multiple_of_base(x)
    &&& forall|y: int| 0 <= y < group_order() && #[trigger] multiple_of_base(y) == b ==> y == x
}

/// `b` is the compressed form of a group element.
pub open spec fn is_point(b: Seq<u8>) -> bool {
    exists|x: int| encodes(b, x)
}

/// The discrete log of the point that `b` encodes.
pub open spec fn log_of(b: Seq<u8>) -> int {
    choose|x: int| encodes(b, x)
}

pub proof fn lemma_log_of(b: Seq<u8>, x: int)
    requires
        encodes(b, x),
    ensures
        log_of(b) == x,
        is_point(b),
{
    let y = log_of(b);
    assert(encodes(b, y));
}

/// Two encodings are the same bytes exactly when their exponents agree.
pub proof fn lemma_encodes_eq(a: Seq<u8>, x: int, b: Seq<u8>, y: int)
    requires
        encodes(a, x),
        encodes(b, y),
    ensures
        (a == b) == (x == y),
{
}

/// Appends 32 bytes to a buffer.
pub fn append_bytes(out: &mut Vec<u8>, b: &[u8; 32])
    ensures
        final(out)@ == old(out)@ + b@,
{
    let ghost start = out@;
    let mut i: usize = 0;
    while i < 32
        invariant
            0 <= i <= 32,
            out@ == start + b@.subrange(0, i as int),
        decreases 32 - i,
    {
        out.push(b[i]);
        i = i + 1;
        assert(out@ =~= start + b@.subrange(0, i as int));
    }
    assert(b@.subrange(0, 32) =~= b@);
}

/// The 32 bytes of `bytes` that start at `start`.
pub fn array32_at(bytes: &[u8], start: usize) -> (r: [u8; 32])
    requires
        start + 32 <= bytes@.len(),
    ensures
        r@ == bytes@.subrange(start as int, start + 32),
{
    let mut a = [0u8; 32];
    let len = bytes.len();
    let mut i: usize = 0;
    while i < 32
        invariant
            0 <= i <= 32,
            len == bytes@.len(),
            start + 32 <= len,
            a@.len() == 32,
            forall|j: int| 0 <= j < i ==> a@[j] == bytes@[start + j],
        decreases 32 - i,
    {
        a[i] = bytes[start + i];
        i = i + 1;
    }
    assert(a@ =~= bytes@.subrange(start as int, start + 32));
    a
}

/// A scalar: an integer modulo the group order, held as 32 little-endian bytes.
#[derive(Clone, Copy, Debug, PartialEq, Eq)]
pub struct Scalar {
    pub bytes: [u8; 32],
}

impl Scalar {
    /// The value of the scalar, in `[0, ℓ)`.
    pub open spec fn val(&self) -> int {
        le_value(self.bytes@) % group_order()
    }

    /// The scalar of value zero.
    pub fn zero() -> (r: Scalar)
        ensures
            r.val() == 0,
    {
        let r = Scalar { bytes: [0u8; 32] };
        proof {
            lemma_le_value_zero(r.bytes@);
        }
        r
    }

    /// Reduces a 256-bit little-endian integer modulo the group order.
    pub fn from_bytes_mod_order(bytes: [u8; 32]) -> (r: Scalar)
        ensures
            r.val() == le_value(bytes@) % group_order(),
    {
        reduce_bytes(bytes)
    }

    /// Reduces a 512-bit little-endian integer modulo the group order.
    pub fn from_bytes_mod_order_wide(bytes: &[u8; 64]) -> (r: Scalar)
        ensures
            r.val() == le_value(bytes@) % group_order(),
    {
        reduce_wide_bytes(bytes)
    }

    /// The canonical 32-byte form of the scalar.
    pub fn to_bytes(&self) -> (r: [u8; 32])
        ensures
            le_value(r@) == self.val(),
    {
        canonical_bytes(self)
    }

    /// The scalar of value `v`.
    pub fn from_u64(v: u64) -> (r: Scalar)
        ensures
            r.val() == v,
    {
        scalar_of_u64(v)
    }

    /// `self + o` modulo the group order.
    pub fn plus(&self, o: &Scalar) -> (r: Scalar)
        ensures
            r.val() == (self.val() + o.val()) % group_order(),
    {
        scalar_add(self, o)
    }

    /// `self - o` modulo the group order.
    pub fn minus(&self, o: &Scalar) -> (r: Scalar)
        ensures
            r.val() == (self.val() - o.val()) % group_order(),
    {
        scalar_sub(self, o)
    }

    /// `self · o` modulo the group order.
    pub fn times(&self, o: &Scalar) -> (r: Scalar)
        ensures
            r.val() == (self.val() * o.val()) % group_order(),
    {
        scalar_mul(self, o)
    }

    /// Overwrites the bytes of the scalar with zeros.
    pub fn wipe(&mut self)
        ensures
            final(self).val() == 0,
    {
        wipe_bytes(&mut self.bytes);
        proof {
            lemma_le_value_zero(self.bytes@);
        }
    }
}

pub proof fn lemma_le_value_zero(b: Seq<u8>)
    requires
        forall|i: int| 0 <= i < b.len() ==> b[i] == 0,
    ensures
        le_value(b) == 0,
    decreases b.len(),
{
    if b.len() > 0 {
        lemma_le_value_zero(b.subrange(1, b.len() as int));
    }
}

/// Relies on `Scalar::from_bytes_mod_order`: the 256-bit integer reduced modulo ℓ.
#[verifier::external_body]
fn reduce_bytes(bytes: [u8; 32]) -> (r: Scalar)
    ensures
        r.val() == le_value(bytes@) % group_order(),
{
    Scalar { bytes: curve25519_dalek::scalar::Scalar::from_bytes_mod_order(bytes).to_bytes() }
}

/// Relies on `Scalar::from_bytes_mod_order_wide`: the 512-bit integer reduced modulo ℓ.
#[verifier::external_body]
fn reduce_wide_bytes(bytes: &[u8; 64]) -> (r: Scalar)
    ensures
        r.val() == le_value(bytes@) % group_order(),
{
    Scalar { bytes: curve25519_dalek::scalar::Scalar::from_bytes_mod_order_wide(bytes).to_bytes() }
}

/// Relies on `Scalar::to_bytes` of a reduced scalar: the canonical bytes, whose value is below ℓ.
#[verifier::external_body]
fn canonical_bytes(s: &Scalar) -> (r: [u8; 32])
    ensures
        le_value(r@) == s.val(),
{
    curve25519_dalek::scalar::Scalar::from_bytes_mod_order(s.bytes).to_bytes()
}

/// Relies on `Scalar::from(u64)`: the scalar whose value is `v`.
#[verifier::external_body]
fn scalar_of_u64(v: u64) -> (r: Scalar)
    ensures
        r.val() == v,
{
    Scalar { bytes: curve25519_dalek::scalar::Scalar::from(v).to_bytes() }
}

/// Relies on `Scalar + Scalar`: addition modulo ℓ.
#[verifier::external_body]
fn scalar_add(a: &Scalar, b: &Scalar) -> (r: Scalar)
    ensures
        r.val() == (a.val() + b.val()) % group_order(),
{
    let x = curve25519_dalek::scalar::Scalar::from_bytes_mod_order(a.bytes);
    let y = curve25519_dalek::scalar::Scalar::from_bytes_mod_order(b.bytes);
    Scalar { bytes: (x + y).to_bytes() }
}

/// Relies on `Scalar - Scalar`: subtraction modulo ℓ.
#[verifier::external_body]
fn scalar_sub(a: &Scalar, b: &Scalar) -> (r: Scalar)
    ensures
        r.val() == (a.val() - b.val()) % group_order(),
{
    let x = curve25519_dalek::scalar::Scalar::from_bytes_mod_order(a.bytes);
    let y = curve25519_dalek::scalar::Scalar::from_bytes_mod_order(b.bytes);
    Scalar { bytes: (x - y).to_bytes() }
}

/// Relies on `Scalar * Scalar`: multiplication modulo ℓ.
#[verifier::external_body]
fn scalar_mul(a: &Scalar, b: &Scalar) -> (r: Scalar)
    ensures
        r.val() == (a.val() * b.val()) % group_order(),
{
    let x = curve25519_dalek::scalar::Scalar::from_bytes_mod_order(a.bytes);
    let y = curve25519_dalek::scalar::Scalar::from_bytes_mod_order(b.bytes);
    Scalar { bytes: (x * y).to_bytes() }
}

/// Relies on `zeroize::Zeroize` for byte arrays: every byte is overwritten with zero.
#[verifier::external_body]
fn wipe_bytes(b: &mut [u8; 32])
    ensures
        forall|i: int| 0 <= i < 32 ==> final(b)@[i] == 0,
        final(b)@.len() == 32,
{
    zeroize::Zeroize::zeroize(b);
}

/// Relies on `rand::thread_rng` filling an array: 32 bytes from the operating system's
/// entropy source, of which nothing can be promised.
#[verifier::external_body]
pub(crate) fn random_bytes() -> (r: [u8; 32]) {
    let mut b = [0u8; 32];
    rand::thread_rng().fill(&mut b);
    b
}

/// A scalar drawn uniformly from 32 random bytes reduced modulo the group order.
pub fn random_scalar() -> (r: Scalar) {
    Scalar::from_bytes_mod_order(random_bytes())
}

/// Relies on `Blake2b512::digest`: the 64-byte BLAKE2b-512 digest of `data`.
#[verifier::external_body]
pub(crate) fn blake2b_512(data: &[u8]) -> (r: [u8; 64])
    ensures
        r@ == blake2b_512_of(data@),
{
    let h = blake2::Blake2b512::digest(data);
    let mut out = [0u8; 64];
    out.copy_from_slice(h.as_slice());
    out
}

/// The scalar that a byte string hashes to: BLAKE2b-512, reduced wide modulo the order.
pub open spec fn hash_scalar_of(data: Seq<u8>) -> int {
    le_value(blake2b_512_of(data)) % group_order()
}

/// Hashes bytes to a scalar through a 512-bit digest and a wide reduction.
pub fn hash_to_scalar(data: &[u8]) -> (r: Scalar)
    ensures
        r.val() == hash_scalar_of(data@),
{
    let d = blake2b_512(data);
    Scalar::from_bytes_mod_order_wide(&d)
}

/// A group element, held in its 32-byte compressed form.
#[derive(Clone, Copy, Debug, PartialEq, Eq)]
pub struct Point {
    pub bytes: [u8; 32],
}

impl Point {
    /// The discrete log of the point.
    pub open spec fn log(&self) -> int {
        log_of(self.bytes@)
    }

    /// The bytes hold a valid compressed point.
    pub open spec fn wf(&self) -> bool {
        is_point(self.bytes@)
    }

    /// Same bytes, hence same group element.
    pub fn equals(&self, o: &Point) -> (r: bool)
        ensures
            r == (self.bytes@ == o.bytes@),
    {
        let mut i: usize = 0;
        while i < 32
            invariant
                0 <= i <= 32,
                forall|j: int| 0 <= j < i ==> self.bytes@[j] == o.bytes@[j],
            decreases 32 - i,
        {
            if self.bytes[i] != o.bytes[i] {
                return false;
            }
            i = i + 1;
        }
        assert(self.bytes@ =~= o.bytes@);
        true
    }
}

/// Relies on `RistrettoPoint::mul_base` and `compress`: `k·G`, compressed. The basepoint
/// generates the group, of order ℓ, so distinct exponents below ℓ give distinct points.
#[verifier::external_body]
pub(crate) fn mul_base(k: &Scalar) -> (r: Point)
    ensures
        r.bytes@ == multiple_of_base(k.val()),
        encodes(r.bytes@, k.val()),
{
    let s = curve25519_dalek::scalar::Scalar::from_bytes_mod_order(k.bytes);
    Point { bytes: RistrettoPoint::mul_base(&s).compress().to_bytes() }
}

/// Relies on `CompressedRistretto::decompress`, `Scalar * RistrettoPoint` and `compress`.
/// A valid compressed point always decompresses.
#[verifier::external_body]
pub(crate) fn mul_point(k: &Scalar, p: &Point) -> (r: Point)
    requires
        p.wf(),
    ensures
        encodes(r.bytes@, (k.val() * p.log()) % group_order()),
{
    let s = curve25519_dalek::scalar::Scalar::from_bytes_mod_order(k.bytes);
    let q = CompressedRistretto(p.bytes).decompress().expect("valid point");
    Point { bytes: (s * q).compress().to_bytes() }
}

/// Relies on `CompressedRistretto::decompress`, `RistrettoPoint + RistrettoPoint` and `compress`.
#[verifier::external_body]
pub(crate) fn add_points(a: &Point, b: &Point) -> (r: Point)
    requires
        a.wf(),
        b.wf(),
    ensures
        encodes(r.bytes@, (a.log() + b.log()) % group_order()),
{
    let x = CompressedRistretto(a.bytes).decompress().expect("valid point");
    let y = CompressedRistretto(b.bytes).decompress().expect("valid point");
    Point { bytes: (x + y).compress().to_bytes() }
}

/// Relies on `CompressedRistretto::decompress`, `RistrettoPoint - RistrettoPoint` and `compress`.
#[verifier::external_body]
pub(crate) fn sub_points(a: &Point, b: &Point) -> (r: Point)
    requires
        a.wf(),
        b.wf(),
    ensures
        encodes(r.bytes@, (a.log() - b.log()) % group_order()),
{
    let x = CompressedRistretto(a.bytes).decompress().expect("valid point");
    let y = CompressedRistretto(b.bytes).decompress().expect("valid point");
    Point { bytes: (x - y).compress().to_bytes() }
}

/// Relies on `RistrettoPoint::is_identity`: the identity is `0·G`.
#[verifier::external_body]
pub(crate) fn is_identity(p: &Point) -> (r: bool)
    requires
        p.wf(),
    ensures
        r == (p.log() == 0),
{
    CompressedRistretto(p.bytes).decompress().expect("valid point").is_identity()
}

/// Relies on `CompressedRistretto::decompress`: it succeeds exactly on the canonical
/// encodings of group elements.
#[verifier::external_body]
pub(crate) fn decompress(bytes: [u8; 32]) -> (r: Option<Point>)
    ensures
        r is Some <==> is_point(bytes@),
        r is Some ==> r->0.bytes == bytes,
{
    match CompressedRistretto(bytes).decompress() {
        Some(_) => Some(Point { bytes }),
        None => None,
    }
}

/// Relies on `RistrettoPoint::from_uniform_bytes` and `compress`: the point that 64
/// uniform bytes map to, by a map whose discrete log nobody knows.
#[verifier::external_body]
pub(crate) fn from_uniform_bytes(b: &[u8; 64]) -> (r: Point)
    ensures
        r.bytes@ == point_from_uniform(b@),
        is_point(r.bytes@),
{
    Point { bytes: RistrettoPoint::from_uniform_bytes(b).compress().to_bytes() }
}

impl Point {
    /// `k·G`.
    pub fn base_mul(k: &Scalar) -> (r: Point)
        ensures
            encodes(r.bytes@, k.val()),
    {
        mul_base(k)
    }

    /// `k·self`.
    pub fn times(&self, k: &Scalar) -> (r: Point)
        requires
            self.wf(),
        ensures
            encodes(r.bytes@, (k.val() * self.log()) % group_order()),
    {
        mul_point(k, self)
    }

    /// `self + o`.
    pub fn plus(&self, o: &Point) -> (r: Point)
        requires
            self.wf(),
            o.wf(),
        ensures
            encodes(r.bytes@, (self.log() + o.log()) % group_order()),
    {
        add_points(self, o)
    }

    /// `self − o`.
    pub fn minus(&self, o: &Point) -> (r: Point)
        requires
            self.wf(),
            o.wf(),
        ensures
            encodes(r.bytes@, (self.log() - o.log()) % group_order()),
    {
        sub_points(self, o)
    }

    /// Whether this is the identity `0·G`.
    pub fn is_identity(&self) -> (r: bool)
        requires
            self.wf(),
        ensures
            r == (self.log() == 0),
    {
        is_identity(self)
    }

    /// The point with compressed form `bytes`, if they encode one.
    pub fn from_bytes(bytes: [u8; 32]) -> (r: Option<Point>)
        ensures
            r is Some <==> is_point(bytes@),
            r is Some ==> r->0.bytes == bytes,
    {
        decompress(bytes)
    }

    /// The point that 64 uniform bytes map to.
    pub fn from_uniform_bytes(b: &[u8; 64]) -> (r: Point)
        ensures
            r.bytes@ == point_from_uniform(b@),
            r.wf(),
    {
        from_uniform_bytes(b)
    }
}

} // verus!
