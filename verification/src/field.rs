//! Elements of the scalar field of Curve25519 (integers modulo the prime
//! group order ℓ), held as their canonical 32-byte little-endian encoding.
//!
//! The arithmetic itself is done by `curve25519_dalek::scalar::Scalar`; the
//! trusted wrappers at the end of this file state what each of its operations
//! returns in terms of the integer value of the bytes.
use curve25519_dalek::scalar::Scalar;
use vstd::prelude::*;

verus! {

/// The prime order ℓ = 2^252 + 27742317777372353535851937790883648493 of the field.
pub open spec fn field_order() -> nat {
    85070591730234615865843651857942052864nat * 85070591730234615865843651857942052864nat
        + 27742317777372353535851937790883648493nat
}

/// Little-endian integer value of a byte sequence.
pub open spec fn le_bytes_value(b: Seq<u8>) -> nat
    decreases b.len(),
{
    if b.len() == 0 {
        0
    } else {
        b[0] as nat + 256 * le_bytes_value(b.drop_first())
    }
}

/// A 32-byte encoding is canonical when its value is below ℓ.
pub open spec fn bytes_are_canonical(b: [u8; 32]) -> bool {
    le_bytes_value(b@) < field_order()
}

/// Field element of value `le_bytes_value(b)` for canonical bytes `b`.
pub open spec fn bytes_value(b: [u8; 32]) -> nat {
    le_bytes_value(b@)
}

/// Two byte sequences of equal length with equal little-endian value are equal.
pub proof fn lemma_le_bytes_value_injective(a: Seq<u8>, b: Seq<u8>)
    requires
        a.len() == b.len(),
        le_bytes_value(a) == le_bytes_value(b),
    ensures
        a == b,
    decreases a.len(),
{
    if a.len() > 0 {
        lemma_le_bytes_value_injective(a.drop_first(), b.drop_first());
        assert(a =~= seq![a[0]] + a.drop_first());
        assert(b =~= seq![b[0]] + b.drop_first());
    }
}

/// The value of a byte sequence is zero exactly when every byte is zero.
pub proof fn lemma_le_bytes_value_zero(a: Seq<u8>)
    ensures
        (le_bytes_value(a) == 0) == (forall|i: int| 0 <= i < a.len() ==> a[i] == 0),
    decreases a.len(),
{
    if a.len() > 0 {
        lemma_le_bytes_value_zero(a.drop_first());
        if le_bytes_value(a) == 0 {
            assert forall|i: int| 0 <= i < a.len() implies a[i] == 0 by {
                if i > 0 {
                    assert(a[i] == a.drop_first()[i - 1]);
                }
            }
        }
        if forall|i: int| 0 <= i < a.len() ==> a[i] == 0 {
            assert forall|i: int| 0 <= i < a.drop_first().len() implies a.drop_first()[i] == 0 by {
                assert(a.drop_first()[i] == a[i + 1]);
            }
            assert(a[0] == 0);
        }
    }
}

/// An element of the scalar field of Curve25519, as its little-endian bytes.
///
/// The operations of this library keep the encoding canonical (value below ℓ).
#[derive(Clone, Copy, Debug, PartialEq, Eq)]
pub struct FieldElement {
    /// Little-endian encoding of the element
    pub bytes: [u8; 32],
}

/// An element is determined by its value.
pub proof fn lemma_value_determines_element(a: FieldElement, b: FieldElement)
    requires
        a.value() == b.value(),
    ensures
        a == b,
{
    lemma_le_bytes_value_injective(a.bytes@, b.bytes@);
    assert(a.bytes == b.bytes);
}

impl FieldElement {
    /// The integer value of the element.
    pub open spec fn value(self) -> nat {
        le_bytes_value(self.bytes@)
    }

    /// The encoding is the canonical one: its value is below ℓ.
    pub open spec fn is_canonical(self) -> bool {
        self.value() < field_order()
    }

    /// The element with the value of `k`.
    pub fn from_u64(k: u64) -> (e: FieldElement)
        ensures
            e.is_canonical(),
            e.value() == k as nat,
    {
        FieldElement { bytes: scalar_from_u64(k) }
    }

    /// The element 0.
    pub fn zero() -> (e: FieldElement)
        ensures
            e.is_canonical(),
            e.value() == 0,
    {
        FieldElement { bytes: scalar_zero() }
    }

    /// The element 1.
    pub fn one() -> (e: FieldElement)
        ensures
            e.is_canonical(),
            e.value() == 1,
    {
        FieldElement { bytes: scalar_one() }
    }

    /// The element encoded by `bytes`, if that encoding is canonical.
    pub fn from_canonical_bytes(bytes: [u8; 32]) -> (e: Option<FieldElement>)
        ensures
            e is Some <==> bytes_are_canonical(bytes),
            e matches Some(x) ==> x.bytes == bytes && x.is_canonical(),
    {
        if scalar_bytes_canonical(bytes) {
            Some(FieldElement { bytes })
        } else {
            None
        }
    }

    /// The little-endian encoding of the element.
    pub fn to_bytes(&self) -> (b: [u8; 32])
        ensures
            b == self.bytes,
    {
        self.bytes
    }

    /// Field addition.
    pub fn add(&self, other: &FieldElement) -> (e: FieldElement)
        requires
            self.is_canonical(),
            other.is_canonical(),
        ensures
            e.is_canonical(),
            e.value() == (self.value() + other.value()) % field_order(),
    {
        FieldElement { bytes: scalar_add(self.bytes, other.bytes) }
    }

    /// Field subtraction.
    pub fn sub(&self, other: &FieldElement) -> (e: FieldElement)
        requires
            self.is_canonical(),
            other.is_canonical(),
        ensures
            e.is_canonical(),
            e.value() == (self.value() - other.value()) % (field_order() as int),
    {
        FieldElement { bytes: scalar_sub(self.bytes, other.bytes) }
    }

    /// Field multiplication.
    pub fn mul(&self, other: &FieldElement) -> (e: FieldElement)
        requires
            self.is_canonical(),
            other.is_canonical(),
        ensures
            e.is_canonical(),
            e.value() == (self.value() * other.value()) % field_order(),
    {
        FieldElement { bytes: scalar_mul(self.bytes, other.bytes) }
    }

    /// Multiplicative inverse of a nonzero element.
    pub fn invert(&self) -> (e: FieldElement)
        requires
            self.is_canonical(),
            self.value() != 0,
        ensures
            e.is_canonical(),
            (self.value() * e.value()) % field_order() == 1,
    {
        FieldElement { bytes: scalar_invert(self.bytes) }
    }

    /// Whether two canonical elements are equal.
    pub fn equals(&self, other: &FieldElement) -> (eq: bool)
        requires
            self.is_canonical(),
            other.is_canonical(),
        ensures
            eq == (self.value() == other.value()),
            eq == (self.bytes == other.bytes),
    {
        let eq = scalar_eq(self.bytes, other.bytes);
        proof {
            if self.value() == other.value() {
                lemma_le_bytes_value_injective(self.bytes@, other.bytes@);
                assert(self.bytes == other.bytes);
            }
        }
        eq
    }

    /// Whether a canonical element is zero.
    pub fn is_zero(&self) -> (z: bool)
        requires
            self.is_canonical(),
        ensures
            z == (self.value() == 0),
    {
        let zero = FieldElement::zero();
        self.equals(&zero)
    }
}

// ---------------------------------------------------------------------------
// Trusted wrappers around curve25519_dalek::scalar::Scalar
// ---------------------------------------------------------------------------

/// `Scalar::from_canonical_bytes(bytes)`: accepts exactly the encodings whose
/// little-endian value is below ℓ (the high bit is clear and the value equals its
/// own reduction mod ℓ).
#[verifier::external_body]
fn scalar_bytes_canonical(bytes: [u8; 32]) -> (ok: bool)
    ensures
        ok == bytes_are_canonical(bytes),
{
    bool::from(Scalar::from_canonical_bytes(bytes).is_some())
}

/// `Scalar::from(k: u64)`: the little-endian bytes of `k`, so the value is `k`.
#[verifier::external_body]
fn scalar_from_u64(k: u64) -> (b: [u8; 32])
    ensures
        bytes_are_canonical(b),
        bytes_value(b) == k as nat,
{
    Scalar::from(k).to_bytes()
}

/// `Scalar::ZERO`: all bytes zero, value 0.
#[verifier::external_body]
fn scalar_zero() -> (b: [u8; 32])
    ensures
        bytes_are_canonical(b),
        bytes_value(b) == 0,
{
    Scalar::ZERO.to_bytes()
}

/// `Scalar::ONE`: value 1.
#[verifier::external_body]
fn scalar_one() -> (b: [u8; 32])
    ensures
        bytes_are_canonical(b),
        bytes_value(b) == 1,
{
    Scalar::ONE.to_bytes()
}

/// `&Scalar + &Scalar`: on reduced inputs the sum reduced mod ℓ.
#[verifier::external_body]
fn scalar_add(a: [u8; 32], b: [u8; 32]) -> (c: [u8; 32])
    requires
        bytes_are_canonical(a),
        bytes_are_canonical(b),
    ensures
        bytes_are_canonical(c),
        bytes_value(c) == (bytes_value(a) + bytes_value(b)) % field_order(),
{
    let x = Scalar::from_canonical_bytes(a).unwrap();
    let y = Scalar::from_canonical_bytes(b).unwrap();
    (x + y).to_bytes()
}

/// `&Scalar - &Scalar`: on reduced inputs the difference reduced mod ℓ.
#[verifier::external_body]
fn scalar_sub(a: [u8; 32], b: [u8; 32]) -> (c: [u8; 32])
    requires
        bytes_are_canonical(a),
        bytes_are_canonical(b),
    ensures
        bytes_are_canonical(c),
        bytes_value(c) == (bytes_value(a) - bytes_value(b)) % (field_order() as int),
{
    let x = Scalar::from_canonical_bytes(a).unwrap();
    let y = Scalar::from_canonical_bytes(b).unwrap();
    (x - y).to_bytes()
}

/// `&Scalar * &Scalar`: the product reduced mod ℓ.
#[verifier::external_body]
fn scalar_mul(a: [u8; 32], b: [u8; 32]) -> (c: [u8; 32])
    requires
        bytes_are_canonical(a),
        bytes_are_canonical(b),
    ensures
        bytes_are_canonical(c),
        bytes_value(c) == (bytes_value(a) * bytes_value(b)) % field_order(),
{
    let x = Scalar::from_canonical_bytes(a).unwrap();
    let y = Scalar::from_canonical_bytes(b).unwrap();
    (x * y).to_bytes()
}

/// `Scalar::invert`: for a nonzero element, its multiplicative inverse mod ℓ
/// (the crate's documentation requires the argument to be nonzero).
#[verifier::external_body]
fn scalar_invert(a: [u8; 32]) -> (c: [u8; 32])
    requires
        bytes_are_canonical(a),
        bytes_value(a) != 0,
    ensures
        bytes_are_canonical(c),
        (bytes_value(a) * bytes_value(c)) % field_order() == 1,
{
    Scalar::from_canonical_bytes(a).unwrap().invert().to_bytes()
}

/// `Scalar == Scalar`: constant-time comparison of the two byte encodings.
#[verifier::external_body]
fn scalar_eq(a: [u8; 32], b: [u8; 32]) -> (eq: bool)
    requires
        bytes_are_canonical(a),
        bytes_are_canonical(b),
    ensures
        eq == (a == b),
{
    Scalar::from_canonical_bytes(a).unwrap() == Scalar::from_canonical_bytes(b).unwrap()
}

} // verus!
