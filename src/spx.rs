//! SPHINCS+ (SHAKE-256, 128-bit, small, simple) keys and signatures.
//!
//! Keys are held as their fixed-length byte strings; a signature is held as a
//! bounded integer whose big-endian form is the byte string that the signing
//! primitive produced, and whose little-endian form is the stored form.

use vstd::prelude::*;
use vstd::arithmetic::power2::*;

use pqcrypto_sphincsplus::sphincsshake256128ssimple as spx;
use pqcrypto_traits::sign::DetachedSignature as _;
use pqcrypto_traits::sign::PublicKey as _;
use pqcrypto_traits::sign::SecretKey as _;

use crate::bigint::{
    be_encode, be_value, bit_len, byte_width, decimal_of, le_encode, le_value, rev_bytes,
    BoundedUint, OverflowError, lemma_be_round_trip, lemma_le_value_bound, lemma_value_round_trip,
};

verus! {

/// Length of a public key, in bytes.
pub const PUBLIC_KEY_BYTE_LEN: usize = 32;

/// Length of a secret key, in bytes.
pub const SECRET_KEY_BYTE_LEN: usize = 64;

/// Length of a signature, in bytes.
pub const SIGNATURE_BYTE_LEN: usize = 7856;

/// Length of a signature, in bits: the bound of the signature integer.
pub const SIGNATURE_BIT_LEN: usize = 7856 * 8;

/// Length of a stored keypair: the public key followed by the secret key.
pub const KEYPAIR_BYTE_LEN: usize = 32 + 64;

#[verifier::external_type_specification]
#[verifier::external_body]
pub struct ExSpxPublicKey(spx::PublicKey);

#[verifier::external_type_specification]
#[verifier::external_body]
pub struct ExSpxSecretKey(spx::SecretKey);

#[verifier::external_type_specification]
#[verifier::external_body]
pub struct ExPqError(pqcrypto_traits::Error);

#[verifier::external_type_specification]
#[verifier::external_body]
pub struct ExVerificationError(pqcrypto_traits::sign::VerificationError);

/// Whether the primitive accepts signature bytes `sig` for `message` under
/// the public key bytes `pk`.
pub uninterp spec fn spx_accepts(sig: Seq<u8>, message: Seq<u8>, pk: Seq<u8>) -> bool;

/// The public key that the seeds held in the secret key bytes `sk` derive.
pub uninterp spec fn spx_public_of(sk: Seq<u8>) -> Seq<u8>;

/// Relies on `spx::keypair`: it fills a 32-byte public key and a 64-byte
/// secret key from one fresh seed. The secret key is laid out as
/// `SK_SEED || SK_PRF || PUB_SEED || root` and the public key as
/// `PUB_SEED || root`, both derived from that seed.
#[verifier::external_body]
fn spx_keypair() -> (r: (Vec<u8>, Vec<u8>))
    ensures
        r.0@.len() == PUBLIC_KEY_BYTE_LEN,
        r.1@.len() == SECRET_KEY_BYTE_LEN,
        r.0@ == spx_public_of(r.1@),
        r.1@.subrange(32, 64) == r.0@,
{
    let (pk, sk) = spx::keypair();
    (pk.as_bytes().to_vec(), sk.as_bytes().to_vec())
}

/// Relies on `spx::SecretKey::from_bytes`, which accepts exactly 64 bytes.
#[verifier::external_body]
fn spx_secret_key(bytes: &[u8]) -> (r: Result<spx::SecretKey, pqcrypto_traits::Error>)
    ensures
        r is Ok <==> bytes@.len() == SECRET_KEY_BYTE_LEN,
{
    spx::SecretKey::from_bytes(bytes)
}

/// Relies on `spx::PublicKey::from_bytes`, which accepts exactly 32 bytes.
#[verifier::external_body]
fn spx_public_key(bytes: &[u8]) -> (r: Result<spx::PublicKey, pqcrypto_traits::Error>)
    ensures
        r is Ok <==> bytes@.len() == PUBLIC_KEY_BYTE_LEN,
{
    spx::PublicKey::from_bytes(bytes)
}

/// Relies on `spx::detached_sign`: the bundled signing routine
/// (`crypto_sign_signature`) always reports a signature of 7856 bytes, and a
/// signature made with a secret key whose embedded public part is the one its
/// seeds derive verifies under that public key. Signing draws fresh
/// randomness, so the bytes themselves get no name.
#[verifier::external_body]
fn spx_detached_sign(message: &[u8], sk: &[u8]) -> (r: Vec<u8>)
    requires
        sk@.len() == SECRET_KEY_BYTE_LEN,
    ensures
        r@.len() == SIGNATURE_BYTE_LEN,
        sk@.subrange(32, 64) == spx_public_of(sk@) ==> spx_accepts(
            r@,
            message@,
            spx_public_of(sk@),
        ),
{
    let sk = spx::SecretKey::from_bytes(sk).unwrap();
    spx::detached_sign(message, &sk).as_bytes().to_vec()
}

/// Relies on `spx::verify_detached_signature`, whose verdict depends on the
/// signature bytes, the message and the public key bytes alone. Bytes that
/// `DetachedSignature::from_bytes` or `PublicKey::from_bytes` refuse (a
/// signature over 7856 bytes, a key not of 32) are an `InvalidSignature`.
#[verifier::external_body]
fn spx_verify(sig: &[u8], message: &[u8], pk: &[u8]) -> (r: Result<
    (),
    pqcrypto_traits::sign::VerificationError,
>)
    ensures
        r is Ok <==> spx_accepts(sig@, message@, pk@),
{
    match (spx::DetachedSignature::from_bytes(sig), spx::PublicKey::from_bytes(pk)) {
        (Ok(sig), Ok(pk)) => spx::verify_detached_signature(&sig, message, &pk),
        _ => Err(pqcrypto_traits::sign::VerificationError::InvalidSignature),
    }
}

/// The ways an operation on keys or signatures fails.
#[derive(Clone, Copy, Debug, PartialEq, Eq, Structural)]
pub enum SpxError {
    /// A signature magnitude needs more bits than a signature holds.
    Overflow(OverflowError),
    /// Key bytes of the wrong length.
    MalformedKey,
    /// The signature does not verify against the message and key.
    Verification,
}

/// The outcome of a verification as this library reports it: success stays
/// success, any rejection by the primitive is `SpxError::Verification`.
pub fn verification_outcome(
    outcome: Result<(), pqcrypto_traits::sign::VerificationError>,
) -> (r: Result<(), SpxError>)
    ensures
        r is Ok <==> outcome is Ok,
        !(r is Ok) ==> r == Err::<(), SpxError>(SpxError::Verification),
{
    match outcome {
        Ok(()) => Ok(()),
        Err(_) => Err(SpxError::Verification),
    }
}

/// Checks `sig` over `message` against the public key bytes `pk`: the
/// signature goes to the primitive as its big-endian bytes.
fn verify_with_key(pk: &[u8], message: &[u8], sig: &SpxSignature) -> (r: Result<(), SpxError>)
    ensures
        r is Ok <==> spx_accepts(be_encode(sig.value(), SIGNATURE_BYTE_LEN as nat), message@, pk@),
        !(r is Ok) ==> r == Err::<(), SpxError>(SpxError::Verification),
{
    let be = sig.to_be_bytes();
    verification_outcome(spx_verify(be.as_slice(), message, pk))
}

/// Public key operations, shared by keypairs and bare public keys.
pub trait SpxPublicKeyPart {
    /// The public key bytes.
    spec fn pk_view(&self) -> Seq<u8>;

    /// Returns the public key component.
    fn pk(&self) -> (r: &[u8])
        ensures
            r@ == self.pk_view(),
            r@.len() == PUBLIC_KEY_BYTE_LEN,
    ;

    /// The public key bytes.
    fn pk_as_bytes(&self) -> (r: &[u8])
        ensures
            r@ == self.pk_view(),
            r@.len() == PUBLIC_KEY_BYTE_LEN,
    {
        self.pk()
    }

    /// The length of the public key, in bytes.
    fn pk_len(&self) -> (r: usize)
        ensures
            r == self.pk_view().len(),
            r == PUBLIC_KEY_BYTE_LEN,
    {
        self.pk_as_bytes().len()
    }

    /// Verifies a message signature, returning `Ok(())` if the signature matches.
    ///
    /// The signature is handed to the primitive as its big-endian bytes.
    fn verify(&self, message: &[u8], sig: &SpxSignature) -> (r: Result<(), SpxError>)
        ensures
            r is Ok <==> spx_accepts(
                be_encode(sig.value(), SIGNATURE_BYTE_LEN as nat),
                message@,
                self.pk_view(),
            ),
            !(r is Ok) ==> r == Err::<(), SpxError>(SpxError::Verification),
    {
        verify_with_key(self.pk(), message, sig)
    }
}

/// A SPHINCS+ keypair consisting of the public and secret keys.
pub struct SpxKeypair {
    pk: Vec<u8>,
    sk: Vec<u8>,
}

impl SpxKeypair {
    #[verifier::type_invariant]
    spec fn inv(&self) -> bool {
        &&& self.pk@.len() == PUBLIC_KEY_BYTE_LEN
        &&& self.sk@.len() == SECRET_KEY_BYTE_LEN
    }

    /// The secret key bytes.
    pub closed spec fn sk_view(&self) -> Seq<u8> {
        self.sk@
    }

    /// The two halves belong together: the public key is the one the secret
    /// key's seeds derive, and the secret key embeds it.
    pub open spec fn matched(&self) -> bool {
        &&& self.pk_view() == spx_public_of(self.sk_view())
        &&& self.sk_view().subrange(32, 64) == self.pk_view()
    }

    /// Generates a new SPHINCS+ keypair.
    pub fn generate() -> (r: Self)
        ensures
            r.pk_view().len() == PUBLIC_KEY_BYTE_LEN,
            r.sk_view().len() == SECRET_KEY_BYTE_LEN,
            r.matched(),
    {
        let (pk, sk) = spx_keypair();
        SpxKeypair { pk, sk }
    }

    /// Signs `message` using the secret key.
    ///
    /// The primitive's signature bytes become the signature's big-endian form;
    /// with matched halves the signature verifies under the public key.
    pub fn sign(&self, message: &[u8]) -> (r: SpxSignature)
        ensures
            r.value() < pow2(SIGNATURE_BIT_LEN as nat),
            self.matched() ==> spx_accepts(
                be_encode(r.value(), SIGNATURE_BYTE_LEN as nat),
                message@,
                self.pk_view(),
            ),
    {
        proof {
            use_type_invariant(self);
        }
        let bytes = spx_detached_sign(message, self.sk.as_slice());
        proof {
            lemma_signature_bytes_identity(bytes@);
        }
        match SpxSignature::from_be_bytes(bytes.as_slice()) {
            Ok(sig) => sig,
            Err(_) => {
                proof {
                    assert(false);
                }
                SpxSignature::zero()
            },
        }
    }

    /// Consumes this keypair and returns the corresponding public key.
    pub fn into_public_key(self) -> (r: SpxPublicKey)
        ensures
            r.pk_view() == self.pk_view(),
    {
        proof {
            use_type_invariant(&self);
        }
        SpxPublicKey(self.pk)
    }

    /// The stored form: the public key bytes followed by the secret key bytes.
    pub fn to_bytes(&self) -> (r: Vec<u8>)
        ensures
            r@ == self.pk_view() + self.sk_view(),
            r@.len() == KEYPAIR_BYTE_LEN,
    {
        proof {
            use_type_invariant(self);
        }
        let mut r: Vec<u8> = Vec::new();
        let mut i: usize = 0;
        while i < PUBLIC_KEY_BYTE_LEN
            invariant
                i <= PUBLIC_KEY_BYTE_LEN,
                self.pk@.len() == PUBLIC_KEY_BYTE_LEN,
                r@ =~= self.pk@.subrange(0, i as int),
            decreases PUBLIC_KEY_BYTE_LEN - i,
        {
            r.push(self.pk[i]);
            i += 1;
        }
        let mut i: usize = 0;
        while i < SECRET_KEY_BYTE_LEN
            invariant
                i <= SECRET_KEY_BYTE_LEN,
                self.pk@.len() == PUBLIC_KEY_BYTE_LEN,
                self.sk@.len() == SECRET_KEY_BYTE_LEN,
                r@ =~= self.pk@ + self.sk@.subrange(0, i as int),
            decreases SECRET_KEY_BYTE_LEN - i,
        {
            r.push(self.sk[i]);
            i += 1;
        }
        r
    }

    /// Reads the stored form: exactly 32 public key bytes, then 64 secret key bytes.
    pub fn from_bytes(bytes: &[u8]) -> (r: Result<Self, SpxError>)
        ensures
            r is Ok <==> bytes@.len() == KEYPAIR_BYTE_LEN,
            r matches Ok(k) ==> k.pk_view() == bytes@.subrange(0, PUBLIC_KEY_BYTE_LEN as int)
                && k.sk_view() == bytes@.subrange(
                PUBLIC_KEY_BYTE_LEN as int,
                KEYPAIR_BYTE_LEN as int,
            ),
            r matches Err(e) ==> e == SpxError::MalformedKey,
    {
        if bytes.len() != KEYPAIR_BYTE_LEN {
            return Err(SpxError::MalformedKey);
        }
        let pk = copy_range(bytes, 0, PUBLIC_KEY_BYTE_LEN);
        let sk = copy_range(bytes, PUBLIC_KEY_BYTE_LEN, KEYPAIR_BYTE_LEN);
        if spx_public_key(pk.as_slice()).is_err() {
            return Err(SpxError::MalformedKey);
        }
        if spx_secret_key(sk.as_slice()).is_err() {
            return Err(SpxError::MalformedKey);
        }
        Ok(SpxKeypair { pk, sk })
    }

    /// The label of the keypair's text framing.
    pub fn label() -> (r: &'static str)
        ensures
            r@ == "RAW SPHINCS+ PRIVATE KEY"@,
    {
        "RAW SPHINCS+ PRIVATE KEY"
    }
}

impl Clone for SpxKeypair {
    fn clone(&self) -> (r: Self)
        ensures
            r.pk_view() == self.pk_view(),
            r.sk_view() == self.sk_view(),
    {
        proof {
            use_type_invariant(self);
        }
        let pk = copy_range(self.pk.as_slice(), 0, PUBLIC_KEY_BYTE_LEN);
        let sk = copy_range(self.sk.as_slice(), 0, SECRET_KEY_BYTE_LEN);
        proof {
            assert(self.pk@.subrange(0, PUBLIC_KEY_BYTE_LEN as int) =~= self.pk@);
            assert(self.sk@.subrange(0, SECRET_KEY_BYTE_LEN as int) =~= self.sk@);
        }
        SpxKeypair { pk, sk }
    }
}

impl SpxPublicKeyPart for SpxKeypair {
    closed spec fn pk_view(&self) -> Seq<u8> {
        self.pk@
    }

    fn pk(&self) -> (r: &[u8]) {
        proof {
            use_type_invariant(self);
        }
        self.pk.as_slice()
    }
}

/// A SPHINCS+ public key.
pub struct SpxPublicKey(Vec<u8>);

impl SpxPublicKey {
    #[verifier::type_invariant]
    spec fn inv(&self) -> bool {
        self.0@.len() == PUBLIC_KEY_BYTE_LEN
    }

    /// The stored form: the 32 public key bytes.
    pub fn to_bytes(&self) -> (r: Vec<u8>)
        ensures
            r@ == self.pk_view(),
            r@.len() == PUBLIC_KEY_BYTE_LEN,
    {
        proof {
            use_type_invariant(self);
        }
        copy_range(self.0.as_slice(), 0, PUBLIC_KEY_BYTE_LEN)
    }

    /// Reads the stored form: exactly 32 public key bytes.
    pub fn from_bytes(bytes: &[u8]) -> (r: Result<Self, SpxError>)
        ensures
            r is Ok <==> bytes@.len() == PUBLIC_KEY_BYTE_LEN,
            r matches Ok(k) ==> k.pk_view() == bytes@,
            r matches Err(e) ==> e == SpxError::MalformedKey,
    {
        if bytes.len() != PUBLIC_KEY_BYTE_LEN {
            return Err(SpxError::MalformedKey);
        }
        let pk = copy_range(bytes, 0, PUBLIC_KEY_BYTE_LEN);
        if spx_public_key(pk.as_slice()).is_err() {
            return Err(SpxError::MalformedKey);
        }
        Ok(SpxPublicKey(pk))
    }

    /// The label of the public key's text framing.
    pub fn label() -> (r: &'static str)
        ensures
            r@ == "RAW SPHINCS+ PUBLIC KEY"@,
    {
        "RAW SPHINCS+ PUBLIC KEY"
    }
}

impl Clone for SpxPublicKey {
    fn clone(&self) -> (r: Self)
        ensures
            r.pk_view() == self.pk_view(),
    {
        proof {
            use_type_invariant(self);
        }
        let pk = copy_range(self.0.as_slice(), 0, PUBLIC_KEY_BYTE_LEN);
        proof {
            assert(self.0@.subrange(0, PUBLIC_KEY_BYTE_LEN as int) =~= self.0@);
        }
        SpxPublicKey(pk)
    }
}

impl SpxPublicKeyPart for SpxPublicKey {
    closed spec fn pk_view(&self) -> Seq<u8> {
        self.0@
    }

    fn pk(&self) -> (r: &[u8]) {
        proof {
            use_type_invariant(self);
        }
        self.0.as_slice()
    }
}

/// A SPHINCS+ signature, held as an integer of at most `SIGNATURE_BIT_LEN` bits.
pub struct SpxSignature(BoundedUint);

impl SpxSignature {
    #[verifier::type_invariant]
    spec fn inv(&self) -> bool {
        &&& self.0.bits() == SIGNATURE_BIT_LEN
        &&& self.0.value() < pow2(SIGNATURE_BIT_LEN as nat)
    }

    /// The signature's value.
    pub closed spec fn value(&self) -> nat {
        self.0.value()
    }

    /// The signature whose value is zero.
    fn zero() -> (r: Self)
        ensures
            r.value() == 0,
    {
        proof {
            lemma_pow2_pos(SIGNATURE_BIT_LEN as nat);
        }
        SpxSignature(BoundedUint::zero(SIGNATURE_BIT_LEN))
    }

    /// Takes signature bytes as the signing primitive lays them out, a
    /// big-endian magnitude.
    pub fn from_be_bytes(bytes: &[u8]) -> (r: Result<Self, SpxError>)
        requires
            bytes@.len() <= usize::MAX / 8,
        ensures
            r is Ok <==> be_value(bytes@) < pow2(SIGNATURE_BIT_LEN as nat),
            r matches Ok(s) ==> s.value() == be_value(bytes@),
            r matches Err(e) ==> e == SpxError::Overflow(
                OverflowError {
                    required_bits: bit_len(be_value(bytes@)) as usize,
                    bound_bits: SIGNATURE_BIT_LEN,
                },
            ),
    {
        match BoundedUint::from_be_bytes(bytes, SIGNATURE_BIT_LEN) {
            Ok(x) => Ok(SpxSignature(x)),
            Err(e) => Err(SpxError::Overflow(e)),
        }
    }

    /// The signature bytes as the signing primitive lays them out: the
    /// big-endian form, 7856 bytes.
    pub fn to_be_bytes(&self) -> (r: Vec<u8>)
        ensures
            r@ == be_encode(self.value(), SIGNATURE_BYTE_LEN as nat),
            r@.len() == SIGNATURE_BYTE_LEN,
            self.value() < pow2(SIGNATURE_BIT_LEN as nat),
    {
        proof {
            use_type_invariant(self);
        }
        let r = self.0.to_be_bytes();
        proof {
            lemma_value_round_trip(self.value(), SIGNATURE_BIT_LEN as nat);
        }
        r
    }

    /// The stored form: the little-endian form, 7856 bytes.
    pub fn to_bytes(&self) -> (r: Vec<u8>)
        ensures
            r@ == le_encode(self.value(), SIGNATURE_BYTE_LEN as nat),
            r@.len() == SIGNATURE_BYTE_LEN,
            self.value() < pow2(SIGNATURE_BIT_LEN as nat),
    {
        proof {
            use_type_invariant(self);
        }
        let r = self.0.to_le_bytes();
        proof {
            lemma_value_round_trip(self.value(), SIGNATURE_BIT_LEN as nat);
        }
        r
    }

    /// Reads the stored form, a little-endian magnitude. A buffer shorter
    /// than the full width is taken as the low-order bytes of the value.
    pub fn from_bytes(bytes: &[u8]) -> (r: Result<Self, SpxError>)
        requires
            bytes@.len() <= usize::MAX / 8,
        ensures
            r is Ok <==> le_value(bytes@) < pow2(SIGNATURE_BIT_LEN as nat),
            r matches Ok(s) ==> s.value() == le_value(bytes@),
            r matches Err(e) ==> e == SpxError::Overflow(
                OverflowError {
                    required_bits: bit_len(le_value(bytes@)) as usize,
                    bound_bits: SIGNATURE_BIT_LEN,
                },
            ),
    {
        match BoundedUint::from_le_bytes(bytes, SIGNATURE_BIT_LEN) {
            Ok(x) => Ok(SpxSignature(x)),
            Err(e) => Err(SpxError::Overflow(e)),
        }
    }

    /// The signature's value in decimal, for display.
    pub fn to_string(&self) -> (r: String)
        ensures
            r@ == decimal_of(self.value()),
    {
        self.0.to_decimal_string()
    }
}

impl Clone for SpxSignature {
    fn clone(&self) -> (r: Self)
        ensures
            r.value() == self.value(),
    {
        proof {
            use_type_invariant(self);
        }
        SpxSignature(self.0.clone())
    }
}

/// The bytes `bytes[lo..hi]`, copied.
fn copy_range(bytes: &[u8], lo: usize, hi: usize) -> (r: Vec<u8>)
    requires
        lo <= hi <= bytes@.len(),
    ensures
        r@ == bytes@.subrange(lo as int, hi as int),
{
    let mut r: Vec<u8> = Vec::new();
    let mut i: usize = lo;
    while i < hi
        invariant
            lo <= i <= hi,
            hi <= bytes@.len(),
            r@ =~= bytes@.subrange(lo as int, i as int),
        decreases hi - i,
    {
        r.push(bytes[i]);
        i += 1;
    }
    r
}

/// Every byte string of signature length fits a signature, and its
/// canonical big-endian form is that byte string again: taking the
/// primitive's bytes in and handing them back loses and reorders nothing.
pub proof fn lemma_signature_bytes_identity(s: Seq<u8>)
    requires
        s.len() == SIGNATURE_BYTE_LEN,
    ensures
        be_value(s) < pow2(SIGNATURE_BIT_LEN as nat),
        be_encode(be_value(s), SIGNATURE_BYTE_LEN as nat) == s,
{
    lemma_le_value_bound(rev_bytes(s));
    assert(byte_width(SIGNATURE_BIT_LEN as nat) == SIGNATURE_BYTE_LEN);
    lemma_be_round_trip(s, SIGNATURE_BIT_LEN as nat);
}

/// The stored forms decode to what was encoded: a keypair's stored bytes
/// split back into its public and secret key, and a signature's stored bytes
/// denote its value again, which fits a signature.
pub proof fn lemma_stored_forms_round_trip(pk: Seq<u8>, sk: Seq<u8>, v: nat)
    requires
        pk.len() == PUBLIC_KEY_BYTE_LEN,
        sk.len() == SECRET_KEY_BYTE_LEN,
        v < pow2(SIGNATURE_BIT_LEN as nat),
    ensures
        (pk + sk).len() == KEYPAIR_BYTE_LEN,
        (pk + sk).subrange(0, PUBLIC_KEY_BYTE_LEN as int) == pk,
        (pk + sk).subrange(PUBLIC_KEY_BYTE_LEN as int, KEYPAIR_BYTE_LEN as int) == sk,
        le_value(le_encode(v, SIGNATURE_BYTE_LEN as nat)) == v,
{
    assert((pk + sk).subrange(0, PUBLIC_KEY_BYTE_LEN as int) =~= pk);
    assert((pk + sk).subrange(PUBLIC_KEY_BYTE_LEN as int, KEYPAIR_BYTE_LEN as int) =~= sk);
    lemma_value_round_trip(v, SIGNATURE_BIT_LEN as nat);
}

/// A signature decoded from its stored form is accepted for exactly the
/// messages and keys that the original signature is accepted for.
pub proof fn lemma_reload_keeps_verdict(v: nat, message: Seq<u8>, pk: Seq<u8>)
    requires
        v < pow2(SIGNATURE_BIT_LEN as nat),
    ensures
        spx_accepts(
            be_encode(le_value(le_encode(v, SIGNATURE_BYTE_LEN as nat)), SIGNATURE_BYTE_LEN as nat),
            message,
            pk,
        ) == spx_accepts(be_encode(v, SIGNATURE_BYTE_LEN as nat), message, pk),
{
    lemma_value_round_trip(v, SIGNATURE_BIT_LEN as nat);
}

} // verus!
