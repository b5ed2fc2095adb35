use spx_crypto::bigint::OverflowError;
use spx_crypto::spx::{
    verification_outcome, SpxError, SpxKeypair, SpxPublicKey, SpxPublicKeyPart, SpxSignature,
    KEYPAIR_BYTE_LEN, PUBLIC_KEY_BYTE_LEN, SIGNATURE_BIT_LEN, SIGNATURE_BYTE_LEN,
};

#[test]
fn test_spx_sign() {
    let msg = b"Test message";

    let keypair = SpxKeypair::generate();
    let sig = keypair.sign(msg);
    assert!(keypair.verify(msg, &sig).is_ok());
}

#[test]
fn tampered_message_is_rejected() {
    let keypair = SpxKeypair::generate();
    let sig = keypair.sign(b"Test message");
    let public = SpxPublicKey::from_bytes(keypair.pk_as_bytes()).unwrap();
    assert!(public.verify(b"Test message", &sig).is_ok());
    assert_eq!(
        public.verify(b"Tampered message", &sig),
        Err(SpxError::Verification)
    );
}

#[test]
fn tampered_signature_is_rejected() {
    let keypair = SpxKeypair::generate();
    let msg = b"some message";
    let sig = keypair.sign(msg);
    let mut stored = sig.to_bytes();
    stored[100] ^= 0x01;
    let bad = SpxSignature::from_bytes(&stored).unwrap();
    assert_eq!(keypair.verify(msg, &bad), Err(SpxError::Verification));
    let mut msg2 = msg.to_vec();
    msg2[0] ^= 0x80;
    assert_eq!(keypair.verify(&msg2, &sig), Err(SpxError::Verification));
}

#[test]
fn signature_survives_stored_form() {
    let keypair = SpxKeypair::generate();
    let msg = b"persist me";
    let sig = keypair.sign(msg);
    let stored = sig.to_bytes();
    assert_eq!(stored.len(), SIGNATURE_BYTE_LEN);
    let back = SpxSignature::from_bytes(&stored).unwrap();
    assert_eq!(back.to_be_bytes(), sig.to_be_bytes());
    assert!(keypair.verify(msg, &back).is_ok());
}

#[test]
fn signature_big_endian_form_is_primitive_bytes() {
    let keypair = SpxKeypair::generate();
    let sig = keypair.sign(b"m");
    let be = sig.to_be_bytes();
    assert_eq!(be.len(), SIGNATURE_BYTE_LEN);
    let again = SpxSignature::from_be_bytes(&be).unwrap();
    assert_eq!(again.to_be_bytes(), be);
    // the stored form is the same bytes in the opposite order
    let mut le = sig.to_bytes();
    le.reverse();
    assert_eq!(le, be);
}

#[test]
fn keypair_stored_form_round_trip() {
    let keypair = SpxKeypair::generate();
    let bytes = keypair.to_bytes();
    assert_eq!(bytes.len(), KEYPAIR_BYTE_LEN);
    assert_eq!(&bytes[..PUBLIC_KEY_BYTE_LEN], keypair.pk_as_bytes());
    let back = SpxKeypair::from_bytes(&bytes).unwrap();
    assert_eq!(back.to_bytes(), bytes);
    let sig = back.sign(b"after reload");
    assert!(keypair.verify(b"after reload", &sig).is_ok());
}

#[test]
fn keypair_wrong_length_is_malformed() {
    let bytes = vec![7u8; KEYPAIR_BYTE_LEN - 1];
    assert!(matches!(SpxKeypair::from_bytes(&bytes), Err(SpxError::MalformedKey)));
    let bytes = vec![7u8; KEYPAIR_BYTE_LEN + 1];
    assert!(matches!(SpxKeypair::from_bytes(&bytes), Err(SpxError::MalformedKey)));
}

#[test]
fn public_key_stored_form_round_trip() {
    let keypair = SpxKeypair::generate();
    let pk_bytes = keypair.pk_as_bytes().to_vec();
    let public = keypair.into_public_key();
    assert_eq!(public.pk_len(), PUBLIC_KEY_BYTE_LEN);
    assert_eq!(public.to_bytes(), pk_bytes);
    let back = SpxPublicKey::from_bytes(&pk_bytes).unwrap();
    assert_eq!(back.pk_as_bytes(), &pk_bytes[..]);
    assert!(matches!(SpxPublicKey::from_bytes(&pk_bytes[..31]), Err(SpxError::MalformedKey)));
}

#[test]
fn keypair_halves_are_matched() {
    let keypair = SpxKeypair::generate();
    let bytes = keypair.to_bytes();
    // the secret key embeds the public key in its last 32 bytes
    assert_eq!(&bytes[PUBLIC_KEY_BYTE_LEN + 32..], &bytes[..PUBLIC_KEY_BYTE_LEN]);
}

#[test]
fn clones_sign_and_verify_alike() {
    let keypair = SpxKeypair::generate();
    let copy = keypair.clone();
    assert_eq!(copy.to_bytes(), keypair.to_bytes());
    let sig = copy.sign(b"cloned");
    let sig2 = sig.clone();
    assert_eq!(sig2.to_be_bytes(), sig.to_be_bytes());
    let public = keypair.into_public_key();
    let public2 = public.clone();
    assert!(public2.verify(b"cloned", &sig2).is_ok());
    assert_eq!(public2.verify(b"clone", &sig2), Err(SpxError::Verification));
}

#[test]
fn labels() {
    assert_eq!(SpxKeypair::label(), "RAW SPHINCS+ PRIVATE KEY");
    assert_eq!(SpxPublicKey::label(), "RAW SPHINCS+ PUBLIC KEY");
}

#[test]
fn short_signature_buffer_is_low_order_bytes() {
    let sig = SpxSignature::from_bytes(&[1, 1]).unwrap();
    assert_eq!(sig.to_string(), "257");
    let le = sig.to_bytes();
    assert_eq!(le.len(), SIGNATURE_BYTE_LEN);
    assert_eq!(&le[..3], &[1, 1, 0]);
    let be = sig.to_be_bytes();
    assert_eq!(&be[SIGNATURE_BYTE_LEN - 3..], &[0, 1, 1]);
}

#[test]
fn signature_overflow_is_reported() {
    let mut bytes = vec![0u8; SIGNATURE_BYTE_LEN + 1];
    bytes[SIGNATURE_BYTE_LEN] = 1;
    assert_eq!(
        SpxSignature::from_bytes(&bytes).err(),
        Some(SpxError::Overflow(OverflowError {
            required_bits: SIGNATURE_BIT_LEN + 1,
            bound_bits: SIGNATURE_BIT_LEN,
        }))
    );
    // high zero bytes beyond the width are harmless
    let mut bytes = vec![0u8; SIGNATURE_BYTE_LEN + 4];
    bytes[0] = 9;
    assert_eq!(SpxSignature::from_bytes(&bytes).unwrap().to_string(), "9");
}

#[test]
fn verification_outcome_maps_rejection() {
    assert_eq!(verification_outcome(Ok(())), Ok(()));
    assert_eq!(
        verification_outcome(Err(
            pqcrypto_traits::sign::VerificationError::InvalidSignature
        )),
        Err(SpxError::Verification)
    );
    assert_eq!(
        verification_outcome(Err(
            pqcrypto_traits::sign::VerificationError::UnknownVerificationError
        )),
        Err(SpxError::Verification)
    );
}
