use dnsmasq::dns::dnssec::blockdata::BlockData;
use dnsmasq::dns::dnssec::crypto::{
    signature_error, CryptoAlgorithm, CryptoError, HashAlgorithm, SignatureVerifier,
};
use dnsmasq::error::{DnsmasqError, DnssecError};
use ring::signature::KeyPair;

#[test]
fn test_algorithm_from_u8() {
    assert_eq!(CryptoAlgorithm::from_u8(5), Some(CryptoAlgorithm::RsaSha1));
    assert_eq!(CryptoAlgorithm::from_u8(8), Some(CryptoAlgorithm::RsaSha256));
    assert_eq!(CryptoAlgorithm::from_u8(13), Some(CryptoAlgorithm::EcdsaP256Sha256));
    assert_eq!(CryptoAlgorithm::from_u8(15), Some(CryptoAlgorithm::Ed25519));
    assert_eq!(CryptoAlgorithm::from_u8(255), None);
}

#[test]
fn test_algorithm_is_supported() {
    assert!(CryptoAlgorithm::RsaSha256.is_supported());
    assert!(CryptoAlgorithm::EcdsaP256Sha256.is_supported());
    assert!(CryptoAlgorithm::Ed25519.is_supported());
    assert!(!CryptoAlgorithm::RsaMd5.is_supported());
    assert!(!CryptoAlgorithm::Dsa.is_supported());
}

#[test]
fn test_algorithm_is_deprecated() {
    assert!(CryptoAlgorithm::RsaMd5.is_deprecated());
    assert!(CryptoAlgorithm::RsaSha1.is_deprecated());
    assert!(!CryptoAlgorithm::RsaSha256.is_deprecated());
    assert!(!CryptoAlgorithm::Ed25519.is_deprecated());
}

#[test]
fn test_algorithm_digest_len() {
    assert_eq!(CryptoAlgorithm::RsaSha1.required_digest_len(), 20);
    assert_eq!(CryptoAlgorithm::RsaSha256.required_digest_len(), 32);
    assert_eq!(CryptoAlgorithm::RsaSha512.required_digest_len(), 64);
    assert_eq!(CryptoAlgorithm::EcdsaP384Sha384.required_digest_len(), 48);
    assert_eq!(CryptoAlgorithm::Ed25519.required_digest_len(), 0);
}

#[test]
fn test_hash_for_algorithm() {
    assert!(SignatureVerifier::hash_for_algorithm(5).is_some());
    assert!(SignatureVerifier::hash_for_algorithm(8).is_some());
    assert!(SignatureVerifier::hash_for_algorithm(10).is_some());
    assert!(SignatureVerifier::hash_for_algorithm(14).is_some());
    assert!(SignatureVerifier::hash_for_algorithm(15).is_none());
    assert!(SignatureVerifier::hash_for_algorithm(255).is_none());
}

#[test]
fn test_verifier_creation() {
    let verifier = SignatureVerifier::new();
    let default_verifier = SignatureVerifier;

    assert_eq!(std::mem::size_of_val(&verifier), 0);
    assert_eq!(std::mem::size_of_val(&default_verifier), 0);
}

#[test]
fn test_unsupported_algorithm_error() {
    let verifier = SignatureVerifier::new();
    let key_data = BlockData::new(&[0u8; 32]);
    let signature = &[0u8; 64];
    let digest = &[0u8; 32];

    let result = verifier.verify(255, &key_data, signature, digest);
    assert!(matches!(result, Err(CryptoError::UnsupportedAlgorithm { algorithm: 255 })));
}

#[test]
fn test_rsa_key_parsing_short_exponent() {
    let exponent = vec![0x01, 0x00, 0x01];
    let modulus = vec![0xFF; 128];

    let mut key_bytes = Vec::new();
    key_bytes.push(exponent.len() as u8);
    key_bytes.extend_from_slice(&exponent);
    key_bytes.extend_from_slice(&modulus);

    let result = SignatureVerifier::parse_rsa_key(&key_bytes, 8);
    assert!(result.is_ok());
    let (exp, mod_result) = result.unwrap();
    assert_eq!(exp, &exponent[..]);
    assert_eq!(mod_result, &modulus[..]);
}

#[test]
fn test_rsa_key_parsing_extended_exponent() {
    let exponent = vec![0xFF; 300];
    let modulus = vec![0xFF; 256];

    let mut key_bytes = Vec::new();
    key_bytes.push(0);
    key_bytes.push((exponent.len() >> 8) as u8);
    key_bytes.push((exponent.len() & 0xFF) as u8);
    key_bytes.extend_from_slice(&exponent);
    key_bytes.extend_from_slice(&modulus);

    let result = SignatureVerifier::parse_rsa_key(&key_bytes, 8);
    assert!(result.is_ok());
    let (exp, mod_result) = result.unwrap();
    assert_eq!(exp, &exponent[..]);
    assert_eq!(mod_result, &modulus[..]);
}

#[test]
fn test_rsa_key_parsing_too_short() {
    let key_bytes = vec![0x03, 0x01];
    let result = SignatureVerifier::parse_rsa_key(&key_bytes, 8);
    assert!(matches!(result, Err(CryptoError::InvalidKeyFormat { .. })));
}

#[test]
fn test_rsa_key_parsing_zero_exponent_length() {
    let key_bytes = vec![0x00, 0x00, 0x00, 0xFF, 0xFF];
    let result = SignatureVerifier::parse_rsa_key(&key_bytes, 8);
    assert!(matches!(result, Err(CryptoError::InvalidKeyFormat { .. })));
}

#[test]
fn test_digest_length_validation() {
    let verifier = SignatureVerifier::new();
    let mut key_bytes = vec![0x03, 0x01, 0x00, 0x01];
    key_bytes.extend_from_slice(&[0xFF; 128]);
    let key_data = BlockData::new(&key_bytes);
    let signature = vec![0xFF; 128];
    let wrong_digest = [0xFF; 16];

    let result = verifier.verify(8, &key_data, &signature, &wrong_digest);
    assert!(matches!(result, Err(CryptoError::DigestLengthMismatch { .. })));
}

const MODULUS: [u8; 256] = [
    0xa9, 0x8a, 0xf7, 0xc1, 0x6c, 0x1a, 0xf7, 0x69, 0x4b, 0x09, 0x02, 0x17, 0xa7, 0x44, 0xbb, 0xc9,
    0xc3, 0x3f, 0x02, 0x1c, 0xa2, 0x7e, 0x33, 0x46, 0xb2, 0x0e, 0x69, 0x6f, 0x1a, 0xb2, 0x13, 0x83,
    0x2b, 0x48, 0x33, 0xb9, 0xbc, 0x0a, 0x40, 0x99, 0x70, 0x4c, 0x30, 0xea, 0xa6, 0x7b, 0xda, 0x65,
    0xd3, 0xe0, 0xca, 0x48, 0xac, 0xbd, 0x9f, 0xc7, 0x38, 0x99, 0xbf, 0x3e, 0xef, 0xf8, 0xd7, 0xf5,
    0x9a, 0x84, 0x41, 0x21, 0x1d, 0x43, 0x33, 0x64, 0x91, 0xd5, 0x33, 0x46, 0xbc, 0x2d, 0xc4, 0x30,
    0x19, 0x82, 0xf0, 0x7d, 0xdf, 0xba, 0x23, 0x8d, 0x11, 0x28, 0x8c, 0x36, 0xbd, 0x0e, 0x53, 0xe1,
    0xbc, 0xcf, 0xe7, 0x6b, 0xb9, 0x0e, 0x78, 0x15, 0x39, 0xde, 0xaa, 0x96, 0x48, 0xa7, 0x35, 0x03,
    0xbf, 0xdd, 0x98, 0xfa, 0xb9, 0xb0, 0x27, 0x53, 0x86, 0xf8, 0x19, 0xe7, 0x70, 0xdf, 0xa5, 0xf6,
    0x77, 0xa5, 0xb7, 0x22, 0xac, 0x27, 0x16, 0x8a, 0x3b, 0xf9, 0x25, 0x49, 0x6c, 0x5b, 0x84, 0x50,
    0x8a, 0x95, 0x31, 0xa1, 0x74, 0x72, 0xc9, 0x5e, 0xe4, 0x9a, 0xbc, 0xbc, 0xa4, 0xcc, 0x37, 0x28,
    0xbc, 0xd3, 0xcc, 0x36, 0x13, 0x10, 0xce, 0x7a, 0x06, 0x98, 0xfb, 0x92, 0xf8, 0x49, 0x94, 0x2d,
    0x4f, 0x98, 0xef, 0x1f, 0x42, 0x97, 0x75, 0xa1, 0x76, 0x53, 0xfd, 0xe9, 0x0e, 0xd4, 0x88, 0x0c,
    0x31, 0xc0, 0xb0, 0x87, 0x27, 0x0e, 0xf8, 0x91, 0x61, 0x8c, 0x44, 0x5c, 0x34, 0x98, 0x47, 0x06,
    0x17, 0xd3, 0xb6, 0x51, 0xf4, 0x4f, 0x0b, 0xf8, 0xb3, 0xaf, 0x18, 0x50, 0xad, 0xe0, 0x06, 0x0f,
    0xeb, 0xc1, 0x77, 0x31, 0x50, 0x3a, 0x84, 0x86, 0x9b, 0x35, 0x03, 0x28, 0x68, 0x96, 0x89, 0x04,
    0x3d, 0x50, 0x45, 0xd1, 0x1f, 0x51, 0x66, 0x73, 0x33, 0xcb, 0xa2, 0x8b, 0x20, 0x47, 0xac, 0x43,
];

// A signature with the key of the modulus above, of the digest whose bytes count up from zero.
const SIGNATURE: [u8; 256] = [
    0x8b, 0xf8, 0x65, 0xa1, 0x8a, 0xc3, 0xfc, 0xa5, 0xd8, 0x6c, 0x5c, 0xb4, 0xd0, 0xad, 0x18, 0xa2,
    0x5e, 0xf1, 0x8b, 0x76, 0x91, 0x9d, 0x54, 0xee, 0x5e, 0x2b, 0x23, 0xe2, 0x55, 0xc1, 0x3a, 0xe2,
    0x55, 0x60, 0xe4, 0xe2, 0xc2, 0xb8, 0x9b, 0x76, 0x3c, 0x54, 0xea, 0x63, 0x66, 0x3d, 0x2b, 0x03,
    0x8a, 0xfa, 0x77, 0xe2, 0x12, 0xc2, 0xd7, 0x3a, 0xbb, 0xb3, 0xdc, 0x6f, 0x91, 0x92, 0x8a, 0x57,
    0x3c, 0xd9, 0xdb, 0x9b, 0x96, 0x7a, 0xcd, 0x25, 0x29, 0x73, 0xd6, 0xe2, 0x69, 0x67, 0xc5, 0xdf,
    0xa9, 0x63, 0x0b, 0xec, 0x26, 0x56, 0xaf, 0xb0, 0x83, 0x1d, 0x21, 0x8f, 0x3e, 0xb0, 0x1f, 0xfe,
    0x7e, 0x4e, 0x9e, 0x84, 0xff, 0x5d, 0xaf, 0x92, 0x91, 0xd9, 0xf0, 0x4a, 0x48, 0x2c, 0xe5, 0xfe,
    0x21, 0xb4, 0x73, 0x47, 0x9c, 0xd5, 0xa0, 0x4c, 0xee, 0x55, 0x95, 0x20, 0xa6, 0xe5, 0xba, 0x7f,
    0x66, 0x7c, 0xb8, 0xdc, 0x17, 0xfd, 0x14, 0xdf, 0x9f, 0xb7, 0xb1, 0x19, 0xd1, 0x7a, 0x0c, 0x7a,
    0x9c, 0x3a, 0xcb, 0x81, 0x50, 0xe8, 0xe4, 0x8b, 0xd5, 0x45, 0xac, 0xb0, 0xde, 0x6a, 0xc0, 0x7a,
    0x7a, 0x45, 0x95, 0xd2, 0xbd, 0x74, 0x6a, 0xad, 0x97, 0x2a, 0xcc, 0xe3, 0x47, 0x3d, 0xfe, 0x3e,
    0xe0, 0xf8, 0xff, 0xb5, 0xa3, 0xf3, 0xf3, 0x53, 0xda, 0xf9, 0xf8, 0x27, 0xf4, 0x90, 0xcf, 0xc5,
    0x62, 0xb4, 0x76, 0x31, 0x95, 0xb8, 0xfe, 0x22, 0x2a, 0x4c, 0x02, 0xf4, 0x83, 0xe8, 0x72, 0x60,
    0xdc, 0xb9, 0xef, 0x31, 0xe1, 0x07, 0x1a, 0xcf, 0x9d, 0xee, 0xa0, 0xfd, 0x09, 0x06, 0x47, 0xd6,
    0xdd, 0x8d, 0x62, 0xd9, 0x68, 0xc9, 0x31, 0x36, 0x92, 0x80, 0x6d, 0x45, 0xa0, 0x9b, 0xd6, 0xce,
    0x41, 0x82, 0xcb, 0xfd, 0x12, 0x3a, 0x02, 0xc0, 0x5a, 0xb5, 0x9e, 0x86, 0x35, 0xcc, 0x32, 0x74,
];

fn counting_digest() -> Vec<u8> {
    (0..32).collect()
}

#[test]
fn an_rsa_signature_checks() {
    let verifier = SignatureVerifier::new();
    let mut key = vec![3, 1, 0, 1];
    key.extend_from_slice(&MODULUS);
    let key = BlockData::new(&key);
    assert_eq!(verifier.verify(8, &key, &SIGNATURE, &counting_digest()).unwrap(), true);

    let mut other = SIGNATURE.to_vec();
    other[7] ^= 1;
    assert_eq!(verifier.verify(8, &key, &other, &counting_digest()).unwrap(), false);
    assert_eq!(verifier.verify(8, &key, &SIGNATURE, &[9; 32]).unwrap(), false);
    assert_eq!(verifier.verify(10, &key, &SIGNATURE, &[9; 64]).unwrap(), false);
    assert_eq!(verifier.verify(5, &key, &SIGNATURE, &[9; 20]).unwrap(), false);
}

// A signature of the bytes that count up from zero was made over their digest, as ring makes it.
#[test]
fn an_rsa_signature_of_a_message_checks() {
    let verifier = SignatureVerifier::new();
    let mut key = vec![3, 1, 0, 1];
    key.extend_from_slice(&MODULUS);
    let key = BlockData::new(&key);
    let message = counting_digest();
    assert_eq!(verifier.verify_message(8, &key, &SIGNATURE, &message).unwrap(), true);
    assert_eq!(verifier.verify_message(8, &key, &SIGNATURE, b"any length").unwrap(), false);
    assert_eq!(verifier.verify_message(10, &key, &SIGNATURE, b"any length").unwrap(), false);
    assert!(matches!(
        verifier.verify_message(8, &BlockData::new(&[1]), &SIGNATURE, &message),
        Err(CryptoError::InvalidKeyFormat { .. })
    ));
    assert!(matches!(
        verifier.verify_message(13, &key, &SIGNATURE, &message),
        Err(CryptoError::InvalidKeyFormat { .. })
    ));
    assert!(matches!(
        verifier.verify_message(8, &BlockData::new(&[]), &SIGNATURE, &message),
        Err(CryptoError::KeyExtractionFailed { .. })
    ));
    assert!(matches!(
        verifier.verify_message(16, &key, &SIGNATURE, &message),
        Err(CryptoError::UnsupportedAlgorithm { algorithm: 16 })
    ));
}

#[test]
fn an_ed25519_signature_checks() {
    let pair = ring::signature::Ed25519KeyPair::from_seed_unchecked(&[7; 32]).unwrap();
    let message = b"a message of any length";
    let signature = pair.sign(message);
    let key = BlockData::new(pair.public_key().as_ref());
    let verifier = SignatureVerifier::new();
    assert_eq!(verifier.verify(15, &key, signature.as_ref(), message).unwrap(), true);
    assert_eq!(verifier.verify(15, &key, signature.as_ref(), b"another").unwrap(), false);
}

#[test]
fn ecdsa_signatures_check() {
    let random = ring::rand::SystemRandom::new();
    let cases: [(u8, &'static ring::signature::EcdsaSigningAlgorithm, usize); 2] = [
        (13, &ring::signature::ECDSA_P256_SHA256_FIXED_SIGNING, 32),
        (14, &ring::signature::ECDSA_P384_SHA384_FIXED_SIGNING, 48),
    ];
    for (algorithm, scheme, len) in cases {
        let document = ring::signature::EcdsaKeyPair::generate_pkcs8(scheme, &random).unwrap();
        let pair =
            ring::signature::EcdsaKeyPair::from_pkcs8(scheme, document.as_ref(), &random).unwrap();
        let digest = vec![5u8; len];
        let signature = pair.sign(&random, &digest).unwrap();
        let key = BlockData::new(&pair.public_key().as_ref()[1..]);
        let verifier = SignatureVerifier::new();
        assert_eq!(verifier.verify(algorithm, &key, signature.as_ref(), &digest).unwrap(), true);
        let other = vec![6u8; len];
        assert_eq!(verifier.verify(algorithm, &key, signature.as_ref(), &other).unwrap(), false);
    }
}

#[test]
fn malformed_keys_and_signatures_are_told() {
    let verifier = SignatureVerifier::new();
    let text = |r: Result<bool, CryptoError>| match r {
        Err(e) => e.to_text(),
        Ok(_) => panic!("expected an error"),
    };
    assert_eq!(
        text(verifier.verify(8, &BlockData::new(&[]), &[], &[])),
        "Failed to extract key from BlockData: BlockData retrieve returned empty data"
    );
    assert_eq!(
        text(verifier.verify(1, &BlockData::new(&[1]), &[], &[])),
        "Unsupported DNSSEC algorithm: 1"
    );
    assert_eq!(
        text(verifier.verify(13, &BlockData::new(&[1]), &[], &[0; 31])),
        "Digest length mismatch for algorithm 13: expected 32 bytes, got 31 bytes"
    );
    assert_eq!(
        text(verifier.verify(13, &BlockData::new(&[1]), &[], &[0; 32])),
        "Invalid key format for algorithm 13: ECDSA key wrong length: expected 64 bytes, got 1"
    );
    assert_eq!(
        text(verifier.verify(14, &BlockData::new(&[1; 96]), &[1, 2], &[0; 48])),
        "Invalid signature format for algorithm 14: ECDSA signature wrong length: expected 96 bytes, got 2"
    );
    assert_eq!(
        text(verifier.verify(15, &BlockData::new(&[1]), &[], &[])),
        "Invalid key format for algorithm 15: Ed25519 key wrong length: expected 32 bytes, got 1"
    );
    assert_eq!(
        text(verifier.verify(15, &BlockData::new(&[1; 32]), &[], &[])),
        "Invalid signature format for algorithm 15: Ed25519 signature wrong length: expected 64 bytes, got 0"
    );
}

#[test]
fn a_crypto_error_becomes_a_validation_error() {
    match signature_error(CryptoError::UnsupportedAlgorithm { algorithm: 9 }) {
        DnsmasqError::Dnssec(DnssecError::SignatureVerificationFailed { name, reason }) => {
            assert_eq!(name, "unknown");
            assert_eq!(reason, "Unsupported DNSSEC algorithm: 9");
        }
        _ => panic!("expected a failed verification"),
    }
}

#[test]
fn algorithms_and_their_numbers_belong_together() {
    let mut known = 0;
    for n in 0..=255u8 {
        if let Some(a) = CryptoAlgorithm::from_u8(n) {
            assert_eq!(a.number(), n);
            known += 1;
            if let Some(h) = SignatureVerifier::hash_for_algorithm(n) {
                let len = match h {
                    HashAlgorithm::Sha1 => 20,
                    HashAlgorithm::Sha256 => 32,
                    HashAlgorithm::Sha384 => 48,
                    HashAlgorithm::Sha512 => 64,
                };
                assert_eq!(a.required_digest_len(), len);
            }
        }
    }
    assert!(known > 5);
    assert_eq!(CryptoAlgorithm::Ed25519.to_text(), "Ed25519 (algorithm 15)");
}
