//! Signature checks for DNSSEC.
//!
//! The arithmetic of signatures is ring's; what stands here is which algorithms there are, what a
//! key and a signature of each must look like, and what is handed to ring.
use vstd::prelude::*;
use crate::dns::dnssec::blockdata::BlockData;
use crate::error::{DnsmasqError, DnssecError, Failure};
use crate::text::{dec, message1, message2, message3, message_text};
use crate::wire::{copy_range, put_slice, read_u16, u16_at};

verus! {

/// Why a signature could not be checked.
#[derive(Debug)]
pub enum CryptoError {
    /// The algorithm is not known or not implemented.
    UnsupportedAlgorithm { algorithm: u8 },
    /// The public key is malformed.
    InvalidKeyFormat { algorithm: u8, reason: String },
    /// The signature is malformed.
    InvalidSignatureFormat { algorithm: u8, reason: String },
    /// The message digest has the wrong length.
    DigestLengthMismatch { algorithm: u8, expected: usize, actual: usize },
    /// The signature does not match.
    VerificationFailed { algorithm: u8, reason: String },
    /// There is no key.
    KeyExtractionFailed { reason: String },
    /// The cryptographic library failed.
    RingError { operation: String },
}

/// What a [`CryptoError`] says.
#[verifier::ext_equal]
pub ghost enum CryptoFailure {
    UnsupportedAlgorithm { algorithm: u8 },
    InvalidKeyFormat { algorithm: u8, reason: Seq<char> },
    InvalidSignatureFormat { algorithm: u8, reason: Seq<char> },
    DigestLengthMismatch { algorithm: u8, expected: nat, actual: nat },
    VerificationFailed { algorithm: u8, reason: Seq<char> },
    KeyExtractionFailed { reason: Seq<char> },
    RingError { operation: Seq<char> },
}

impl View for CryptoError {
    type V = CryptoFailure;

    open spec fn view(&self) -> CryptoFailure {
        match *self {
            CryptoError::UnsupportedAlgorithm { algorithm } => CryptoFailure::UnsupportedAlgorithm {
                algorithm,
            },
            CryptoError::InvalidKeyFormat { algorithm, reason } => CryptoFailure::InvalidKeyFormat {
                algorithm,
                reason: reason@,
            },
            CryptoError::InvalidSignatureFormat { algorithm, reason } =>
                CryptoFailure::InvalidSignatureFormat { algorithm, reason: reason@ },
            CryptoError::DigestLengthMismatch { algorithm, expected, actual } =>
                CryptoFailure::DigestLengthMismatch {
                    algorithm,
                    expected: expected as nat,
                    actual: actual as nat,
                },
            CryptoError::VerificationFailed { algorithm, reason } =>
                CryptoFailure::VerificationFailed { algorithm, reason: reason@ },
            CryptoError::KeyExtractionFailed { reason } => CryptoFailure::KeyExtractionFailed {
                reason: reason@,
            },
            CryptoError::RingError { operation } => CryptoFailure::RingError {
                operation: operation@,
            },
        }
    }
}

impl CryptoFailure {
    /// The failure in words.
    pub open spec fn text(self) -> Seq<char> {
        match self {
            CryptoFailure::UnsupportedAlgorithm { algorithm } => "Unsupported DNSSEC algorithm: "@
                + dec(algorithm as nat) + ""@,
            CryptoFailure::InvalidKeyFormat { algorithm, reason } =>
                "Invalid key format for algorithm "@ + dec(algorithm as nat) + ": "@ + reason,
            CryptoFailure::InvalidSignatureFormat { algorithm, reason } =>
                "Invalid signature format for algorithm "@ + dec(algorithm as nat) + ": "@ + reason,
            CryptoFailure::DigestLengthMismatch { algorithm, expected, actual } =>
                "Digest length mismatch for algorithm "@ + dec(algorithm as nat) + ": expected "@
                    + dec(expected) + " bytes, got "@ + dec(actual) + " bytes"@,
            CryptoFailure::VerificationFailed { algorithm, reason } =>
                "Signature verification failed for algorithm "@ + dec(algorithm as nat) + ": "@
                    + reason,
            CryptoFailure::KeyExtractionFailed { reason } =>
                "Failed to extract key from BlockData: "@ + reason + ""@,
            CryptoFailure::RingError { operation } => "Ring cryptographic operation failed: "@
                + operation + ""@,
        }
    }
}

impl CryptoError {
    /// The error in words.
    pub fn to_text(&self) -> (r: String)
        ensures
            r@ == self@.text(),
    {
        match self {
            CryptoError::UnsupportedAlgorithm { algorithm } => message1(
                "Unsupported DNSSEC algorithm: ",
                *algorithm as u64,
                "",
            ),
            CryptoError::InvalidKeyFormat { algorithm, reason } => message1(
                "Invalid key format for algorithm ",
                *algorithm as u64,
                ": ",
            ).concat(reason.as_str()),
            CryptoError::InvalidSignatureFormat { algorithm, reason } => message1(
                "Invalid signature format for algorithm ",
                *algorithm as u64,
                ": ",
            ).concat(reason.as_str()),
            CryptoError::DigestLengthMismatch { algorithm, expected, actual } => message3(
                "Digest length mismatch for algorithm ",
                *algorithm as u64,
                ": expected ",
                *expected as u64,
                " bytes, got ",
                *actual as u64,
            ).concat(" bytes"),
            CryptoError::VerificationFailed { algorithm, reason } => message1(
                "Signature verification failed for algorithm ",
                *algorithm as u64,
                ": ",
            ).concat(reason.as_str()),
            CryptoError::KeyExtractionFailed { reason } => message_text(
                "Failed to extract key from BlockData: ",
                reason.as_str(),
                "",
            ),
            CryptoError::RingError { operation } => message_text(
                "Ring cryptographic operation failed: ",
                operation.as_str(),
                "",
            ),
        }
    }
}

/// The validation error for a signature that could not be checked.
pub fn signature_error(e: CryptoError) -> (r: DnsmasqError)
    ensures
        r@ == (Failure::SignatureVerification { name: "unknown"@, reason: e@.text() }),
{
    DnsmasqError::Dnssec(
        DnssecError::SignatureVerificationFailed {
            name: String::from_str("unknown"),
            reason: e.to_text(),
        },
    )
}

/// True when a result agrees with a verdict or a failure.
pub open spec fn verdict_is(r: Result<bool, CryptoError>, want: Result<bool, CryptoFailure>) -> bool {
    match (r, want) {
        (Ok(b), Ok(w)) => b == w,
        (Err(e), Err(w)) => e@ == w,
        _ => false,
    }
}

/// A check gives the verdict that is wanted where both are the same answer or the same failure.
pub proof fn law_verdict_is_wanted(r: Result<bool, CryptoError>, want: Result<bool, CryptoFailure>)
    requires
        verdict_is(r, want),
    ensures
        r matches Ok(b) ==> want == Ok::<bool, CryptoFailure>(b),
        r matches Err(e) ==> want == Err::<bool, CryptoFailure>(e@),
{
}

/// The DNSSEC algorithms of the IANA registry.
#[derive(Debug, Clone, Copy, PartialEq, Eq, Hash, Structural)]
pub enum CryptoAlgorithm {
    /// RSA/MD5, number 1: must not be used.
    RsaMd5,
    /// DSA/SHA1, number 3: must not be used.
    Dsa,
    /// RSA/SHA1, number 5: legacy.
    RsaSha1,
    /// RSA/SHA1 for zones with NSEC3, number 7: legacy.
    RsaSha1Nsec3,
    /// RSA/SHA256, number 8.
    RsaSha256,
    /// RSA/SHA512, number 10.
    RsaSha512,
    /// GOST, number 12: not implemented.
    EccGost,
    /// ECDSA P-256 with SHA-256, number 13.
    EcdsaP256Sha256,
    /// ECDSA P-384 with SHA-384, number 14.
    EcdsaP384Sha384,
    /// Ed25519, number 15.
    Ed25519,
    /// Ed448, number 16: not implemented.
    Ed448,
}

impl CryptoAlgorithm {
    /// The number of the algorithm.
    pub open spec fn spec_number(self) -> u8 {
        match self {
            CryptoAlgorithm::RsaMd5 => 1,
            CryptoAlgorithm::Dsa => 3,
            CryptoAlgorithm::RsaSha1 => 5,
            CryptoAlgorithm::RsaSha1Nsec3 => 7,
            CryptoAlgorithm::RsaSha256 => 8,
            CryptoAlgorithm::RsaSha512 => 10,
            CryptoAlgorithm::EccGost => 12,
            CryptoAlgorithm::EcdsaP256Sha256 => 13,
            CryptoAlgorithm::EcdsaP384Sha384 => 14,
            CryptoAlgorithm::Ed25519 => 15,
            CryptoAlgorithm::Ed448 => 16,
        }
    }

    /// The algorithm with a number, if there is one.
    pub open spec fn of(value: u8) -> Option<CryptoAlgorithm> {
        match value {
            1 => Some(CryptoAlgorithm::RsaMd5),
            3 => Some(CryptoAlgorithm::Dsa),
            5 => Some(CryptoAlgorithm::RsaSha1),
            7 => Some(CryptoAlgorithm::RsaSha1Nsec3),
            8 => Some(CryptoAlgorithm::RsaSha256),
            10 => Some(CryptoAlgorithm::RsaSha512),
            12 => Some(CryptoAlgorithm::EccGost),
            13 => Some(CryptoAlgorithm::EcdsaP256Sha256),
            14 => Some(CryptoAlgorithm::EcdsaP384Sha384),
            15 => Some(CryptoAlgorithm::Ed25519),
            16 => Some(CryptoAlgorithm::Ed448),
            _ => None,
        }
    }

    /// The number of the algorithm.
    pub fn number(&self) -> (r: u8)
        ensures
            r == self.spec_number(),
    {
        match self {
            CryptoAlgorithm::RsaMd5 => 1,
            CryptoAlgorithm::Dsa => 3,
            CryptoAlgorithm::RsaSha1 => 5,
            CryptoAlgorithm::RsaSha1Nsec3 => 7,
            CryptoAlgorithm::RsaSha256 => 8,
            CryptoAlgorithm::RsaSha512 => 10,
            CryptoAlgorithm::EccGost => 12,
            CryptoAlgorithm::EcdsaP256Sha256 => 13,
            CryptoAlgorithm::EcdsaP384Sha384 => 14,
            CryptoAlgorithm::Ed25519 => 15,
            CryptoAlgorithm::Ed448 => 16,
        }
    }

    /// The algorithm with a number, if there is one.
    pub fn from_u8(value: u8) -> (r: Option<Self>)
        ensures
            r == Self::of(value),
    {
        match value {
            1 => Some(CryptoAlgorithm::RsaMd5),
            3 => Some(CryptoAlgorithm::Dsa),
            5 => Some(CryptoAlgorithm::RsaSha1),
            7 => Some(CryptoAlgorithm::RsaSha1Nsec3),
            8 => Some(CryptoAlgorithm::RsaSha256),
            10 => Some(CryptoAlgorithm::RsaSha512),
            12 => Some(CryptoAlgorithm::EccGost),
            13 => Some(CryptoAlgorithm::EcdsaP256Sha256),
            14 => Some(CryptoAlgorithm::EcdsaP384Sha384),
            15 => Some(CryptoAlgorithm::Ed25519),
            16 => Some(CryptoAlgorithm::Ed448),
            _ => None,
        }
    }

    /// True of the algorithms whose signatures can be checked.
    pub open spec fn supported(self) -> bool {
        self.is_rsa() || self.is_ecdsa() || self is Ed25519
    }

    /// True of the supported RSA algorithms.
    pub open spec fn is_rsa(self) -> bool {
        self is RsaSha1 || self is RsaSha1Nsec3 || self is RsaSha256 || self is RsaSha512
    }

    /// True of the ECDSA algorithms.
    pub open spec fn is_ecdsa(self) -> bool {
        self is EcdsaP256Sha256 || self is EcdsaP384Sha384
    }

    /// True of the algorithms whose signatures can be checked.
    pub fn is_supported(&self) -> (r: bool)
        ensures
            r == self.supported(),
    {
        matches!(
            self,
            CryptoAlgorithm::RsaSha1 | CryptoAlgorithm::RsaSha1Nsec3 | CryptoAlgorithm::RsaSha256
            | CryptoAlgorithm::RsaSha512 | CryptoAlgorithm::EcdsaP256Sha256
            | CryptoAlgorithm::EcdsaP384Sha384 | CryptoAlgorithm::Ed25519
        )
    }

    /// True of the algorithms that must not be used or are not recommended.
    pub open spec fn spec_deprecated(self) -> bool {
        self is RsaMd5 || self is Dsa || self is RsaSha1 || self is RsaSha1Nsec3
    }

    /// True of the algorithms that must not be used or are not recommended.
    pub fn is_deprecated(&self) -> (r: bool)
        ensures
            r == self.spec_deprecated(),
    {
        matches!(
            self,
            CryptoAlgorithm::RsaMd5 | CryptoAlgorithm::Dsa | CryptoAlgorithm::RsaSha1
            | CryptoAlgorithm::RsaSha1Nsec3
        )
    }

    /// The length that a message digest must have; zero where the whole message is signed and for
    /// algorithms that are not supported.
    pub open spec fn digest_len(self) -> nat {
        match self {
            CryptoAlgorithm::RsaSha1 | CryptoAlgorithm::RsaSha1Nsec3 => 20,
            CryptoAlgorithm::RsaSha256 | CryptoAlgorithm::EcdsaP256Sha256 => 32,
            CryptoAlgorithm::RsaSha512 => 64,
            CryptoAlgorithm::EcdsaP384Sha384 => 48,
            _ => 0,
        }
    }

    /// The length that a message digest must have.
    pub fn required_digest_len(&self) -> (r: usize)
        ensures
            r == self.digest_len(),
    {
        match self {
            CryptoAlgorithm::RsaSha1 | CryptoAlgorithm::RsaSha1Nsec3 => 20,
            CryptoAlgorithm::RsaSha256 | CryptoAlgorithm::EcdsaP256Sha256 => 32,
            CryptoAlgorithm::RsaSha512 => 64,
            CryptoAlgorithm::EcdsaP384Sha384 => 48,
            _ => 0,
        }
    }

    /// The name of the algorithm.
    pub open spec fn spec_name(self) -> Seq<char> {
        match self {
            CryptoAlgorithm::RsaMd5 => "RSA/MD5"@,
            CryptoAlgorithm::Dsa => "DSA/SHA1"@,
            CryptoAlgorithm::RsaSha1 => "RSA/SHA1"@,
            CryptoAlgorithm::RsaSha1Nsec3 => "RSA/SHA1-NSEC3"@,
            CryptoAlgorithm::RsaSha256 => "RSA/SHA256"@,
            CryptoAlgorithm::RsaSha512 => "RSA/SHA512"@,
            CryptoAlgorithm::EccGost => "ECC-GOST"@,
            CryptoAlgorithm::EcdsaP256Sha256 => "ECDSA-P256/SHA256"@,
            CryptoAlgorithm::EcdsaP384Sha384 => "ECDSA-P384/SHA384"@,
            CryptoAlgorithm::Ed25519 => "Ed25519"@,
            CryptoAlgorithm::Ed448 => "Ed448"@,
        }
    }

    /// The name and number of the algorithm.
    pub fn to_text(&self) -> (r: String)
        ensures
            r@ == self.spec_name() + " (algorithm "@ + dec(self.spec_number() as nat) + ")"@,
    {
        let name = match self {
            CryptoAlgorithm::RsaMd5 => "RSA/MD5",
            CryptoAlgorithm::Dsa => "DSA/SHA1",
            CryptoAlgorithm::RsaSha1 => "RSA/SHA1",
            CryptoAlgorithm::RsaSha1Nsec3 => "RSA/SHA1-NSEC3",
            CryptoAlgorithm::RsaSha256 => "RSA/SHA256",
            CryptoAlgorithm::RsaSha512 => "RSA/SHA512",
            CryptoAlgorithm::EccGost => "ECC-GOST",
            CryptoAlgorithm::EcdsaP256Sha256 => "ECDSA-P256/SHA256",
            CryptoAlgorithm::EcdsaP384Sha384 => "ECDSA-P384/SHA384",
            CryptoAlgorithm::Ed25519 => "Ed25519",
            CryptoAlgorithm::Ed448 => "Ed448",
        };
        let number = crate::text::decimal(self.number() as u64);
        String::from_str(name).concat(" (algorithm ").concat(number.as_str()).concat(")")
    }
}

/// An algorithm is found by its number, and by no other.
pub proof fn law_algorithm_numbers(algorithm: CryptoAlgorithm, number: u8)
    ensures
        CryptoAlgorithm::of(number) == Some(algorithm) <==> algorithm.spec_number() == number,
{
}

/// The algorithms 1, 3, 5 and 7 are deprecated, and no others.
pub proof fn law_deprecated(number: u8)
    ensures
        CryptoAlgorithm::of(number) matches Some(a) ==> (a.spec_deprecated() <==> number == 1
            || number == 3 || number == 5 || number == 7),
{
}

/// The hash functions of DNSSEC.
#[derive(Debug, Clone, Copy, PartialEq, Eq, Structural)]
pub enum HashAlgorithm {
    Sha1,
    Sha256,
    Sha384,
    Sha512,
}

impl HashAlgorithm {
    /// The number of bytes of a digest.
    pub open spec fn output_len(self) -> nat {
        match self {
            HashAlgorithm::Sha1 => 20,
            HashAlgorithm::Sha256 => 32,
            HashAlgorithm::Sha384 => 48,
            HashAlgorithm::Sha512 => 64,
        }
    }
}

/// The elliptic curve schemes whose keys are byte strings.
#[derive(Debug, Clone, Copy, PartialEq, Eq, Structural)]
pub enum CurveScheme {
    P256,
    P384,
    Ed25519,
}

/// The longest input that is hashed; ring counts bits in 64-bit numbers.
pub const MAX_HASH_INPUT: u64 = 0x1000_0000_0000_0000;

/// The digest of a byte string.
pub uninterp spec fn digest_of(algorithm: HashAlgorithm, data: Seq<u8>) -> Seq<u8>;

/// Whether ring takes `signature` for an RSA PKCS#1 signature of `message` under the key with the
/// given modulus and exponent.
pub uninterp spec fn rsa_verifies(
    hash: HashAlgorithm,
    modulus: Seq<u8>,
    exponent: Seq<u8>,
    message: Seq<u8>,
    signature: Seq<u8>,
) -> bool;

/// Whether ring takes `signature` for a signature of `message` under the given key.
pub uninterp spec fn curve_verifies(
    scheme: CurveScheme,
    key: Seq<u8>,
    message: Seq<u8>,
    signature: Seq<u8>,
) -> bool;

/// `ring::digest::digest` hashes its input; the digest has the length that belongs to the hash
/// function. It panics on inputs whose length in bits does not fit 64 bits.
#[verifier::external_body]
pub(crate) fn digest_bytes(algorithm: HashAlgorithm, data: &[u8]) -> (r: Vec<u8>)
    requires
        data@.len() <= MAX_HASH_INPUT,
    ensures
        r@ == digest_of(algorithm, data@),
        r@.len() == algorithm.output_len(),
{
    let algorithm = match algorithm {
        HashAlgorithm::Sha1 => &ring::digest::SHA1_FOR_LEGACY_USE_ONLY,
        HashAlgorithm::Sha256 => &ring::digest::SHA256,
        HashAlgorithm::Sha384 => &ring::digest::SHA384,
        HashAlgorithm::Sha512 => &ring::digest::SHA512,
    };
    ring::digest::digest(algorithm, data).as_ref().to_vec()
}

/// `RsaPublicKeyComponents::verify` checks a PKCS#1 signature over the hash of `message`; keys of
/// 1024 to 8192 bits are accepted. ring has no parameters for SHA-384 with short keys, so that
/// hash is left out.
#[verifier::external_body]
fn rsa_verify(
    hash: HashAlgorithm,
    modulus: &[u8],
    exponent: &[u8],
    message: &[u8],
    signature: &[u8],
) -> (r: bool)
    requires
        !(hash is Sha384),
        message@.len() <= MAX_HASH_INPUT,
    ensures
        r == rsa_verifies(hash, modulus@, exponent@, message@, signature@),
{
    let parameters = match hash {
        HashAlgorithm::Sha1 => &ring::signature::RSA_PKCS1_1024_8192_SHA1_FOR_LEGACY_USE_ONLY,
        HashAlgorithm::Sha256 => &ring::signature::RSA_PKCS1_1024_8192_SHA256_FOR_LEGACY_USE_ONLY,
        HashAlgorithm::Sha384 => &ring::signature::RSA_PKCS1_2048_8192_SHA384,
        HashAlgorithm::Sha512 => &ring::signature::RSA_PKCS1_1024_8192_SHA512_FOR_LEGACY_USE_ONLY,
    };
    ring::signature::RsaPublicKeyComponents { n: modulus, e: exponent }.verify(
        parameters,
        message,
        signature,
    ).is_ok()
}

/// `UnparsedPublicKey::verify` checks a signature of fixed length over `message` with ECDSA on
/// P-256 (SHA-256) or P-384 (SHA-384), or with Ed25519.
#[verifier::external_body]
fn curve_verify(scheme: CurveScheme, key: &[u8], message: &[u8], signature: &[u8]) -> (r: bool)
    requires
        message@.len() <= MAX_HASH_INPUT,
    ensures
        r == curve_verifies(scheme, key@, message@, signature@),
{
    let algorithm: &'static dyn ring::signature::VerificationAlgorithm = match scheme {
        CurveScheme::P256 => &ring::signature::ECDSA_P256_SHA256_FIXED,
        CurveScheme::P384 => &ring::signature::ECDSA_P384_SHA384_FIXED,
        CurveScheme::Ed25519 => &ring::signature::ED25519,
    };
    ring::signature::UnparsedPublicKey::new(algorithm, key).verify(message, signature).is_ok()
}

/// The exponent and modulus of an RSA key (RFC 3110), or why there are none. The length of the
/// exponent stands in the first byte, or in the second and third where the first is zero; the
/// modulus is the rest.
pub open spec fn parse_rsa(key: Seq<u8>) -> Result<(Seq<u8>, Seq<u8>), Seq<char>> {
    if key.len() < 3 {
        Err("RSA key too short: "@ + dec(key.len()) + " bytes (minimum 3)"@)
    } else {
        let start: int = if key[0] == 0 {
            3
        } else {
            1
        };
        let len: int = if key[0] == 0 {
            u16_at(key, 1) as int
        } else {
            key[0] as int
        };
        if len == 0 {
            Err("RSA exponent length is zero"@)
        } else if start + len > key.len() {
            Err(
                "RSA exponent extends beyond key data: "@ + dec((start + len) as nat) + " > "@ + dec(
                    key.len(),
                ) + ""@,
            )
        } else if start + len == key.len() {
            Err("RSA modulus is empty"@)
        } else {
            Ok((key.subrange(start, start + len), key.skip(start + len)))
        }
    }
}

/// The hash function of an algorithm, where a digest is signed.
pub open spec fn hash_of(algorithm: u8) -> Option<HashAlgorithm> {
    if algorithm == 5 || algorithm == 7 {
        Some(HashAlgorithm::Sha1)
    } else if algorithm == 8 || algorithm == 13 {
        Some(HashAlgorithm::Sha256)
    } else if algorithm == 10 {
        Some(HashAlgorithm::Sha512)
    } else if algorithm == 14 {
        Some(HashAlgorithm::Sha384)
    } else {
        None
    }
}

/// What the check of an RSA signature of a message gives.
pub open spec fn rsa_message_verdict(
    algorithm: u8,
    key: Seq<u8>,
    signature: Seq<u8>,
    message: Seq<u8>,
) -> Result<bool, CryptoFailure> {
    match parse_rsa(key) {
        Err(reason) => Err(CryptoFailure::InvalidKeyFormat { algorithm, reason }),
        Ok((exponent, modulus)) => if CryptoAlgorithm::of(algorithm)->0.is_rsa() {
            Ok(rsa_verifies(hash_of(algorithm)->0, modulus, exponent, message, signature))
        } else {
            Err(CryptoFailure::UnsupportedAlgorithm { algorithm })
        },
    }
}

/// What the check of an RSA signature gives where a digest is the message.
pub open spec fn rsa_verdict(
    algorithm: u8,
    key: Seq<u8>,
    signature: Seq<u8>,
    digest: Seq<u8>,
) -> Result<bool, CryptoFailure> {
    let algo = CryptoAlgorithm::of(algorithm)->0;
    if digest.len() != algo.digest_len() {
        Err(
            CryptoFailure::DigestLengthMismatch {
                algorithm,
                expected: algo.digest_len(),
                actual: digest.len(),
            },
        )
    } else {
        rsa_message_verdict(algorithm, key, signature, digest)
    }
}

/// What the check of an ECDSA signature of a message gives. The key is the two coordinates of a
/// point; ring wants the byte 4 in front of them.
pub open spec fn ecdsa_message_verdict(
    algorithm: u8,
    key: Seq<u8>,
    signature: Seq<u8>,
    message: Seq<u8>,
) -> Result<bool, CryptoFailure> {
    let size: nat = if algorithm == 13 {
        64
    } else {
        96
    };
    if !CryptoAlgorithm::of(algorithm)->0.is_ecdsa() {
        Err(CryptoFailure::UnsupportedAlgorithm { algorithm })
    } else if key.len() != size {
        Err(
            CryptoFailure::InvalidKeyFormat {
                algorithm,
                reason: "ECDSA key wrong length: expected "@ + dec(size) + " bytes, got "@ + dec(
                    key.len(),
                ) + ""@,
            },
        )
    } else if signature.len() != size {
        Err(
            CryptoFailure::InvalidSignatureFormat {
                algorithm,
                reason: "ECDSA signature wrong length: expected "@ + dec(size) + " bytes, got "@
                    + dec(signature.len()) + ""@,
            },
        )
    } else {
        Ok(
            curve_verifies(
                if algorithm == 13 {
                    CurveScheme::P256
                } else {
                    CurveScheme::P384
                },
                seq![4u8] + key,
                message,
                signature,
            ),
        )
    }
}

/// What the check of an ECDSA signature gives where a digest is the message.
pub open spec fn ecdsa_verdict(
    algorithm: u8,
    key: Seq<u8>,
    signature: Seq<u8>,
    digest: Seq<u8>,
) -> Result<bool, CryptoFailure> {
    let algo = CryptoAlgorithm::of(algorithm)->0;
    if digest.len() != algo.digest_len() {
        Err(
            CryptoFailure::DigestLengthMismatch {
                algorithm,
                expected: algo.digest_len(),
                actual: digest.len(),
            },
        )
    } else {
        ecdsa_message_verdict(algorithm, key, signature, digest)
    }
}

/// What the check of an Ed25519 signature gives.
pub open spec fn eddsa_verdict(
    algorithm: u8,
    key: Seq<u8>,
    signature: Seq<u8>,
    message: Seq<u8>,
) -> Result<bool, CryptoFailure> {
    if key.len() != 32 {
        Err(
            CryptoFailure::InvalidKeyFormat {
                algorithm,
                reason: "Ed25519 key wrong length: expected "@ + dec(32) + " bytes, got "@ + dec(
                    key.len(),
                ) + ""@,
            },
        )
    } else if signature.len() != 64 {
        Err(
            CryptoFailure::InvalidSignatureFormat {
                algorithm,
                reason: "Ed25519 signature wrong length: expected "@ + dec(64) + " bytes, got "@
                    + dec(signature.len()) + ""@,
            },
        )
    } else {
        Ok(curve_verifies(CurveScheme::Ed25519, key, message, signature))
    }
}

/// True of the numbers of the algorithms whose signatures can be checked.
pub open spec fn checkable(algorithm: u8) -> bool {
    CryptoAlgorithm::of(algorithm) matches Some(a) && a.supported()
}

/// What the check of a signature of a message gives; the algorithms that sign digests make the
/// digest themselves.
pub open spec fn message_verdict(
    algorithm: u8,
    key: Seq<u8>,
    signature: Seq<u8>,
    data: Seq<u8>,
) -> Result<bool, CryptoFailure> {
    let algo = CryptoAlgorithm::of(algorithm)->0;
    if !checkable(algorithm) {
        Err(CryptoFailure::UnsupportedAlgorithm { algorithm })
    } else if key.len() == 0 {
        Err(
            CryptoFailure::KeyExtractionFailed {
                reason: "BlockData retrieve returned empty data"@,
            },
        )
    } else if algo.is_rsa() {
        rsa_message_verdict(algorithm, key, signature, data)
    } else if algo.is_ecdsa() {
        ecdsa_message_verdict(algorithm, key, signature, data)
    } else {
        eddsa_verdict(algorithm, key, signature, data)
    }
}

/// What the check of a signature gives where a digest is the message.
pub open spec fn verdict(
    algorithm: u8,
    key: Seq<u8>,
    signature: Seq<u8>,
    digest: Seq<u8>,
) -> Result<bool, CryptoFailure> {
    let algo = CryptoAlgorithm::of(algorithm)->0;
    if !checkable(algorithm) {
        Err(CryptoFailure::UnsupportedAlgorithm { algorithm })
    } else if key.len() == 0 {
        Err(
            CryptoFailure::KeyExtractionFailed {
                reason: "BlockData retrieve returned empty data"@,
            },
        )
    } else if algo.is_rsa() {
        rsa_verdict(algorithm, key, signature, digest)
    } else if algo.is_ecdsa() {
        ecdsa_verdict(algorithm, key, signature, digest)
    } else {
        eddsa_verdict(algorithm, key, signature, digest)
    }
}

/// Checks signatures. It has no state.
#[derive(Debug, Clone, Copy)]
pub struct SignatureVerifier;

impl SignatureVerifier {
    /// A verifier.
    pub fn new() -> (r: Self) {
        SignatureVerifier
    }

    /// Checks a signature of a digest with the algorithm of the given number. The digest is what is
    /// signed: the algorithms that sign digests make a digest of it once more.
    pub fn verify(
        &self,
        algorithm: u8,
        key_data: &BlockData,
        signature: &[u8],
        message_digest: &[u8],
    ) -> (r: Result<bool, CryptoError>)
        requires
            message_digest@.len() <= MAX_HASH_INPUT,
        ensures
            verdict_is(r, verdict(algorithm, key_data@, signature@, message_digest@)),
    {
        let algo = match CryptoAlgorithm::from_u8(algorithm) {
            Some(a) => a,
            None => {
                return Err(CryptoError::UnsupportedAlgorithm { algorithm });
            },
        };
        if !algo.is_supported() {
            return Err(CryptoError::UnsupportedAlgorithm { algorithm });
        }
        let key = key_data.retrieve();
        if key.len() == 0 {
            return Err(
                CryptoError::KeyExtractionFailed {
                    reason: String::from_str("BlockData retrieve returned empty data"),
                },
            );
        }
        match algo {
            CryptoAlgorithm::EcdsaP256Sha256 | CryptoAlgorithm::EcdsaP384Sha384 =>
                self.verify_ecdsa(algorithm, key.as_slice(), signature, message_digest),
            CryptoAlgorithm::Ed25519 => self.verify_eddsa(
                algorithm,
                key.as_slice(),
                signature,
                message_digest,
            ),
            _ => self.verify_rsa(algorithm, key.as_slice(), signature, message_digest),
        }
    }

    /// Checks a signature of a message: of the data of a record set, say. The algorithms that sign
    /// digests make the digest themselves.
    pub fn verify_message(
        &self,
        algorithm: u8,
        key_data: &BlockData,
        signature: &[u8],
        data: &[u8],
    ) -> (r: Result<bool, CryptoError>)
        requires
            data@.len() <= MAX_HASH_INPUT,
        ensures
            verdict_is(r, message_verdict(algorithm, key_data@, signature@, data@)),
    {
        let algo = match CryptoAlgorithm::from_u8(algorithm) {
            Some(a) => a,
            None => {
                return Err(CryptoError::UnsupportedAlgorithm { algorithm });
            },
        };
        if !algo.is_supported() {
            return Err(CryptoError::UnsupportedAlgorithm { algorithm });
        }
        let key = key_data.retrieve();
        if key.len() == 0 {
            return Err(
                CryptoError::KeyExtractionFailed {
                    reason: String::from_str("BlockData retrieve returned empty data"),
                },
            );
        }
        match algo {
            CryptoAlgorithm::EcdsaP256Sha256 | CryptoAlgorithm::EcdsaP384Sha384 =>
                self.check_ecdsa(algorithm, algo, key.as_slice(), signature, data),
            CryptoAlgorithm::Ed25519 => self.verify_eddsa(
                algorithm,
                key.as_slice(),
                signature,
                data,
            ),
            _ => self.check_rsa(algorithm, algo, key.as_slice(), signature, data),
        }
    }

    /// Checks an RSA signature of a digest.
    pub fn verify_rsa(
        &self,
        algorithm: u8,
        key_bytes: &[u8],
        signature: &[u8],
        message_digest: &[u8],
    ) -> (r: Result<bool, CryptoError>)
        requires
            CryptoAlgorithm::of(algorithm) is Some,
        ensures
            verdict_is(r, rsa_verdict(algorithm, key_bytes@, signature@, message_digest@)),
    {
        let algo = match CryptoAlgorithm::from_u8(algorithm) {
            Some(a) => a,
            None => {
                return Err(CryptoError::UnsupportedAlgorithm { algorithm });
            },
        };
        let expected: usize = algo.required_digest_len();
        if message_digest.len() != expected {
            return Err(
                CryptoError::DigestLengthMismatch {
                    algorithm,
                    expected,
                    actual: message_digest.len(),
                },
            );
        }
        self.check_rsa(algorithm, algo, key_bytes, signature, message_digest)
    }

    /// Checks an RSA signature of a message.
    fn check_rsa(
        &self,
        algorithm: u8,
        algo: CryptoAlgorithm,
        key_bytes: &[u8],
        signature: &[u8],
        message: &[u8],
    ) -> (r: Result<bool, CryptoError>)
        requires
            CryptoAlgorithm::of(algorithm) == Some(algo),
            message@.len() <= MAX_HASH_INPUT,
        ensures
            verdict_is(r, rsa_message_verdict(algorithm, key_bytes@, signature@, message@)),
    {
        let (exponent, modulus) = match Self::parse_rsa_key(key_bytes, algorithm) {
            Ok(parts) => parts,
            Err(e) => {
                return Err(e);
            },
        };
        let hash = match algo {
            CryptoAlgorithm::RsaSha1 | CryptoAlgorithm::RsaSha1Nsec3 => HashAlgorithm::Sha1,
            CryptoAlgorithm::RsaSha256 => HashAlgorithm::Sha256,
            CryptoAlgorithm::RsaSha512 => HashAlgorithm::Sha512,
            _ => {
                return Err(CryptoError::UnsupportedAlgorithm { algorithm });
            },
        };
        Ok(rsa_verify(hash, modulus.as_slice(), exponent.as_slice(), message, signature))
    }

    /// The exponent and modulus of an RSA key.
    pub fn parse_rsa_key(key_bytes: &[u8], algorithm: u8) -> (r: Result<
        (Vec<u8>, Vec<u8>),
        CryptoError,
    >)
        ensures
            match (r, parse_rsa(key_bytes@)) {
                (Ok(p), Ok(m)) => p.0@ == m.0 && p.1@ == m.1,
                (Err(e), Err(t)) => e@ == (CryptoFailure::InvalidKeyFormat { algorithm, reason: t }),
                _ => false,
            },
    {
        let n: usize = key_bytes.len();
        if n < 3 {
            return Err(
                CryptoError::InvalidKeyFormat {
                    algorithm,
                    reason: message1("RSA key too short: ", n as u64, " bytes (minimum 3)"),
                },
            );
        }
        let (len, start): (usize, usize) = if key_bytes[0] == 0 {
            (read_u16(key_bytes, 1) as usize, 3)
        } else {
            (key_bytes[0] as usize, 1)
        };
        if len == 0 {
            return Err(
                CryptoError::InvalidKeyFormat {
                    algorithm,
                    reason: String::from_str("RSA exponent length is zero"),
                },
            );
        }
        let end: usize = start + len;
        if end > n {
            return Err(
                CryptoError::InvalidKeyFormat {
                    algorithm,
                    reason: message2(
                        "RSA exponent extends beyond key data: ",
                        end as u64,
                        " > ",
                        n as u64,
                        "",
                    ),
                },
            );
        }
        if end == n {
            return Err(
                CryptoError::InvalidKeyFormat {
                    algorithm,
                    reason: String::from_str("RSA modulus is empty"),
                },
            );
        }
        let exponent = copy_range(key_bytes, start, end);
        let modulus = copy_range(key_bytes, end, n);
        assert(modulus@ =~= key_bytes@.skip(end as int));
        Ok((exponent, modulus))
    }

    /// Checks an ECDSA signature of a digest.
    pub fn verify_ecdsa(
        &self,
        algorithm: u8,
        key_bytes: &[u8],
        signature: &[u8],
        message_digest: &[u8],
    ) -> (r: Result<bool, CryptoError>)
        requires
            CryptoAlgorithm::of(algorithm) is Some,
        ensures
            verdict_is(r, ecdsa_verdict(algorithm, key_bytes@, signature@, message_digest@)),
    {
        let algo = match CryptoAlgorithm::from_u8(algorithm) {
            Some(a) => a,
            None => {
                return Err(CryptoError::UnsupportedAlgorithm { algorithm });
            },
        };
        let expected: usize = algo.required_digest_len();
        if message_digest.len() != expected {
            return Err(
                CryptoError::DigestLengthMismatch {
                    algorithm,
                    expected,
                    actual: message_digest.len(),
                },
            );
        }
        self.check_ecdsa(algorithm, algo, key_bytes, signature, message_digest)
    }

    /// Checks an ECDSA signature of a message.
    fn check_ecdsa(
        &self,
        algorithm: u8,
        algo: CryptoAlgorithm,
        key_bytes: &[u8],
        signature: &[u8],
        message: &[u8],
    ) -> (r: Result<bool, CryptoError>)
        requires
            CryptoAlgorithm::of(algorithm) == Some(algo),
            message@.len() <= MAX_HASH_INPUT,
        ensures
            verdict_is(r, ecdsa_message_verdict(algorithm, key_bytes@, signature@, message@)),
    {
        let (scheme, size): (CurveScheme, usize) = match algo {
            CryptoAlgorithm::EcdsaP256Sha256 => (CurveScheme::P256, 64),
            CryptoAlgorithm::EcdsaP384Sha384 => (CurveScheme::P384, 96),
            _ => {
                return Err(CryptoError::UnsupportedAlgorithm { algorithm });
            },
        };
        if key_bytes.len() != size {
            return Err(
                CryptoError::InvalidKeyFormat {
                    algorithm,
                    reason: message2(
                        "ECDSA key wrong length: expected ",
                        size as u64,
                        " bytes, got ",
                        key_bytes.len() as u64,
                        "",
                    ),
                },
            );
        }
        if signature.len() != size {
            return Err(
                CryptoError::InvalidSignatureFormat {
                    algorithm,
                    reason: message2(
                        "ECDSA signature wrong length: expected ",
                        size as u64,
                        " bytes, got ",
                        signature.len() as u64,
                        "",
                    ),
                },
            );
        }
        let mut point: Vec<u8> = Vec::new();
        point.push(4);
        put_slice(&mut point, key_bytes);
        assert(point@ =~= seq![4u8] + key_bytes@);
        Ok(curve_verify(scheme, point.as_slice(), message, signature))
    }

    /// Checks an Ed25519 signature; it covers the message itself, not a digest.
    pub fn verify_eddsa(
        &self,
        algorithm: u8,
        key_bytes: &[u8],
        signature: &[u8],
        message: &[u8],
    ) -> (r: Result<bool, CryptoError>)
        requires
            message@.len() <= MAX_HASH_INPUT,
        ensures
            verdict_is(r, eddsa_verdict(algorithm, key_bytes@, signature@, message@)),
    {
        if key_bytes.len() != 32 {
            return Err(
                CryptoError::InvalidKeyFormat {
                    algorithm,
                    reason: message2(
                        "Ed25519 key wrong length: expected ",
                        32,
                        " bytes, got ",
                        key_bytes.len() as u64,
                        "",
                    ),
                },
            );
        }
        if signature.len() != 64 {
            return Err(
                CryptoError::InvalidSignatureFormat {
                    algorithm,
                    reason: message2(
                        "Ed25519 signature wrong length: expected ",
                        64,
                        " bytes, got ",
                        signature.len() as u64,
                        "",
                    ),
                },
            );
        }
        Ok(curve_verify(CurveScheme::Ed25519, key_bytes, message, signature))
    }

    /// The hash function of an algorithm; none where the message itself is signed and for
    /// algorithms that are not supported.
    pub fn hash_for_algorithm(algorithm: u8) -> (r: Option<HashAlgorithm>)
        ensures
            r == hash_of(algorithm),
    {
        match algorithm {
            5 | 7 => Some(HashAlgorithm::Sha1),
            8 | 13 => Some(HashAlgorithm::Sha256),
            10 => Some(HashAlgorithm::Sha512),
            14 => Some(HashAlgorithm::Sha384),
            _ => None,
        }
    }
}

impl Default for SignatureVerifier {
    fn default() -> (r: Self) {
        SignatureVerifier
    }
}

/// An RSA key is its exponent and its modulus, in this order, behind the length of the exponent: one
/// byte where it is below 256, or a zero and two bytes. Every key that can be read has one of these
/// forms, and no part of it is empty.
pub proof fn law_rsa_key_form(exponent: Seq<u8>, modulus: Seq<u8>, key: Seq<u8>)
    requires
        exponent.len() > 0,
        modulus.len() > 0,
    ensures
        exponent.len() < 256 ==> parse_rsa(seq![exponent.len() as u8] + exponent + modulus) == Ok::<
            (Seq<u8>, Seq<u8>),
            Seq<char>,
        >((exponent, modulus)),
        exponent.len() < 0x1_0000 ==> parse_rsa(
            seq![0u8, (exponent.len() / 256) as u8, (exponent.len() % 256) as u8] + exponent
                + modulus,
        ) == Ok::<(Seq<u8>, Seq<u8>), Seq<char>>((exponent, modulus)),
        parse_rsa(key) matches Ok((e, m)) ==> e.len() > 0 && m.len() > 0 && (key == seq![
            e.len() as u8,
        ] + e + m || key == seq![0u8, (e.len() / 256) as u8, (e.len() % 256) as u8] + e + m),
{
    if exponent.len() < 256 {
        let short = seq![exponent.len() as u8] + exponent + modulus;
        assert(short.subrange(1, 1 + exponent.len() as int) =~= exponent);
        assert(short.skip(1 + exponent.len() as int) =~= modulus);
    }
    if exponent.len() < 0x1_0000 {
        let long = seq![0u8, (exponent.len() / 256) as u8, (exponent.len() % 256) as u8] + exponent
            + modulus;
        assert(u16_at(long, 1) == exponent.len());
        assert(long.subrange(3, 3 + exponent.len() as int) =~= exponent);
        assert(long.skip(3 + exponent.len() as int) =~= modulus);
    }
    if let Ok((e, m)) = parse_rsa(key) {
        if key[0] == 0 {
            assert(key =~= seq![0u8, (e.len() / 256) as u8, (e.len() % 256) as u8] + e + m);
        } else {
            assert(key =~= seq![e.len() as u8] + e + m);
        }
    }
}

/// The signature of a message by an RSA key is checked with the hash function that belongs to the
/// number of the algorithm: SHA-1 for 5 and 7, SHA-256 for 8, SHA-512 for 10.
pub proof fn law_rsa_check(key: Seq<u8>, exponent: Seq<u8>, modulus: Seq<u8>, signature: Seq<u8>, data: Seq<u8>)
    requires
        parse_rsa(key) == Ok::<(Seq<u8>, Seq<u8>), Seq<char>>((exponent, modulus)),
    ensures
        message_verdict(5, key, signature, data) == Ok::<bool, CryptoFailure>(
            rsa_verifies(HashAlgorithm::Sha1, modulus, exponent, data, signature),
        ),
        message_verdict(7, key, signature, data) == Ok::<bool, CryptoFailure>(
            rsa_verifies(HashAlgorithm::Sha1, modulus, exponent, data, signature),
        ),
        message_verdict(8, key, signature, data) == Ok::<bool, CryptoFailure>(
            rsa_verifies(HashAlgorithm::Sha256, modulus, exponent, data, signature),
        ),
        message_verdict(10, key, signature, data) == Ok::<bool, CryptoFailure>(
            rsa_verifies(HashAlgorithm::Sha512, modulus, exponent, data, signature),
        ),
        data.len() == 20 ==> verdict(5, key, signature, data) == Ok::<bool, CryptoFailure>(
            rsa_verifies(HashAlgorithm::Sha1, modulus, exponent, data, signature),
        ),
        data.len() == 20 ==> verdict(7, key, signature, data) == Ok::<bool, CryptoFailure>(
            rsa_verifies(HashAlgorithm::Sha1, modulus, exponent, data, signature),
        ),
        data.len() == 32 ==> verdict(8, key, signature, data) == Ok::<bool, CryptoFailure>(
            rsa_verifies(HashAlgorithm::Sha256, modulus, exponent, data, signature),
        ),
        data.len() == 64 ==> verdict(10, key, signature, data) == Ok::<bool, CryptoFailure>(
            rsa_verifies(HashAlgorithm::Sha512, modulus, exponent, data, signature),
        ),
        verdict(5, key, signature, data) is Ok <==> data.len() == 20,
        verdict(7, key, signature, data) is Ok <==> data.len() == 20,
        verdict(8, key, signature, data) is Ok <==> data.len() == 32,
        verdict(10, key, signature, data) is Ok <==> data.len() == 64,
{
}

/// A key that is no RSA key checks no signature: it is refused, whatever the signature and the
/// message are.
pub proof fn law_malformed_rsa_keys_are_refused(key: Seq<u8>, signature: Seq<u8>, data: Seq<u8>)
    requires
        key.len() > 0,
        parse_rsa(key) is Err,
    ensures
        message_verdict(5, key, signature, data) matches Err(CryptoFailure::InvalidKeyFormat { algorithm, .. })
            && algorithm == 5,
        message_verdict(7, key, signature, data) matches Err(CryptoFailure::InvalidKeyFormat { algorithm, .. })
            && algorithm == 7,
        message_verdict(8, key, signature, data) matches Err(CryptoFailure::InvalidKeyFormat { algorithm, .. })
            && algorithm == 8,
        message_verdict(10, key, signature, data) matches Err(CryptoFailure::InvalidKeyFormat { algorithm, .. })
            && algorithm == 10,
{
}

/// Signatures on curves are checked with the scheme of the number, P-256 for 13, P-384 for 14 and
/// Ed25519 for 15, where the key and the signature have the lengths of the scheme; a point is
/// marked as uncompressed by the byte 4. Nothing else is checked.
pub proof fn law_curve_check(key: Seq<u8>, signature: Seq<u8>, data: Seq<u8>)
    ensures
        message_verdict(13, key, signature, data) is Ok <==> key.len() == 64 && signature.len() == 64,
        key.len() == 64 && signature.len() == 64 ==> message_verdict(13, key, signature, data) == Ok::<
            bool,
            CryptoFailure,
        >(curve_verifies(CurveScheme::P256, seq![4u8] + key, data, signature)),
        message_verdict(14, key, signature, data) is Ok <==> key.len() == 96 && signature.len() == 96,
        key.len() == 96 && signature.len() == 96 ==> message_verdict(14, key, signature, data) == Ok::<
            bool,
            CryptoFailure,
        >(curve_verifies(CurveScheme::P384, seq![4u8] + key, data, signature)),
        message_verdict(15, key, signature, data) is Ok <==> key.len() == 32 && signature.len() == 64,
        key.len() == 32 && signature.len() == 64 ==> message_verdict(15, key, signature, data) == Ok::<
            bool,
            CryptoFailure,
        >(curve_verifies(CurveScheme::Ed25519, key, data, signature)),
        verdict(13, key, signature, data) == if key.len() > 0 && data.len() != 32 {
            Err::<bool, CryptoFailure>(
                CryptoFailure::DigestLengthMismatch {
                    algorithm: 13,
                    expected: 32,
                    actual: data.len(),
                },
            )
        } else {
            message_verdict(13, key, signature, data)
        },
        verdict(14, key, signature, data) == if key.len() > 0 && data.len() != 48 {
            Err::<bool, CryptoFailure>(
                CryptoFailure::DigestLengthMismatch {
                    algorithm: 14,
                    expected: 48,
                    actual: data.len(),
                },
            )
        } else {
            message_verdict(14, key, signature, data)
        },
        verdict(15, key, signature, data) == message_verdict(15, key, signature, data),
{
}

/// The algorithms whose signatures can be checked are those with the numbers 5, 7, 8, 10, 13, 14
/// and 15. A signature under any other number is refused.
pub proof fn law_checkable_numbers(algorithm: u8, key: Seq<u8>, signature: Seq<u8>, data: Seq<u8>)
    ensures
        checkable(algorithm) <==> algorithm == 5 || algorithm == 7 || algorithm == 8 || algorithm == 10
            || algorithm == 13 || algorithm == 14 || algorithm == 15,
        !checkable(algorithm) ==> message_verdict(algorithm, key, signature, data) is Err && verdict(
            algorithm,
            key,
            signature,
            data,
        ) is Err,
        CryptoAlgorithm::of(algorithm) is Some <==> checkable(algorithm) || algorithm == 1 || algorithm
            == 3 || algorithm == 12 || algorithm == 16,
        hash_of(algorithm) is Some <==> checkable(algorithm) && algorithm != 15,
{
}

/// The digest of a hash function has the length that its name says: 160, 256, 384 or 512 bits. The
/// hash function of an algorithm is the one that is in its name.
pub proof fn law_hash_functions()
    ensures
        8 * HashAlgorithm::Sha1.output_len() == 160,
        8 * HashAlgorithm::Sha256.output_len() == 256,
        8 * HashAlgorithm::Sha384.output_len() == 384,
        8 * HashAlgorithm::Sha512.output_len() == 512,
        hash_of(5) == Some(HashAlgorithm::Sha1),
        hash_of(7) == Some(HashAlgorithm::Sha1),
        hash_of(8) == Some(HashAlgorithm::Sha256),
        hash_of(10) == Some(HashAlgorithm::Sha512),
        hash_of(13) == Some(HashAlgorithm::Sha256),
        hash_of(14) == Some(HashAlgorithm::Sha384),
        CryptoAlgorithm::RsaSha1.digest_len() == HashAlgorithm::Sha1.output_len(),
        CryptoAlgorithm::RsaSha1Nsec3.digest_len() == HashAlgorithm::Sha1.output_len(),
        CryptoAlgorithm::RsaSha256.digest_len() == HashAlgorithm::Sha256.output_len(),
        CryptoAlgorithm::RsaSha512.digest_len() == HashAlgorithm::Sha512.output_len(),
        CryptoAlgorithm::EcdsaP256Sha256.digest_len() == HashAlgorithm::Sha256.output_len(),
        CryptoAlgorithm::EcdsaP384Sha384.digest_len() == HashAlgorithm::Sha384.output_len(),
        CryptoAlgorithm::RsaSha1.spec_number() == 5,
        CryptoAlgorithm::RsaSha1Nsec3.spec_number() == 7,
        CryptoAlgorithm::RsaSha256.spec_number() == 8,
        CryptoAlgorithm::RsaSha512.spec_number() == 10,
        CryptoAlgorithm::EcdsaP256Sha256.spec_number() == 13,
        CryptoAlgorithm::EcdsaP384Sha384.spec_number() == 14,
        CryptoAlgorithm::Ed25519.spec_number() == 15,
        CryptoAlgorithm::RsaMd5.spec_number() == 1,
        CryptoAlgorithm::Dsa.spec_number() == 3,
        CryptoAlgorithm::EccGost.spec_number() == 12,
        CryptoAlgorithm::Ed448.spec_number() == 16,
{
}

/// A digest made with the hash function of an algorithm has the length that the algorithm wants,
/// and an algorithm has a hash function exactly when it wants a digest.
pub proof fn law_digest_fits_algorithm(algorithm: CryptoAlgorithm)
    ensures
        match hash_of(algorithm.spec_number()) {
            Some(h) => h.output_len() == algorithm.digest_len(),
            None => algorithm.digest_len() == 0,
        },
{
}

/// An algorithm that is not supported, or that has no number, verifies nothing.
pub proof fn law_unsupported_never_verifies(
    algorithm: u8,
    key: Seq<u8>,
    signature: Seq<u8>,
    digest: Seq<u8>,
)
    ensures
        !checkable(algorithm) ==> verdict(algorithm, key, signature, digest) == Err::<bool, CryptoFailure>(
            CryptoFailure::UnsupportedAlgorithm { algorithm },
        ) && message_verdict(algorithm, key, signature, digest) == Err::<bool, CryptoFailure>(
            CryptoFailure::UnsupportedAlgorithm { algorithm },
        ),
{
}

} // verus!
