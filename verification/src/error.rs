//! Error types.
use vstd::prelude::*;
use crate::types::Ipv6Addr;
use crate::text::{dec, decimal, message1, message2, message_text};

verus! {

/// Failures of DNS message handling.
#[derive(Debug)]
pub enum DnsError {
    /// An EDNS0 record or option is malformed.
    Edns0Failed { reason: String },
    /// A domain name is not valid.
    InvalidName { name: String, reason: String },
    /// A client may not query a zone.
    AuthFailed { zone: String, reason: String },
}

/// Failures of DNSSEC validation.
#[derive(Debug)]
pub enum DnssecError {
    /// A limit on the work of a validation is reached.
    TooMuchWork { work_units: u64 },
    /// A zone has no key.
    NoKey { name: String },
    /// A zone is not signed.
    NonSecure { name: String },
    /// A key does not match the delegation.
    ChainOfTrustBroken { name: String, reason: String },
    /// A record is malformed.
    BadPacket { reason: String },
    /// The digest type of a delegation is not supported.
    NoDsSupported { digest_algorithm_id: u8 },
    /// The hash algorithm of a denial is not supported.
    NoKeysSupported { algorithm_id: u8 },
    /// A denial asks for too many hash iterations.
    TooManyIterations { iterations: u32, max_iterations: u32 },
    /// The clock does not tell the time.
    Indeterminate { name: String, reason: String },
    /// A trust anchor is not valid or not there.
    TrustAnchorFailed { reason: String },
    /// A signature could not be checked.
    SignatureVerificationFailed { name: String, reason: String },
}

/// Failures of reading configuration.
#[derive(Debug)]
pub enum ConfigError {
    /// A line does not parse.
    ParseError { file_path: String, line_number: usize, reason: String },
}

/// Any failure of the DNS side of the library.
#[derive(Debug)]
pub enum DnsmasqError {
    Dns(DnsError),
    Dnssec(DnssecError),
    Config(ConfigError),
}

/// What a [`DnsmasqError`] says.
#[verifier::ext_equal]
pub ghost enum Failure {
    Edns0 { reason: Seq<char> },
    InvalidName { name: Seq<char>, reason: Seq<char> },
    Auth { zone: Seq<char>, reason: Seq<char> },
    TooMuchWork { work_units: nat },
    NoKey { name: Seq<char> },
    NonSecure { name: Seq<char> },
    ChainOfTrustBroken { name: Seq<char>, reason: Seq<char> },
    BadPacket { reason: Seq<char> },
    NoDsSupported { digest_algorithm_id: u8 },
    NoKeysSupported { algorithm_id: u8 },
    TooManyIterations { iterations: nat, max_iterations: nat },
    Indeterminate { name: Seq<char>, reason: Seq<char> },
    TrustAnchor { reason: Seq<char> },
    SignatureVerification { name: Seq<char>, reason: Seq<char> },
    Parse { file_path: Seq<char>, line_number: nat, reason: Seq<char> },
}

impl View for DnsmasqError {
    type V = Failure;

    open spec fn view(&self) -> Failure {
        match *self {
            DnsmasqError::Dns(e) => match e {
                DnsError::Edns0Failed { reason } => Failure::Edns0 { reason: reason@ },
                DnsError::InvalidName { name, reason } => Failure::InvalidName {
                    name: name@,
                    reason: reason@,
                },
                DnsError::AuthFailed { zone, reason } => Failure::Auth {
                    zone: zone@,
                    reason: reason@,
                },
            },
            DnsmasqError::Dnssec(e) => match e {
                DnssecError::TooMuchWork { work_units } => Failure::TooMuchWork {
                    work_units: work_units as nat,
                },
                DnssecError::NoKey { name } => Failure::NoKey { name: name@ },
                DnssecError::NonSecure { name } => Failure::NonSecure { name: name@ },
                DnssecError::ChainOfTrustBroken { name, reason } => Failure::ChainOfTrustBroken {
                    name: name@,
                    reason: reason@,
                },
                DnssecError::BadPacket { reason } => Failure::BadPacket { reason: reason@ },
                DnssecError::NoDsSupported { digest_algorithm_id } => Failure::NoDsSupported {
                    digest_algorithm_id,
                },
                DnssecError::NoKeysSupported { algorithm_id } => Failure::NoKeysSupported {
                    algorithm_id,
                },
                DnssecError::TooManyIterations { iterations, max_iterations } =>
                    Failure::TooManyIterations {
                        iterations: iterations as nat,
                        max_iterations: max_iterations as nat,
                    },
                DnssecError::Indeterminate { name, reason } => Failure::Indeterminate {
                    name: name@,
                    reason: reason@,
                },
                DnssecError::TrustAnchorFailed { reason } => Failure::TrustAnchor {
                    reason: reason@,
                },
                DnssecError::SignatureVerificationFailed { name, reason } =>
                    Failure::SignatureVerification { name: name@, reason: reason@ },
            },
            DnsmasqError::Config(e) => match e {
                ConfigError::ParseError { file_path, line_number, reason } => Failure::Parse {
                    file_path: file_path@,
                    line_number: line_number as nat,
                    reason: reason@,
                },
            },
        }
    }
}

impl Failure {
    /// The failure in words.
    pub open spec fn text(self) -> Seq<char> {
        match self {
            Failure::Edns0 { reason } => "EDNS0 processing failed: "@ + reason + ""@,
            Failure::InvalidName { name, reason } => "invalid domain name '"@ + name + "': "@
                + reason,
            Failure::Auth { zone, reason } => "authoritative answer for zone '"@ + zone
                + "' failed: "@ + reason,
            Failure::TooMuchWork { work_units } => "DNSSEC validation exceeded its work limit: "@
                + dec(work_units) + " units"@,
            Failure::NoKey { name } => "no DNSKEY for '"@ + name + "'"@,
            Failure::NonSecure { name } => "zone '"@ + name + "' is not signed"@,
            Failure::ChainOfTrustBroken { name, reason } => "chain of trust broken at '"@ + name
                + "': "@ + reason,
            Failure::BadPacket { reason } => "malformed DNSSEC data: "@ + reason + ""@,
            Failure::NoDsSupported { digest_algorithm_id } => "unsupported DS digest type: "@ + dec(
                digest_algorithm_id as nat,
            ) + ""@,
            Failure::NoKeysSupported { algorithm_id } => "unsupported DNSSEC algorithm: "@ + dec(
                algorithm_id as nat,
            ) + ""@,
            Failure::TooManyIterations { iterations, max_iterations } =>
                "too many NSEC3 iterations: "@ + dec(iterations) + " (limit "@ + dec(max_iterations)
                    + ")"@,
            Failure::Indeterminate { name, reason } => "validation of '"@ + name
                + "' is indeterminate: "@ + reason,
            Failure::TrustAnchor { reason } => "trust anchor failed: "@ + reason + ""@,
            Failure::SignatureVerification { name, reason } => "signature of '"@ + name
                + "' could not be checked: "@ + reason,
            Failure::Parse { file_path, line_number, reason } => "parse error in "@ + file_path
                + " at line "@ + dec(line_number) + ": "@ + reason,
        }
    }
}

impl DnsmasqError {
    /// The error in words.
    pub fn to_text(&self) -> (r: String)
        ensures
            r@ == self@.text(),
    {
        match self {
            DnsmasqError::Dns(e) => match e {
                DnsError::Edns0Failed { reason } => message_text(
                    "EDNS0 processing failed: ",
                    reason.as_str(),
                    "",
                ),
                DnsError::InvalidName { name, reason } => message_text(
                    "invalid domain name '",
                    name.as_str(),
                    "': ",
                ).concat(reason.as_str()),
                DnsError::AuthFailed { zone, reason } => message_text(
                    "authoritative answer for zone '",
                    zone.as_str(),
                    "' failed: ",
                ).concat(reason.as_str()),
            },
            DnsmasqError::Dnssec(e) => match e {
                DnssecError::TooMuchWork { work_units } => message1(
                    "DNSSEC validation exceeded its work limit: ",
                    *work_units,
                    " units",
                ),
                DnssecError::NoKey { name } => message_text("no DNSKEY for '", name.as_str(), "'"),
                DnssecError::NonSecure { name } => message_text(
                    "zone '",
                    name.as_str(),
                    "' is not signed",
                ),
                DnssecError::ChainOfTrustBroken { name, reason } => message_text(
                    "chain of trust broken at '",
                    name.as_str(),
                    "': ",
                ).concat(reason.as_str()),
                DnssecError::BadPacket { reason } => message_text(
                    "malformed DNSSEC data: ",
                    reason.as_str(),
                    "",
                ),
                DnssecError::NoDsSupported { digest_algorithm_id } => message1(
                    "unsupported DS digest type: ",
                    *digest_algorithm_id as u64,
                    "",
                ),
                DnssecError::NoKeysSupported { algorithm_id } => message1(
                    "unsupported DNSSEC algorithm: ",
                    *algorithm_id as u64,
                    "",
                ),
                DnssecError::TooManyIterations { iterations, max_iterations } => message2(
                    "too many NSEC3 iterations: ",
                    *iterations as u64,
                    " (limit ",
                    *max_iterations as u64,
                    ")",
                ),
                DnssecError::Indeterminate { name, reason } => message_text(
                    "validation of '",
                    name.as_str(),
                    "' is indeterminate: ",
                ).concat(reason.as_str()),
                DnssecError::TrustAnchorFailed { reason } => message_text(
                    "trust anchor failed: ",
                    reason.as_str(),
                    "",
                ),
                DnssecError::SignatureVerificationFailed { name, reason } => message_text(
                    "signature of '",
                    name.as_str(),
                    "' could not be checked: ",
                ).concat(reason.as_str()),
            },
            DnsmasqError::Config(e) => match e {
                ConfigError::ParseError { file_path, line_number, reason } => {
                    let n = decimal(*line_number as u64);
                    message_text("parse error in ", file_path.as_str(), " at line ").concat(
                        n.as_str(),
                    ).concat(": ").concat(reason.as_str())
                },
            },
        }
    }

    /// True of an EDNS0 failure with the given reason.
    pub open spec fn is_edns0(self, reason: Seq<char>) -> bool {
        self@ == (Failure::Edns0 { reason })
    }
}

/// An EDNS0 failure.
pub fn edns0_failed(reason: String) -> (e: DnsmasqError)
    ensures
        e.is_edns0(reason@),
{
    DnsmasqError::Dns(DnsError::Edns0Failed { reason })
}

/// Failures of DHCPv6 handling.
#[derive(Debug)]
pub enum DhcpError {
    /// A packet does not parse.
    ParseFailed { reason: String },
    /// A message breaks the protocol.
    V6ProtocolError { reason: String },
    /// A required option is absent.
    MissingOption(String),
    /// The address that a client asked for is taken.
    AddressInUse(Ipv6Addr),
    /// An interface has no address pool.
    NoAddressPool(String),
    /// Every address of the pools is taken.
    NoAddressesAvailable,
    /// No pool delegates prefixes.
    NoPrefixAvailable,
}

} // verus!
