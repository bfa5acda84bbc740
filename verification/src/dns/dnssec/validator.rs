//! The steps of the validation of DNS answers: signatures over record sets, keys against delegation
//! signer records, and proofs that a name or type does not exist.
use data_encoding::BASE32HEX_NOPAD;
use vstd::arithmetic::power2::pow2;
use vstd::prelude::*;
use crate::clock::{ClockReading, Timestamp};
use crate::dns::dnssec::canonical::{
    increasing, key_tag, key_tag_of, set_models, signed_bytes, signed_data, MAX_RECORDS,
};
use crate::dns::dnssec::blockdata::BlockData;
use crate::dns::dnssec::crypto::{
    digest_bytes, digest_of, message_verdict, signature_error, verdict_is, CryptoError, CryptoFailure,
    HashAlgorithm, SignatureVerifier,
};
use crate::dns::name::{
    bytes_before, bytes_less, canon, is_suffix, law_bytes_order, law_name_order, lemma_canon_wire_len,
    lemma_name_wire_len, name_less, name_wire, DomainName,
};
use crate::dns::record::{RData, RDataModel, RecordModel, ResourceRecord};
use crate::error::{DnsmasqError, DnssecError, Failure};
use crate::text::message_text;
use crate::types::RecordType;
use crate::wire::{be_bytes, be_nat, lemma_be_bytes_of_nat, put_slice, same_bytes};

verus! {

/// The number of steps after which a validation is given up.
pub const DNSSEC_LIMIT_WORK: usize = 40;

/// The number of cryptographic operations after which a validation is given up.
pub const DNSSEC_LIMIT_CRYPTO: usize = 200;

/// The number of failed signatures after which a validation is given up.
pub const DNSSEC_LIMIT_SIG_FAIL: usize = 20;

/// The largest number of extra hash iterations that is accepted.
pub const DNSSEC_LIMIT_NSEC3_ITERS: u16 = 150;

/// The number of zones after which a chain of trust is given up.
pub const MAX_CHAIN_DEPTH: u64 = 10;

/// The outcome of a validation.
#[derive(Debug, Clone, Copy, PartialEq, Eq, Structural)]
pub enum ValidationStatus {
    /// Every record is signed, and from every key a chain of trust reaches an anchor.
    Secure,
    /// The zone is not signed.
    Insecure,
    /// The answer is not to be believed.
    Bogus,
    /// The validation could not be completed.
    Indeterminate,
}

impl ValidationStatus {
    /// The extended error code of the status.
    pub open spec fn code(self) -> u16 {
        match self {
            ValidationStatus::Secure => 0,
            ValidationStatus::Insecure => 0,
            ValidationStatus::Bogus => 6,
            ValidationStatus::Indeterminate => 7,
        }
    }

    /// The extended error code of the status.
    pub fn to_extended_error_code(&self) -> (r: u16)
        ensures
            r == self.code(),
    {
        match self {
            ValidationStatus::Secure => 0,
            ValidationStatus::Insecure => 0,
            ValidationStatus::Bogus => 6,
            ValidationStatus::Indeterminate => 7,
        }
    }

    /// The name of the status.
    pub fn to_text(&self) -> (r: String)
        ensures
            r@ == match self {
                ValidationStatus::Secure => "SECURE"@,
                ValidationStatus::Insecure => "INSECURE"@,
                ValidationStatus::Bogus => "BOGUS"@,
                ValidationStatus::Indeterminate => "INDETERMINATE"@,
            },
    {
        String::from_str(
            match self {
                ValidationStatus::Secure => "SECURE",
                ValidationStatus::Insecure => "INSECURE",
                ValidationStatus::Bogus => "BOGUS",
                ValidationStatus::Indeterminate => "INDETERMINATE",
            },
        )
    }
}

/// The outcome of a validation with its circumstances.
#[derive(Debug, Clone)]
pub struct ValidationResult {
    pub status: ValidationStatus,
    /// Why the validation failed.
    pub error_details: Option<String>,
    /// The name at which it failed.
    pub failing_record_name: Option<DomainName>,
    /// The zones from the name up to the anchor.
    pub trust_chain_path: Vec<DomainName>,
    /// The extended error code.
    pub extended_error_code: u16,
}

/// What the outcome of a validation says.
#[verifier::ext_equal]
pub ghost struct ResultModel {
    pub status: ValidationStatus,
    pub error_details: Option<Seq<char>>,
    pub failing_record_name: Option<Seq<Seq<u8>>>,
    pub trust_chain_path: Seq<Seq<Seq<u8>>>,
    pub extended_error_code: u16,
}

/// The labels of the names of a list.
pub open spec fn name_models(names: Seq<DomainName>) -> Seq<Seq<Seq<u8>>> {
    names.map_values(|n: DomainName| n@)
}

impl View for ValidationResult {
    type V = ResultModel;

    open spec fn view(&self) -> ResultModel {
        ResultModel {
            status: self.status,
            error_details: match self.error_details {
                Some(t) => Some(t@),
                None => None,
            },
            failing_record_name: match self.failing_record_name {
                Some(n) => Some(n@),
                None => None,
            },
            trust_chain_path: name_models(self.trust_chain_path@),
            extended_error_code: self.extended_error_code,
        }
    }
}

impl ResultModel {
    /// A status with its code and the given circumstances.
    pub open spec fn of(
        status: ValidationStatus,
        error_details: Option<Seq<char>>,
        failing_record_name: Option<Seq<Seq<u8>>>,
        trust_chain_path: Seq<Seq<Seq<u8>>>,
    ) -> ResultModel {
        ResultModel {
            status,
            error_details,
            failing_record_name,
            trust_chain_path,
            extended_error_code: status.code(),
        }
    }

    pub open spec fn secure(path: Seq<Seq<Seq<u8>>>) -> ResultModel {
        ResultModel::of(ValidationStatus::Secure, None, None, path)
    }

    pub open spec fn insecure() -> ResultModel {
        ResultModel::of(ValidationStatus::Insecure, None, None, Seq::empty())
    }

    pub open spec fn bogus(error: Seq<char>, name: Option<Seq<Seq<u8>>>) -> ResultModel {
        ResultModel::of(ValidationStatus::Bogus, Some(error), name, Seq::empty())
    }

    pub open spec fn indeterminate(error: Seq<char>) -> ResultModel {
        ResultModel::of(ValidationStatus::Indeterminate, Some(error), None, Seq::empty())
    }
}

impl ValidationResult {
    fn plain(
        status: ValidationStatus,
        error_details: Option<String>,
        failing_record_name: Option<DomainName>,
    ) -> (r: Self)
        ensures
            r@ == ResultModel::of(
                status,
                match error_details {
                    Some(t) => Some(t@),
                    None => None,
                },
                match failing_record_name {
                    Some(n) => Some(n@),
                    None => None,
                },
                Seq::empty(),
            ),
    {
        let r = ValidationResult {
            status,
            error_details,
            failing_record_name,
            trust_chain_path: Vec::new(),
            extended_error_code: status.to_extended_error_code(),
        };
        assert(r@.trust_chain_path =~= Seq::<Seq<Seq<u8>>>::empty());
        r
    }

    /// A secure answer.
    pub fn secure() -> (r: Self)
        ensures
            r@ == ResultModel::secure(Seq::empty()),
    {
        Self::plain(ValidationStatus::Secure, None, None)
    }

    /// An answer from a zone that is not signed.
    pub fn insecure() -> (r: Self)
        ensures
            r@ == ResultModel::insecure(),
    {
        Self::plain(ValidationStatus::Insecure, None, None)
    }

    /// An answer that is not to be believed.
    pub fn bogus(error: String, name: Option<DomainName>) -> (r: Self)
        ensures
            r@ == ResultModel::bogus(
                error@,
                match name {
                    Some(n) => Some(n@),
                    None => None,
                },
            ),
    {
        Self::plain(ValidationStatus::Bogus, Some(error), name)
    }

    /// A validation that could not be completed.
    pub fn indeterminate(error: String) -> (r: Self)
        ensures
            r@ == ResultModel::indeterminate(error@),
    {
        Self::plain(ValidationStatus::Indeterminate, Some(error), None)
    }
}

/// The work of a validation, counted so that it can be given up.
#[derive(Debug, Clone, Copy, PartialEq, Eq, Structural)]
pub struct ValidationCounter {
    pub work_count: usize,
    pub sig_fail_count: usize,
    pub crypto_count: usize,
    pub max_work: usize,
    pub max_sig_fail: usize,
    pub max_crypto: usize,
}

impl ValidationCounter {
    /// True of a counter that can count on.
    pub open spec fn room(self) -> bool {
        self.work_count < usize::MAX && self.crypto_count < usize::MAX && self.sig_fail_count
            < usize::MAX
    }

    /// A counter at zero with the usual limits.
    pub open spec fn fresh() -> ValidationCounter {
        ValidationCounter {
            work_count: 0,
            sig_fail_count: 0,
            crypto_count: 0,
            max_work: DNSSEC_LIMIT_WORK,
            max_sig_fail: DNSSEC_LIMIT_SIG_FAIL,
            max_crypto: DNSSEC_LIMIT_CRYPTO,
        }
    }

    /// One more step.
    pub open spec fn worked(self) -> ValidationCounter {
        ValidationCounter { work_count: (self.work_count + 1) as usize, ..self }
    }

    /// One more cryptographic operation.
    pub open spec fn computed(self) -> ValidationCounter {
        ValidationCounter { crypto_count: (self.crypto_count + 1) as usize, ..self }
    }

    /// One more failed signature.
    pub open spec fn failed(self) -> ValidationCounter {
        ValidationCounter { sig_fail_count: (self.sig_fail_count + 1) as usize, ..self }
    }

    /// A counter at zero with the usual limits.
    pub fn new() -> (r: Self)
        ensures
            r == Self::fresh(),
    {
        ValidationCounter {
            work_count: 0,
            sig_fail_count: 0,
            crypto_count: 0,
            max_work: DNSSEC_LIMIT_WORK,
            max_sig_fail: DNSSEC_LIMIT_SIG_FAIL,
            max_crypto: DNSSEC_LIMIT_CRYPTO,
        }
    }

    /// True when the limit on steps is reached.
    pub fn check_work_limit(&self) -> (r: bool)
        ensures
            r == (self.work_count >= self.max_work),
    {
        self.work_count >= self.max_work
    }

    /// True when the limit on cryptographic operations is reached.
    pub fn check_crypto_limit(&self) -> (r: bool)
        ensures
            r == (self.crypto_count >= self.max_crypto),
    {
        self.crypto_count >= self.max_crypto
    }

    /// True when the limit on failed signatures is reached.
    pub fn check_sig_fail_limit(&self) -> (r: bool)
        ensures
            r == (self.sig_fail_count >= self.max_sig_fail),
    {
        self.sig_fail_count >= self.max_sig_fail
    }

    /// Counts a step; an error when that reaches the limit.
    pub fn increment_work(&mut self) -> (r: Result<(), DnsmasqError>)
        requires
            old(self).work_count < usize::MAX,
        ensures
            *final(self) == old(self).worked(),
            limit_result(r, final(self).work_count, final(self).max_work),
    {
        self.work_count = self.work_count + 1;
        if self.check_work_limit() {
            Err(too_much_work(self.work_count as u64))
        } else {
            Ok(())
        }
    }

    /// Counts a cryptographic operation; an error when that reaches the limit.
    pub fn increment_crypto(&mut self) -> (r: Result<(), DnsmasqError>)
        requires
            old(self).crypto_count < usize::MAX,
        ensures
            *final(self) == old(self).computed(),
            limit_result(r, final(self).crypto_count, final(self).max_crypto),
    {
        self.crypto_count = self.crypto_count + 1;
        if self.check_crypto_limit() {
            Err(too_much_work(self.crypto_count as u64))
        } else {
            Ok(())
        }
    }

    /// Counts a failed signature; an error when that reaches the limit.
    pub fn increment_sig_fail(&mut self) -> (r: Result<(), DnsmasqError>)
        requires
            old(self).sig_fail_count < usize::MAX,
        ensures
            *final(self) == old(self).failed(),
            limit_result(r, final(self).sig_fail_count, final(self).max_sig_fail),
    {
        self.sig_fail_count = self.sig_fail_count + 1;
        if self.check_sig_fail_limit() {
            Err(too_much_work(self.sig_fail_count as u64))
        } else {
            Ok(())
        }
    }
}

/// Each count goes up by one on its own, and the limits stay.
pub proof fn law_counts(c: ValidationCounter)
    requires
        c.work_count < usize::MAX,
        c.crypto_count < usize::MAX,
        c.sig_fail_count < usize::MAX,
    ensures
        c.worked().work_count == c.work_count + 1,
        c.worked().crypto_count == c.crypto_count,
        c.worked().sig_fail_count == c.sig_fail_count,
        c.computed().crypto_count == c.crypto_count + 1,
        c.computed().work_count == c.work_count,
        c.computed().sig_fail_count == c.sig_fail_count,
        c.failed().sig_fail_count == c.sig_fail_count + 1,
        c.failed().work_count == c.work_count,
        c.failed().crypto_count == c.crypto_count,
        c.worked().max_work == c.max_work && c.worked().max_crypto == c.max_crypto
            && c.worked().max_sig_fail == c.max_sig_fail,
        c.computed().max_work == c.max_work && c.computed().max_crypto == c.max_crypto
            && c.computed().max_sig_fail == c.max_sig_fail,
        c.failed().max_work == c.max_work && c.failed().max_crypto == c.max_crypto
            && c.failed().max_sig_fail == c.max_sig_fail,
{
}

/// A count below its limit is no error; one at its limit or above is, and the error tells it.
pub proof fn law_limit_reached(r: Result<(), DnsmasqError>, count: usize, limit: usize)
    requires
        limit_result(r, count, limit),
    ensures
        count < limit ==> r is Ok,
        count >= limit ==> (r matches Err(e) && e@ == (Failure::TooMuchWork {
            work_units: count as nat,
        })),
{
}

/// True of a result that is an error exactly when a count has reached its limit.
pub open spec fn limit_result(r: Result<(), DnsmasqError>, count: usize, limit: usize) -> bool {
    match r {
        Ok(_) => count < limit,
        Err(e) => count >= limit && e@ == (Failure::TooMuchWork { work_units: count as nat }),
    }
}

impl Default for ValidationCounter {
    fn default() -> (r: Self)
        ensures
            r == Self::fresh(),
    {
        Self::new()
    }
}

fn too_much_work(work_units: u64) -> (e: DnsmasqError)
    ensures
        e@ == (Failure::TooMuchWork { work_units: work_units as nat }),
{
    DnsmasqError::Dnssec(DnssecError::TooMuchWork { work_units })
}

fn bad_packet(reason: String) -> (e: DnsmasqError)
    ensures
        e@ == (Failure::BadPacket { reason: reason@ }),
{
    DnsmasqError::Dnssec(DnssecError::BadPacket { reason })
}

/// True when a result is what is wanted.
pub open spec fn comes_to<T>(r: Result<T, DnsmasqError>, want: Result<T, Failure>) -> bool {
    match (r, want) {
        (Ok(x), Ok(w)) => x == w,
        (Err(e), Err(w)) => e@ == w,
        _ => false,
    }
}

/// A result is what is wanted where both succeed with the same value or both fail in the same way.
pub proof fn law_result_is_wanted<T>(r: Result<T, DnsmasqError>, want: Result<T, Failure>)
    requires
        comes_to(r, want),
    ensures
        r is Ok <==> want is Ok,
        r matches Ok(x) ==> want == Ok::<T, Failure>(x),
        r matches Err(e) ==> want == Err::<T, Failure>(e@),
{
}

// Times.

/// The order of serial numbers (RFC 1982): by how far the first is ahead of the second.
pub open spec fn serial_order(s1: u32, s2: u32) -> int {
    if s1 == s2 {
        0
    } else if (s1 - s2) % 0x1_0000_0000 < 0x8000_0000 {
        1
    } else {
        -1
    }
}

/// True of a time within the validity of a signature.
pub open spec fn in_time(inception: u32, expiration: u32, now: u32) -> bool {
    serial_order(now, inception) >= 0 && serial_order(now, expiration) < 0
}

/// A number of seconds as a serial number.
pub open spec fn serial_time(now: Timestamp) -> u32 {
    ((now.nanos / 1_000_000_000) % 0x1_0000_0000) as u32
}

/// Whether a signature record is valid at the time of a reading; not where the record is of
/// another type.
pub open spec fn timing(rrsig: RDataModel, clock: ClockReading) -> Result<bool, Failure> {
    match rrsig {
        RDataModel::Rrsig { inception, expiration, .. } => match clock {
            ClockReading::Time(now) => Ok(in_time(inception, expiration, serial_time(now))),
            ClockReading::BeforeEpoch(text) => Err(
                Failure::Indeterminate {
                    name: "time_validation"@,
                    reason: "Time error: "@ + text@ + ""@,
                },
            ),
        },
        _ => Ok(false),
    }
}

/// Serial number order is antisymmetric, but for numbers half the range apart.
pub proof fn law_serial_order(s1: u32, s2: u32)
    requires
        (s1 - s2) % 0x1_0000_0000 != 0x8000_0000,
    ensures
        serial_order(s1, s2) == -serial_order(s2, s1),
{
}

/// A signature that expires within half the range after its inception is valid from its inception
/// on, and not any more at its expiration.
pub proof fn law_validity_window(inception: u32, expiration: u32)
    requires
        serial_order(inception, expiration) < 0,
    ensures
        in_time(inception, expiration, inception),
        !in_time(inception, expiration, expiration),
{
}

/// Where times are less than half the range apart, serial number order is the order of numbers, and
/// a signature is valid from the second of its inception on, up to and without that of its expiration.
/// Moving all times by the same amount around the range changes nothing.
pub proof fn law_signature_times(inception: u32, expiration: u32, now: u32, shift: u32)
    ensures
        -0x8000_0000 < now - inception < 0x8000_0000 && -0x8000_0000 < now - expiration < 0x8000_0000
            ==> (in_time(inception, expiration, now) <==> inception <= now < expiration),
        in_time(
            ((inception + shift) % 0x1_0000_0000) as u32,
            ((expiration + shift) % 0x1_0000_0000) as u32,
            ((now + shift) % 0x1_0000_0000) as u32,
        ) == in_time(inception, expiration, now),
        -0x8000_0000 < now - inception < 0x8000_0000 ==> serial_order(now, inception) == if now
            < inception {
            -1int
        } else if now == inception {
            0
        } else {
            1
        },
{
    lemma_serial_shift(now, inception, shift);
    lemma_serial_shift(now, expiration, shift);
}

/// Moving two serial numbers by the same amount does not change their order.
proof fn lemma_serial_shift(a: u32, b: u32, shift: u32)
    ensures
        serial_order(
            ((a + shift) % 0x1_0000_0000) as u32,
            ((b + shift) % 0x1_0000_0000) as u32,
        ) == serial_order(a, b),
{
    let m = 0x1_0000_0000int;
    let x = (a + shift) % m;
    let y = (b + shift) % m;
    assert(x == a + shift || x == a + shift - m);
    assert(y == b + shift || y == b + shift - m);
    assert(x - y == a - b || x - y == a - b + m || x - y == a - b - m);
    assert((x - y) % m == (a - b) % m);
    assert(x == y <==> a == b);
}

/// A signature record is valid at a time exactly where the time, in nanoseconds, is not before the
/// first second of its validity and before the second at which it expires; no other record is.
pub proof fn law_timing(rrsig: RDataModel, now: Timestamp)
    ensures
        rrsig matches RDataModel::Rrsig { inception, expiration, .. } ==> (now.nanos < 0x1_0000_0000
            * 1_000_000_000 && -0x8000_0000 < now.nanos / 1_000_000_000 - inception < 0x8000_0000
            && -0x8000_0000 < now.nanos / 1_000_000_000 - expiration < 0x8000_0000 ==> timing(
            rrsig,
            ClockReading::Time(now),
        ) == Ok::<bool, Failure>(
            inception * 1_000_000_000 <= now.nanos < expiration * 1_000_000_000,
        )),
        !(rrsig is Rrsig) ==> timing(rrsig, ClockReading::Time(now)) == Ok::<bool, Failure>(false),
        timing(rrsig, ClockReading::Time(now)) is Ok,
{
    if let RDataModel::Rrsig { inception, expiration, .. } = rrsig {
        let seconds = now.nanos / 1_000_000_000;
        if seconds < 0x1_0000_0000 {
            law_signature_times(inception, expiration, seconds as u32, 0);
        }
    }
}

/// A clock that stands before the epoch leaves the validity of a signature open.
pub proof fn law_timing_without_clock(rrsig: RDataModel, text: String)
    requires
        rrsig is Rrsig,
    ensures
        timing(rrsig, ClockReading::BeforeEpoch(text)) matches Err(Failure::Indeterminate { .. }),
{
}

// Type bitmaps.

/// True when a type is in a bitmap of types (RFC 4034, section 4.1.2): a list of windows, each with
/// its number, the length of its bits, and its bits.
pub open spec fn type_present(qtype: u16, bitmap: Seq<u8>) -> bool
    decreases bitmap.len(),
{
    if bitmap.len() < 2 || 2 + bitmap[1] > bitmap.len() {
        false
    } else if bitmap[0] == qtype / 256 {
        let byte = (qtype % 256) / 8;
        byte < bitmap[1] && bit_set(bitmap[2 + byte], (qtype % 8) as int)
    } else {
        type_present(qtype, bitmap.skip(2 + bitmap[1]))
    }
}

/// True when a bit of a byte is set, counted from the most significant.
pub open spec fn bit_set(byte: u8, i: int) -> bool {
    (byte as nat / pow2((7 - i) as nat)) % 2 == 1
}

/// A type is in a bitmap exactly where its bit is set in the window of its upper byte: the bit 0x80
/// of a byte is that of the lowest of its eight types. Windows of other numbers are passed over, and
/// a type without a window is not there.
pub proof fn law_type_bitmap(qtype: u16, window: u8, bits: Seq<u8>, rest: Seq<u8>)
    requires
        bits.len() < 256,
    ensures
        type_present(qtype, seq![window, bits.len() as u8] + bits + rest) == if qtype / 256 == window {
            (qtype % 256) / 8 < bits.len() && bits[((qtype % 256) / 8) as int] & (0x80u8 >> (qtype % 8) as u8)
                != 0
        } else {
            type_present(qtype, rest)
        },
        !type_present(qtype, Seq::empty()),
{
    let bitmap = seq![window, bits.len() as u8] + bits + rest;
    assert(bitmap.skip(2 + bits.len() as int) =~= rest);
    let byte = (qtype % 256) / 8;
    if byte < bits.len() {
        let b = bits[byte as int];
        let i = (qtype % 8) as u8;
        assert(bitmap[2 + byte] == b);
        let shift = (7 - i) as u8;
        vstd::bits::lemma_u8_shr_is_div(b, shift);
        assert((b >> shift) % 2 == 1 <==> b & (0x80u8 >> i) != 0) by (bit_vector)
            requires
                i < 8,
                shift == 7 - i,
        ;
    }
}

fn test_bit(byte: u8, i: u8) -> (r: bool)
    requires
        i < 8,
    ensures
        r == bit_set(byte, i as int),
{
    let shift: u8 = 7 - i;
    proof {
        vstd::bits::lemma_u8_shr_is_div(byte, shift);
    }
    (byte >> shift) % 2 == 1
}

// Denial of existence.

/// True of what lies from `owner` up to `next`, where the last of a zone points back to its start.
pub open spec fn name_in_span(owner: Seq<Seq<u8>>, next: Seq<Seq<u8>>, name: Seq<Seq<u8>>) -> bool {
    if name_less(owner, next) {
        !name_less(name, owner) && name_less(name, next)
    } else {
        !name_less(name, owner) || name_less(name, next)
    }
}

/// True of a hash that lies from `owner` up to `next`.
pub open spec fn hash_in_span(owner: Seq<u8>, next: Seq<u8>, hash: Seq<u8>) -> bool {
    if bytes_less(owner, next) {
        !bytes_less(hash, owner) && bytes_less(hash, next)
    } else {
        !bytes_less(hash, owner) || bytes_less(hash, next)
    }
}

/// Whether NSEC records prove that a name has no records of a type: the first that spans the name
/// decides, by its bitmap.
pub open spec fn nsec_denies(records: Seq<RecordModel>, name: Seq<Seq<u8>>, qtype: u16) -> bool
    decreases records.len(),
{
    if records.len() == 0 {
        false
    } else {
        match records[0].rdata {
            RDataModel::Nsec { next_domain, type_bitmap } if name_in_span(
                canon(records[0].name),
                canon(next_domain),
                canon(name),
            ) => !type_present(qtype, type_bitmap),
            _ => nsec_denies(records.skip(1), name, qtype),
        }
    }
}

/// The value of a base32hex digit.
pub open spec fn base32_value(b: u8) -> nat {
    if 48 <= b <= 57 {
        (b - 48) as nat
    } else {
        (b - 55) as nat
    }
}

/// True of the base32hex digits: 0 to 9 and A to V.
pub open spec fn is_base32(b: u8) -> bool {
    48 <= b <= 57 || 65 <= b <= 86
}

/// The number that base32hex digits denote.
pub open spec fn base32_number(s: Seq<u8>) -> nat
    decreases s.len(),
{
    if s.len() == 0 {
        0
    } else {
        base32_number(s.drop_last()) * 32 + base32_value(s.last())
    }
}

/// True when `text` is the base32hex notation of `bytes` without padding: the digits hold the bits
/// of the bytes, followed by as many zeros as fill the last digit.
pub open spec fn base32_encodes(text: Seq<u8>, bytes: Seq<u8>) -> bool {
    &&& forall|i: int| 0 <= i < text.len() ==> is_base32(#[trigger] text[i])
    &&& text.len() == (8 * bytes.len() + 4) / 5
    &&& base32_number(text) == be_nat(bytes) * pow2((5 * text.len() - 8 * bytes.len()) as nat)
}

/// What data_encoding says is wrong with a text that is not base32hex.
pub uninterp spec fn base32_error_text(text: Seq<u8>) -> Seq<char>;

/// `BASE32HEX_NOPAD.decode` gives the bytes whose notation a text is, and fails where there are
/// none; what the failure says depends on the text alone.
#[verifier::external_body]
fn decode_base32(text: &[u8]) -> (r: Result<Vec<u8>, String>)
    ensures
        match r {
            Ok(v) => base32_encodes(text@, v@),
            Err(t) => t@ == base32_error_text(text@) && forall|v: Seq<u8>|
                !(#[trigger] base32_encodes(text@, v)),
        },
{
    BASE32HEX_NOPAD.decode(text).map_err(|e| e.to_string())
}

/// No text is the notation of two byte strings.
pub proof fn law_base32_unique(text: Seq<u8>, a: Seq<u8>, b: Seq<u8>)
    requires
        base32_encodes(text, a),
        base32_encodes(text, b),
    ensures
        a == b,
{
    assert(a.len() == b.len());
    let p = pow2((5 * text.len() - 8 * a.len()) as nat);
    vstd::arithmetic::power2::lemma_pow2_pos((5 * text.len() - 8 * a.len()) as nat);
    assert(be_nat(a) == be_nat(b)) by (nonlinear_arith)
        requires
            be_nat(a) * p == be_nat(b) * p,
            p > 0,
    ;
    lemma_be_bytes_of_nat(a);
    lemma_be_bytes_of_nat(b);
}

/// The hash that the first label of the name of an NSEC3 record denotes.
pub open spec fn owner_hash(name: Seq<Seq<u8>>) -> Result<Seq<u8>, Failure> {
    if name.len() == 0 {
        Err(Failure::BadPacket { reason: "Empty NSEC3 name"@ })
    } else if exists|v: Seq<u8>| #[trigger] base32_encodes(name[0], v) {
        Ok(choose|v: Seq<u8>| #[trigger] base32_encodes(name[0], v))
    } else {
        Err(
            Failure::BadPacket {
                reason: "Invalid base32hex: "@ + base32_error_text(name[0]) + ""@,
            },
        )
    }
}

/// Whether NSEC3 records prove that the name with a hash has no records of a type: the first that
/// spans the hash decides, by its bitmap.
pub open spec fn nsec3_denies(records: Seq<RecordModel>, hash: Seq<u8>, qtype: u16) -> Result<
    bool,
    Failure,
>
    decreases records.len(),
{
    if records.len() == 0 {
        Ok(false)
    } else {
        match records[0].rdata {
            RDataModel::Nsec3 { next_hashed, type_bitmap, .. } => match owner_hash(
                records[0].name,
            ) {
                Err(f) => Err(f),
                Ok(owner) => if hash_in_span(owner, next_hashed, hash) {
                    Ok(!type_present(qtype, type_bitmap))
                } else {
                    nsec3_denies(records.skip(1), hash, qtype)
                },
            },
            _ => nsec3_denies(records.skip(1), hash, qtype),
        }
    }
}

/// The hash of a name with a salt and extra iterations (RFC 5155, section 5).
pub open spec fn nsec3_hash(name: Seq<Seq<u8>>, salt: Seq<u8>, iterations: nat) -> Seq<u8>
    decreases iterations,
{
    if iterations == 0 {
        digest_of(HashAlgorithm::Sha1, name_wire(canon(name)) + salt)
    } else {
        digest_of(
            HashAlgorithm::Sha1,
            nsec3_hash(name, salt, (iterations - 1) as nat) + salt,
        )
    }
}

/// What NSEC3 records come to, with the parameters of the first.
pub open spec fn nsec3_outcome(records: Seq<RecordModel>, name: Seq<Seq<u8>>, qtype: u16) -> Result<
    bool,
    Failure,
> {
    if records.len() == 0 {
        Ok(false)
    } else {
        match records[0].rdata {
            RDataModel::Nsec3 { hash_algorithm, iterations, salt, .. } => if iterations
                > DNSSEC_LIMIT_NSEC3_ITERS {
                Err(
                    Failure::TooManyIterations {
                        iterations: iterations as nat,
                        max_iterations: DNSSEC_LIMIT_NSEC3_ITERS as nat,
                    },
                )
            } else if hash_algorithm != 1 {
                Err(Failure::NoKeysSupported { algorithm_id: hash_algorithm })
            } else {
                nsec3_denies(records, nsec3_hash(name, salt, iterations as nat), qtype)
            },
            _ => Ok(false),
        }
    }
}

/// A denial holds only where some record spans the name, and its bitmap lacks the type.
pub proof fn law_denial_needs_cover(records: Seq<RecordModel>, name: Seq<Seq<u8>>, qtype: u16)
    requires
        nsec_denies(records, name, qtype),
    ensures
        exists|i: int|
            0 <= i < records.len() && (#[trigger] records[i].rdata matches RDataModel::Nsec {
                next_domain,
                type_bitmap,
            } && name_in_span(canon(records[i].name), canon(next_domain), canon(name))
                && !type_present(qtype, type_bitmap)),
    decreases records.len(),
{
    let spans = records[0].rdata matches RDataModel::Nsec { next_domain, .. } && name_in_span(
        canon(records[0].name),
        canon(next_domain),
        canon(name),
    );
    if !spans {
        let tail = records.skip(1);
        law_denial_needs_cover(tail, name, qtype);
        let i = choose|i: int|
            0 <= i < tail.len() && (#[trigger] tail[i].rdata matches RDataModel::Nsec {
                next_domain,
                type_bitmap,
            } && name_in_span(canon(tail[i].name), canon(next_domain), canon(name))
                && !type_present(qtype, type_bitmap));
        assert(records[i + 1].rdata == tail[i].rdata);
        assert(records[i + 1] == tail[i]);
    } else {
        assert(records[0].rdata == records[0].rdata);
    }
}

/// A record spans the hashes from its owner's on, up to and without the next one; one whose next
/// hash does not come after its owner's, the last of its zone, spans those from its owner's on and
/// those before the next one. It always spans its owner's.
pub proof fn law_hash_span(owner: Seq<u8>, next: Seq<u8>, hash: Seq<u8>)
    ensures
        hash_in_span(owner, next, owner),
        bytes_less(owner, next) ==> (hash_in_span(owner, next, hash) <==> (hash == owner || bytes_less(
            owner,
            hash,
        )) && bytes_less(hash, next)),
        next == owner || bytes_less(next, owner) ==> (hash_in_span(owner, next, hash) <==> hash == owner
            || bytes_less(owner, hash) || bytes_less(hash, next)),
{
    law_bytes_order(owner, next, hash);
    law_bytes_order(owner, hash, next);
    law_bytes_order(hash, owner, next);
    law_bytes_order(next, owner, hash);
}

/// The same of names.
pub proof fn law_name_span(owner: Seq<Seq<u8>>, next: Seq<Seq<u8>>, name: Seq<Seq<u8>>)
    ensures
        name_in_span(owner, next, owner),
        name_less(owner, next) ==> (name_in_span(owner, next, name) <==> (name == owner || name_less(
            owner,
            name,
        )) && name_less(name, next)),
        next == owner || name_less(next, owner) ==> (name_in_span(owner, next, name) <==> name == owner
            || name_less(owner, name) || name_less(name, next)),
{
    law_name_order(owner, next, name);
    law_name_order(owner, name, next);
    law_name_order(name, owner, next);
    law_name_order(next, owner, name);
}

/// The hashes of a zone, each pointing to the next and the last to the first, leave no gap and do not
/// overlap: every hash is spanned by exactly one of them.
pub proof fn law_hash_circle(hashes: Seq<Seq<u8>>, hash: Seq<u8>) -> (k: int)
    requires
        increasing(hashes),
        hashes.len() > 0,
    ensures
        0 <= k < hashes.len(),
        forall|i: int|
            0 <= i < hashes.len() ==> (hash_in_span(
                #[trigger] hashes[i],
                hashes[if i + 1 < hashes.len() {
                    i + 1
                } else {
                    0
                }],
                hash,
            ) <==> i == k),
{
    let n = hashes.len() as int;
    let c = lemma_hashes_before(hashes, hash, n);
    let k = if c == 0 {
        n - 1
    } else {
        c - 1
    };
    assert forall|i: int| 0 <= i < n implies (hash_in_span(
        #[trigger] hashes[i],
        hashes[if i + 1 < n {
            i + 1
        } else {
            0
        }],
        hash,
    ) <==> i == k) by {
        if i + 1 < n {
            assert(bytes_less(hashes[i], hashes[i + 1]));
        } else {
            law_bytes_order(hashes[0], hashes[i], hash);
            if n > 1 {
                assert(bytes_less(hashes[0], hashes[i]));
            }
        }
    }
    k
}

/// How many of the first hashes of a zone are not after the given one.
proof fn lemma_hashes_before(hashes: Seq<Seq<u8>>, hash: Seq<u8>, n: int) -> (c: int)
    requires
        increasing(hashes),
        0 <= n <= hashes.len(),
    ensures
        0 <= c <= n,
        forall|i: int| 0 <= i < c ==> !bytes_less(hash, #[trigger] hashes[i]),
        forall|i: int| c <= i < n ==> bytes_less(hash, #[trigger] hashes[i]),
    decreases n,
{
    if n == 0 {
        0
    } else {
        let c = lemma_hashes_before(hashes, hash, n - 1);
        if c < n - 1 {
            assert(bytes_less(hash, hashes[n - 2]));
            assert(bytes_less(hashes[n - 2], hashes[n - 1]));
            law_bytes_order(hash, hashes[n - 2], hashes[n - 1]);
            c
        } else if bytes_less(hash, hashes[n - 1]) {
            c
        } else {
            n
        }
    }
}

/// The names of a zone, each pointing to the next and the last to the first, leave no gap and do not
/// overlap: every name is spanned by exactly one of them.
pub proof fn law_name_circle(names: Seq<Seq<Seq<u8>>>, name: Seq<Seq<u8>>) -> (k: int)
    requires
        forall|i: int, j: int|
            0 <= i < j < names.len() ==> name_less(#[trigger] names[i], #[trigger] names[j]),
        names.len() > 0,
    ensures
        0 <= k < names.len(),
        forall|i: int|
            0 <= i < names.len() ==> (name_in_span(
                #[trigger] names[i],
                names[if i + 1 < names.len() {
                    i + 1
                } else {
                    0
                }],
                name,
            ) <==> i == k),
{
    let n = names.len() as int;
    let c = lemma_names_before(names, name, n);
    let k = if c == 0 {
        n - 1
    } else {
        c - 1
    };
    assert forall|i: int| 0 <= i < n implies (name_in_span(
        #[trigger] names[i],
        names[if i + 1 < n {
            i + 1
        } else {
            0
        }],
        name,
    ) <==> i == k) by {
        if i + 1 < n {
            assert(name_less(names[i], names[i + 1]));
        } else {
            law_name_order(names[0], names[i], name);
            if n > 1 {
                assert(name_less(names[0], names[i]));
            }
        }
    }
    k
}

/// How many of the first names of a zone are not after the given one.
proof fn lemma_names_before(names: Seq<Seq<Seq<u8>>>, name: Seq<Seq<u8>>, n: int) -> (c: int)
    requires
        forall|i: int, j: int|
            0 <= i < j < names.len() ==> name_less(#[trigger] names[i], #[trigger] names[j]),
        0 <= n <= names.len(),
    ensures
        0 <= c <= n,
        forall|i: int| 0 <= i < c ==> !name_less(name, #[trigger] names[i]),
        forall|i: int| c <= i < n ==> name_less(name, #[trigger] names[i]),
    decreases n,
{
    if n == 0 {
        0
    } else {
        let c = lemma_names_before(names, name, n - 1);
        if c < n - 1 {
            assert(name_less(name, names[n - 2]));
            assert(name_less(names[n - 2], names[n - 1]));
            law_name_order(name, names[n - 2], names[n - 1]);
            c
        } else if name_less(name, names[n - 1]) {
            c
        } else {
            n
        }
    }
}

/// The hash of an NSEC3 record is the byte string that its first label denotes in base32hex.
pub proof fn law_owner_hash(label: Seq<u8>, zone: Seq<Seq<u8>>, hash: Seq<u8>)
    ensures
        base32_encodes(label, hash) ==> owner_hash(seq![label] + zone) == Ok::<Seq<u8>, Failure>(hash),
        owner_hash(seq![label] + zone) matches Ok(h) ==> base32_encodes(label, h),
        owner_hash(Seq::empty()) is Err,
{
    let name = seq![label] + zone;
    assert(name[0] == label);
    if base32_encodes(label, hash) {
        let w = choose|v: Seq<u8>| #[trigger] base32_encodes(name[0], v);
        law_base32_unique(label, hash, w);
    }
}

/// True of a record that is passed over in the search for one that spans a hash.
spec fn passed_over(r: RecordModel, hash: Seq<u8>) -> bool {
    match r.rdata {
        RDataModel::Nsec3 { next_hashed, .. } => owner_hash(r.name) matches Ok(o) && !hash_in_span(
            o,
            next_hashed,
            hash,
        ),
        _ => true,
    }
}

/// The first NSEC3 record that spans a hash decides: the type is denied exactly where its bitmap
/// lacks the type.
pub proof fn law_hash_denial_is_by_the_first_span(
    records: Seq<RecordModel>,
    i: int,
    owner: Seq<u8>,
    next: Seq<u8>,
    bitmap: Seq<u8>,
    hash: Seq<u8>,
    qtype: u16,
)
    requires
        0 <= i < records.len(),
        forall|j: int|
            0 <= j < i ==> (match (#[trigger] records[j]).rdata {
                RDataModel::Nsec3 { next_hashed, .. } => owner_hash(records[j].name) matches Ok(o)
                    && !hash_in_span(o, next_hashed, hash),
                _ => true,
            }),
        owner_hash(records[i].name) == Ok::<Seq<u8>, Failure>(owner),
        records[i].rdata matches RDataModel::Nsec3 { next_hashed, type_bitmap, .. } && next_hashed == next
            && type_bitmap == bitmap,
        hash_in_span(owner, next, hash),
    ensures
        nsec3_denies(records, hash, qtype) == Ok::<bool, Failure>(!type_present(qtype, bitmap)),
    decreases i,
{
    if i > 0 {
        let tail = records.skip(1);
        assert(passed_over(records[0], hash));
        assert forall|j: int| 0 <= j < i - 1 implies (match (#[trigger] tail[j]).rdata {
            RDataModel::Nsec3 { next_hashed, .. } => owner_hash(tail[j].name) matches Ok(o)
                && !hash_in_span(o, next_hashed, hash),
            _ => true,
        }) by {
            assert(tail[j] == records[j + 1]);
        }
        assert(tail[i - 1] == records[i]);
        law_hash_denial_is_by_the_first_span(tail, i - 1, owner, next, bitmap, hash, qtype);
    }
}

/// Without a record that spans the hash nothing is denied.
pub proof fn law_no_span_no_hash_denial(records: Seq<RecordModel>, hash: Seq<u8>, qtype: u16)
    requires
        forall|j: int|
            0 <= j < records.len() ==> (match (#[trigger] records[j]).rdata {
                RDataModel::Nsec3 { next_hashed, .. } => owner_hash(records[j].name) matches Ok(o)
                    && !hash_in_span(o, next_hashed, hash),
                _ => true,
            }),
    ensures
        nsec3_denies(records, hash, qtype) == Ok::<bool, Failure>(false),
    decreases records.len(),
{
    if records.len() > 0 {
        let tail = records.skip(1);
        assert(passed_over(records[0], hash));
        assert forall|j: int| 0 <= j < tail.len() implies (match (#[trigger] tail[j]).rdata {
            RDataModel::Nsec3 { next_hashed, .. } => owner_hash(tail[j].name) matches Ok(o)
                && !hash_in_span(o, next_hashed, hash),
            _ => true,
        }) by {
            assert(tail[j] == records[j + 1]);
        }
        law_no_span_no_hash_denial(tail, hash, qtype);
    }
}

/// The first NSEC record that spans a name decides: the type is denied exactly where its bitmap lacks
/// the type. Without such a record nothing is denied.
pub proof fn law_denial_is_by_the_first_span(
    records: Seq<RecordModel>,
    i: int,
    next: Seq<Seq<u8>>,
    bitmap: Seq<u8>,
    name: Seq<Seq<u8>>,
    qtype: u16,
)
    requires
        0 <= i <= records.len(),
        forall|j: int|
            0 <= j < i ==> (match (#[trigger] records[j]).rdata {
                RDataModel::Nsec { next_domain, .. } => !name_in_span(
                    canon(records[j].name),
                    canon(next_domain),
                    canon(name),
                ),
                _ => true,
            }),
        i < records.len() ==> (records[i].rdata matches RDataModel::Nsec { next_domain, type_bitmap }
            && next_domain == next && type_bitmap == bitmap) && name_in_span(
            canon(records[i].name),
            canon(next),
            canon(name),
        ),
    ensures
        nsec_denies(records, name, qtype) == (i < records.len() && !type_present(qtype, bitmap)),
    decreases i,
{
    if i > 0 {
        let tail = records.skip(1);
        assert(match records[0].rdata {
            RDataModel::Nsec { next_domain, .. } => !name_in_span(
                canon(records[0].name),
                canon(next_domain),
                canon(name),
            ),
            _ => true,
        });
        assert forall|j: int| 0 <= j < i - 1 implies (match (#[trigger] tail[j]).rdata {
            RDataModel::Nsec { next_domain, .. } => !name_in_span(
                canon(tail[j].name),
                canon(next_domain),
                canon(name),
            ),
            _ => true,
        }) by {
            assert(tail[j] == records[j + 1]);
        }
        if i < records.len() {
            assert(tail[i - 1] == records[i]);
        }
        law_denial_is_by_the_first_span(tail, i - 1, next, bitmap, name, qtype);
    }
}

/// The hash of a name is that of its canonical wire form and the salt, hashed again with the salt as
/// often as there are extra iterations, with SHA-1.
pub proof fn law_nsec3_hash(name: Seq<Seq<u8>>, salt: Seq<u8>, more: nat)
    ensures
        nsec3_hash(name, salt, 0) == digest_of(HashAlgorithm::Sha1, name_wire(canon(name)) + salt),
        nsec3_hash(name, salt, more + 1) == digest_of(
            HashAlgorithm::Sha1,
            nsec3_hash(name, salt, more) + salt,
        ),
{
}

/// NSEC3 records are looked at where the first has at most 150 extra iterations and the one hash
/// algorithm there is, number 1; its salt and its iterations make the hash of the name.
pub proof fn law_nsec3_parameters(records: Seq<RecordModel>, name: Seq<Seq<u8>>, qtype: u16)
    requires
        records.len() > 0,
    ensures
        records[0].rdata matches RDataModel::Nsec3 { hash_algorithm, iterations, salt, .. } ==> {
            &&& iterations > 150 ==> nsec3_outcome(records, name, qtype) == Err::<bool, Failure>(
                Failure::TooManyIterations { iterations: iterations as nat, max_iterations: 150 },
            )
            &&& iterations <= 150 && hash_algorithm != 1 ==> nsec3_outcome(records, name, qtype) is Err
            &&& iterations <= 150 && hash_algorithm == 1 ==> nsec3_outcome(records, name, qtype)
                == nsec3_denies(records, nsec3_hash(name, salt, iterations as nat), qtype)
        },
        nsec3_outcome(Seq::empty(), name, qtype) == Ok::<bool, Failure>(false),
{
}

// Signatures over record sets.

/// True of the key records that may sign the records of a zone: marked as such, not revoked, and of
/// the one protocol (RFC 4034, section 2.1).
pub open spec fn usable(key: RecordModel) -> bool {
    key.rdata matches RDataModel::Dnskey { flags, protocol, .. } && (flags / 256) % 2 == 1 && (flags
        / 128) % 2 == 0 && protocol == 3
}

/// The public key of a key record.
pub open spec fn public_key(key: RecordModel) -> Seq<u8> {
    match key.rdata {
        RDataModel::Dnskey { public_key, .. } => public_key,
        _ => Seq::empty(),
    }
}

/// True when a signature record names a key record: a usable one, of the same owner as the signer,
/// with the same algorithm and key tag.
pub open spec fn names_key(rrsig: RDataModel, key: RecordModel) -> bool {
    match (key.rdata, rrsig) {
        (
            RDataModel::Dnskey { algorithm, .. },
            RDataModel::Rrsig { algorithm: a, key_tag, signer, .. },
        ) => usable(key) && canon(key.name) == canon(signer) && algorithm == a && key_tag_of(
            key.rdata.canonical(),
        ) == key_tag,
        _ => false,
    }
}

/// The first key record that a signature record names.
pub open spec fn signing_key(keys: Seq<RecordModel>, rrsig: RDataModel) -> Option<RecordModel>
    decreases keys.len(),
{
    if keys.len() == 0 {
        None
    } else if names_key(rrsig, keys[0]) {
        Some(keys[0])
    } else {
        signing_key(keys.skip(1), rrsig)
    }
}

/// True when the signer of a signature record is the owner of the record or a zone above it.
pub open spec fn signer_above(rrsig: RecordModel) -> bool {
    rrsig.rdata matches RDataModel::Rrsig { signer, .. } && is_suffix(
        canon(signer),
        canon(rrsig.name),
    )
}

/// True when a signature record makes a record set good under a key: it is in time, names the key,
/// stems from a zone that the records can be in, and is a signature of the records.
pub open spec fn signs(
    rrset: Seq<RecordModel>,
    rrsig: RecordModel,
    key: RecordModel,
    clock: ClockReading,
) -> bool {
    &&& timing(rrsig.rdata, clock) == Ok::<bool, Failure>(true)
    &&& signer_above(rrsig)
    &&& names_key(rrsig.rdata, key)
    &&& rrsig.rdata matches RDataModel::Rrsig { algorithm, signature, .. } && signed_bytes(
        rrset,
        rrsig,
    ) matches Some(data) && message_verdict(algorithm, public_key(key), signature, data)
        == Ok::<bool, CryptoFailure>(true)
}

/// A result together with the counter that it leaves.
pub ghost struct Counted<T> {
    pub result: Result<T, Failure>,
    pub counter: ValidationCounter,
}

/// What a failed signature comes to.
pub open spec fn signature_failed(c: ValidationCounter) -> Counted<bool> {
    let c2 = c.failed();
    Counted {
        result: if c2.sig_fail_count >= c2.max_sig_fail {
            Err(Failure::TooMuchWork { work_units: c2.sig_fail_count as nat })
        } else {
            Ok(false)
        },
        counter: c2,
    }
}

/// What the check of a signature comes to.
pub open spec fn concluded(v: Result<bool, CryptoFailure>, c: ValidationCounter) -> Counted<bool> {
    match v {
        Ok(true) => Counted { result: Ok(true), counter: c },
        Ok(false) => signature_failed(c),
        Err(f) => Counted {
            result: Err(Failure::SignatureVerification { name: "unknown"@, reason: f.text() }),
            counter: c,
        },
    }
}

/// What the validation of a record set against a signature record comes to: the signature must be
/// in time, from a zone that the records can be in, its key must be there, and the signature must
/// check.
pub open spec fn rrset_outcome(
    rrset: Seq<RecordModel>,
    rrsig: RecordModel,
    keys: Seq<RecordModel>,
    c: ValidationCounter,
    clock: ClockReading,
) -> Counted<bool> {
    let c1 = c.computed();
    if c1.crypto_count >= c1.max_crypto {
        Counted {
            result: Err(Failure::TooMuchWork { work_units: c1.crypto_count as nat }),
            counter: c1,
        }
    } else {
        match rrsig.rdata {
            RDataModel::Rrsig { algorithm, signature, .. } => match timing(rrsig.rdata, clock) {
                Err(f) => Counted { result: Err(f), counter: c1 },
                Ok(false) => signature_failed(c1),
                Ok(true) => match (signing_key(keys, rrsig.rdata), signed_bytes(rrset, rrsig)) {
                    (Some(key), Some(data)) if signer_above(rrsig) => concluded(
                        message_verdict(algorithm, public_key(key), signature, data),
                        c1,
                    ),
                    _ => signature_failed(c1),
                },
            },
            _ => Counted { result: Ok(false), counter: c1 },
        }
    }
}

pub proof fn lemma_signing_key(keys: Seq<RecordModel>, rrsig: RDataModel)
    ensures
        signing_key(keys, rrsig) matches Some(k) ==> keys.contains(k) && names_key(rrsig, k),
    decreases keys.len(),
{
    if keys.len() > 0 {
        if names_key(rrsig, keys[0]) {
            assert(keys.contains(keys[0]));
        } else {
            lemma_signing_key(keys.skip(1), rrsig);
            if let Some(k) = signing_key(keys.skip(1), rrsig) {
                let i = choose|i: int| 0 <= i < keys.skip(1).len() && keys.skip(1)[i] == k;
                assert(keys[i + 1] == k);
            }
        }
    }
}

/// A record set validates only where the key that the signature record names makes it good.
pub proof fn law_validated_is_signed(
    rrset: Seq<RecordModel>,
    rrsig: RecordModel,
    keys: Seq<RecordModel>,
    c: ValidationCounter,
    clock: ClockReading,
)
    ensures
        rrset_outcome(rrset, rrsig, keys, c, clock).result == Ok::<bool, Failure>(true) ==> (
        signing_key(keys, rrsig.rdata) matches Some(k) && keys.contains(k) && signs(
            rrset,
            rrsig,
            k,
            clock,
        )),
{
    lemma_signing_key(keys, rrsig.rdata);
}

/// A key may sign the records of a zone where bit 0x0100 of its flags is set, bit 0x0080 (revoked) is
/// not, and its protocol is 3.
pub proof fn law_usable_keys(key: RecordModel, flags: u16, protocol: u8, algorithm: u8, public_key: Seq<u8>)
    requires
        key.rdata == (RDataModel::Dnskey { flags, protocol, algorithm, public_key }),
    ensures
        usable(key) <==> flags & 0x0100 != 0 && flags & 0x0080 == 0 && protocol == 3,
{
    assert((flags / 256) % 2 == 1 <==> flags & 0x0100 != 0) by (bit_vector);
    assert((flags / 128) % 2 == 0 <==> flags & 0x0080 == 0) by (bit_vector);
}

/// A signature record names a key exactly where the key may sign, belongs to the signer (but for the
/// case of letters), and has the algorithm and the key tag of the signature record. The key with which
/// a signature is checked is the first that it names.
pub proof fn law_named_key(
    rrsig: RDataModel,
    keys: Seq<RecordModel>,
    i: int,
    flags: u16,
    protocol: u8,
    algorithm: u8,
    key: Seq<u8>,
)
    requires
        0 <= i < keys.len(),
        rrsig is Rrsig,
        keys[i].rdata == (RDataModel::Dnskey { flags, protocol, algorithm, public_key: key }),
        forall|j: int| 0 <= j < i ==> !names_key(rrsig, #[trigger] keys[j]),
    ensures
        names_key(rrsig, keys[i]) <==> usable(keys[i]) && canon(keys[i].name) == canon(rrsig->signer)
            && algorithm == rrsig->Rrsig_algorithm && key_tag_of(
            be_bytes(flags as nat, 2) + seq![protocol, algorithm] + key,
        ) == rrsig->Rrsig_key_tag,
        names_key(rrsig, keys[i]) ==> signing_key(keys, rrsig) == Some(keys[i]),
        public_key(keys[i]) == key,
    decreases i,
{
    if i > 0 {
        let tail = keys.skip(1);
        assert(!names_key(rrsig, keys[0]));
        assert forall|j: int| 0 <= j < i - 1 implies !names_key(rrsig, #[trigger] tail[j]) by {
            assert(tail[j] == keys[j + 1]);
        }
        assert(tail[i - 1] == keys[i]);
        law_named_key(rrsig, tail, i - 1, flags, protocol, algorithm, key);
    }
}

/// No signature is checked where no key is named.
pub proof fn law_no_named_key(rrsig: RDataModel, keys: Seq<RecordModel>)
    requires
        forall|j: int| 0 <= j < keys.len() ==> !names_key(rrsig, #[trigger] keys[j]),
    ensures
        signing_key(keys, rrsig) is None,
    decreases keys.len(),
{
    if keys.len() > 0 {
        let tail = keys.skip(1);
        assert(!names_key(rrsig, keys[0]));
        assert forall|j: int| 0 <= j < tail.len() implies !names_key(rrsig, #[trigger] tail[j]) by {
            assert(tail[j] == keys[j + 1]);
        }
        law_no_named_key(rrsig, tail);
    }
}

/// A record set that the named key makes good validates, as long as fewer operations than the limit
/// have been counted; only the operation is counted. One that it does not make good does not validate.
pub proof fn law_signed_validates(
    rrset: Seq<RecordModel>,
    rrsig: RecordModel,
    keys: Seq<RecordModel>,
    key: RecordModel,
    c: ValidationCounter,
    clock: ClockReading,
)
    requires
        signing_key(keys, rrsig.rdata) == Some(key),
        c.crypto_count + 1 < c.max_crypto,
        c.sig_fail_count < usize::MAX,
    ensures
        ({
            let o = rrset_outcome(rrset, rrsig, keys, c, clock);
            &&& o.result == Ok::<bool, Failure>(true) <==> signs(rrset, rrsig, key, clock)
            &&& signs(rrset, rrsig, key, clock) ==> o.counter.crypto_count == c.crypto_count + 1
                && o.counter.sig_fail_count == c.sig_fail_count && o.counter.work_count == c.work_count
            &&& o.result == Ok::<bool, Failure>(false) ==> o.counter.crypto_count == c.crypto_count + 1
                && o.counter.sig_fail_count == c.sig_fail_count + 1
        }),
{
    lemma_signing_key(keys, rrsig.rdata);
}

/// A validation is given up after 200 cryptographic operations, 20 failed signatures or 40 steps.
pub proof fn law_limits(rrset: Seq<RecordModel>, rrsig: RecordModel, keys: Seq<RecordModel>, c: ValidationCounter, clock: ClockReading)
    ensures
        ValidationCounter::fresh().max_crypto == 200,
        ValidationCounter::fresh().max_sig_fail == 20,
        ValidationCounter::fresh().max_work == 40,
        ValidationCounter::fresh().crypto_count == 0,
        ValidationCounter::fresh().sig_fail_count == 0,
        ValidationCounter::fresh().work_count == 0,
        MAX_CHAIN_DEPTH == 10,
        c.crypto_count < usize::MAX && c.crypto_count + 1 >= c.max_crypto ==> rrset_outcome(
            rrset,
            rrsig,
            keys,
            c,
            clock,
        ).result == Err::<bool, Failure>(
            Failure::TooMuchWork { work_units: (c.crypto_count + 1) as nat },
        ),
        c.sig_fail_count < usize::MAX ==> signature_failed(c).counter.sig_fail_count == c.sig_fail_count + 1,
        c.sig_fail_count < usize::MAX ==> signature_failed(c).result == if c.sig_fail_count + 1
            >= c.max_sig_fail {
            Err::<bool, Failure>(Failure::TooMuchWork { work_units: (c.sig_fail_count + 1) as nat })
        } else {
            Ok(false)
        },
{
}

/// Only what is not to be believed, or could not be settled, has an extended error: 6 and 7. What is
/// said of a secure answer is its chain and no fault; every fault has a text.
pub proof fn law_outcomes(error: Seq<char>, name: Option<Seq<Seq<u8>>>, path: Seq<Seq<Seq<u8>>>)
    ensures
        ValidationStatus::Secure.code() == 0,
        ValidationStatus::Insecure.code() == 0,
        ValidationStatus::Bogus.code() == 6,
        ValidationStatus::Indeterminate.code() == 7,
        ResultModel::secure(path).status is Secure && ResultModel::secure(path).error_details is None
            && ResultModel::secure(path).failing_record_name is None
            && ResultModel::secure(path).trust_chain_path == path
            && ResultModel::secure(path).extended_error_code == 0,
        ResultModel::insecure().status is Insecure && ResultModel::insecure().error_details is None
            && ResultModel::insecure().trust_chain_path.len() == 0
            && ResultModel::insecure().extended_error_code == 0,
        ResultModel::bogus(error, name).status is Bogus && ResultModel::bogus(error, name).error_details
            == Some(error) && ResultModel::bogus(error, name).failing_record_name == name
            && ResultModel::bogus(error, name).extended_error_code == 6,
        ResultModel::indeterminate(error).status is Indeterminate && ResultModel::indeterminate(
            error,
        ).error_details == Some(error) && ResultModel::indeterminate(error).extended_error_code == 7,
{
}

/// The hash function of a digest type of delegation signer records.
pub open spec fn ds_hash(digest_type: u8) -> Option<HashAlgorithm> {
    if digest_type == 1 {
        Some(HashAlgorithm::Sha1)
    } else if digest_type == 2 {
        Some(HashAlgorithm::Sha256)
    } else if digest_type == 4 {
        Some(HashAlgorithm::Sha384)
    } else {
        None
    }
}

/// The bytes of which a delegation signer record holds the digest: the owner name and the data of
/// the key record.
pub open spec fn key_bytes(dnskey: RecordModel) -> Seq<u8> {
    name_wire(canon(dnskey.name)) + dnskey.rdata.canonical()
}

/// Whether one of the delegation signer records holds the digest of a key record. A digest type
/// that is not supported ends the search.
pub open spec fn ds_matches(dnskey: RecordModel, ds: Seq<RecordModel>) -> Result<bool, Failure>
    decreases ds.len(),
{
    if ds.len() == 0 {
        Ok(false)
    } else {
        match ds[0].rdata {
            RDataModel::Ds { digest_type, digest, .. } => match ds_hash(digest_type) {
                None => Err(Failure::NoDsSupported { digest_algorithm_id: digest_type }),
                Some(h) => if digest_of(h, key_bytes(dnskey)) == digest {
                    Ok(true)
                } else {
                    ds_matches(dnskey, ds.skip(1))
                },
            },
            _ => ds_matches(dnskey, ds.skip(1)),
        }
    }
}

/// True of a delegation signer record that holds the digest of the owner name and the data of a key:
/// with SHA-1, SHA-256 or SHA-384, by the digest types 1, 2 and 4.
pub open spec fn holds_digest(ds: RecordModel, owner: Seq<Seq<u8>>, data: Seq<u8>) -> bool {
    ds.rdata matches RDataModel::Ds { digest_type, digest, .. } && {
        ||| digest_type == 1 && digest == digest_of(HashAlgorithm::Sha1, name_wire(canon(owner)) + data)
        ||| digest_type == 2 && digest == digest_of(
            HashAlgorithm::Sha256,
            name_wire(canon(owner)) + data,
        )
        ||| digest_type == 4 && digest == digest_of(
            HashAlgorithm::Sha384,
            name_wire(canon(owner)) + data,
        )
    }
}

/// A key is vouched for exactly where one of the delegation signer records holds its digest, before
/// any record with a digest type that is not supported.
pub proof fn law_delegation_signer(
    dnskey: RecordModel,
    flags: u16,
    protocol: u8,
    algorithm: u8,
    key: Seq<u8>,
    ds: Seq<RecordModel>,
)
    requires
        dnskey.rdata == (RDataModel::Dnskey { flags, protocol, algorithm, public_key: key }),
    ensures
        ({
            let data = be_bytes(flags as nat, 2) + seq![protocol, algorithm] + key;
            &&& ds_matches(dnskey, ds) == Ok::<bool, Failure>(true) ==> exists|i: int|
                0 <= i < ds.len() && holds_digest(#[trigger] ds[i], dnskey.name, data)
            &&& ds_matches(dnskey, ds) == Ok::<bool, Failure>(false) ==> forall|i: int|
                0 <= i < ds.len() ==> !holds_digest(#[trigger] ds[i], dnskey.name, data)
            &&& ds_matches(dnskey, ds) is Err ==> exists|i: int|
                0 <= i < ds.len() && ((#[trigger] ds[i]).rdata matches RDataModel::Ds { digest_type, .. }
                    && digest_type != 1 && digest_type != 2 && digest_type != 4)
        }),
    decreases ds.len(),
{
    let data = be_bytes(flags as nat, 2) + seq![protocol, algorithm] + key;
    if ds.len() > 0 {
        let tail = ds.skip(1);
        law_delegation_signer(dnskey, flags, protocol, algorithm, key, tail);
        if holds_digest(ds[0], dnskey.name, data) {
            assert(ds_matches(dnskey, ds) == Ok::<bool, Failure>(true));
        } else if ds_matches(dnskey, ds) == ds_matches(dnskey, tail) {
            if ds_matches(dnskey, tail) == Ok::<bool, Failure>(true) {
                let i = choose|i: int|
                    0 <= i < tail.len() && holds_digest(#[trigger] tail[i], dnskey.name, data);
                assert(ds[i + 1] == tail[i]);
            } else if ds_matches(dnskey, tail) is Err {
                let i = choose|i: int|
                    0 <= i < tail.len() && ((#[trigger] tail[i]).rdata matches RDataModel::Ds {
                        digest_type,
                        ..
                    } && digest_type != 1 && digest_type != 2 && digest_type != 4);
                assert(ds[i + 1] == tail[i]);
            } else {
                let b = ds_matches(dnskey, tail)->Ok_0;
                assert(ds_matches(dnskey, tail) == Ok::<bool, Failure>(b));
                assert(!b);
                assert forall|i: int| 0 <= i < ds.len() implies !holds_digest(
                    #[trigger] ds[i],
                    dnskey.name,
                    data,
                ) by {
                    if i > 0 {
                        assert(tail[i - 1] == ds[i]);
                    }
                }
            }
        } else {
            assert(ds[0] == ds[0]);
        }
    }
}

/// The first delegation signer record that holds the digest of a key vouches for it, where no record
/// before it has a digest type other than 1, 2 and 4.
pub proof fn law_digest_vouches(
    dnskey: RecordModel,
    flags: u16,
    protocol: u8,
    algorithm: u8,
    key: Seq<u8>,
    ds: Seq<RecordModel>,
    i: int,
)
    requires
        dnskey.rdata == (RDataModel::Dnskey { flags, protocol, algorithm, public_key: key }),
        0 <= i < ds.len(),
        holds_digest(ds[i], dnskey.name, be_bytes(flags as nat, 2) + seq![protocol, algorithm] + key),
        forall|j: int|
            0 <= j < i ==> ((#[trigger] ds[j]).rdata matches RDataModel::Ds { digest_type, .. }
                ==> digest_type == 1 || digest_type == 2 || digest_type == 4),
    ensures
        ds_matches(dnskey, ds) == Ok::<bool, Failure>(true),
    decreases i,
{
    if i > 0 {
        let tail = ds.skip(1);
        assert(ds[0].rdata matches RDataModel::Ds { digest_type, .. } ==> digest_type == 1 || digest_type
            == 2 || digest_type == 4);
        assert forall|j: int| 0 <= j < i - 1 implies ((#[trigger] tail[j]).rdata matches RDataModel::Ds {
            digest_type,
            ..
        } ==> digest_type == 1 || digest_type == 2 || digest_type == 4) by {
            assert(tail[j] == ds[j + 1]);
        }
        assert(tail[i - 1] == ds[i]);
        law_digest_vouches(dnskey, flags, protocol, algorithm, key, tail, i - 1);
    }
}

/// What the validation of a key record against delegation signer records comes to.
pub open spec fn dnskey_outcome(dnskey: RecordModel, ds: Seq<RecordModel>, c: ValidationCounter) -> Counted<
    bool,
> {
    let c1 = c.computed();
    if c1.crypto_count >= c1.max_crypto {
        Counted {
            result: Err(Failure::TooMuchWork { work_units: c1.crypto_count as nat }),
            counter: c1,
        }
    } else if !(dnskey.rdata is Dnskey) {
        Counted { result: Ok(false), counter: c1 }
    } else {
        Counted { result: ds_matches(dnskey, ds), counter: c1 }
    }
}

/// The records of a type with a name.
pub open spec fn records_of(records: Seq<RecordModel>, rtype: RecordType, name: Seq<Seq<u8>>) -> Seq<
    RecordModel,
> {
    records.filter(|r: RecordModel| r.rtype == rtype && canon(r.name) == canon(name))
}

/// Validates DNS answers.
#[derive(Debug, Clone, Copy)]
pub struct DnssecValidator {
    verifier: SignatureVerifier,
}

/// The records of a type with a name.
pub(crate) fn select<'a>(
    records: &Vec<&'a ResourceRecord>,
    rtype: RecordType,
    name: &DomainName,
) -> (r: Vec<&'a ResourceRecord>)
    ensures
        set_models(r@) == records_of(set_models(records@), rtype, name@),
        r@.len() <= records@.len(),
        (forall|i: int| 0 <= i < records@.len() ==> (#[trigger] records@[i]).rdata@.fits()) ==> (
        forall|i: int| 0 <= i < r@.len() ==> (#[trigger] r@[i]).rdata@.fits()),
{
    let ghost all = set_models(records@);
    let ghost p = |m: RecordModel| m.rtype == rtype && canon(m.name) == canon(name@);
    let mut r: Vec<&ResourceRecord> = Vec::new();
    let mut i: usize = 0;
    proof {
        all.take(0).lemma_filter_len(p);
        assert(set_models(r@) =~= all.take(0).filter(p));
    }
    while i < records.len()
        invariant
            i <= records@.len(),
            all == set_models(records@),
            p == (|m: RecordModel| m.rtype == rtype && canon(m.name) == canon(name@)),
            set_models(r@) == all.take(i as int).filter(p),
            r@.len() <= i,
            (forall|j: int| 0 <= j < records@.len() ==> (#[trigger] records@[j]).rdata@.fits()) ==> (
            forall|j: int| 0 <= j < r@.len() ==> (#[trigger] r@[j]).rdata@.fits()),
        decreases records@.len() - i,
    {
        let ghost before = set_models(r@);
        let ghost head = all.take(i as int);
        let record = records[i];
        proof {
            assert(all.take(i + 1) =~= head.push(all[i as int]));
            assert(all[i as int] == record@);
            head.lemma_filter_push(all[i as int], p);
        }
        if record.rtype == rtype && record.name.same_name(name) {
            r.push(record);
            assert(set_models(r@) =~= before.push(record@));
        }
        i = i + 1;
    }
    assert(all.take(i as int) =~= all);
    r
}

impl DnssecValidator {
    /// A validator.
    pub fn new() -> (r: Self) {
        DnssecValidator { verifier: SignatureVerifier::new() }
    }

    /// The order of serial numbers.
    fn serial_compare(s1: u32, s2: u32) -> (r: i32)
        ensures
            r == serial_order(s1, s2),
    {
        let diff: u32 = s1.wrapping_sub(s2);
        if diff == 0 {
            0
        } else if diff < 0x8000_0000 {
            1
        } else {
            -1
        }
    }

    /// Tells whether a signature record is valid now.
    pub fn validate_rrsig_timing(&self, rrsig: &ResourceRecord) -> (r: Result<bool, DnsmasqError>)
        ensures
            exists|clock: ClockReading|
                clock.wf() && comes_to(r, #[trigger] timing(rrsig.rdata@, clock)),
    {
        let clock = ClockReading::now();
        let r = self.validate_rrsig_timing_at(rrsig, &clock);
        assert(comes_to(r, timing(rrsig.rdata@, clock)));
        r
    }

    /// Tells whether a signature record is valid at the time of a reading.
    pub fn validate_rrsig_timing_at(&self, rrsig: &ResourceRecord, clock: &ClockReading) -> (r: Result<
        bool,
        DnsmasqError,
    >)
        ensures
            comes_to(r, timing(rrsig.rdata@, *clock)),
    {
        match &rrsig.rdata {
            RData::Rrsig { inception, expiration, .. } => match clock {
                ClockReading::Time(t) => {
                    let now: u32 = ((t.nanos / 1_000_000_000) % 0x1_0000_0000) as u32;
                    Ok(
                        Self::serial_compare(now, *inception) >= 0 && Self::serial_compare(
                            now,
                            *expiration,
                        ) < 0,
                    )
                },
                ClockReading::BeforeEpoch(text) => Err(
                    DnsmasqError::Dnssec(
                        DnssecError::Indeterminate {
                            name: String::from_str("time_validation"),
                            reason: message_text("Time error: ", text.as_str(), ""),
                        },
                    ),
                ),
            },
            _ => Ok(false),
        }
    }

    /// True of the key records that may sign the records of a zone.
    pub fn is_usable(key: &ResourceRecord) -> (r: bool)
        ensures
            r == usable(key@),
    {
        match &key.rdata {
            RData::Dnskey { flags, protocol, .. } => (*flags / 256) % 2 == 1 && (*flags / 128) % 2
                == 0 && *protocol == 3,
            _ => false,
        }
    }

    /// The position of the first key record that a signature record names.
    pub fn find_signing_key(keys: &Vec<&ResourceRecord>, rrsig: &ResourceRecord) -> (r: Option<usize>)
        requires
            forall|i: int| 0 <= i < keys@.len() ==> (#[trigger] keys@[i]).rdata@.fits(),
        ensures
            match (r, signing_key(set_models(keys@), rrsig.rdata@)) {
                (Some(i), Some(w)) => i < keys@.len() && keys@[i as int]@ == w,
                (None, None) => true,
                _ => false,
            },
    {
        let ghost all = set_models(keys@);
        assert(all.skip(0) =~= all);
        let mut i: usize = 0;
        while i < keys.len()
            invariant
                i <= keys@.len(),
                all == set_models(keys@),
                forall|j: int| 0 <= j < keys@.len() ==> (#[trigger] keys@[j]).rdata@.fits(),
                signing_key(all.skip(i as int), rrsig.rdata@) == signing_key(all, rrsig.rdata@),
            decreases keys@.len() - i,
        {
            let key = keys[i];
            proof {
                assert(all.skip(i as int)[0] == all[i as int]);
                assert(all[i as int] == key@);
                assert(all.skip(i as int).skip(1) =~= all.skip(i + 1));
            }
            if let RData::Dnskey { algorithm, .. } = &key.rdata {
                if let RData::Rrsig { algorithm: a, key_tag: tag, signer, .. } = &rrsig.rdata {
                    let rdata = key.rdata.canonical();
                    if Self::is_usable(key) && key.name.same_name(signer) && *algorithm == *a
                        && key_tag(rdata.as_slice()) == *tag {
                        return Some(i);
                    }
                }
            }
            i = i + 1;
        }
        None
    }

    /// Makes of a signature check what it comes to: a signature that does not match is counted.
    pub fn conclude_signature(
        outcome: Result<bool, CryptoError>,
        counter: &mut ValidationCounter,
    ) -> (r: Result<bool, DnsmasqError>)
        requires
            old(counter).sig_fail_count < usize::MAX,
        ensures
            forall|v: Result<bool, CryptoFailure>|
                verdict_is(outcome, v) ==> comes_to(r, (#[trigger] concluded(v, *old(counter))).result)
                    && *final(counter) == concluded(v, *old(counter)).counter,
    {
        match outcome {
            Ok(true) => Ok(true),
            Ok(false) => match counter.increment_sig_fail() {
                Ok(_) => Ok(false),
                Err(e) => Err(e),
            },
            Err(e) => Err(signature_error(e)),
        }
    }

    /// Validates a record set against a signature record, with the given key records, now.
    pub fn validate_rrset(
        &self,
        rrset: &Vec<&ResourceRecord>,
        rrsig: &ResourceRecord,
        keys: &Vec<&ResourceRecord>,
        counter: &mut ValidationCounter,
    ) -> (r: Result<bool, DnsmasqError>)
        requires
            rrset@.len() <= MAX_RECORDS,
            forall|i: int| 0 <= i < rrset@.len() ==> (#[trigger] rrset@[i]).rdata@.fits(),
            forall|i: int| 0 <= i < keys@.len() ==> (#[trigger] keys@[i]).rdata@.fits(),
            old(counter).crypto_count < usize::MAX,
            old(counter).sig_fail_count < usize::MAX,
        ensures
            exists|clock: ClockReading|
                clock.wf() && {
                    let o = #[trigger] rrset_outcome(
                        set_models(rrset@),
                        rrsig@,
                        set_models(keys@),
                        *old(counter),
                        clock,
                    );
                    comes_to(r, o.result) && *final(counter) == o.counter
                },
    {
        let clock = ClockReading::now();
        let ghost before = *counter;
        let r = self.validate_rrset_at(rrset, rrsig, keys, counter, &clock);
        assert(comes_to(
            r,
            rrset_outcome(set_models(rrset@), rrsig@, set_models(keys@), before, clock).result,
        ));
        r
    }

    /// Validates a record set against a signature record, with the given key records, at the time
    /// of a reading.
    pub fn validate_rrset_at(
        &self,
        rrset: &Vec<&ResourceRecord>,
        rrsig: &ResourceRecord,
        keys: &Vec<&ResourceRecord>,
        counter: &mut ValidationCounter,
        clock: &ClockReading,
    ) -> (r: Result<bool, DnsmasqError>)
        requires
            rrset@.len() <= MAX_RECORDS,
            forall|i: int| 0 <= i < rrset@.len() ==> (#[trigger] rrset@[i]).rdata@.fits(),
            forall|i: int| 0 <= i < keys@.len() ==> (#[trigger] keys@[i]).rdata@.fits(),
            old(counter).crypto_count < usize::MAX,
            old(counter).sig_fail_count < usize::MAX,
        ensures
            ({
                let o = rrset_outcome(
                    set_models(rrset@),
                    rrsig@,
                    set_models(keys@),
                    *old(counter),
                    *clock,
                );
                comes_to(r, o.result) && *final(counter) == o.counter
            }),
    {
        if let Err(e) = counter.increment_crypto() {
            return Err(e);
        }
        let (algorithm, signature, signer) = match &rrsig.rdata {
            RData::Rrsig { algorithm, signature, signer, .. } => (*algorithm, signature, signer),
            _ => {
                return Ok(false);
            },
        };
        match self.validate_rrsig_timing_at(rrsig, clock) {
            Err(e) => {
                return Err(e);
            },
            Ok(false) => {
                return match counter.increment_sig_fail() {
                    Ok(_) => Ok(false),
                    Err(e) => Err(e),
                };
            },
            Ok(true) => {},
        }
        let above = rrsig.name.is_subdomain_of(signer);
        match (Self::find_signing_key(keys, rrsig), signed_data(rrset, rrsig)) {
            (Some(i), Some(data)) if above => {
                let key = Self::key_data(keys[i]);
                let outcome = self.verifier.verify_message(
                    algorithm,
                    &key,
                    signature.as_slice(),
                    data.as_slice(),
                );
                let ghost v = message_verdict(algorithm, key@, signature@, data@);
                let ghost before = *counter;
                let r = Self::conclude_signature(outcome, counter);
                assert(comes_to(r, concluded(v, before).result));
                r
            },
            _ => match counter.increment_sig_fail() {
                Ok(_) => Ok(false),
                Err(e) => Err(e),
            },
        }
    }

    /// The public key of a key record.
    fn key_data(key: &ResourceRecord) -> (r: BlockData)
        ensures
            r@ == public_key(key@),
    {
        match &key.rdata {
            RData::Dnskey { public_key, .. } => BlockData::new(public_key.as_slice()),
            _ => {
                let r = BlockData::new(&[]);
                assert(r@ =~= Seq::<u8>::empty());
                r
            },
        }
    }

    /// The digest of a key record with the hash function of a digest type.
    pub(crate) fn compute_dnskey_digest(&self, dnskey: &ResourceRecord, digest_type: u8) -> (r: Result<
        Vec<u8>,
        DnsmasqError,
    >)
        requires
            dnskey.rdata@.fits(),
        ensures
            match (r, ds_hash(digest_type)) {
                (Ok(d), Some(h)) => d@ == digest_of(h, key_bytes(dnskey@)),
                (Err(e), None) => e@ == (Failure::NoDsSupported { digest_algorithm_id: digest_type }),
                _ => false,
            },
    {
        let hash = match digest_type {
            1 => HashAlgorithm::Sha1,
            2 => HashAlgorithm::Sha256,
            4 => HashAlgorithm::Sha384,
            _ => {
                return Err(
                    DnsmasqError::Dnssec(
                        DnssecError::NoDsSupported { digest_algorithm_id: digest_type },
                    ),
                );
            },
        };
        dnskey.name.check();
        proof {
            lemma_name_wire_len(canon(dnskey.name@));
            lemma_canon_wire_len(dnskey.name@);
        }
        let mut data = dnskey.name.to_canonical_wire();
        let rdata = dnskey.rdata.canonical();
        put_slice(&mut data, rdata.as_slice());
        Ok(digest_bytes(hash, data.as_slice()))
    }

    /// Validates a key record against delegation signer records.
    pub fn validate_dnskey_by_ds(
        &self,
        dnskey: &ResourceRecord,
        ds_records: &Vec<&ResourceRecord>,
        counter: &mut ValidationCounter,
    ) -> (r: Result<bool, DnsmasqError>)
        requires
            dnskey.rdata@.fits(),
            old(counter).crypto_count < usize::MAX,
        ensures
            ({
                let o = dnskey_outcome(dnskey@, set_models(ds_records@), *old(counter));
                comes_to(r, o.result) && *final(counter) == o.counter
            }),
    {
        if let Err(e) = counter.increment_crypto() {
            return Err(e);
        }
        if !matches!(&dnskey.rdata, RData::Dnskey { .. }) {
            return Ok(false);
        }
        let ghost all = set_models(ds_records@);
        assert(all.skip(0) =~= all);
        let mut i: usize = 0;
        while i < ds_records.len()
            invariant
                dnskey.rdata@.fits(),
                dnskey.rdata@ is Dnskey,
                i <= ds_records@.len(),
                all == set_models(ds_records@),
                *counter == old(counter).computed(),
                counter.crypto_count < counter.max_crypto,
                ds_matches(dnskey@, all.skip(i as int)) == ds_matches(dnskey@, all),
            decreases ds_records@.len() - i,
        {
            let ds = ds_records[i];
            proof {
                assert(all.skip(i as int)[0] == all[i as int]);
                assert(all[i as int] == ds@);
                assert(all.skip(i as int).skip(1) =~= all.skip(i + 1));
            }
            if let RData::Ds { digest_type, digest, .. } = &ds.rdata {
                match self.compute_dnskey_digest(dnskey, *digest_type) {
                    Ok(d) => {
                        if same_bytes(d.as_slice(), digest.as_slice()) {
                            return Ok(true);
                        }
                    },
                    Err(e) => {
                        return Err(e);
                    },
                }
            }
            i = i + 1;
        }
        Ok(false)
    }

    /// True when a type is in a bitmap of types.
    fn type_present_in_bitmap(qtype: u16, bitmap: &[u8]) -> (r: bool)
        ensures
            r == type_present(qtype, bitmap@),
    {
        let n: usize = bitmap.len();
        let window: u8 = (qtype / 256) as u8;
        let byte: usize = ((qtype % 256) / 8) as usize;
        let mut at: usize = 0;
        assert(bitmap@.skip(0) =~= bitmap@);
        while n - at >= 2
            invariant
                at <= n == bitmap@.len(),
                window == qtype / 256,
                byte == (qtype % 256) / 8,
                type_present(qtype, bitmap@.skip(at as int)) == type_present(qtype, bitmap@),
            decreases n - at,
        {
            let ghost rest = bitmap@.skip(at as int);
            let len: usize = bitmap[at + 1] as usize;
            assert(rest[0] == bitmap@[at as int] && rest[1] == bitmap@[at + 1]);
            if n - at - 2 < len {
                return false;
            }
            if bitmap[at] == window {
                if byte >= len {
                    return false;
                }
                assert(rest[2 + byte] == bitmap@[at + 2 + byte]);
                return test_bit(bitmap[at + 2 + byte], (qtype % 8) as u8);
            }
            assert(rest.skip(2 + len) =~= bitmap@.skip(at + 2 + len));
            at = at + 2 + len;
        }
        false
    }

    /// True of a name that lies from `owner` up to `next`.
    pub(crate) fn spans(owner: &DomainName, next: &DomainName, name: &DomainName) -> (r: bool)
        ensures
            r == name_in_span(canon(owner@), canon(next@), canon(name@)),
    {
        if owner.is_before(next) {
            !name.is_before(owner) && name.is_before(next)
        } else {
            !name.is_before(owner) || name.is_before(next)
        }
    }

    /// Tells whether NSEC records prove that a name has no records of a type.
    pub fn prove_non_existence_nsec(
        &self,
        name: &DomainName,
        qtype: u16,
        nsec_records: &Vec<&ResourceRecord>,
    ) -> (r: Result<bool, DnsmasqError>)
        ensures
            r matches Ok(b) && b == nsec_denies(set_models(nsec_records@), name@, qtype),
    {
        let ghost all = set_models(nsec_records@);
        assert(all.skip(0) =~= all);
        let mut i: usize = 0;
        while i < nsec_records.len()
            invariant
                i <= nsec_records@.len(),
                all == set_models(nsec_records@),
                nsec_denies(all.skip(i as int), name@, qtype) == nsec_denies(all, name@, qtype),
            decreases nsec_records@.len() - i,
        {
            let nsec = nsec_records[i];
            proof {
                assert(all.skip(i as int)[0] == all[i as int]);
                assert(all[i as int] == nsec@);
                assert(all.skip(i as int).skip(1) =~= all.skip(i + 1));
            }
            if let RData::Nsec { next_domain, type_bitmap } = &nsec.rdata {
                if Self::spans(&nsec.name, next_domain, name) {
                    return Ok(!Self::type_present_in_bitmap(qtype, type_bitmap.as_slice()));
                }
            }
            i = i + 1;
        }
        Ok(false)
    }

    /// The hash of a name with a salt and extra iterations.
    pub fn compute_nsec3_hash(&self, name: &DomainName, salt: &[u8], iterations: u16) -> (r: Vec<u8>)
        requires
            salt@.len() <= 0xff,
        ensures
            r@ == nsec3_hash(name@, salt@, iterations as nat),
    {
        name.check();
        proof {
            lemma_name_wire_len(canon(name@));
            lemma_canon_wire_len(name@);
        }
        let mut data = name.to_canonical_wire();
        put_slice(&mut data, salt);
        let mut hash = digest_bytes(HashAlgorithm::Sha1, data.as_slice());
        let mut i: u16 = 0;
        while i < iterations
            invariant
                i <= iterations,
                salt@.len() <= 0xff,
                hash@ == nsec3_hash(name@, salt@, i as nat),
                hash@.len() == 20,
            decreases iterations - i,
        {
            put_slice(&mut hash, salt);
            hash = digest_bytes(HashAlgorithm::Sha1, hash.as_slice());
            i = i + 1;
        }
        hash
    }

    /// The hash that the first label of the name of an NSEC3 record denotes.
    pub fn extract_nsec3_owner_hash(name: &DomainName) -> (r: Result<Vec<u8>, DnsmasqError>)
        ensures
            match (r, owner_hash(name@)) {
                (Ok(h), Ok(w)) => h@ == w,
                (Err(e), Err(f)) => e@ == f,
                _ => false,
            },
    {
        if name.label_count() == 0 {
            return Err(bad_packet(String::from_str("Empty NSEC3 name")));
        }
        match decode_base32(name.label(0).as_slice()) {
            Ok(h) => {
                proof {
                    let w = choose|v: Seq<u8>| #[trigger] base32_encodes(name@[0], v);
                    law_base32_unique(name@[0], h@, w);
                }
                Ok(h)
            },
            Err(t) => Err(bad_packet(message_text("Invalid base32hex: ", t.as_str(), ""))),
        }
    }

    /// Tells whether NSEC3 records prove that the name with a hash has no records of a type.
    pub fn denies_hash(hash: &[u8], qtype: u16, nsec3_records: &Vec<&ResourceRecord>) -> (r: Result<
        bool,
        DnsmasqError,
    >)
        ensures
            comes_to(r, nsec3_denies(set_models(nsec3_records@), hash@, qtype)),
    {
        let ghost all = set_models(nsec3_records@);
        assert(all.skip(0) =~= all);
        let mut i: usize = 0;
        while i < nsec3_records.len()
            invariant
                i <= nsec3_records@.len(),
                all == set_models(nsec3_records@),
                nsec3_denies(all.skip(i as int), hash@, qtype) == nsec3_denies(all, hash@, qtype),
            decreases nsec3_records@.len() - i,
        {
            let nsec3 = nsec3_records[i];
            proof {
                assert(all.skip(i as int)[0] == all[i as int]);
                assert(all[i as int] == nsec3@);
                assert(all.skip(i as int).skip(1) =~= all.skip(i + 1));
            }
            if let RData::Nsec3 { next_hashed, type_bitmap, .. } = &nsec3.rdata {
                let owner = match Self::extract_nsec3_owner_hash(&nsec3.name) {
                    Ok(h) => h,
                    Err(e) => {
                        return Err(e);
                    },
                };
                let before_owner = bytes_before(hash, owner.as_slice());
                let before_next = bytes_before(hash, next_hashed.as_slice());
                let in_span = if bytes_before(owner.as_slice(), next_hashed.as_slice()) {
                    !before_owner && before_next
                } else {
                    !before_owner || before_next
                };
                if in_span {
                    return Ok(!Self::type_present_in_bitmap(qtype, type_bitmap.as_slice()));
                }
            }
            i = i + 1;
        }
        Ok(false)
    }

    /// Tells whether NSEC3 records prove that a name has no records of a type.
    pub fn prove_non_existence_nsec3(
        &self,
        name: &DomainName,
        qtype: u16,
        nsec3_records: &Vec<&ResourceRecord>,
    ) -> (r: Result<bool, DnsmasqError>)
        requires
            forall|i: int| 0 <= i < nsec3_records@.len() ==> (#[trigger] nsec3_records@[i]).rdata@.fits(),
        ensures
            comes_to(r, nsec3_outcome(set_models(nsec3_records@), name@, qtype)),
    {
        if nsec3_records.len() == 0 {
            return Ok(false);
        }
        let first = nsec3_records[0];
        assert(set_models(nsec3_records@)[0] == first@);
        match &first.rdata {
            RData::Nsec3 { hash_algorithm, iterations, salt, .. } => {
                if *iterations > DNSSEC_LIMIT_NSEC3_ITERS {
                    return Err(
                        DnsmasqError::Dnssec(
                            DnssecError::TooManyIterations {
                                iterations: *iterations as u32,
                                max_iterations: DNSSEC_LIMIT_NSEC3_ITERS as u32,
                            },
                        ),
                    );
                }
                if *hash_algorithm != 1 {
                    return Err(
                        DnsmasqError::Dnssec(
                            DnssecError::NoKeysSupported { algorithm_id: *hash_algorithm },
                        ),
                    );
                }
                let hash = self.compute_nsec3_hash(name, salt.as_slice(), *iterations);
                Self::denies_hash(hash.as_slice(), qtype, nsec3_records)
            },
            _ => Ok(false),
        }
    }
}

} // verus!
