//! Trust anchors: the keys at which a chain of trust may end.
use vstd::prelude::*;
use vstd::utf8::is_ascii_chars;
use crate::dns::name::{canon, law_name_order, name_less, name_text, parse_name, DomainName};
use crate::error::{ConfigError, DnsmasqError, DnssecError, Failure};
use crate::text::{
    all_white, chars_of, dec, deep, has_prefix, is_white, law_decimal, law_split_joined,
    law_split_whole, law_trimmed, law_trimmed_start, message1, message3, message_text, number_of, parse_number,
    remove_white, split_chars, split_on, string_of, trim_chars, trimmed, without_white,
};

verus! {

/// The Internet class.
pub const C_IN: u16 = 1;

/// The Chaos class.
pub const C_CHAOS: u16 = 3;

/// The Hesiod class.
pub const C_HESIOD: u16 = 4;

/// The stages of an automated key rollover (RFC 5011).
#[derive(Debug, Clone, Copy, PartialEq, Eq, Structural)]
pub enum Rfc5011State {
    /// The key is new and not trusted yet.
    AddHold,
    /// The key is confirmed; its hold-down time runs.
    Hold,
    /// The key is trusted.
    Valid,
    /// The key was revoked.
    Removed,
}

impl Rfc5011State {
    /// True of the stages in which a key may be used: it is confirmed and not revoked.
    pub open spec fn spec_trusted(self) -> bool {
        self is Hold || self is Valid
    }

    /// True of the stages in which a key may be used.
    pub fn is_trusted(&self) -> (r: bool)
        ensures
            r == self.spec_trusted(),
    {
        match self {
            Rfc5011State::Hold => true,
            Rfc5011State::Valid => true,
            Rfc5011State::AddHold => false,
            Rfc5011State::Removed => false,
        }
    }
}

/// A trust anchor: the delegation signer record of a key that is known to be good.
#[derive(Debug)]
pub struct TrustAnchor {
    pub domain: DomainName,
    pub class: u16,
    pub keytag: u16,
    pub algorithm: u8,
    pub digest_type: u8,
    pub digest: Vec<u8>,
    pub rfc5011_status: Option<Rfc5011State>,
}

/// What a trust anchor says.
#[verifier::ext_equal]
pub ghost struct AnchorModel {
    pub domain: Seq<Seq<u8>>,
    pub class: u16,
    pub keytag: u16,
    pub algorithm: u8,
    pub digest_type: u8,
    pub digest: Seq<u8>,
    pub rfc5011_status: Option<Rfc5011State>,
}

impl View for TrustAnchor {
    type V = AnchorModel;

    open spec fn view(&self) -> AnchorModel {
        AnchorModel {
            domain: self.domain@,
            class: self.class,
            keytag: self.keytag,
            algorithm: self.algorithm,
            digest_type: self.digest_type,
            digest: self.digest@,
            rfc5011_status: self.rfc5011_status,
        }
    }
}

/// True of the numbers of DNSSEC algorithms that an anchor may have.
pub open spec fn known_algorithm(a: u8) -> bool {
    a == 1 || a == 3 || 5 <= a <= 8 || a == 10 || 12 <= a <= 16
}

/// The length of the digests of a type, where there is such a type.
pub open spec fn digest_len(digest_type: u8) -> Option<nat> {
    if digest_type == 1 {
        Some(20)
    } else if digest_type == 2 {
        Some(32)
    } else if digest_type == 4 {
        Some(48)
    } else {
        None
    }
}

impl AnchorModel {
    /// What is wrong with an anchor, if anything.
    pub open spec fn fault(self) -> Option<Seq<char>> {
        if !known_algorithm(self.algorithm) {
            Some("Invalid DNSSEC algorithm: "@ + dec(self.algorithm as nat) + ""@)
        } else {
            match digest_len(self.digest_type) {
                None => Some("Invalid digest type: "@ + dec(self.digest_type as nat) + ""@),
                Some(len) => if self.digest.len() != len {
                    Some(
                        "Invalid digest length for type "@ + dec(self.digest_type as nat)
                            + ": expected "@ + dec(len) + ", got "@ + dec(self.digest.len()),
                    )
                } else {
                    None
                },
            }
        }
    }

    /// True of an anchor that may be used: it was configured as such, or its rollover has come to a
    /// stage in which it is trusted.
    pub open spec fn trusted(self) -> bool {
        self.rfc5011_status matches Some(state) ==> state.spec_trusted()
    }

    /// True of an anchor whose algorithm and digest fit.
    pub open spec fn valid(self) -> bool {
        self.fault() is None
    }
}

fn anchor_failed(reason: String) -> (e: DnsmasqError)
    ensures
        e@ == (Failure::TrustAnchor { reason: reason@ }),
{
    DnsmasqError::Dnssec(DnssecError::TrustAnchorFailed { reason })
}

impl TrustAnchor {
    /// The anchor with the given parts, if they fit.
    pub fn new(
        domain: DomainName,
        class: u16,
        keytag: u16,
        algorithm: u8,
        digest_type: u8,
        digest: Vec<u8>,
    ) -> (r: Result<Self, DnsmasqError>)
        ensures
            ({
                let m = AnchorModel {
                    domain: domain@,
                    class,
                    keytag,
                    algorithm,
                    digest_type,
                    digest: digest@,
                    rfc5011_status: None,
                };
                match r {
                    Ok(a) => a@ == m && m.valid(),
                    Err(e) => m.fault() matches Some(t) && e@ == (Failure::TrustAnchor {
                        reason: t,
                    }),
                }
            }),
    {
        let anchor = TrustAnchor {
            domain,
            class,
            keytag,
            algorithm,
            digest_type,
            digest,
            rfc5011_status: None,
        };
        match anchor.validate() {
            Ok(_) => Ok(anchor),
            Err(e) => Err(e),
        }
    }

    /// Checks that the algorithm is known and the digest has the length of its type.
    pub fn validate(&self) -> (r: Result<(), DnsmasqError>)
        ensures
            match r {
                Ok(_) => self@.valid(),
                Err(e) => self@.fault() matches Some(t) && e@ == (Failure::TrustAnchor {
                    reason: t,
                }),
            },
    {
        let a: u8 = self.algorithm;
        if !(a == 1 || a == 3 || (5 <= a && a <= 8) || a == 10 || (12 <= a && a <= 16)) {
            return Err(anchor_failed(message1("Invalid DNSSEC algorithm: ", a as u64, "")));
        }
        let expected: usize = match self.digest_type {
            1 => 20,
            2 => 32,
            4 => 48,
            _ => {
                return Err(
                    anchor_failed(message1("Invalid digest type: ", self.digest_type as u64, "")),
                );
            },
        };
        if self.digest.len() != expected {
            return Err(
                anchor_failed(
                    message3(
                        "Invalid digest length for type ",
                        self.digest_type as u64,
                        ": expected ",
                        expected as u64,
                        ", got ",
                        self.digest.len() as u64,
                    ),
                ),
            );
        }
        Ok(())
    }

    /// True of an anchor that may be used.
    pub fn is_trusted(&self) -> (r: bool)
        ensures
            r == self@.trusted(),
    {
        match &self.rfc5011_status {
            Some(state) => state.is_trusted(),
            None => true,
        }
    }

    /// The zone of the anchor.
    pub fn domain(&self) -> (r: &DomainName)
        ensures
            *r == self.domain,
    {
        &self.domain
    }

    /// The class.
    pub fn class(&self) -> (r: u16)
        ensures
            r == self.class,
    {
        self.class
    }

    /// The key tag.
    pub fn keytag(&self) -> (r: u16)
        ensures
            r == self.keytag,
    {
        self.keytag
    }

    /// The algorithm.
    pub fn algorithm(&self) -> (r: u8)
        ensures
            r == self.algorithm,
    {
        self.algorithm
    }

    /// The digest type.
    pub fn digest_type(&self) -> (r: u8)
        ensures
            r == self.digest_type,
    {
        self.digest_type
    }

    /// The digest.
    pub fn digest(&self) -> (r: &[u8])
        ensures
            r@ == self.digest@,
    {
        self.digest.as_slice()
    }

    /// The stage of the key rollover, if the anchor takes part in one.
    pub fn rfc5011_state(&self) -> (r: Option<&Rfc5011State>)
        ensures
            match (r, self.rfc5011_status) {
                (Some(a), Some(b)) => *a == b,
                (None, None) => true,
                _ => false,
            },
    {
        self.rfc5011_status.as_ref()
    }

    /// Sets the stage of the key rollover.
    pub fn set_rfc5011_state(&mut self, state: Option<Rfc5011State>)
        ensures
            final(self)@ == (AnchorModel { rfc5011_status: state, ..old(self)@ }),
    {
        self.rfc5011_status = state;
    }
}

impl Clone for TrustAnchor {
    fn clone(&self) -> (r: Self)
        ensures
            r@ == self@,
    {
        TrustAnchor {
            domain: self.domain.clone(),
            class: self.class,
            keytag: self.keytag,
            algorithm: self.algorithm,
            digest_type: self.digest_type,
            digest: vstd::slice::slice_to_vec(self.digest.as_slice()),
            rfc5011_status: self.rfc5011_status,
        }
    }
}

/// What the anchors of a list say.
pub open spec fn anchor_models(anchors: Seq<TrustAnchor>) -> Seq<AnchorModel> {
    anchors.map_values(|a: TrustAnchor| a@)
}

/// A text in upper case where it is not all ASCII: the result of `str::to_uppercase`.
pub uninterp spec fn unicode_upper(s: Seq<char>) -> Seq<char>;

/// What hex says is wrong with a text that is not hexadecimal.
pub uninterp spec fn hex_error_text(s: Seq<char>) -> Seq<char>;

/// A character in upper case; only the ASCII letters change.
pub open spec fn ascii_upper(c: char) -> char {
    if 'a' <= c <= 'z' {
        (c as u32 - 32) as char
    } else {
        c
    }
}

/// `str::to_uppercase` turns the letters of an ASCII text into capitals; for other texts its
/// result depends on the text alone and is not described further.
#[verifier::external_body]
fn uppercase(s: &str) -> (r: String)
    ensures
        r@ == if is_ascii_chars(s@) {
            s@.map_values(|c: char| ascii_upper(c))
        } else {
            unicode_upper(s@)
        },
{
    s.to_uppercase()
}

/// A text in upper case.
pub open spec fn upper_text(s: Seq<char>) -> Seq<char> {
    if is_ascii_chars(s) {
        s.map_values(|c: char| ascii_upper(c))
    } else {
        unicode_upper(s)
    }
}

/// True of the hexadecimal digits.
pub open spec fn is_hex(c: char) -> bool {
    '0' <= c <= '9' || 'a' <= c <= 'f' || 'A' <= c <= 'F'
}

/// The value of a hexadecimal digit.
pub open spec fn hex_value(c: char) -> nat {
    if '0' <= c <= '9' {
        (c as nat - 48) as nat
    } else if 'a' <= c <= 'f' {
        (c as nat - 87) as nat
    } else {
        (c as nat - 55) as nat
    }
}

/// True of a text of hexadecimal digits, two for each byte.
pub open spec fn is_hex_text(s: Seq<char>) -> bool {
    s.len() % 2 == 0 && forall|i: int| 0 <= i < s.len() ==> is_hex(#[trigger] s[i])
}

/// The bytes that a hexadecimal text denotes.
pub open spec fn hex_bytes(s: Seq<char>) -> Seq<u8> {
    Seq::new(s.len() / 2, |i: int| (hex_value(s[2 * i]) * 16 + hex_value(s[2 * i + 1])) as u8)
}

/// `hex::decode` gives the bytes of a text of hexadecimal digits, in either case and two for each
/// byte, and fails on every other text; what the failure says depends on the text alone.
#[verifier::external_body]
fn decode_hex(s: &str) -> (r: Result<Vec<u8>, String>)
    ensures
        match r {
            Ok(v) => is_hex_text(s@) && v@ == hex_bytes(s@),
            Err(t) => !is_hex_text(s@) && t@ == hex_error_text(s@),
        },
{
    hex::decode(s).map_err(|e| e.to_string())
}

/// The class that a name in capitals denotes.
pub open spec fn class_named(s: Seq<char>) -> Option<u16> {
    if s == "IN"@ {
        Some(C_IN)
    } else if s == "CH"@ || s == "CHAOS"@ {
        Some(C_CHAOS)
    } else if s == "HS"@ || s == "HESIOD"@ {
        Some(C_HESIOD)
    } else {
        None
    }
}

/// The class that a name in capitals denotes.
pub fn class_from_name(name: &str) -> (r: Option<u16>)
    ensures
        r == class_named(name@),
{
    let s = String::from_str(name);
    if s == String::from_str("IN") {
        Some(C_IN)
    } else if s == String::from_str("CH") || s == String::from_str("CHAOS") {
        Some(C_CHAOS)
    } else if s == String::from_str("HS") || s == String::from_str("HESIOD") {
        Some(C_HESIOD)
    } else {
        None
    }
}

/// A line without the keyword in front of it.
pub open spec fn without_keyword(line: Seq<char>) -> Seq<char> {
    let keyword = "trust-anchor="@;
    if line.len() >= keyword.len() && line.take(keyword.len() as int) == keyword {
        line.skip(keyword.len() as int)
    } else {
        line
    }
}

/// The fields of a trust anchor line.
pub open spec fn fields_of(line: Seq<char>) -> Seq<Seq<char>> {
    split_on(without_keyword(line), ',').map_values(|f: Seq<char>| trimmed(f))
}

/// What is wrong with a line.
#[verifier::ext_equal]
pub ghost enum LineFault {
    /// A field does not parse.
    Syntax { reason: Seq<char> },
    /// The fields parse but do not make a valid anchor.
    Anchor { reason: Seq<char> },
}

impl LineFault {
    /// The failure that a faulty line gives.
    pub open spec fn failure(self, file_path: Seq<char>, line_number: nat) -> Failure {
        match self {
            LineFault::Syntax { reason } => Failure::Parse { file_path, line_number, reason },
            LineFault::Anchor { reason } => Failure::TrustAnchor { reason },
        }
    }
}

/// The anchor that fields denote when the key tag stands at position `k` and the class is given,
/// or what is wrong with them.
pub open spec fn anchor_of_fields(fields: Seq<Seq<char>>, class: u16, k: int) -> Result<
    AnchorModel,
    LineFault,
> {
    let hex = without_white(fields[k + 3]);
    match parse_name(fields[0]) {
        None => Err(
            LineFault::Syntax {
                reason: "invalid domain '"@ + fields[0] + "': not a domain name"@,
            },
        ),
        Some(domain) => match parse_number(fields[k], 65535) {
            None => Err(
                LineFault::Syntax {
                    reason: "invalid keytag '"@ + fields[k] + "' (must be 0-65535)"@,
                },
            ),
            Some(keytag) => match parse_number(fields[k + 1], 255) {
                None => Err(
                    LineFault::Syntax {
                        reason: "invalid algorithm '"@ + fields[k + 1] + "' (must be 0-255)"@,
                    },
                ),
                Some(algorithm) => match parse_number(fields[k + 2], 255) {
                    None => Err(
                        LineFault::Syntax {
                            reason: "invalid digest_type '"@ + fields[k + 2] + "' (must be 0-255)"@,
                        },
                    ),
                    Some(digest_type) => if !is_hex_text(hex) {
                        Err(
                            LineFault::Syntax {
                                reason: "invalid hex digest: "@ + hex_error_text(hex) + ""@,
                            },
                        )
                    } else {
                        let anchor = AnchorModel {
                            domain,
                            class,
                            keytag: keytag as u16,
                            algorithm: algorithm as u8,
                            digest_type: digest_type as u8,
                            digest: hex_bytes(hex),
                            rfc5011_status: None,
                        };
                        match anchor.fault() {
                            Some(reason) => Err(LineFault::Anchor { reason }),
                            None => Ok(anchor),
                        }
                    },
                },
            },
        },
    }
}

/// The anchor that a line denotes, or what is wrong with it. The fields are the domain, the class
/// where a sixth field leaves room for one, the key tag, the algorithm, the digest type and the
/// digest.
pub open spec fn parse_line(line: Seq<char>) -> Result<AnchorModel, LineFault> {
    let fields = fields_of(line);
    if fields.len() < 5 {
        Err(
            LineFault::Syntax {
                reason:
                    "trust-anchor requires at least 5 fields: domain,keytag,algorithm,digest_type,digest"@,
            },
        )
    } else if fields.len() >= 6 && class_named(upper_text(fields[1])) is Some {
        anchor_of_fields(fields, class_named(upper_text(fields[1]))->0, 2)
    } else {
        anchor_of_fields(fields, C_IN, 1)
    }
}

/// True when a parse result agrees with what a line denotes.
pub open spec fn line_result(
    r: Result<TrustAnchor, DnsmasqError>,
    want: Result<AnchorModel, LineFault>,
    file_path: Seq<char>,
    line_number: nat,
) -> bool {
    match (r, want) {
        (Ok(a), Ok(m)) => a@ == m,
        (Err(e), Err(f)) => e@ == f.failure(file_path, line_number),
        _ => false,
    }
}

fn parse_failed(reason: String, line_num: usize, file_path: &str) -> (e: DnsmasqError)
    ensures
        e@ == (Failure::Parse {
            file_path: file_path@,
            line_number: line_num as nat,
            reason: reason@,
        }),
{
    DnsmasqError::Config(
        ConfigError::ParseError {
            file_path: String::from_str(file_path),
            line_number: line_num,
            reason,
        },
    )
}

fn bad_field(before: &str, field: &[char], after: &str, line_num: usize, file_path: &str) -> (e:
    DnsmasqError)
    ensures
        e@ == (Failure::Parse {
            file_path: file_path@,
            line_number: line_num as nat,
            reason: before@ + field@ + after@,
        }),
{
    let text = string_of(field);
    parse_failed(message_text(before, text.as_str(), after), line_num, file_path)
}

/// The fields of a trust anchor line.
fn fields(line: &str) -> (r: Vec<Vec<char>>)
    ensures
        deep(r@) == fields_of(line@),
{
    let chars = chars_of(line);
    let keyword = chars_of("trust-anchor=");
    let from: usize = if has_prefix(chars.as_slice(), keyword.as_slice()) {
        keyword.len()
    } else {
        0
    };
    let body = vstd::slice::slice_subrange(chars.as_slice(), from, chars.len());
    assert(body@ =~= without_keyword(line@));
    let parts = split_chars(body, ',');
    let mut r: Vec<Vec<char>> = Vec::new();
    let mut i: usize = 0;
    while i < parts.len()
        invariant
            i <= parts@.len(),
            r@.len() == i,
            forall|j: int| 0 <= j < i ==> (#[trigger] r@[j])@ == trimmed(parts@[j]@),
        decreases parts@.len() - i,
    {
        r.push(trim_chars(parts[i].as_slice()));
        i = i + 1;
    }
    proof {
        assert forall|j: int| 0 <= j < r@.len() implies #[trigger] deep(r@)[j] == fields_of(
            line@,
        )[j] by {
            assert(deep(parts@)[j] == parts@[j]@);
            assert(r@[j]@ == trimmed(parts@[j]@));
        }
        assert(deep(r@) =~= fields_of(line@));
    }
    r
}

fn anchor_from_fields(
    parts: &Vec<Vec<char>>,
    class: u16,
    k: usize,
    line_num: usize,
    file_path: &str,
) -> (r: Result<TrustAnchor, DnsmasqError>)
    requires
        k == 1 || k == 2,
        k + 3 < parts@.len(),
    ensures
        line_result(
            r,
            anchor_of_fields(deep(parts@), class, k as int),
            file_path@,
            line_num as nat,
        ),
{
    proof {
        assert(deep(parts@)[0] == parts@[0]@);
        assert(deep(parts@)[k as int] == parts@[k as int]@);
        assert(deep(parts@)[k + 1] == parts@[k + 1]@);
        assert(deep(parts@)[k + 2] == parts@[k + 2]@);
        assert(deep(parts@)[k + 3] == parts@[k + 3]@);
    }
    let domain = match DomainName::from_chars(parts[0].as_slice()) {
        Some(d) => d,
        None => {
            return Err(
                bad_field(
                    "invalid domain '",
                    parts[0].as_slice(),
                    "': not a domain name",
                    line_num,
                    file_path,
                ),
            );
        },
    };
    let keytag: u64 = match number_of(parts[k].as_slice(), 65535) {
        Some(n) => n,
        None => {
            return Err(
                bad_field(
                    "invalid keytag '",
                    parts[k].as_slice(),
                    "' (must be 0-65535)",
                    line_num,
                    file_path,
                ),
            );
        },
    };
    let algorithm: u64 = match number_of(parts[k + 1].as_slice(), 255) {
        Some(n) => n,
        None => {
            return Err(
                bad_field(
                    "invalid algorithm '",
                    parts[k + 1].as_slice(),
                    "' (must be 0-255)",
                    line_num,
                    file_path,
                ),
            );
        },
    };
    let digest_type: u64 = match number_of(parts[k + 2].as_slice(), 255) {
        Some(n) => n,
        None => {
            return Err(
                bad_field(
                    "invalid digest_type '",
                    parts[k + 2].as_slice(),
                    "' (must be 0-255)",
                    line_num,
                    file_path,
                ),
            );
        },
    };
    let digest = match TrustAnchorStore::parse_hex_digest(
        parts[k + 3].as_slice(),
        line_num,
        file_path,
    ) {
        Ok(d) => d,
        Err(e) => {
            return Err(e);
        },
    };
    TrustAnchor::new(
        domain,
        class,
        keytag as u16,
        algorithm as u8,
        digest_type as u8,
        digest,
    )
}

/// True of a line that is passed over: it is blank or a comment.
pub open spec fn passed_over(line: Seq<char>) -> bool {
    trimmed(line).len() == 0 || trimmed(line)[0] == '#'
}

/// The number of lines before the first that is neither passed over nor an anchor.
pub open spec fn good_lines(lines: Seq<Seq<char>>) -> nat
    decreases lines.len(),
{
    if lines.len() == 0 || (!passed_over(lines[0]) && parse_line(trimmed(lines[0])) is Err) {
        0
    } else {
        1 + good_lines(lines.skip(1))
    }
}

/// The anchors that good lines denote, in order.
pub open spec fn anchors_of_lines(lines: Seq<Seq<char>>) -> Seq<AnchorModel>
    decreases lines.len(),
{
    if lines.len() == 0 {
        Seq::empty()
    } else if passed_over(lines.last()) {
        anchors_of_lines(lines.drop_last())
    } else {
        anchors_of_lines(lines.drop_last()).push(parse_line(trimmed(lines.last()))->Ok_0)
    }
}

/// The anchors of a list that belong to a zone.
pub open spec fn of_zone(anchors: Seq<AnchorModel>, key: Seq<Seq<u8>>) -> Seq<AnchorModel> {
    anchors.filter(|a: AnchorModel| canon(a.domain) == key)
}

proof fn lemma_of_zone_empty(key: Seq<Seq<u8>>)
    ensures
        of_zone(Seq::empty(), key) == Seq::<AnchorModel>::empty(),
{
    Seq::<AnchorModel>::empty().lemma_filter_len(|a: AnchorModel| canon(a.domain) == key);
    assert(of_zone(Seq::empty(), key) =~= Seq::<AnchorModel>::empty());
}

proof fn lemma_good_lines_bound(lines: Seq<Seq<char>>)
    ensures
        good_lines(lines) <= lines.len(),
    decreases lines.len(),
{
    if lines.len() > 0 {
        lemma_good_lines_bound(lines.skip(1));
    }
}

/// What a line denotes is a valid anchor.
pub proof fn lemma_parsed_valid(line: Seq<char>)
    ensures
        parse_line(line) matches Ok(a) ==> a.valid(),
{
}

/// The anchors of one zone.
#[derive(Debug)]
struct Zone {
    name: DomainName,
    anchors: Vec<TrustAnchor>,
}

/// The trust anchors, by zone.
#[derive(Debug)]
pub struct TrustAnchorStore {
    zones: Vec<Zone>,
}

/// The anchors of the zones, each zone by the lower-case labels of its name.
pub type Listing = Seq<(Seq<Seq<u8>>, Seq<AnchorModel>)>;

impl Zone {
    spec fn key(self) -> Seq<Seq<u8>> {
        canon(self.name@)
    }
}

impl Zone {
    fn copy(&self) -> (r: Self)
        ensures
            r.name@ == self.name@,
            anchor_models(r.anchors@) == anchor_models(self.anchors@),
    {
        let mut anchors: Vec<TrustAnchor> = Vec::new();
        let mut i: usize = 0;
        while i < self.anchors.len()
            invariant
                i <= self.anchors@.len(),
                anchors@.len() == i,
                forall|j: int| 0 <= j < i ==> (#[trigger] anchors@[j])@ == self.anchors@[j]@,
            decreases self.anchors@.len() - i,
        {
            anchors.push(self.anchors[i].clone());
            i = i + 1;
        }
        assert(anchor_models(anchors@) =~= anchor_models(self.anchors@));
        Zone { name: self.name.clone(), anchors }
    }
}

impl Clone for TrustAnchorStore {
    fn clone(&self) -> (r: Self)
        ensures
            r@ == self@,
            r.names() == self.names(),
    {
        proof {
            use_type_invariant(self);
        }
        let mut zones: Vec<Zone> = Vec::new();
        let mut i: usize = 0;
        while i < self.zones.len()
            invariant
                i <= self.zones@.len(),
                zones@.len() == i,
                forall|j: int|
                    0 <= j < i ==> (#[trigger] zones@[j]).name@ == self.zones@[j].name@
                        && anchor_models(zones@[j].anchors@) == anchor_models(
                        self.zones@[j].anchors@,
                    ),
            decreases self.zones@.len() - i,
        {
            zones.push(self.zones[i].copy());
            i = i + 1;
        }
        assert(listing(zones@) =~= listing(self.zones@));
        assert(names_of(zones@) =~= names_of(self.zones@));
        TrustAnchorStore { zones }
    }
}

impl View for TrustAnchorStore {
    type V = Listing;

    closed spec fn view(&self) -> Listing {
        listing(self.zones@)
    }
}

spec fn names_of(zones: Seq<Zone>) -> Seq<Seq<Seq<u8>>> {
    zones.map_values(|z: Zone| z.name@)
}

spec fn listing(zones: Seq<Zone>) -> Listing {
    zones.map_values(|z: Zone| (z.key(), anchor_models(z.anchors@)))
}

/// The first of some names that is the given one but for the case of letters.
pub open spec fn kept_under(names: Seq<Seq<Seq<u8>>>, key: Seq<Seq<u8>>) -> Option<Seq<Seq<u8>>>
    decreases names.len(),
{
    if names.len() == 0 {
        None
    } else if canon(names[0]) == key {
        Some(names[0])
    } else {
        kept_under(names.skip(1), key)
    }
}

/// The name under which a zone is kept once some anchors have been added: the one it was kept under,
/// else that of the first of the anchors.
pub open spec fn name_with(
    before: Option<Seq<Seq<u8>>>,
    added: Seq<AnchorModel>,
) -> Option<Seq<Seq<u8>>> {
    if before is None && added.len() > 0 {
        Some(added[0].domain)
    } else {
        before
    }
}

proof fn lemma_name_absent(names: Seq<Seq<Seq<u8>>>, key: Seq<Seq<u8>>)
    requires
        forall|i: int| 0 <= i < names.len() ==> canon(#[trigger] names[i]) != key,
    ensures
        kept_under(names, key) is None,
    decreases names.len(),
{
    if names.len() > 0 {
        assert forall|i: int| 0 <= i < names.skip(1).len() implies canon(
            #[trigger] names.skip(1)[i],
        ) != key by {
            assert(names.skip(1)[i] == names[i + 1]);
        }
        lemma_name_absent(names.skip(1), key);
    }
}

proof fn lemma_name_insert(names: Seq<Seq<Seq<u8>>>, i: int, name: Seq<Seq<u8>>, key: Seq<Seq<u8>>)
    requires
        0 <= i <= names.len(),
        forall|j: int| 0 <= j < names.len() ==> canon(#[trigger] names[j]) != canon(name),
    ensures
        kept_under(names.insert(i, name), key) == if key == canon(name) {
            Some(name)
        } else {
            kept_under(names, key)
        },
    decreases names.len(),
{
    let new = names.insert(i, name);
    if i == 0 {
        assert(new.skip(1) =~= names);
    } else {
        let tail = names.skip(1);
        assert(new[0] == names[0]);
        assert(new.skip(1) =~= tail.insert(i - 1, name));
        assert forall|j: int| 0 <= j < tail.len() implies canon(#[trigger] tail[j]) != canon(name) by {
            assert(tail[j] == names[j + 1]);
        }
        lemma_name_insert(tail, i - 1, name, key);
    }
}

/// The names of the zones of a list, and the keys of its listing, go together.
proof fn lemma_distinct_names(zones: Seq<Zone>, i: int)
    requires
        well_kept(listing(zones)),
        0 <= i < zones.len(),
    ensures
        forall|j: int|
            0 <= j < names_of(zones).remove(i).len() ==> canon(
                #[trigger] names_of(zones).remove(i)[j],
            ) != canon(names_of(zones)[i]),
{
    let names = names_of(zones);
    let rest = names.remove(i);
    let list = listing(zones);
    assert forall|j: int| 0 <= j < rest.len() implies canon(#[trigger] rest[j]) != canon(names[i]) by {
        let k = if j < i {
            j
        } else {
            j + 1
        };
        assert(rest[j] == zones[k].name@);
        assert(list[k].0 == canon(zones[k].name@));
        assert(list[i].0 == canon(zones[i].name@));
        law_name_order(list[i].0, list[i].0, list[i].0);
        if k < i {
            assert(name_less(list[k].0, list[i].0));
        } else {
            assert(name_less(list[i].0, list[k].0));
        }
    }
}

/// Dropping a zone drops its name and no other.
proof fn lemma_name_drop(zones: Seq<Zone>, i: int, key: Seq<Seq<u8>>)
    requires
        well_kept(listing(zones)),
        0 <= i < zones.len(),
    ensures
        kept_under(names_of(zones.remove(i)), key) == if key == canon(zones[i].name@) {
            None
        } else {
            kept_under(names_of(zones), key)
        },
        kept_under(names_of(zones), canon(zones[i].name@)) == Some(zones[i].name@),
{
    let names = names_of(zones);
    let rest = names.remove(i);
    assert(names_of(zones.remove(i)) =~= rest);
    lemma_distinct_names(zones, i);
    lemma_name_insert(rest, i, names[i], key);
    lemma_name_insert(rest, i, names[i], canon(names[i]));
    lemma_name_absent(rest, canon(names[i]));
    assert(rest.insert(i, names[i]) =~= names);
}

/// True of a list in which the zones stand in canonical order, each once, each with at least one
/// anchor, and all anchors are valid and belong to their zone.
pub open spec fn well_kept(list: Listing) -> bool {
    &&& forall|i: int, j: int|
        0 <= i < j < list.len() ==> name_less(#[trigger] list[i].0, #[trigger] list[j].0)
    &&& forall|i: int| 0 <= i < list.len() ==> (#[trigger] list[i]).1.len() > 0
    &&& forall|i: int, k: int|
        0 <= i < list.len() && 0 <= k < list[i].1.len() ==> (#[trigger] list[i].1[k]).valid()
            && canon(list[i].1[k].domain) == list[i].0
}

/// The anchors of a zone; none where the zone is not in the list.
pub open spec fn anchors_at(list: Listing, key: Seq<Seq<u8>>) -> Seq<AnchorModel>
    decreases list.len(),
{
    if list.len() == 0 {
        Seq::empty()
    } else if list[0].0 == key {
        list[0].1
    } else {
        anchors_at(list.skip(1), key)
    }
}

/// The anchors of the closest zone at or above a name that has any.
pub open spec fn closest(list: Listing, name: Seq<Seq<u8>>) -> Seq<AnchorModel>
    decreases name.len(),
{
    if anchors_at(list, name).len() > 0 || name.len() == 0 {
        anchors_at(list, name)
    } else {
        closest(list, name.skip(1))
    }
}

/// The number of anchors of all zones.
pub open spec fn total(list: Listing) -> nat
    decreases list.len(),
{
    if list.len() == 0 {
        0
    } else {
        list[0].1.len() + total(list.skip(1))
    }
}

/// The anchors with another key tag.
pub open spec fn other_tags(anchors: Seq<AnchorModel>, keytag: u16) -> Seq<AnchorModel> {
    anchors.filter(|a: AnchorModel| a.keytag != keytag)
}

/// The list `a` followed by the zone `z` and the list `b` gives `z` its anchors.
proof fn lemma_anchors_at(list: Listing, i: int)
    requires
        well_kept(list),
        0 <= i < list.len(),
    ensures
        anchors_at(list, list[i].0) == list[i].1,
    decreases list.len(),
{
    if i > 0 {
        assert(name_less(list[0].0, list[i].0));
        law_name_order(list[0].0, list[i].0, list[i].0);
        lemma_tail(list);
        lemma_anchors_at(list.skip(1), i - 1);
        assert(list.skip(1)[i - 1] == list[i]);
    }
}

proof fn lemma_tail(list: Listing)
    requires
        well_kept(list),
        list.len() > 0,
    ensures
        well_kept(list.skip(1)),
{
    let tail = list.skip(1);
    assert forall|i: int, j: int| 0 <= i < j < tail.len() implies name_less(
        #[trigger] tail[i].0,
        #[trigger] tail[j].0,
    ) by {
        assert(tail[i] == list[i + 1] && tail[j] == list[j + 1]);
    }
    assert forall|i: int| 0 <= i < tail.len() implies (#[trigger] tail[i]).1.len() > 0 by {
        assert(tail[i] == list[i + 1]);
    }
    assert forall|i: int, k: int| 0 <= i < tail.len() && 0 <= k < tail[i].1.len() implies (
    #[trigger] tail[i].1[k]).valid() && canon(tail[i].1[k].domain) == tail[i].0 by {
        assert(tail[i] == list[i + 1]);
        assert(list[i + 1].1[k].valid());
    }
}

proof fn lemma_absent(list: Listing, key: Seq<Seq<u8>>)
    requires
        forall|i: int| 0 <= i < list.len() ==> (#[trigger] list[i]).0 != key,
    ensures
        anchors_at(list, key) == Seq::<AnchorModel>::empty(),
    decreases list.len(),
{
    if list.len() > 0 {
        assert forall|i: int| 0 <= i < list.skip(1).len() implies (#[trigger] list.skip(1)[i]).0
            != key by {
            assert(list.skip(1)[i] == list[i + 1]);
        }
        lemma_absent(list.skip(1), key);
    }
}

/// A zone put in place of one with the same name changes what that name gives and nothing else.
proof fn lemma_update(list: Listing, i: int, zone: (Seq<Seq<u8>>, Seq<AnchorModel>))
    requires
        0 <= i < list.len(),
        well_kept(list),
        zone.0 == list[i].0,
    ensures
        anchors_at(list.update(i, zone), zone.0) == zone.1,
        forall|k: Seq<Seq<u8>>|
            k != zone.0 ==> #[trigger] anchors_at(list.update(i, zone), k) == anchors_at(list, k),
        total(list.update(i, zone)) == total(list) - list[i].1.len() + zone.1.len(),
    decreases list.len(),
{
    let new = list.update(i, zone);
    if i == 0 {
        assert(new.skip(1) =~= list.skip(1));
    } else {
        lemma_tail(list);
        assert(new.skip(1) =~= list.skip(1).update(i - 1, zone));
        assert(list.skip(1)[i - 1] == list[i]);
        lemma_update(list.skip(1), i - 1, zone);
        assert(name_less(list[0].0, list[i].0));
        law_name_order(list[0].0, list[i].0, list[i].0);
        assert forall|k: Seq<Seq<u8>>| k != zone.0 implies #[trigger] anchors_at(new, k)
            == anchors_at(list, k) by {
            assert(anchors_at(new.skip(1), k) == anchors_at(list.skip(1), k));
        }
    }
}

/// A new zone changes what its name gives and nothing else.
proof fn lemma_insert(list: Listing, i: int, zone: (Seq<Seq<u8>>, Seq<AnchorModel>))
    requires
        0 <= i <= list.len(),
        forall|j: int| 0 <= j < list.len() ==> (#[trigger] list[j]).0 != zone.0,
    ensures
        anchors_at(list.insert(i, zone), zone.0) == zone.1,
        forall|k: Seq<Seq<u8>>|
            k != zone.0 ==> #[trigger] anchors_at(list.insert(i, zone), k) == anchors_at(list, k),
        total(list.insert(i, zone)) == total(list) + zone.1.len(),
    decreases list.len(),
{
    let new = list.insert(i, zone);
    if i == 0 {
        assert(new.skip(1) =~= list);
    } else {
        assert(new.skip(1) =~= list.skip(1).insert(i - 1, zone));
        assert forall|j: int| 0 <= j < list.skip(1).len() implies (#[trigger] list.skip(1)[j]).0
            != zone.0 by {
            assert(list.skip(1)[j] == list[j + 1]);
        }
        lemma_insert(list.skip(1), i - 1, zone);
        assert(list[0].0 != zone.0);
        assert forall|k: Seq<Seq<u8>>| k != zone.0 implies #[trigger] anchors_at(new, k)
            == anchors_at(list, k) by {
            assert(anchors_at(new.skip(1), k) == anchors_at(list.skip(1), k));
        }
    }
}

/// Dropping a zone changes what its name gives and nothing else.
proof fn lemma_drop(list: Listing, i: int)
    requires
        0 <= i < list.len(),
        well_kept(list),
    ensures
        anchors_at(list.remove(i), list[i].0) == Seq::<AnchorModel>::empty(),
        forall|k: Seq<Seq<u8>>|
            k != list[i].0 ==> #[trigger] anchors_at(list.remove(i), k) == anchors_at(list, k),
        total(list.remove(i)) == total(list) - list[i].1.len(),
{
    let small = list.remove(i);
    let zone = list[i];
    assert forall|j: int| 0 <= j < small.len() implies (#[trigger] small[j]).0 != zone.0 by {
        if j < i {
            assert(name_less(list[j].0, list[i].0));
        } else {
            assert(name_less(list[i].0, list[j + 1].0));
        }
        law_name_order(zone.0, zone.0, zone.0);
    }
    lemma_insert(small, i, zone);
    assert(small.insert(i, zone) =~= list);
    lemma_absent(small, zone.0);
}

impl TrustAnchorStore {
    #[verifier::type_invariant]
    closed spec fn inv(self) -> bool {
        well_kept(self@)
    }

    /// The names under which the zones are kept, in the order of the zones: each as it was written
    /// in the first anchor that was added for the zone.
    pub closed spec fn names(self) -> Seq<Seq<Seq<u8>>> {
        names_of(self.zones@)
    }

    /// A store without anchors.
    pub fn new() -> (r: Self)
        ensures
            r@ == Listing::empty(),
            r.names() == Seq::<Seq<Seq<u8>>>::empty(),
    {
        let zones: Vec<Zone> = Vec::new();
        assert(listing(zones@) =~= Listing::empty());
        assert(names_of(zones@) =~= Seq::<Seq<Seq<u8>>>::empty());
        TrustAnchorStore { zones }
    }

    /// The position at which a name stands or would stand.
    fn place(zones: &Vec<Zone>, name: &DomainName) -> (i: usize)
        requires
            well_kept(listing(zones@)),
        ensures
            i <= zones@.len(),
            forall|j: int| 0 <= j < i ==> name_less(#[trigger] listing(zones@)[j].0, canon(name@)),
            forall|j: int|
                i <= j < zones@.len() ==> !name_less(#[trigger] listing(zones@)[j].0, canon(name@)),
    {
        let ghost list = listing(zones@);
        let mut i: usize = 0;
        while i < zones.len()
            invariant
                i <= zones@.len(),
                list == listing(zones@),
                well_kept(list),
                forall|j: int| 0 <= j < i ==> name_less(#[trigger] list[j].0, canon(name@)),
            decreases zones@.len() - i,
        {
            assert(list[i as int].0 == zones@[i as int].key());
            if !zones[i].name.is_before(name) {
                proof {
                    assert forall|j: int| i <= j < zones@.len() implies !name_less(
                        #[trigger] list[j].0,
                        canon(name@),
                    ) by {
                        if j > i {
                            law_name_order(list[i as int].0, list[j].0, canon(name@));
                        }
                    }
                }
                return i;
            }
            i = i + 1;
        }
        i
    }

    /// The position of a zone, if it has anchors.
    fn position(&self, name: &DomainName) -> (r: Option<usize>)
        ensures
            match r {
                Some(i) => i < self.zones@.len() && self@[i as int].0 == canon(name@)
                    && anchors_at(self@, canon(name@)) == anchor_models(
                    self.zones@[i as int].anchors@,
                ),
                None => anchors_at(self@, canon(name@)) == Seq::<AnchorModel>::empty() && forall|
                    j: int,
                |
                    0 <= j < self@.len() ==> (#[trigger] self@[j]).0 != canon(name@),
            },
    {
        proof {
            use_type_invariant(self);
        }
        let i: usize = Self::place(&self.zones, name);
        if i < self.zones.len() && self.zones[i].name.same_name(name) {
            proof {
                lemma_anchors_at(self@, i as int);
            }
            return Some(i);
        }
        proof {
            let key = canon(name@);
            assert forall|j: int| 0 <= j < self@.len() implies (#[trigger] self@[j]).0 != key by {
                law_name_order(key, key, key);
                if j < i {
                    assert(name_less(self@[j].0, key));
                } else if j > i {
                    assert(name_less(self@[i as int].0, self@[j].0));
                    if self@[j].0 == key {
                        assert(!name_less(self@[i as int].0, key));
                    }
                } else {
                    assert(self@[j].0 == self.zones@[j].key());
                }
            }
            lemma_absent(self@, key);
        }
        None
    }

    /// The anchors of a zone.
    pub fn anchors_of(&self, zone: &DomainName) -> (r: Option<&[TrustAnchor]>)
        ensures
            match r {
                Some(a) => a@.len() > 0 && anchor_models(a@) == anchors_at(self@, canon(zone@)),
                None => anchors_at(self@, canon(zone@)).len() == 0,
            },
    {
        proof {
            use_type_invariant(self);
        }
        match self.position(zone) {
            Some(i) => {
                assert(self@[i as int].1.len() > 0);
                Some(self.zones[i].anchors.as_slice())
            },
            None => None,
        }
    }

    /// The anchors of the closest zone at or above a name.
    pub fn find_anchor(&self, domain: &DomainName) -> (r: Option<&[TrustAnchor]>)
        ensures
            match r {
                Some(a) => a@.len() > 0 && anchor_models(a@) == closest(self@, canon(domain@)),
                None => closest(self@, canon(domain@)).len() == 0,
            },
    {
        proof {
            use_type_invariant(self);
        }
        let ghost want = closest(self@, canon(domain@));
        let mut name = domain.clone();
        while name.label_count() > 0
            invariant
                closest(self@, canon(name@)) == want,
                well_kept(self@),
                want == closest(self@, canon(domain@)),
            decreases name@.len(),
        {
            if let Some(i) = self.position(&name) {
                assert(self@[i as int].1.len() > 0);
                return Some(self.zones[i].anchors.as_slice());
            }
            proof {
                assert(canon(name@.skip(1)) =~= canon(name@).skip(1));
            }
            name = name.parent();
        }
        match self.position(&name) {
            Some(i) => {
                assert(self@[i as int].1.len() > 0);
                Some(self.zones[i].anchors.as_slice())
            },
            None => None,
        }
    }

    /// Adds an anchor to those of its zone; an anchor that is not valid is refused and changes
    /// nothing.
    pub fn add_anchor(&mut self, anchor: TrustAnchor) -> (r: Result<(), DnsmasqError>)
        ensures
            match r {
                Ok(_) => {
                    let key = canon(anchor@.domain);
                    &&& anchor@.valid()
                    &&& anchors_at(final(self)@, key) == anchors_at(old(self)@, key).push(anchor@)
                    &&& forall|k: Seq<Seq<u8>>|
                        k != key ==> #[trigger] anchors_at(final(self)@, k) == anchors_at(
                            old(self)@,
                            k,
                        )
                    &&& total(final(self)@) == total(old(self)@) + 1
                    &&& forall|k: Seq<Seq<u8>>| #[trigger]
                        kept_under(final(self).names(), k) == if k == key {
                            name_with(kept_under(old(self).names(), k), seq![anchor@])
                        } else {
                            kept_under(old(self).names(), k)
                        }
                },
                Err(e) => *final(self) == *old(self) && (anchor@.fault() matches Some(t) && e@ == (
                Failure::TrustAnchor { reason: t })),
            },
    {
        if let Err(e) = anchor.validate() {
            return Err(e);
        }
        proof {
            use_type_invariant(&*self);
        }
        let ghost list = self@;
        let ghost before_zones = self.zones@;
        let ghost key = canon(anchor@.domain);
        let found = self.position(&anchor.domain);
        let mut whole = TrustAnchorStore::new();
        std::mem::swap(self, &mut whole);
        let mut zones = whole.zones;
        match found {
            Some(i) => {
                let mut zone = zones.remove(i);
                let ghost before = anchor_models(zone.anchors@);
                zone.anchors.push(anchor);
                let ghost entry = (key, before.push(anchor@));
                assert(anchor_models(zone.anchors@) =~= before.push(anchor@));
                zones.insert(i, zone);
                proof {
                    assert(names_of(zones@) =~= names_of(before_zones));
                    lemma_name_drop(before_zones, i as int, key);
                    lemma_anchors_at(list, i as int);
                    lemma_update(list, i as int, entry);
                    assert(listing(zones@) =~= list.update(i as int, entry));
                    lemma_update_kept(list, i as int, entry);
                }
            },
            None => {
                let i: usize = Self::place(&zones, &anchor.domain);
                let name = anchor.domain.clone();
                let mut anchors: Vec<TrustAnchor> = Vec::new();
                anchors.push(anchor);
                let ghost entry = (key, seq![anchor@]);
                assert(anchor_models(anchors@) =~= seq![anchor@]);
                zones.insert(i, Zone { name, anchors });
                proof {
                    let names = names_of(before_zones);
                    assert(names_of(zones@) =~= names.insert(i as int, name@));
                    assert forall|j: int| 0 <= j < names.len() implies canon(#[trigger] names[j])
                        != key by {
                        assert(list[j].0 == canon(names[j]));
                    }
                    lemma_name_absent(names, key);
                    assert forall|k: Seq<Seq<u8>>| #[trigger]
                        kept_under(names_of(zones@), k) == if k == key {
                            Some(name@)
                        } else {
                            kept_under(names, k)
                        } by {
                        lemma_name_insert(names, i as int, name@, k);
                    }
                    assert(listing(zones@) =~= list.insert(i as int, entry));
                    lemma_insert(list, i as int, entry);
                    lemma_insert_kept(list, i as int, entry);
                    assert(anchors_at(list, key).push(anchor@) =~= seq![anchor@]);
                }
            },
        }
        *self = TrustAnchorStore { zones };
        Ok(())
    }

    /// Removes the anchors of a zone that have a key tag. There must be one.
    pub fn remove_anchor(&mut self, domain: &DomainName, keytag: u16) -> (r: Result<(), DnsmasqError>)
        ensures
            ({
                let key = canon(domain@);
                let had = anchors_at(old(self)@, key);
                let left = other_tags(had, keytag);
                match r {
                    Ok(_) => {
                        &&& left.len() < had.len()
                        &&& anchors_at(final(self)@, key) == left
                        &&& forall|k: Seq<Seq<u8>>|
                            k != key ==> #[trigger] anchors_at(final(self)@, k) == anchors_at(
                                old(self)@,
                                k,
                            )
                        &&& total(final(self)@) == total(old(self)@) - (had.len() - left.len())
                        &&& forall|k: Seq<Seq<u8>>| #[trigger]
                            kept_under(final(self).names(), k) == if k == key && left.len() == 0 {
                                None
                            } else {
                                kept_under(old(self).names(), k)
                            }
                    },
                    Err(e) => {
                        &&& left.len() == had.len()
                        &&& *final(self) == *old(self)
                        &&& e@ == (Failure::TrustAnchor {
                            reason: "Trust anchor not found: domain="@ + name_text(domain@)
                                + ", keytag="@ + dec(keytag as nat),
                        })
                    },
                }
            }),
    {
        proof {
            use_type_invariant(&*self);
        }
        let ghost list = self@;
        let ghost key = canon(domain@);
        let ghost had = anchors_at(list, key);
        proof {
            lemma_other_tags(had, keytag);
        }
        if let Some(i) = self.position(domain) {
            let left = keep_other_tags(&self.zones[i].anchors, keytag);
            if left.len() < self.zones[i].anchors.len() {
                let ghost entry = (key, anchor_models(left@));
                let ghost before_zones = self.zones@;
                let mut whole = TrustAnchorStore::new();
                std::mem::swap(self, &mut whole);
                let mut zones = whole.zones;
                let zone = zones.remove(i);
                proof {
                    lemma_anchors_at(list, i as int);
                    lemma_update(list, i as int, entry);
                    lemma_drop(list, i as int);
                    assert(listing(zones@) =~= list.remove(i as int));
                    lemma_remove_kept(list, i as int);
                    assert(zones@ =~= before_zones.remove(i as int));
                    assert(key == canon(before_zones[i as int].name@));
                    assert forall|k: Seq<Seq<u8>>| #[trigger]
                        kept_under(names_of(zones@), k) == if k == key {
                            None
                        } else {
                            kept_under(names_of(before_zones), k)
                        } by {
                        lemma_name_drop(before_zones, i as int, k);
                    }
                }
                if left.len() > 0 {
                    zones.insert(i, Zone { name: zone.name, anchors: left });
                    proof {
                        assert(names_of(zones@) =~= names_of(before_zones));
                        assert(listing(zones@) =~= list.update(i as int, entry));
                        lemma_update_kept(list, i as int, entry);
                    }
                } else {
                    assert(anchor_models(left@) =~= Seq::<AnchorModel>::empty());
                }
                *self = TrustAnchorStore { zones };
                return Ok(());
            }
        }
        let name = domain.as_str();
        let tag = crate::text::decimal(keytag as u64);
        Err(
            anchor_failed(
                message_text("Trust anchor not found: domain=", name.as_str(), ", keytag=").concat(
                    tag.as_str(),
                ),
            ),
        )
    }

    /// Checks every anchor; a store holds valid anchors only.
    pub fn validate(&self) -> (r: Result<(), DnsmasqError>)
        ensures
            r is Ok,
            well_kept(self@),
    {
        proof {
            use_type_invariant(self);
        }
        let mut i: usize = 0;
        while i < self.zones.len()
            invariant
                i <= self.zones@.len(),
                well_kept(self@),
            decreases self.zones@.len() - i,
        {
            let anchors = &self.zones[i].anchors;
            let mut k: usize = 0;
            while k < anchors.len()
                invariant
                    k <= anchors@.len(),
                    i < self.zones@.len(),
                    anchors == self.zones@[i as int].anchors,
                    well_kept(self@),
                decreases anchors@.len() - k,
            {
                proof {
                    assert(self@[i as int].1[k as int].valid());
                    assert(self@[i as int].1[k as int] == anchors@[k as int]@);
                }
                if let Err(e) = anchors[k].validate() {
                    return Err(e);
                }
                k = k + 1;
            }
            i = i + 1;
        }
        Ok(())
    }

    /// The zones with their anchors, in canonical order.
    pub fn iter(&self) -> (r: Vec<(&DomainName, &[TrustAnchor])>)
        ensures
            r@.len() == self@.len(),
            self.names().len() == self@.len(),
            forall|i: int|
                0 <= i < r@.len() ==> (#[trigger] r@[i]).0@ == self.names()[i] && canon(r@[i].0@)
                    == self@[i].0 && anchor_models(r@[i].1@) == self@[i].1,
    {
        let mut r: Vec<(&DomainName, &[TrustAnchor])> = Vec::new();
        let mut i: usize = 0;
        while i < self.zones.len()
            invariant
                i <= self.zones@.len(),
                r@.len() == i,
                forall|j: int|
                    0 <= j < i ==> (#[trigger] r@[j]).0@ == self.names()[j] && canon(r@[j].0@)
                        == self@[j].0 && anchor_models(r@[j].1@) == self@[j].1,
            decreases self.zones@.len() - i,
        {
            r.push((&self.zones[i].name, self.zones[i].anchors.as_slice()));
            i = i + 1;
        }
        r
    }

    /// The number of anchors of all zones.
    pub fn len(&self) -> (r: usize)
        requires
            total(self@) <= usize::MAX,
        ensures
            r == total(self@),
    {
        let mut n: usize = 0;
        let mut i: usize = 0;
        assert(self@.skip(0) =~= self@);
        while i < self.zones.len()
            invariant
                i <= self.zones@.len(),
                total(self@) <= usize::MAX,
                n + total(self@.skip(i as int)) == total(self@),
            decreases self.zones@.len() - i,
        {
            proof {
                assert(self@.skip(i as int)[0] == self@[i as int]);
                assert(self@.skip(i as int).skip(1) =~= self@.skip(i + 1));
            }
            n = n + self.zones[i].anchors.len();
            i = i + 1;
        }
        n
    }

    /// True when there are no anchors.
    pub fn is_empty(&self) -> (r: bool)
        ensures
            r == (self@ == Listing::empty()),
            r == (total(self@) == 0),
    {
        proof {
            use_type_invariant(self);
            if self@.len() == 0 {
                assert(self@ =~= Listing::empty());
            } else {
                assert(self@[0].1.len() > 0);
            }
        }
        self.zones.len() == 0
    }

    /// Removes every anchor.
    pub fn clear(&mut self)
        ensures
            final(self)@ == Listing::empty(),
            final(self).names() == Seq::<Seq<Seq<u8>>>::empty(),
    {
        *self = TrustAnchorStore::new();
    }

    /// Adds the anchors of a configuration text, line by line. Blank lines and lines that start
    /// with `#` are passed over. The first line that is not an anchor ends the reading; the
    /// anchors before it stay.
    pub fn load_from_text(&mut self, content: &str, file_path: &str) -> (r: Result<
        (),
        DnsmasqError,
    >)
        ensures
            ({
                let lines = split_on(content@, '\n');
                let n = good_lines(lines);
                let added = anchors_of_lines(lines.take(n as int));
                &&& match r {
                    Ok(_) => n == lines.len(),
                    Err(e) => n < lines.len() && e@ == parse_line(
                        trimmed(lines[n as int]),
                    )->Err_0.failure(file_path@, n + 1),
                }
                &&& forall|k: Seq<Seq<u8>>| #[trigger]
                    anchors_at(final(self)@, k) == anchors_at(old(self)@, k) + of_zone(added, k)
                &&& total(final(self)@) == total(old(self)@) + added.len()
                &&& forall|k: Seq<Seq<u8>>| #[trigger]
                    kept_under(final(self).names(), k) == name_with(
                        kept_under(old(self).names(), k),
                        of_zone(added, k),
                    )
            }),
    {
        let chars = chars_of(content);
        let lines = split_chars(chars.as_slice(), '\n');
        let ghost all = split_on(content@, '\n');
        let ghost start = self@;
        let ghost names = self.names();
        let mut i: usize = 0;
        proof {
            assert(all.skip(0) =~= all);
            assert(anchors_of_lines(all.take(0)) =~= Seq::<AnchorModel>::empty());
            assert forall|k: Seq<Seq<u8>>| #[trigger]
                anchors_at(self@, k) == anchors_at(start, k) + of_zone(
                    anchors_of_lines(all.take(0)),
                    k,
                ) by {
                lemma_of_zone_empty(k);
                assert(anchors_at(start, k) + Seq::<AnchorModel>::empty() =~= anchors_at(start, k));
            }
            assert forall|k: Seq<Seq<u8>>| #[trigger]
                kept_under(self.names(), k) == name_with(
                    kept_under(names, k),
                    of_zone(anchors_of_lines(all.take(0)), k),
                ) by {
                lemma_of_zone_empty(k);
            }
        }
        while i < lines.len()
            invariant
                start == old(self)@,
                all == split_on(content@, '\n'),
                deep(lines@) == all,
                i <= lines@.len() == all.len(),
                i + good_lines(all.skip(i as int)) == good_lines(all),
                forall|k: Seq<Seq<u8>>| #[trigger]
                    anchors_at(self@, k) == anchors_at(start, k) + of_zone(
                        anchors_of_lines(all.take(i as int)),
                        k,
                    ),
                total(self@) == total(start) + anchors_of_lines(all.take(i as int)).len(),
                names == old(self).names(),
                forall|k: Seq<Seq<u8>>| #[trigger]
                    kept_under(self.names(), k) == name_with(
                        kept_under(names, k),
                        of_zone(anchors_of_lines(all.take(i as int)), k),
                    ),
            decreases lines@.len() - i,
        {
            let ghost head = all.take(i as int);
            let ghost so_far = anchors_of_lines(head);
            proof {
                assert(all[i as int] == lines@[i as int]@);
                assert(all.skip(i as int)[0] == all[i as int]);
                assert(all.skip(i as int).skip(1) =~= all.skip(i + 1));
                assert(all.take(i + 1).drop_last() =~= head);
            }
            let line = trim_chars(lines[i].as_slice());
            if line.len() > 0 && line[0] != '#' {
                let text = string_of(line.as_slice());
                match self.parse_trust_anchor_line(text.as_str(), i + 1, file_path) {
                    Ok(anchor) => {
                        proof {
                            lemma_good_lines_bound(all.skip(i as int));
                        }
                        let ghost model = anchor@;
                        let ghost before = self@;
                        let ghost names_before = self.names();
                        if let Err(e) = self.add_anchor(anchor) {
                            proof {
                                lemma_parsed_valid(trimmed(all[i as int]));
                            }
                            return Err(e);
                        }
                        proof {
                            assert forall|k: Seq<Seq<u8>>| #[trigger]
                                anchors_at(self@, k) == anchors_at(start, k) + of_zone(
                                    so_far.push(model),
                                    k,
                                ) by {
                                so_far.lemma_filter_push(
                                    model,
                                    |a: AnchorModel| canon(a.domain) == k,
                                );
                                assert(anchors_at(before, k) == anchors_at(start, k) + of_zone(
                                    so_far,
                                    k,
                                ));
                                assert(anchors_at(start, k) + of_zone(so_far.push(model), k)
                                    =~= if canon(model.domain) == k {
                                    anchors_at(before, k).push(model)
                                } else {
                                    anchors_at(before, k)
                                });
                            }
                            assert forall|k: Seq<Seq<u8>>| #[trigger]
                                kept_under(self.names(), k) == name_with(
                                    kept_under(names, k),
                                    of_zone(so_far.push(model), k),
                                ) by {
                                so_far.lemma_filter_push(
                                    model,
                                    |a: AnchorModel| canon(a.domain) == k,
                                );
                                assert(kept_under(names_before, k) == name_with(
                                    kept_under(names, k),
                                    of_zone(so_far, k),
                                ));
                            }
                        }
                    },
                    Err(e) => {
                        return Err(e);
                    },
                }
            }
            i = i + 1;
        }
        proof {
            assert(all.skip(i as int) =~= Seq::empty());
        }
        Ok(())
    }

    fn parse_hex_digest(hex_str: &[char], line_num: usize, file_path: &str) -> (r: Result<
        Vec<u8>,
        DnsmasqError,
    >)
        ensures
            ({
                let hex = without_white(hex_str@);
                match r {
                    Ok(v) => is_hex_text(hex) && v@ == hex_bytes(hex),
                    Err(e) => !is_hex_text(hex) && e@ == (Failure::Parse {
                        file_path: file_path@,
                        line_number: line_num as nat,
                        reason: "invalid hex digest: "@ + hex_error_text(hex) + ""@,
                    }),
                }
            }),
    {
        let clean = remove_white(hex_str);
        let text = string_of(clean.as_slice());
        match decode_hex(text.as_str()) {
            Ok(v) => Ok(v),
            Err(t) => Err(
                parse_failed(
                    message_text("invalid hex digest: ", t.as_str(), ""),
                    line_num,
                    file_path,
                ),
            ),
        }
    }

    /// The anchor that a configuration line denotes.
    pub fn parse_trust_anchor_line(&self, line: &str, line_num: usize, file_path: &str) -> (r:
        Result<TrustAnchor, DnsmasqError>)
        ensures
            line_result(r, parse_line(line@), file_path@, line_num as nat),
    {
        let parts = fields(line);
        if parts.len() < 5 {
            return Err(
                parse_failed(
                    String::from_str(
                        "trust-anchor requires at least 5 fields: domain,keytag,algorithm,digest_type,digest",
                    ),
                    line_num,
                    file_path,
                ),
            );
        }
        if parts.len() >= 6 {
            proof {
                assert(deep(parts@)[1] == parts@[1]@);
            }
            let name = string_of(parts[1].as_slice());
            let upper = uppercase(name.as_str());
            if let Some(class) = class_from_name(upper.as_str()) {
                return anchor_from_fields(&parts, class, 2, line_num, file_path);
            }
        }
        anchor_from_fields(&parts, C_IN, 1, line_num, file_path)
    }
}

proof fn lemma_update_kept(list: Listing, i: int, zone: (Seq<Seq<u8>>, Seq<AnchorModel>))
    requires
        well_kept(list),
        0 <= i < list.len(),
        zone.0 == list[i].0,
        zone.1.len() > 0,
        forall|k: int|
            0 <= k < zone.1.len() ==> (#[trigger] zone.1[k]).valid() && canon(zone.1[k].domain)
                == zone.0,
    ensures
        well_kept(list.update(i, zone)),
{
    let new = list.update(i, zone);
    assert forall|a: int, b: int| 0 <= a < b < new.len() implies name_less(
        #[trigger] new[a].0,
        #[trigger] new[b].0,
    ) by {
        assert(name_less(list[a].0, list[b].0));
    }
    assert forall|a: int, k: int| 0 <= a < new.len() && 0 <= k < new[a].1.len() implies (
    #[trigger] new[a].1[k]).valid() && canon(new[a].1[k].domain) == new[a].0 by {
        if a != i {
            assert(list[a].1[k].valid());
        }
    }
}

proof fn lemma_insert_kept(list: Listing, i: int, zone: (Seq<Seq<u8>>, Seq<AnchorModel>))
    requires
        well_kept(list),
        0 <= i <= list.len(),
        zone.1.len() > 0,
        forall|j: int| 0 <= j < list.len() ==> (#[trigger] list[j]).0 != zone.0,
        forall|j: int| 0 <= j < i ==> name_less(#[trigger] list[j].0, zone.0),
        forall|j: int| i <= j < list.len() ==> !name_less(#[trigger] list[j].0, zone.0),
        forall|k: int|
            0 <= k < zone.1.len() ==> (#[trigger] zone.1[k]).valid() && canon(zone.1[k].domain)
                == zone.0,
    ensures
        well_kept(list.insert(i, zone)),
{
    let new = list.insert(i, zone);
    assert forall|a: int, b: int| 0 <= a < b < new.len() implies name_less(
        #[trigger] new[a].0,
        #[trigger] new[b].0,
    ) by {
        if a == i {
            assert(new[b] == list[b - 1]);
            law_name_order(list[b - 1].0, zone.0, zone.0);
            assert(list[b - 1].0 != zone.0);
        } else if b == i {
            assert(new[a] == list[a]);
        } else {
            let x = if a < i {
                a
            } else {
                a - 1
            };
            let y = if b < i {
                b
            } else {
                b - 1
            };
            assert(new[a] == list[x] && new[b] == list[y]);
            assert(name_less(list[x].0, list[y].0));
        }
    }
    assert forall|a: int| 0 <= a < new.len() implies (#[trigger] new[a]).1.len() > 0 by {
        if a < i {
            assert(new[a] == list[a]);
        } else if a > i {
            assert(new[a] == list[a - 1]);
        }
    }
    assert forall|a: int, k: int| 0 <= a < new.len() && 0 <= k < new[a].1.len() implies (
    #[trigger] new[a].1[k]).valid() && canon(new[a].1[k].domain) == new[a].0 by {
        if a < i {
            assert(new[a] == list[a]);
            assert(list[a].1[k].valid());
        } else if a > i {
            assert(new[a] == list[a - 1]);
            assert(list[a - 1].1[k].valid());
        }
    }
}

proof fn lemma_remove_kept(list: Listing, i: int)
    requires
        well_kept(list),
        0 <= i < list.len(),
    ensures
        well_kept(list.remove(i)),
{
    let new = list.remove(i);
    assert forall|a: int, b: int| 0 <= a < b < new.len() implies name_less(
        #[trigger] new[a].0,
        #[trigger] new[b].0,
    ) by {
        let x = if a < i {
            a
        } else {
            a + 1
        };
        let y = if b < i {
            b
        } else {
            b + 1
        };
        assert(new[a] == list[x] && new[b] == list[y]);
        assert(name_less(list[x].0, list[y].0));
    }
    assert forall|a: int| 0 <= a < new.len() implies (#[trigger] new[a]).1.len() > 0 by {
        assert(new[a] == list[if a < i {
            a
        } else {
            a + 1
        }]);
    }
    assert forall|a: int, k: int| 0 <= a < new.len() && 0 <= k < new[a].1.len() implies (
    #[trigger] new[a].1[k]).valid() && canon(new[a].1[k].domain) == new[a].0 by {
        let x = if a < i {
            a
        } else {
            a + 1
        };
        assert(new[a] == list[x]);
        assert(list[x].1[k].valid());
    }
}

proof fn lemma_other_tags(anchors: Seq<AnchorModel>, keytag: u16)
    ensures
        other_tags(anchors, keytag).len() <= anchors.len(),
        forall|k: int|
            0 <= k < other_tags(anchors, keytag).len() ==> anchors.contains(
                #[trigger] other_tags(anchors, keytag)[k],
            ),
{
    let p = |a: AnchorModel| a.keytag != keytag;
    anchors.lemma_filter_len(p);
    assert forall|k: int| 0 <= k < other_tags(anchors, keytag).len() implies anchors.contains(
        #[trigger] other_tags(anchors, keytag)[k],
    ) by {
        anchors.lemma_filter_contains_rev(p, other_tags(anchors, keytag)[k]);
    }
}

/// The anchors with another key tag.
fn keep_other_tags(anchors: &Vec<TrustAnchor>, keytag: u16) -> (r: Vec<TrustAnchor>)
    ensures
        anchor_models(r@) == other_tags(anchor_models(anchors@), keytag),
{
    let ghost models = anchor_models(anchors@);
    let ghost p = |a: AnchorModel| a.keytag != keytag;
    let mut r: Vec<TrustAnchor> = Vec::new();
    let mut i: usize = 0;
    assert(models.take(0).filter(p) =~= Seq::<AnchorModel>::empty());
    assert(anchor_models(r@) =~= models.take(0).filter(p));
    while i < anchors.len()
        invariant
            i <= anchors@.len(),
            models == anchor_models(anchors@),
            p == (|a: AnchorModel| a.keytag != keytag),
            anchor_models(r@) == models.take(i as int).filter(p),
        decreases anchors@.len() - i,
    {
        let ghost before = anchor_models(r@);
        proof {
            let head = models.take(i as int);
            assert(models.take(i + 1) =~= head.push(models[i as int]));
            assert(models[i as int] == anchors@[i as int]@);
            reveal(Seq::filter);
            assert(head.push(models[i as int]).drop_last() =~= head);
        }
        if anchors[i].keytag != keytag {
            r.push(anchors[i].clone());
            assert(anchor_models(r@) =~= before.push(anchors@[i as int]@));
        }
        i = i + 1;
    }
    assert(models.take(i as int) =~= models);
    r
}

impl Default for TrustAnchorStore {
    fn default() -> (r: Self)
        ensures
            r@ == Listing::empty(),
            r.names() == Seq::<Seq<Seq<u8>>>::empty(),
    {
        Self::new()
    }
}

/// An anchor without a rollover state is trusted, and so is one whose key is confirmed or valid; a
/// key that is new or was revoked is not.
pub proof fn law_trusted(a: AnchorModel)
    ensures
        a.rfc5011_status is None ==> a.trusted(),
        a.rfc5011_status == Some(Rfc5011State::Hold) ==> a.trusted(),
        a.rfc5011_status == Some(Rfc5011State::Valid) ==> a.trusted(),
        a.rfc5011_status == Some(Rfc5011State::AddHold) ==> !a.trusted(),
        a.rfc5011_status == Some(Rfc5011State::Removed) ==> !a.trusted(),
{
}

/// An anchor is valid exactly where its algorithm is one of the assigned signature algorithms and
/// its digest has the length of its type: 20 bytes for 1, 32 for 2 and 48 for 4.
pub proof fn law_valid_anchor(a: AnchorModel)
    ensures
        a.valid() <==> {
            &&& a.algorithm == 1 || a.algorithm == 3 || a.algorithm == 5 || a.algorithm == 6
                || a.algorithm == 7 || a.algorithm == 8 || a.algorithm == 10 || a.algorithm == 12
                || a.algorithm == 13 || a.algorithm == 14 || a.algorithm == 15 || a.algorithm == 16
            &&& (a.digest_type == 1 && a.digest.len() == 20) || (a.digest_type == 2 && a.digest.len()
                == 32) || (a.digest_type == 4 && a.digest.len() == 48)
        },
{
}

/// What is said of an anchor that is not valid: its algorithm is named first, then the type of its
/// digest, then the two lengths.
pub proof fn law_anchor_faults(a: AnchorModel)
    ensures
        a.algorithm == 0 || a.algorithm == 2 || a.algorithm == 4 || a.algorithm == 9 || a.algorithm
            == 11 || a.algorithm > 16 ==> a.fault() == Some(
            "Invalid DNSSEC algorithm: "@ + dec(a.algorithm as nat),
        ),
        a.algorithm == 8 && a.digest_type != 1 && a.digest_type != 2 && a.digest_type != 4
            ==> a.fault() == Some("Invalid digest type: "@ + dec(a.digest_type as nat)),
        a.algorithm == 8 && a.digest_type == 2 && a.digest.len() != 32 ==> a.fault() == Some(
            "Invalid digest length for type "@ + dec(2) + ": expected "@ + dec(32) + ", got "@ + dec(
                a.digest.len(),
            ),
        ),
{
    reveal_strlit("");
    assert("Invalid DNSSEC algorithm: "@ + dec(a.algorithm as nat) + ""@
        =~= "Invalid DNSSEC algorithm: "@ + dec(a.algorithm as nat));
    assert("Invalid digest type: "@ + dec(a.digest_type as nat) + ""@ =~= "Invalid digest type: "@
        + dec(a.digest_type as nat));
}

/// The hexadecimal digits of a byte string, two for each byte and the higher first, in lower or in
/// upper case, read back as the byte string.
pub proof fn law_hex(bytes: Seq<u8>, s: Seq<char>)
    requires
        s.len() == 2 * bytes.len(),
        forall|i: int|
            0 <= i < bytes.len() ==> #[trigger] hex_pair(bytes[i], s[2 * i], s[2 * i + 1]),
    ensures
        is_hex_text(s),
        hex_bytes(s) == bytes,
{
    assert forall|j: int| 0 <= j < s.len() implies is_hex(#[trigger] s[j]) by {
        let i = j / 2;
        assert(hex_pair(bytes[i], s[2 * i], s[2 * i + 1]));
        if j % 2 == 0 {
            assert(j == 2 * i);
            lemma_hex_digit(s[j], (bytes[i] / 16) as nat);
        } else {
            assert(j == 2 * i + 1);
            lemma_hex_digit(s[j], (bytes[i] % 16) as nat);
        }
    }
    assert forall|i: int| 0 <= i < bytes.len() implies #[trigger] hex_bytes(s)[i] == bytes[i] by {
        assert(hex_pair(bytes[i], s[2 * i], s[2 * i + 1]));
    }
    assert(hex_bytes(s) =~= bytes);
}

/// True of the hexadecimal digit of a number, in either case.
pub open spec fn hex_digit_of(c: char, d: nat) -> bool {
    (d < 10 && c as nat == '0' as nat + d) || (10 <= d < 16 && (c as nat == 'a' as nat + (d - 10)
        || c as nat == 'A' as nat + (d - 10)))
}

/// A hexadecimal digit has the value of its number.
proof fn lemma_hex_digit(c: char, d: nat)
    requires
        hex_digit_of(c, d),
    ensures
        is_hex(c),
        hex_value(c) == d,
{
}

/// True of the two hexadecimal digits of a byte.
pub open spec fn hex_pair(b: u8, high: char, low: char) -> bool {
    hex_digit_of(high, (b / 16) as nat) && hex_digit_of(low, (b % 16) as nat)
}

/// An odd number of digits, or any other character, is not hexadecimal.
pub proof fn law_no_hex(s: Seq<char>, i: int)
    ensures
        s.len() % 2 == 1 ==> !is_hex_text(s),
        0 <= i < s.len() && (forall|d: nat| d < 16 ==> !#[trigger] hex_digit_of(s[i], d))
            ==> !is_hex_text(s),
{
    if 0 <= i < s.len() && is_hex(s[i]) {
        assert(hex_digit_of(s[i], hex_value(s[i])));
    }
}

/// The names of the classes, and their numbers.
pub proof fn law_class_names(s: Seq<char>)
    ensures
        class_named("IN"@) == Some(1u16),
        class_named("CH"@) == Some(3u16),
        class_named("CHAOS"@) == Some(3u16),
        class_named("HS"@) == Some(4u16),
        class_named("HESIOD"@) == Some(4u16),
        s != "IN"@ && s != "CH"@ && s != "CHAOS"@ && s != "HS"@ && s != "HESIOD"@
            ==> class_named(s) is None,
{
    reveal_strlit("IN");
    reveal_strlit("CH");
    reveal_strlit("CHAOS");
    reveal_strlit("HS");
    reveal_strlit("HESIOD");
    assert("CH"@[0] != "IN"@[0]);
    assert("HS"@[0] != "IN"@[0]);
    assert("HS"@[0] != "CH"@[0]);
    assert("CHAOS"@.len() == 5 && "HESIOD"@.len() == 6);
}

/// In upper case, the small letters of an ASCII text become capitals and nothing else changes.
pub proof fn law_upper(s: Seq<char>, i: int)
    requires
        is_ascii_chars(s),
        0 <= i < s.len(),
    ensures
        upper_text(s).len() == s.len(),
        'a' <= s[i] <= 'z' ==> upper_text(s)[i] as nat == s[i] as nat - 'a' as nat + 'A' as nat,
        !('a' <= s[i] <= 'z') ==> upper_text(s)[i] == s[i],
{
}

/// The fields of a line are its parts between commas, without the white space round them; the
/// keyword in front of the first is passed over.
pub proof fn law_fields(first: Seq<char>, rest: Seq<char>)
    requires
        forall|i: int| 0 <= i < first.len() ==> #[trigger] first[i] != ',',
    ensures
        fields_of("trust-anchor="@ + first) == seq![trimmed(first)],
        fields_of("trust-anchor="@ + (first + seq![','] + rest)) == seq![trimmed(first)] + fields_of(
            "trust-anchor="@ + rest,
        ),
{
    let k = "trust-anchor="@;
    let joined = first + seq![','] + rest;
    assert forall|t: Seq<char>| without_keyword(#[trigger] (k + t)) == t by {
        assert((k + t).take(k.len() as int) =~= k);
        assert((k + t).skip(k.len() as int) =~= t);
    }
    assert(without_keyword(k + first) == first);
    assert(without_keyword(k + joined) == joined);
    assert(without_keyword(k + rest) == rest);
    law_split_whole(first, ',');
    law_split_joined(first, rest, ',');
    assert(fields_of(k + first) =~= seq![trimmed(first)]);
    assert(fields_of(k + joined) =~= seq![trimmed(first)] + fields_of(k + rest));
}

/// The keyword may be left out.
pub proof fn law_keyword(line: Seq<char>)
    requires
        line.len() == 0 || line[0] != 't',
    ensures
        fields_of("trust-anchor="@ + line) == fields_of(line),
{
    let k = "trust-anchor="@;
    reveal_strlit("trust-anchor=");
    assert((k + line).take(k.len() as int) =~= k);
    assert((k + line).skip(k.len() as int) =~= line);
    if line.len() >= k.len() {
        assert(line.take(k.len() as int)[0] == line[0]);
        assert(k[0] == 't');
    }
}

/// True when fields from position `k` on give the parts of an anchor after its class.
pub open spec fn gives_anchor(fields: Seq<Seq<char>>, k: int, a: AnchorModel) -> bool {
    let hex = without_white(fields[k + 3]);
    &&& parse_name(fields[0]) == Some(a.domain)
    &&& fields[k] == dec(a.keytag as nat)
    &&& fields[k + 1] == dec(a.algorithm as nat)
    &&& fields[k + 2] == dec(a.digest_type as nat)
    &&& hex.len() == 2 * a.digest.len()
    &&& forall|i: int|
        0 <= i < a.digest.len() ==> #[trigger] hex_pair(a.digest[i], hex[2 * i], hex[2 * i + 1])
}

proof fn lemma_gives_anchor(fields: Seq<Seq<char>>, k: int, a: AnchorModel, class: u16)
    requires
        gives_anchor(fields, k, a),
    ensures
        a.valid() && a.class == class && a.rfc5011_status is None ==> anchor_of_fields(
            fields,
            class,
            k,
        ) == Ok::<AnchorModel, LineFault>(a),
        !a.valid() ==> (anchor_of_fields(fields, class, k) matches Err(LineFault::Anchor { reason })
            && a.fault() == Some(reason)),
{
    law_hex(a.digest, without_white(fields[k + 3]));
    law_decimal(a.keytag as nat, 65535);
    law_decimal(a.algorithm as nat, 255);
    law_decimal(a.digest_type as nat, 255);
}

/// A line of five fields gives an anchor of the Internet class: its domain, key tag, algorithm,
/// digest type and digest, in this order.
pub proof fn law_anchor_line(line: Seq<char>, a: AnchorModel)
    requires
        fields_of(line).len() == 5,
        gives_anchor(fields_of(line), 1, a),
    ensures
        a.valid() && a.class == 1 && a.rfc5011_status is None ==> parse_line(line) == Ok::<
            AnchorModel,
            LineFault,
        >(a),
        !a.valid() ==> (parse_line(line) matches Err(LineFault::Anchor { reason }) && a.fault()
            == Some(reason)),
{
    lemma_gives_anchor(fields_of(line), 1, a, 1);
}

/// A line of six fields or more may name the class after the domain, in either case.
pub proof fn law_anchor_line_with_class(line: Seq<char>, a: AnchorModel)
    requires
        fields_of(line).len() >= 6,
        gives_anchor(fields_of(line), 2, a),
        a.valid(),
        a.rfc5011_status is None,
    ensures
        a.class == 1 && upper_text(fields_of(line)[1]) == "IN"@ ==> parse_line(line) == Ok::<
            AnchorModel,
            LineFault,
        >(a),
        a.class == 3 && (upper_text(fields_of(line)[1]) == "CH"@ || upper_text(fields_of(line)[1])
            == "CHAOS"@) ==> parse_line(line) == Ok::<AnchorModel, LineFault>(a),
        a.class == 4 && (upper_text(fields_of(line)[1]) == "HS"@ || upper_text(fields_of(line)[1])
            == "HESIOD"@) ==> parse_line(line) == Ok::<AnchorModel, LineFault>(a),
{
    law_class_names(upper_text(fields_of(line)[1]));
    lemma_gives_anchor(fields_of(line), 2, a, a.class);
}

/// Where the second field names no class, further fields change nothing.
pub proof fn law_anchor_line_with_more(line: Seq<char>, a: AnchorModel)
    requires
        fields_of(line).len() >= 6,
        gives_anchor(fields_of(line), 1, a),
        class_named(upper_text(fields_of(line)[1])) is None,
        a.valid(),
        a.class == 1,
        a.rfc5011_status is None,
    ensures
        parse_line(line) == Ok::<AnchorModel, LineFault>(a),
{
    lemma_gives_anchor(fields_of(line), 1, a, 1);
}

/// A line is refused where it has fewer than five fields, where the first is no name, where the key
/// tag, the algorithm or the type of the digest is no number or too large, and where the digest is
/// not hexadecimal.
pub proof fn law_faulty_line(line: Seq<char>)
    ensures
        fields_of(line).len() < 5 ==> parse_line(line) matches Err(LineFault::Syntax { .. }),
        fields_of(line).len() >= 5 && parse_name(fields_of(line)[0]) is None ==> parse_line(
            line,
        ) matches Err(LineFault::Syntax { .. }),
        fields_of(line).len() == 5 && (parse_number(fields_of(line)[1], 65535) is None
            || parse_number(fields_of(line)[2], 255) is None || parse_number(
            fields_of(line)[3],
            255,
        ) is None || !is_hex_text(without_white(fields_of(line)[4]))) ==> parse_line(
            line,
        ) matches Err(LineFault::Syntax { .. }),
{
}

/// Lines of white space are passed over, and so are those with a number sign in front. Others are
/// not.
pub proof fn law_passed_over(white: Seq<char>, c: char, rest: Seq<char>)
    requires
        all_white(white),
    ensures
        passed_over(white),
        passed_over(white + seq!['#'] + rest),
        !is_white(c) && c != '#' ==> !passed_over(white + seq![c] + rest),
{
    law_trimmed(white, Seq::empty(), Seq::empty());
    assert(white + Seq::<char>::empty() + Seq::<char>::empty() =~= white);
    law_trimmed_start(white, '#', rest);
    if !is_white(c) {
        law_trimmed_start(white, c, rest);
    }
}

/// Lines are read up to the first one that is neither passed over nor an anchor.
pub proof fn law_lines_read(lines: Seq<Seq<char>>, n: nat)
    requires
        n <= lines.len(),
        forall|i: int|
            0 <= i < n ==> passed_over(#[trigger] lines[i]) || parse_line(trimmed(lines[i])) is Ok,
        n < lines.len() ==> !passed_over(lines[n as int]) && parse_line(
            trimmed(lines[n as int]),
        ) is Err,
    ensures
        good_lines(lines) == n,
    decreases n,
{
    if n > 0 {
        let rest = lines.skip(1);
        assert(lines[0] == lines[0]);
        assert forall|i: int| 0 <= i < n - 1 implies passed_over(#[trigger] rest[i]) || parse_line(
            trimmed(rest[i]),
        ) is Ok by {
            assert(rest[i] == lines[i + 1]);
        }
        law_lines_read(rest, (n - 1) as nat);
    }
}

/// Each line gives its anchor, in order; one that is passed over gives none.
pub proof fn law_anchors_of_lines(lines: Seq<Seq<char>>, line: Seq<char>, a: AnchorModel)
    ensures
        anchors_of_lines(Seq::empty()).len() == 0,
        passed_over(line) ==> anchors_of_lines(lines.push(line)) == anchors_of_lines(lines),
        !passed_over(line) && parse_line(trimmed(line)) == Ok::<AnchorModel, LineFault>(a)
            ==> anchors_of_lines(lines.push(line)) == anchors_of_lines(lines).push(a),
{
    assert(lines.push(line).drop_last() =~= lines);
}

/// The anchors of a zone are those whose domain is the zone, in order and without regard to the case
/// of letters. Removing a key tag takes every anchor with it and leaves the others in order.
pub proof fn law_anchors_chosen(anchors: Seq<AnchorModel>, a: AnchorModel, key: Seq<Seq<u8>>, tag: u16)
    ensures
        of_zone(Seq::empty(), key).len() == 0,
        of_zone(anchors.push(a), key) == if canon(a.domain) == key {
            of_zone(anchors, key).push(a)
        } else {
            of_zone(anchors, key)
        },
        other_tags(Seq::empty(), tag).len() == 0,
        other_tags(anchors.push(a), tag) == if a.keytag == tag {
            other_tags(anchors, tag)
        } else {
            other_tags(anchors, tag).push(a)
        },
{
    reveal(Seq::filter);
    assert(anchors.push(a).drop_last() =~= anchors);
}

/// The anchors under a name are those of its entry; without one there are none.
pub proof fn law_anchors_at(list: Listing, i: int, key: Seq<Seq<u8>>)
    requires
        well_kept(list),
    ensures
        0 <= i < list.len() && list[i].0 == key ==> anchors_at(list, key) == list[i].1,
        (forall|j: int| 0 <= j < list.len() ==> (#[trigger] list[j]).0 != key) ==> anchors_at(
            list,
            key,
        ).len() == 0,
    decreases list.len(),
{
    if list.len() > 0 {
        let rest = list.skip(1);
        assert forall|j: int, k: int| 0 <= j < k < rest.len() implies name_less(
            #[trigger] rest[j].0,
            #[trigger] rest[k].0,
        ) by {
            assert(rest[j] == list[j + 1] && rest[k] == list[k + 1]);
        }
        assert forall|j: int| 0 <= j < rest.len() implies (#[trigger] rest[j]).1.len() > 0 by {
            assert(rest[j] == list[j + 1]);
        }
        assert forall|j: int, k: int| 0 <= j < rest.len() && 0 <= k < rest[j].1.len() implies (
        #[trigger] rest[j].1[k]).valid() && canon(rest[j].1[k].domain) == rest[j].0 by {
            assert(rest[j] == list[j + 1]);
            assert(list[j + 1].1[k].valid());
        }
        law_anchors_at(rest, i - 1, key);
        if 0 < i < list.len() && list[i].0 == key {
            assert(rest[i - 1] == list[i]);
            assert(name_less(list[0].0, list[i].0));
            law_name_order(list[0].0, list[i].0, list[i].0);
        }
        assert(list[0] == list[0]);
        assert forall|j: int| 0 <= j < rest.len() implies (#[trigger] rest[j]) == list[j + 1] by {}
    }
}

/// The anchors for a name are those of the name itself, or else of the closest name above it that
/// has any, up to the root.
pub proof fn law_closest(list: Listing, name: Seq<Seq<u8>>, k: int)
    requires
        0 <= k <= name.len(),
        forall|j: int| 0 <= j < k ==> anchors_at(list, #[trigger] name.skip(j)).len() == 0,
        anchors_at(list, name.skip(k)).len() > 0 || k == name.len(),
    ensures
        closest(list, name) == anchors_at(list, name.skip(k)),
    decreases k,
{
    assert(name.skip(0) =~= name);
    if k > 0 {
        let above = name.skip(1);
        assert(above.skip(k - 1) =~= name.skip(k));
        assert forall|j: int| 0 <= j < k - 1 implies anchors_at(list, #[trigger] above.skip(j)).len()
            == 0 by {
            assert(above.skip(j) =~= name.skip(j + 1));
        }
        law_closest(list, above, k - 1);
    }
}

/// The number of anchors of an empty list is zero, and each entry adds its own.
pub proof fn law_total(list: Listing, key: Seq<Seq<u8>>, anchors: Seq<AnchorModel>)
    ensures
        total(Listing::empty()) == 0,
        total(list.push((key, anchors))) == total(list) + anchors.len(),
    decreases list.len(),
{
    let more = list.push((key, anchors));
    if list.len() > 0 {
        law_total(list.skip(1), key, anchors);
        assert(more.skip(1) =~= list.skip(1).push((key, anchors)));
        assert(more[0] == list[0]);
    } else {
        assert(more[0] == (key, anchors));
        assert(total(more.skip(1)) == 0);
    }
}

/// A zone keeps the name under which its first anchor came, in the case of letters that it had.
pub proof fn law_kept_names(
    names: Seq<Seq<Seq<u8>>>,
    i: int,
    key: Seq<Seq<u8>>,
    before: Option<Seq<Seq<u8>>>,
    added: Seq<AnchorModel>,
)
    ensures
        0 <= i < names.len() && canon(names[i]) == key && (forall|j: int|
            0 <= j < i ==> canon(#[trigger] names[j]) != key) ==> kept_under(names, key) == Some(
            names[i],
        ),
        (forall|j: int| 0 <= j < names.len() ==> canon(#[trigger] names[j]) != key) ==> kept_under(
            names,
            key,
        ) is None,
        before is Some ==> name_with(before, added) == before,
        before is None && added.len() > 0 ==> name_with(before, added) == Some(added[0].domain),
        before is None && added.len() == 0 ==> name_with(before, added) is None,
    decreases names.len(),
{
    if names.len() > 0 {
        let rest = names.skip(1);
        law_kept_names(rest, i - 1, key, before, added);
        assert forall|j: int| 0 <= j < rest.len() implies (#[trigger] rest[j]) == names[j + 1] by {}
        assert(names[0] == names[0]);
        if 0 < i < names.len() {
            assert(rest[i - 1] == names[i]);
        }
    }
}

/// A line gives its anchor, or an error that tells the file and the number of the line where its
/// form is at fault, and else what is wrong with the anchor.
pub proof fn law_line_result(
    r: Result<TrustAnchor, DnsmasqError>,
    want: Result<AnchorModel, LineFault>,
    file_path: Seq<char>,
    line_number: nat,
    reason: Seq<char>,
)
    requires
        line_result(r, want, file_path, line_number),
    ensures
        want matches Ok(m) ==> (r matches Ok(a) && a@ == m),
        want == Err::<AnchorModel, LineFault>(LineFault::Syntax { reason }) ==> (r matches Err(e)
            && e@ == (Failure::Parse { file_path, line_number, reason })),
        want == Err::<AnchorModel, LineFault>(LineFault::Anchor { reason }) ==> (r matches Err(e)
            && e@ == (Failure::TrustAnchor { reason })),
{
}

} // verus!
