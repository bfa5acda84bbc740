//! What a DHCPv6 server answers.
//!
//! The lease database is outside: a handler gets the leases as a list and says what is to be done
//! with the database next; the answer to that is built once it is done.
use vstd::prelude::*;
use vstd::utf8::encode_utf8;
use crate::address_text::{ip_text, show_ip};
use crate::clock::Timestamp;
use crate::dhcp::v6::constants::{
    MSG_ADVERTISE, MSG_DECLINE, MSG_INFORMATION_REQUEST, MSG_REBIND, MSG_RELEASE, MSG_RENEW, MSG_REPLY,
    MSG_REQUEST, MSG_SOLICIT, OPTION_CLIENT_ID, OPTION_DNS_SERVER, OPTION_DOMAIN_SEARCH, OPTION_IAADDR,
    OPTION_IA_NA, OPTION_NTP_SERVER, OPTION_RAPID_COMMIT, OPTION_SERVER_ID, OPTION_STATUS_CODE, STATUS_NOADDRS,
    STATUS_NOBINDING, STATUS_NOPREFIXAVAIL, STATUS_NOTONLINK, STATUS_SUCCESS, STATUS_UNSPEC,
    STATUS_USEMULTICAST,
};
use crate::dhcp::v6::message::{option_bytes, DhcpModel, DhcpV6Message};
use crate::dhcp::v6::options::{
    addr_header, address_bytes, address_list, append_labels, ia_header, label_bytes, law_association_headers,
    law_option_reads_back, long_label, protocol_error, protocol_failure,
};
use crate::dhcp::v6::pool::{find_by_ip, find_free, first_free, law_first_free, lease_of, Lease};
use crate::error::DhcpError;
use crate::text::{chars_of, dec, message1, message_text, split_chars, split_on};
use crate::types::{IpAddr, Ipv6Addr};
use crate::wire::{
    be_bytes, be_nat, copy_range, lemma_be2, lemma_be_bytes_len, lemma_be_nat_of_bytes, lemma_u16_field,
    lemma_u32_field, pow256, put_slice, put_u16, put_u32, read_u16, same_bytes, u16_at, u32_at,
};

verus! {

/// The statuses that an answer can report.
#[derive(Debug, Clone, Copy, PartialEq, Eq, Structural)]
pub enum StatusCode {
    /// The request was granted.
    Success,
    /// It failed for an unstated reason.
    UnspecFail,
    /// No addresses are available.
    NoAddrsAvail,
    /// The server has no such binding.
    NoBinding,
    /// The address does not belong on the link.
    NotOnLink,
    /// The client must use multicast.
    UseMulticast,
    /// No prefixes are available.
    NoPrefixAvail,
}

impl StatusCode {
    /// The number of the status.
    pub open spec fn number(self) -> u16 {
        match self {
            StatusCode::Success => STATUS_SUCCESS,
            StatusCode::UnspecFail => STATUS_UNSPEC,
            StatusCode::NoAddrsAvail => STATUS_NOADDRS,
            StatusCode::NoBinding => STATUS_NOBINDING,
            StatusCode::NotOnLink => STATUS_NOTONLINK,
            StatusCode::UseMulticast => STATUS_USEMULTICAST,
            StatusCode::NoPrefixAvail => STATUS_NOPREFIXAVAIL,
        }
    }

    /// The status in words.
    pub open spec fn words(self) -> Seq<char> {
        match self {
            StatusCode::Success => "Success"@,
            StatusCode::UnspecFail => "Unspecified failure"@,
            StatusCode::NoAddrsAvail => "No addresses available"@,
            StatusCode::NoBinding => "Client binding not found"@,
            StatusCode::NotOnLink => "Address not on link"@,
            StatusCode::UseMulticast => "Use multicast"@,
            StatusCode::NoPrefixAvail => "No prefixes available"@,
        }
    }

    /// The data of a status option.
    pub open spec fn data(self) -> Seq<u8> {
        be_bytes(self.number() as nat, 2) + encode_utf8(self.words())
    }

    /// The number of the status.
    pub fn to_u16(&self) -> (r: u16)
        ensures
            r == self.number(),
    {
        match self {
            StatusCode::Success => STATUS_SUCCESS,
            StatusCode::UnspecFail => STATUS_UNSPEC,
            StatusCode::NoAddrsAvail => STATUS_NOADDRS,
            StatusCode::NoBinding => STATUS_NOBINDING,
            StatusCode::NotOnLink => STATUS_NOTONLINK,
            StatusCode::UseMulticast => STATUS_USEMULTICAST,
            StatusCode::NoPrefixAvail => STATUS_NOPREFIXAVAIL,
        }
    }

    /// The status in words.
    pub fn message(&self) -> (r: &'static str)
        ensures
            r@ == self.words(),
    {
        match self {
            StatusCode::Success => "Success",
            StatusCode::UnspecFail => "Unspecified failure",
            StatusCode::NoAddrsAvail => "No addresses available",
            StatusCode::NoBinding => "Client binding not found",
            StatusCode::NotOnLink => "Address not on link",
            StatusCode::UseMulticast => "Use multicast",
            StatusCode::NoPrefixAvail => "No prefixes available",
        }
    }

    /// The data of a status option.
    fn to_data(&self) -> (r: Vec<u8>)
        ensures
            r@ == self.data(),
    {
        let mut r: Vec<u8> = Vec::new();
        put_u16(&mut r, self.to_u16());
        put_slice(&mut r, self.message().as_bytes());
        assert(r@ =~= self.data());
        r
    }
}

/// The pool that serves a request: the addresses from `start6` to `end6`, or `start6` alone.
#[derive(Debug, Clone, Copy, PartialEq, Eq, Structural)]
pub struct DhcpContext {
    pub start6: IpAddr,
    pub end6: Option<IpAddr>,
    pub flags: u32,
    pub if_index: u32,
    pub lease_time: u32,
}

impl Default for DhcpContext {
    /// The pool of the unspecified address.
    fn default() -> (r: Self)
        ensures
            r == (DhcpContext {
                start6: IpAddr::V6(Ipv6Addr { bits: 0 }),
                end6: None,
                flags: 0,
                if_index: 0,
                lease_time: 0,
            }),
    {
        DhcpContext {
            start6: IpAddr::V6(Ipv6Addr { bits: 0 }),
            end6: None,
            flags: 0,
            if_index: 0,
            lease_time: 0,
        }
    }
}

impl DhcpContext {
    /// True of the addresses of the pool.
    pub open spec fn covers(self, a: IpAddr) -> bool {
        a == self.start6 || match (self.start6, self.end6, a) {
            (IpAddr::V6(start), Some(IpAddr::V6(end)), IpAddr::V6(x)) => start.bits <= x.bits
                <= end.bits,
            _ => false,
        }
    }

    /// The first address of the pool that no lease has.
    pub open spec fn available(self, leases: Seq<Lease>) -> Option<IpAddr> {
        if lease_of(leases, self.start6) is None {
            Some(self.start6)
        } else {
            match (self.start6, self.end6) {
                (IpAddr::V6(start), Some(IpAddr::V6(end))) => match first_free(
                    leases,
                    start.bits as int,
                    end.bits as int,
                ) {
                    Some(a) => Some(IpAddr::V6(a)),
                    None => None,
                },
                _ => None,
            }
        }
    }

    /// True of the addresses of the pool.
    pub fn contains(&self, a: &IpAddr) -> (r: bool)
        ensures
            r == self.covers(*a),
    {
        *a == self.start6 || match (&self.start6, &self.end6, a) {
            (IpAddr::V6(start), Some(IpAddr::V6(end)), IpAddr::V6(x)) => start.bits <= x.bits
                && x.bits <= end.bits,
            _ => false,
        }
    }

    /// The first address of the pool that no lease has.
    pub fn find_available(&self, leases: &Vec<Lease>) -> (r: Option<IpAddr>)
        ensures
            r == self.available(leases@),
    {
        if find_by_ip(leases, &self.start6).is_none() {
            return Some(self.start6);
        }
        match (&self.start6, &self.end6) {
            (IpAddr::V6(start), Some(IpAddr::V6(end))) => match find_free(leases, *start, *end) {
                Some(a) => Some(IpAddr::V6(a)),
                None => None,
            },
            _ => None,
        }
    }
}

/// An address that a pool has available is one of the pool, and no lease has it; where there is
/// none, leases have the whole pool.
pub proof fn law_available(context: DhcpContext, leases: Seq<Lease>)
    ensures
        match context.available(leases) {
            Some(a) => context.covers(a) && lease_of(leases, a) is None,
            None => forall|a: IpAddr|
                #![trigger context.covers(a)]
                context.covers(a) ==> lease_of(leases, a) is Some,
        },
{
    if let (IpAddr::V6(start), Some(IpAddr::V6(end))) = (context.start6, context.end6) {
        law_first_free(leases, start, end);
    }
}

/// What is known of a request besides its message.
#[derive(Debug, Clone)]
pub struct RequestContext {
    /// The identifier of the client.
    pub clid: Vec<u8>,
    /// The length of the identifier.
    pub clid_len: usize,
    /// The transaction.
    pub transaction_id: [u8; 3],
    /// The interface on which the request came.
    pub interface: String,
    /// The name of the client.
    pub client_hostname: Option<String>,
    /// The pool that serves the request.
    pub context: Option<DhcpContext>,
    /// The identifier of the association.
    pub iaid: u32,
    /// The kind of the association.
    pub ia_type: u16,
    /// Whether the request was sent to a multicast address.
    pub multicast_dest: bool,
}

impl RequestContext {
    /// A request without a name and without a pool.
    pub fn new(
        clid: Vec<u8>,
        transaction_id: [u8; 3],
        interface: &str,
        iaid: u32,
        ia_type: u16,
        multicast_dest: bool,
    ) -> (r: Self)
        ensures
            r.clid == clid,
            r.clid_len == clid@.len(),
            r.transaction_id == transaction_id,
            r.interface@ == interface@,
            r.client_hostname is None,
            r.context is None,
            r.iaid == iaid,
            r.ia_type == ia_type,
            r.multicast_dest == multicast_dest,
    {
        let clid_len: usize = clid.len();
        RequestContext {
            clid,
            clid_len,
            transaction_id,
            interface: String::from_str(interface),
            client_hostname: None,
            context: None,
            iaid,
            ia_type,
            multicast_dest,
        }
    }

    /// The request with the name of its client.
    pub fn with_hostname(self, hostname: Option<String>) -> (r: Self)
        ensures
            r == (RequestContext { client_hostname: hostname, ..self }),
    {
        let mut r = self;
        r.client_hostname = hostname;
        r
    }

    /// The request with the pool that serves it.
    pub fn with_context(self, context: Option<DhcpContext>) -> (r: Self)
        ensures
            r == (RequestContext { context, ..self }),
    {
        let mut r = self;
        r.context = context;
        r
    }
}

/// What is to be done next for a request.
#[derive(Debug)]
pub enum Outcome {
    /// Send an answer.
    Reply(DhcpV6Message),
    /// Lease an address to the client, then answer with the lease.
    Allocate { address: IpAddr, rapid_commit: bool },
    /// Extend the lease of an address, then answer with the lease.
    Renew(IpAddr),
    /// Give up the lease of an address, then report success.
    Release(IpAddr),
    /// Mark an address as not usable, then report success.
    Decline(IpAddr),
}

/// What is to be done next.
#[verifier::ext_equal]
pub ghost enum OutcomeModel {
    Reply(DhcpModel),
    Allocate { address: IpAddr, rapid_commit: bool },
    Renew(IpAddr),
    Release(IpAddr),
    Decline(IpAddr),
}

impl View for Outcome {
    type V = OutcomeModel;

    open spec fn view(&self) -> OutcomeModel {
        match *self {
            Outcome::Reply(m) => OutcomeModel::Reply(m@),
            Outcome::Allocate { address, rapid_commit } => OutcomeModel::Allocate {
                address,
                rapid_commit,
            },
            Outcome::Renew(a) => OutcomeModel::Renew(a),
            Outcome::Release(a) => OutcomeModel::Release(a),
            Outcome::Decline(a) => OutcomeModel::Decline(a),
        }
    }
}

/// Why a request is not answered.
#[verifier::ext_equal]
pub ghost enum Refusal {
    Protocol { reason: Seq<char> },
    MissingOption { name: Seq<char> },
}

/// True of the error for a refusal.
pub open spec fn refuses(e: DhcpError, f: Refusal) -> bool {
    match f {
        Refusal::Protocol { reason } => protocol_error(e, reason),
        Refusal::MissingOption { name } => e matches DhcpError::MissingOption(n) && n@ == name,
    }
}

/// True when a result is the wanted outcome or refusal.
pub open spec fn outcome_is(
    r: Result<Outcome, DhcpError>,
    want: Result<OutcomeModel, Refusal>,
) -> bool {
    match (r, want) {
        (Ok(o), Ok(w)) => o@ == w,
        (Err(e), Err(f)) => refuses(e, f),
        _ => false,
    }
}

/// True when a result is the wanted message or refusal.
pub open spec fn message_is(
    r: Result<DhcpV6Message, DhcpError>,
    want: Result<DhcpModel, Refusal>,
) -> bool {
    match (r, want) {
        (Ok(m), Ok(w)) => m@ == w,
        (Err(e), Err(f)) => refuses(e, f),
        _ => false,
    }
}

/// A result is what is wanted where both are the same message or outcome, or an error that tells the
/// refusal.
pub proof fn law_result_is_wanted(
    r: Result<DhcpV6Message, DhcpError>,
    want: Result<DhcpModel, Refusal>,
    o: Result<Outcome, DhcpError>,
    wanted: Result<OutcomeModel, Refusal>,
)
    requires
        message_is(r, want),
        outcome_is(o, wanted),
    ensures
        r matches Ok(m) ==> want == Ok::<DhcpModel, Refusal>(m@),
        r matches Err(DhcpError::V6ProtocolError { reason }) ==> want == Err::<DhcpModel, Refusal>(
            Refusal::Protocol { reason: reason@ },
        ),
        r matches Err(DhcpError::MissingOption(name)) ==> want == Err::<DhcpModel, Refusal>(
            Refusal::MissingOption { name: name@ },
        ),
        want is Err ==> r is Err,
        o matches Ok(x) ==> wanted == Ok::<OutcomeModel, Refusal>(x@),
        wanted is Err ==> o is Err,
{
}

fn refuse(reason: &str) -> (e: DhcpError)
    ensures
        protocol_error(e, reason@),
{
    protocol_failure(String::from_str(reason))
}

// Addresses in associations.

/// The first address among the options of an association, or why there is none.
pub open spec fn first_address(data: Seq<u8>) -> Result<Ipv6Addr, Seq<char>>
    decreases data.len(),
{
    if data.len() < 4 {
        Err("No IAADDR found in IA_NA"@)
    } else {
        let code = u16_at(data, 0);
        let len = u16_at(data, 2);
        if 4 + len > data.len() {
            Err("Malformed IA option"@)
        } else if code == OPTION_IAADDR {
            if len < 16 {
                Err("IAADDR too short"@)
            } else {
                Ok(Ipv6Addr { bits: be_nat(data.subrange(4, 20)) as u128 })
            }
        } else {
            first_address(data.skip(4 + len))
        }
    }
}

/// The addresses among the options of an association, up to an option that is cut short.
pub open spec fn listed_addresses(data: Seq<u8>) -> Seq<Ipv6Addr>
    decreases data.len(),
{
    if data.len() < 4 {
        Seq::empty()
    } else {
        let code = u16_at(data, 0);
        let len = u16_at(data, 2);
        if 4 + len > data.len() || (code == OPTION_IAADDR && len < 16) {
            Seq::empty()
        } else if code == OPTION_IAADDR {
            seq![Ipv6Addr { bits: be_nat(data.subrange(4, 20)) as u128 }] + listed_addresses(
                data.skip(4 + len),
            )
        } else {
            listed_addresses(data.skip(4 + len))
        }
    }
}

/// The first address among the options of an association.
pub fn parse_iaaddr_from_options(ia_options: &[u8]) -> (r: Result<IpAddr, DhcpError>)
    ensures
        match (r, first_address(ia_options@)) {
            (Ok(a), Ok(w)) => a == IpAddr::V6(w),
            (Err(e), Err(t)) => protocol_error(e, t),
            _ => false,
        },
{
    let n: usize = ia_options.len();
    let mut at: usize = 0;
    assert(ia_options@.skip(0) =~= ia_options@);
    while n - at >= 4
        invariant
            n == ia_options@.len(),
            at <= n,
            first_address(ia_options@.skip(at as int)) == first_address(ia_options@),
        decreases n - at,
    {
        let ghost rest = ia_options@.skip(at as int);
        let code: u16 = read_u16(ia_options, at);
        let len: usize = read_u16(ia_options, at + 2) as usize;
        proof {
            assert(rest.subrange(0, 2) =~= ia_options@.subrange(at as int, at + 2));
            assert(rest.subrange(2, 4) =~= ia_options@.subrange(at + 2, at + 4));
        }
        if len > n - at - 4 {
            return Err(refuse("Malformed IA option"));
        }
        if code == OPTION_IAADDR {
            if len < 16 {
                return Err(refuse("IAADDR too short"));
            }
            assert(rest.subrange(4, 20) =~= ia_options@.subrange(at + 4, at + 20));
            return Ok(IpAddr::V6(Ipv6Addr::read(ia_options, at + 4)));
        }
        assert(rest.skip(4 + len) =~= ia_options@.skip(at + 4 + len));
        at = at + 4 + len;
    }
    Err(refuse("No IAADDR found in IA_NA"))
}

/// Whether a pool has all addresses among the options of an association.
fn all_in_pool(ia_options: &[u8], context: &DhcpContext) -> (r: bool)
    ensures
        r == (forall|i: int|
            0 <= i < listed_addresses(ia_options@).len() ==> context.covers(
                IpAddr::V6(#[trigger] listed_addresses(ia_options@)[i]),
            )),
{
    let n: usize = ia_options.len();
    let mut at: usize = 0;
    let ghost all = listed_addresses(ia_options@);
    let ghost mut seen: Seq<Ipv6Addr> = Seq::empty();
    proof {
        assert(ia_options@.skip(0) =~= ia_options@);
        assert(seen + all =~= all);
    }
    while n - at >= 4
        invariant
            n == ia_options@.len(),
            at <= n,
            all == listed_addresses(ia_options@),
            all == seen + listed_addresses(ia_options@.skip(at as int)),
            forall|i: int| 0 <= i < seen.len() ==> context.covers(IpAddr::V6(#[trigger] seen[i])),
        decreases n - at,
    {
        let ghost rest = ia_options@.skip(at as int);
        let code: u16 = read_u16(ia_options, at);
        let len: usize = read_u16(ia_options, at + 2) as usize;
        proof {
            assert(rest.subrange(0, 2) =~= ia_options@.subrange(at as int, at + 2));
            assert(rest.subrange(2, 4) =~= ia_options@.subrange(at + 2, at + 4));
        }
        if len > n - at - 4 || (code == OPTION_IAADDR && len < 16) {
            assert(all =~= seen);
            return true;
        }
        assert(rest.skip(4 + len) =~= ia_options@.skip(at + 4 + len));
        if code == OPTION_IAADDR {
            assert(rest.subrange(4, 20) =~= ia_options@.subrange(at + 4, at + 20));
            let address = Ipv6Addr::read(ia_options, at + 4);
            assert(all[seen.len() as int] == address);
            if !context.contains(&IpAddr::V6(address)) {
                return false;
            }
            proof {
                assert(all =~= seen.push(address) + listed_addresses(rest.skip(4 + len)));
                seen = seen.push(address);
            }
        }
        at = at + 4 + len;
    }
    assert(all =~= seen);
    true
}

/// A domain name in wire form, up to a label that is too long; empty labels are left out.
pub open spec fn dns_name_bytes(domain: Seq<char>) -> Seq<u8> {
    let labels = split_on(domain, '.');
    if long_label(labels) is Some {
        label_bytes(labels, false)
    } else {
        label_bytes(labels, false) + seq![0u8]
    }
}

/// The words for a label that is too long.
pub open spec fn long_label_text(label: Seq<char>) -> Seq<char> {
    "DNS label too long: "@ + dec(encode_utf8(label).len()) + " bytes (max 63)"@
}

/// Appends a domain name in wire form. A label that is too long is an error; the labels before it
/// are then appended.
pub fn encode_dns_name(domain: &str, output: &mut Vec<u8>) -> (r: Result<(), DhcpError>)
    ensures
        final(output)@ == old(output)@ + dns_name_bytes(domain@),
        match (r, long_label(split_on(domain@, '.'))) {
            (Ok(_), None) => true,
            (Err(e), Some(l)) => protocol_error(e, long_label_text(l)),
            _ => false,
        },
{
    let chars = chars_of(domain);
    let labels = split_chars(chars.as_slice(), '.');
    match append_labels(output, &labels, false) {
        Some(label) => {
            let n: usize = label.as_str().as_bytes().len();
            Err(protocol_failure(message1("DNS label too long: ", n as u64, " bytes (max 63)")))
        },
        None => {
            output.push(0);
            assert(output@ =~= old(output)@ + dns_name_bytes(domain@));
            Ok(())
        },
    }
}

/// Domain names in wire form, one after the other.
pub open spec fn search_bytes(domains: Seq<Seq<char>>) -> Seq<u8>
    decreases domains.len(),
{
    if domains.len() == 0 {
        Seq::empty()
    } else {
        search_bytes(domains.drop_last()) + dns_name_bytes(domains.last())
    }
}

/// The first label of the domain names that is too long.
pub open spec fn long_search_label(domains: Seq<Seq<char>>) -> Option<Seq<char>>
    decreases domains.len(),
{
    if domains.len() == 0 {
        None
    } else {
        match long_search_label(domains.drop_last()) {
            Some(l) => Some(l),
            None => long_label(split_on(domains.last(), '.')),
        }
    }
}

/// What the server is told to hand out.
#[derive(Debug)]
pub struct DhcpConfig {
    /// How long leases last, in seconds.
    pub lease_time: u64,
    /// The DNS servers.
    pub dns_servers: Vec<Ipv6Addr>,
    /// The DNS search list.
    pub domain_search: Vec<String>,
    /// The time servers.
    pub ntp_servers: Vec<Ipv6Addr>,
}

impl DhcpConfig {
    /// The configuration with a lease time and no servers.
    pub fn new(lease_time: u64) -> (r: Self)
        ensures
            r.lease_time == lease_time,
            r.dns_servers@.len() == 0,
            r.domain_search@.len() == 0,
            r.ntp_servers@.len() == 0,
    {
        DhcpConfig {
            lease_time,
            dns_servers: Vec::new(),
            domain_search: Vec::new(),
            ntp_servers: Vec::new(),
        }
    }

    /// The names of the search list.
    pub open spec fn search(self) -> Seq<Seq<char>> {
        self.domain_search@.map_values(|s: String| s@)
    }

    /// Options with those that the configuration adds: one for each kind of server that it has,
    /// and one for the search list if it is not empty.
    pub open spec fn added(self, options: Map<u16, Seq<u8>>) -> Map<u16, Seq<u8>> {
        let with_dns = if self.dns_servers@.len() > 0 {
            options.insert(OPTION_DNS_SERVER, address_bytes(self.dns_servers@))
        } else {
            options
        };
        let with_search = if self.domain_search@.len() > 0 {
            with_dns.insert(OPTION_DOMAIN_SEARCH, search_bytes(self.search()))
        } else {
            with_dns
        };
        if self.ntp_servers@.len() > 0 {
            with_search.insert(OPTION_NTP_SERVER, address_bytes(self.ntp_servers@))
        } else {
            with_search
        }
    }

    /// A message with the options that the configuration adds; refused where a label of the search
    /// list is too long.
    pub open spec fn applied(self, m: DhcpModel) -> Result<DhcpModel, Refusal> {
        match long_search_label(self.search()) {
            Some(l) => Err(Refusal::Protocol { reason: long_label_text(l) }),
            None => Ok(DhcpModel { options: self.added(m.options), ..m }),
        }
    }

    /// The search list in wire form.
    fn search_list(&self) -> (r: Result<Vec<u8>, DhcpError>)
        ensures
            match (r, long_search_label(self.search())) {
                (Ok(v), None) => v@ == search_bytes(self.search()),
                (Err(e), Some(l)) => protocol_error(e, long_label_text(l)),
                _ => false,
            },
    {
        let ghost all = self.search();
        let mut data: Vec<u8> = Vec::new();
        let mut i: usize = 0;
        assert(all.take(0) =~= Seq::<Seq<char>>::empty());
        while i < self.domain_search.len()
            invariant
                i <= self.domain_search@.len(),
                all == self.search(),
                data@ == search_bytes(all.take(i as int)),
                long_search_label(all.take(i as int)) is None,
            decreases self.domain_search@.len() - i,
        {
            proof {
                assert(all.take(i + 1).drop_last() =~= all.take(i as int));
                assert(all.take(i + 1).last() == self.domain_search@[i as int]@);
            }
            let one = encode_dns_name(self.domain_search[i].as_str(), &mut data);
            if one.is_err() {
                proof {
                    lemma_long_search_label(all, i + 1);
                }
                return Err(one.unwrap_err());
            }
            i = i + 1;
        }
        assert(all.take(i as int) =~= all);
        Ok(data)
    }

    /// The message with the options that the configuration adds.
    fn apply(&self, m: DhcpV6Message) -> (r: Result<DhcpV6Message, DhcpError>)
        ensures
            message_is(r, self.applied(m@)),
    {
        let search = match self.search_list() {
            Ok(v) => v,
            Err(e) => {
                return Err(e);
            },
        };
        let mut m = m;
        if self.dns_servers.len() > 0 {
            m.add_option(OPTION_DNS_SERVER, address_list(self.dns_servers.as_slice()));
        }
        if self.domain_search.len() > 0 {
            m.add_option(OPTION_DOMAIN_SEARCH, search);
        }
        if self.ntp_servers.len() > 0 {
            m.add_option(OPTION_NTP_SERVER, address_list(self.ntp_servers.as_slice()));
        }
        Ok(m)
    }
}

proof fn lemma_long_search_label(domains: Seq<Seq<char>>, n: int)
    requires
        0 <= n <= domains.len(),
        long_search_label(domains.take(n)) is Some,
    ensures
        long_search_label(domains) == long_search_label(domains.take(n)),
    decreases domains.len() - n,
{
    if n < domains.len() {
        assert(domains.take(n + 1).drop_last() =~= domains.take(n));
        lemma_long_search_label(domains, n + 1);
    } else {
        assert(domains.take(n) =~= domains);
    }
}

/// The data of an association with one address: the times after which to renew and to rebind, and
/// how long the address lasts.
pub open spec fn ia_data(iaid: u32, t1: u32, t2: u32, ip: IpAddr, lifetime: u32) -> Seq<u8> {
    match ip {
        IpAddr::V6(a) => ia_header(iaid, t1, t2) + option_bytes(
            OPTION_IAADDR,
            addr_header(a, lifetime, lifetime),
        ),
        IpAddr::V4(_) => ia_header(iaid, t1, t2),
    }
}

/// The data of an association with one address.
fn association(iaid: u32, t1: u32, t2: u32, ip: &IpAddr, lifetime: u32) -> (r: Vec<u8>)
    ensures
        r@ == ia_data(iaid, t1, t2, *ip, lifetime),
{
    let mut data: Vec<u8> = Vec::new();
    put_u32(&mut data, iaid);
    put_u32(&mut data, t1);
    put_u32(&mut data, t2);
    assert(data@ =~= ia_header(iaid, t1, t2));
    if let IpAddr::V6(a) = ip {
        put_u16(&mut data, OPTION_IAADDR);
        put_u16(&mut data, 24);
        put_slice(&mut data, a.octets().as_slice());
        put_u32(&mut data, lifetime);
        put_u32(&mut data, lifetime);
        proof {
            lemma_be_bytes_len(a.bits as nat, 16);
            lemma_be_bytes_len(lifetime as nat, 4);
            assert(addr_header(*a, lifetime, lifetime).len() == 24);
            assert(data@ =~= ia_data(iaid, t1, t2, *ip, lifetime));
        }
    }
    data
}

/// How many whole seconds a lease lasts from now on; an hour where it has ended.
pub open spec fn seconds_left(expires: Timestamp, now: Timestamp) -> nat {
    if expires.nanos >= now.nanos {
        ((expires.nanos - now.nanos) / 1_000_000_000) as nat
    } else {
        3600
    }
}

/// The part of a number that fits in 32 bits.
pub open spec fn low32(n: nat) -> u32 {
    (n % 0x1_0000_0000) as u32
}

/// What is wrong with an identifier.
pub open spec fn duid_fault(duid: Seq<u8>) -> Option<Seq<char>> {
    if duid.len() < 2 {
        Some("DUID too short"@)
    } else if duid.len() > 128 {
        Some("DUID too long (max 128 bytes)"@)
    } else {
        let kind = u16_at(duid, 0);
        if kind == 1 {
            if duid.len() < 8 {
                Some("DUID-LLT too short (min 8 bytes)"@)
            } else {
                None
            }
        } else if kind == 2 {
            if duid.len() < 6 {
                Some("DUID-EN too short (min 6 bytes)"@)
            } else {
                None
            }
        } else if kind == 3 {
            if duid.len() < 4 {
                Some("DUID-LL too short (min 4 bytes)"@)
            } else {
                None
            }
        } else {
            Some("Invalid DUID type: "@ + dec(kind as nat) + ""@)
        }
    }
}

/// The words for an address that is not in the pool.
pub open spec fn not_in_pool(a: IpAddr) -> Seq<char> {
    "Address "@ + ip_text(a) + " not in pool"@
}

/// The address that a message asks for, in its association.
pub open spec fn asked_address(m: DhcpModel, missing: Seq<char>) -> Result<IpAddr, Refusal> {
    if !m.options.contains_key(OPTION_IA_NA) {
        Err(Refusal::Protocol { reason: missing })
    } else if m.options[OPTION_IA_NA].len() < 12 {
        Err(Refusal::Protocol { reason: "Malformed IA_NA option"@ })
    } else {
        match first_address(m.options[OPTION_IA_NA].skip(12)) {
            Ok(a) => Ok(IpAddr::V6(a)),
            Err(t) => Err(Refusal::Protocol { reason: t }),
        }
    }
}

/// The address that a message asks for, in its association.
fn read_asked_address(msg: &DhcpV6Message, missing: &str) -> (r: Result<IpAddr, DhcpError>)
    ensures
        match (r, asked_address(msg@, missing@)) {
            (Ok(a), Ok(w)) => a == w,
            (Err(e), Err(f)) => refuses(e, f),
            _ => false,
        },
{
    match msg.get_option(OPTION_IA_NA) {
        None => Err(refuse(missing)),
        Some(data) => {
            if data.len() < 12 {
                return Err(refuse("Malformed IA_NA option"));
            }
            let options = copy_range(data, 12, data.len());
            assert(options@ =~= data@.skip(12));
            parse_iaaddr_from_options(options.as_slice())
        },
    }
}

/// What a server answers to requests.
#[derive(Debug)]
pub struct DhcpV6StateMachine {
    /// What it hands out.
    pub config: DhcpConfig,
    /// Its identifier.
    pub server_duid: Vec<u8>,
}

impl DhcpV6StateMachine {
    /// A server.
    pub fn new(config: DhcpConfig, server_duid: Vec<u8>) -> (r: Self)
        ensures
            r.config == config,
            r.server_duid == server_duid,
    {
        DhcpV6StateMachine { config, server_duid }
    }

    /// The beginning of each answer: the transaction of the request and the identifiers of server
    /// and client.
    pub open spec fn base(self, ctx: RequestContext, message_type: u8) -> DhcpModel {
        DhcpModel {
            message_type,
            transaction_id: ctx.transaction_id@,
            options: Map::<u16, Seq<u8>>::empty().insert(OPTION_SERVER_ID, self.server_duid@).insert(
                OPTION_CLIENT_ID,
                ctx.clid@,
            ),
        }
    }

    /// An answer that reports a status.
    pub open spec fn status_reply(self, ctx: RequestContext, status: StatusCode) -> DhcpModel {
        let m = self.base(ctx, MSG_REPLY);
        DhcpModel { options: m.options.insert(OPTION_STATUS_CODE, status.data()), ..m }
    }

    /// An offer of an address.
    pub open spec fn offer(self, ctx: RequestContext, ip: IpAddr) -> DhcpModel {
        let m = self.base(ctx, MSG_ADVERTISE);
        let secs = low32(self.config.lease_time as nat);
        DhcpModel {
            options: m.options.insert(OPTION_IA_NA, ia_data(ctx.iaid, secs, secs, ip, secs)),
            ..m
        }
    }

    /// An answer that grants a lease and reports a status, before the options that the configuration
    /// adds. The client is to renew after half of the time that is left and to rebind after four fifths of it.
    pub open spec fn granted(
        self,
        ctx: RequestContext,
        lease: Lease,
        status: StatusCode,
        rapid_commit: bool,
        now: Timestamp,
    ) -> DhcpModel {
        let m = self.base(ctx, MSG_REPLY);
        let secs = seconds_left(lease.expires, now);
        let with_address = m.options.insert(
            OPTION_IA_NA,
            ia_data(ctx.iaid, low32(secs / 2), low32(secs * 4 / 5), lease.ip, low32(secs)),
        );
        let with_status = with_address.insert(OPTION_STATUS_CODE, status.data());
        let with_commit = if rapid_commit {
            with_status.insert(OPTION_RAPID_COMMIT, Seq::<u8>::empty())
        } else {
            with_status
        };
        DhcpModel { options: with_commit, ..m }
    }

    fn start_reply(&self, ctx: &RequestContext, message_type: u8) -> (r: DhcpV6Message)
        ensures
            r@ == self.base(*ctx, message_type),
    {
        let mut r = DhcpV6Message::new(message_type, ctx.transaction_id);
        r.add_option(OPTION_SERVER_ID, vstd::slice::slice_to_vec(self.server_duid.as_slice()));
        r.add_option(OPTION_CLIENT_ID, vstd::slice::slice_to_vec(ctx.clid.as_slice()));
        r
    }

    /// An answer that reports a status.
    pub fn build_reply_with_status(&self, ctx: &RequestContext, status: StatusCode) -> (r:
        DhcpV6Message)
        ensures
            r@ == self.status_reply(*ctx, status),
    {
        let mut r = self.start_reply(ctx, MSG_REPLY);
        r.add_option(OPTION_STATUS_CODE, status.to_data());
        r
    }

    /// An answer that grants a lease, with the options that the configuration adds.
    pub fn build_reply_with_address(
        &self,
        ctx: &RequestContext,
        lease: &Lease,
        status: StatusCode,
        rapid_commit: bool,
        now: Timestamp,
    ) -> (r: Result<DhcpV6Message, DhcpError>)
        ensures
            message_is(
                r,
                self.config.applied(self.granted(*ctx, *lease, status, rapid_commit, now)),
            ),
    {
        let mut m = self.start_reply(ctx, MSG_REPLY);
        let secs: u128 = if lease.expires.nanos >= now.nanos {
            (lease.expires.nanos - now.nanos) / 1_000_000_000
        } else {
            3600
        };
        let t1: u32 = (secs / 2 % 0x1_0000_0000) as u32;
        let t2: u32 = (secs * 4 / 5 % 0x1_0000_0000) as u32;
        let lifetime: u32 = (secs % 0x1_0000_0000) as u32;
        m.add_option(OPTION_IA_NA, association(ctx.iaid, t1, t2, &lease.ip, lifetime));
        m.add_option(OPTION_STATUS_CODE, status.to_data());
        if rapid_commit {
            let none: Vec<u8> = Vec::new();
            assert(none@ =~= Seq::<u8>::empty());
            m.add_option(OPTION_RAPID_COMMIT, none);
        }
        self.config.apply(m)
    }

    /// Whether an identifier is well formed.
    pub fn validate_duid(&self, duid: &[u8]) -> (r: Result<(), DhcpError>)
        ensures
            match (r, duid_fault(duid@)) {
                (Ok(_), None) => true,
                (Err(e), Some(t)) => protocol_error(e, t),
                _ => false,
            },
    {
        let n: usize = duid.len();
        if n < 2 {
            return Err(refuse("DUID too short"));
        }
        if n > 128 {
            return Err(refuse("DUID too long (max 128 bytes)"));
        }
        let kind: u16 = read_u16(duid, 0);
        if kind == 1 {
            if n < 8 {
                return Err(refuse("DUID-LLT too short (min 8 bytes)"));
            }
            Ok(())
        } else if kind == 2 {
            if n < 6 {
                return Err(refuse("DUID-EN too short (min 6 bytes)"));
            }
            Ok(())
        } else if kind == 3 {
            if n < 4 {
                return Err(refuse("DUID-LL too short (min 4 bytes)"));
            }
            Ok(())
        } else {
            Err(protocol_failure(message1("Invalid DUID type: ", kind as u64, "")))
        }
    }

    /// The status of a request: it must be sent to a multicast address, a pool must serve it, and
    /// the pool must have the address that it asks for.
    pub open spec fn status(
        self,
        ctx: RequestContext,
        requested: Option<IpAddr>,
        unicast: bool,
    ) -> StatusCode {
        if unicast {
            StatusCode::UseMulticast
        } else {
            match (ctx.context, requested) {
                (None, _) => StatusCode::NoAddrsAvail,
                (Some(c), Some(a)) => if c.covers(a) {
                    StatusCode::Success
                } else {
                    StatusCode::NotOnLink
                },
                (Some(_), None) => StatusCode::Success,
            }
        }
    }

    /// The status of a request.
    pub fn generate_status_code(
        &self,
        ctx: &RequestContext,
        requested_address: Option<&IpAddr>,
        unicast_request: bool,
    ) -> (r: StatusCode)
        ensures
            r == self.status(
                *ctx,
                match requested_address {
                    Some(a) => Some(*a),
                    None => None,
                },
                unicast_request,
            ),
    {
        if unicast_request {
            return StatusCode::UseMulticast;
        }
        match &ctx.context {
            None => StatusCode::NoAddrsAvail,
            Some(c) => match requested_address {
                Some(a) => if c.contains(a) {
                    StatusCode::Success
                } else {
                    StatusCode::NotOnLink
                },
                None => StatusCode::Success,
            },
        }
    }
}

// What each message leads to.

/// What is wrong with the server identifier of a message that must name this server.
pub open spec fn server_fault(
    server: Seq<u8>,
    m: DhcpModel,
    other: Seq<char>,
    missing: Seq<char>,
) -> Option<Seq<char>> {
    if !m.options.contains_key(OPTION_SERVER_ID) {
        Some(missing)
    } else if m.options[OPTION_SERVER_ID] != server {
        Some(other)
    } else {
        None
    }
}

impl DhcpV6StateMachine {
    /// Whether a message names this server.
    fn check_server(&self, msg: &DhcpV6Message, other: &str, missing: &str) -> (r: Result<
        (),
        DhcpError,
    >)
        ensures
            match (r, server_fault(self.server_duid@, msg@, other@, missing@)) {
                (Ok(_), None) => true,
                (Err(e), Some(t)) => protocol_error(e, t),
                _ => false,
            },
    {
        match msg.get_option(OPTION_SERVER_ID) {
            None => Err(refuse(missing)),
            Some(id) => if same_bytes(id, self.server_duid.as_slice()) {
                Ok(())
            } else {
                Err(refuse(other))
            },
        }
    }

    /// What a search for servers leads to: an offer of an address that is available, or, where the
    /// client asks for it, the lease at once.
    pub open spec fn on_solicit(
        self,
        ctx: RequestContext,
        m: DhcpModel,
        leases: Seq<Lease>,
    ) -> Result<OutcomeModel, Refusal> {
        if !m.options.contains_key(OPTION_CLIENT_ID) {
            Err(Refusal::MissingOption { name: "CLIENT_ID"@ })
        } else {
            match ctx.context {
                None => Err(
                    Refusal::Protocol { reason: "No address pool configured for interface"@ },
                ),
                Some(c) => match c.available(leases) {
                    None => Err(Refusal::Protocol { reason: "No addresses available in pool"@ }),
                    Some(address) => if m.options.contains_key(OPTION_RAPID_COMMIT) {
                        Ok(OutcomeModel::Allocate { address, rapid_commit: true })
                    } else {
                        Ok(OutcomeModel::Reply(self.offer(ctx, address)))
                    },
                },
            }
        }
    }

    /// Answers a search for servers. No lease is made, but where the client asks for it at once.
    pub fn handle_solicit(&self, ctx: &RequestContext, msg: &DhcpV6Message, leases: &Vec<Lease>) -> (r:
        Result<Outcome, DhcpError>)
        ensures
            outcome_is(r, self.on_solicit(*ctx, msg@, leases@)),
    {
        if msg.get_option(OPTION_CLIENT_ID).is_none() {
            return Err(DhcpError::MissingOption(String::from_str("CLIENT_ID")));
        }
        let context = match &ctx.context {
            None => {
                return Err(refuse("No address pool configured for interface"));
            },
            Some(c) => c,
        };
        let address = match context.find_available(leases) {
            None => {
                return Err(refuse("No addresses available in pool"));
            },
            Some(a) => a,
        };
        if msg.get_option(OPTION_RAPID_COMMIT).is_some() {
            return Ok(Outcome::Allocate { address, rapid_commit: true });
        }
        let mut reply = self.start_reply(ctx, MSG_ADVERTISE);
        let secs: u32 = (self.config.lease_time % 0x1_0000_0000) as u32;
        reply.add_option(OPTION_IA_NA, association(ctx.iaid, secs, secs, &address, secs));
        Ok(Outcome::Reply(reply))
    }

    /// What a request for an address leads to: a lease, where this server is named and the pool has
    /// the address.
    pub open spec fn on_request(self, ctx: RequestContext, m: DhcpModel) -> Result<
        OutcomeModel,
        Refusal,
    > {
        match server_fault(
            self.server_duid@,
            m,
            "Server ID does not match this server"@,
            "No SERVER_ID in REQUEST"@,
        ) {
            Some(reason) => Err(Refusal::Protocol { reason }),
            None => match asked_address(m, "No IA_NA in REQUEST"@) {
                Err(f) => Err(f),
                Ok(address) => match ctx.context {
                    None => Err(Refusal::Protocol { reason: "No matching address pool"@ }),
                    Some(c) => if c.covers(address) {
                        Ok(OutcomeModel::Allocate { address, rapid_commit: false })
                    } else {
                        Err(Refusal::Protocol { reason: not_in_pool(address) })
                    },
                },
            },
        }
    }

    /// Decides on a request for an address.
    pub fn handle_request(&self, ctx: &RequestContext, msg: &DhcpV6Message) -> (r: Result<
        Outcome,
        DhcpError,
    >)
        ensures
            outcome_is(r, self.on_request(*ctx, msg@)),
    {
        if let Err(e) = self.check_server(
            msg,
            "Server ID does not match this server",
            "No SERVER_ID in REQUEST",
        ) {
            return Err(e);
        }
        let address = match read_asked_address(msg, "No IA_NA in REQUEST") {
            Ok(a) => a,
            Err(e) => {
                return Err(e);
            },
        };
        match &ctx.context {
            None => Err(refuse("No matching address pool")),
            Some(c) => if c.contains(&address) {
                Ok(Outcome::Allocate { address, rapid_commit: false })
            } else {
                let text = show_ip(&address);
                Err(protocol_failure(message_text("Address ", text.as_str(), " not in pool")))
            },
        }
    }

    /// What a request to extend a lease leads to: this server is named, the client has the lease,
    /// and the pool still has the address; else there is no binding.
    pub open spec fn on_renew(self, ctx: RequestContext, m: DhcpModel, leases: Seq<Lease>) -> Result<
        OutcomeModel,
        Refusal,
    > {
        match server_fault(
            self.server_duid@,
            m,
            "Server ID mismatch"@,
            "No SERVER_ID in RENEW"@,
        ) {
            Some(reason) => Err(Refusal::Protocol { reason }),
            None => match asked_address(m, "No IA_NA in RENEW"@) {
                Err(f) => Err(f),
                Ok(a) => if (lease_of(leases, a) matches Some(l) && l.held_by(ctx.clid@)) && (
                ctx.context matches Some(c) && c.covers(a)) {
                    Ok(OutcomeModel::Renew(a))
                } else {
                    Ok(OutcomeModel::Reply(self.status_reply(ctx, StatusCode::NoBinding)))
                },
            },
        }
    }

    /// Decides on a request to extend a lease.
    pub fn handle_renew(&self, ctx: &RequestContext, msg: &DhcpV6Message, leases: &Vec<Lease>) -> (r:
        Result<Outcome, DhcpError>)
        ensures
            outcome_is(r, self.on_renew(*ctx, msg@, leases@)),
    {
        if let Err(e) = self.check_server(msg, "Server ID mismatch", "No SERVER_ID in RENEW") {
            return Err(e);
        }
        let address = match read_asked_address(msg, "No IA_NA in RENEW") {
            Ok(a) => a,
            Err(e) => {
                return Err(e);
            },
        };
        let bound = match find_by_ip(leases, &address) {
            Some(lease) => lease.is_held_by(ctx.clid.as_slice()),
            None => false,
        };
        let in_pool = match &ctx.context {
            Some(c) => c.contains(&address),
            None => false,
        };
        if bound && in_pool {
            Ok(Outcome::Renew(address))
        } else {
            Ok(Outcome::Reply(self.build_reply_with_status(ctx, StatusCode::NoBinding)))
        }
    }

    /// What a request to any server to extend a lease leads to: the address must be on the link;
    /// the client's lease is extended, and one is made where the address has none.
    pub open spec fn on_rebind(self, ctx: RequestContext, m: DhcpModel, leases: Seq<Lease>) -> Result<
        OutcomeModel,
        Refusal,
    > {
        match asked_address(m, "No IA_NA in REBIND"@) {
            Err(f) => Err(f),
            Ok(a) => if !(ctx.context matches Some(c) && c.covers(a)) {
                Ok(OutcomeModel::Reply(self.status_reply(ctx, StatusCode::NotOnLink)))
            } else {
                match lease_of(leases, a) {
                    None => Ok(OutcomeModel::Allocate { address: a, rapid_commit: false }),
                    Some(l) => if l.held_by(ctx.clid@) {
                        Ok(OutcomeModel::Renew(a))
                    } else {
                        Ok(OutcomeModel::Reply(self.status_reply(ctx, StatusCode::NoBinding)))
                    },
                }
            },
        }
    }

    /// Decides on a request to any server to extend a lease.
    pub fn handle_rebind(&self, ctx: &RequestContext, msg: &DhcpV6Message, leases: &Vec<Lease>) -> (r:
        Result<Outcome, DhcpError>)
        ensures
            outcome_is(r, self.on_rebind(*ctx, msg@, leases@)),
    {
        let address = match read_asked_address(msg, "No IA_NA in REBIND") {
            Ok(a) => a,
            Err(e) => {
                return Err(e);
            },
        };
        let in_pool = match &ctx.context {
            Some(c) => c.contains(&address),
            None => false,
        };
        if !in_pool {
            return Ok(Outcome::Reply(self.build_reply_with_status(ctx, StatusCode::NotOnLink)));
        }
        match find_by_ip(leases, &address) {
            None => Ok(Outcome::Allocate { address, rapid_commit: false }),
            Some(lease) => if lease.is_held_by(ctx.clid.as_slice()) {
                Ok(Outcome::Renew(address))
            } else {
                Ok(Outcome::Reply(self.build_reply_with_status(ctx, StatusCode::NoBinding)))
            },
        }
    }

    /// What is done about an address that a client gives back: what is asked, where the client has
    /// its lease; success is reported where nobody has one.
    pub open spec fn given_back(
        self,
        ctx: RequestContext,
        a: IpAddr,
        leases: Seq<Lease>,
        done: OutcomeModel,
    ) -> OutcomeModel {
        match lease_of(leases, a) {
            None => OutcomeModel::Reply(self.status_reply(ctx, StatusCode::Success)),
            Some(l) => if l.held_by(ctx.clid@) {
                done
            } else {
                OutcomeModel::Reply(self.status_reply(ctx, StatusCode::NoBinding))
            },
        }
    }

    fn give_back(&self, ctx: &RequestContext, address: IpAddr, leases: &Vec<Lease>, done: Outcome) -> (r:
        Outcome)
        ensures
            r@ == self.given_back(*ctx, address, leases@, done@),
    {
        match find_by_ip(leases, &address) {
            None => Outcome::Reply(self.build_reply_with_status(ctx, StatusCode::Success)),
            Some(lease) => if lease.is_held_by(ctx.clid.as_slice()) {
                done
            } else {
                Outcome::Reply(self.build_reply_with_status(ctx, StatusCode::NoBinding))
            },
        }
    }

    /// What giving up a lease leads to.
    pub open spec fn on_release(self, ctx: RequestContext, m: DhcpModel, leases: Seq<Lease>) -> Result<
        OutcomeModel,
        Refusal,
    > {
        match server_fault(
            self.server_duid@,
            m,
            "Server ID mismatch"@,
            "No SERVER_ID in RELEASE"@,
        ) {
            Some(reason) => Err(Refusal::Protocol { reason }),
            None => match asked_address(m, "No IA_NA in RELEASE"@) {
                Err(f) => Err(f),
                Ok(a) => Ok(self.given_back(ctx, a, leases, OutcomeModel::Release(a))),
            },
        }
    }

    /// Decides on giving up a lease.
    pub fn handle_release(&self, ctx: &RequestContext, msg: &DhcpV6Message, leases: &Vec<Lease>) -> (r:
        Result<Outcome, DhcpError>)
        ensures
            outcome_is(r, self.on_release(*ctx, msg@, leases@)),
    {
        if let Err(e) = self.check_server(msg, "Server ID mismatch", "No SERVER_ID in RELEASE") {
            return Err(e);
        }
        match read_asked_address(msg, "No IA_NA in RELEASE") {
            Ok(a) => Ok(self.give_back(ctx, a, leases, Outcome::Release(a))),
            Err(e) => Err(e),
        }
    }

    /// What the report of a duplicate address leads to.
    pub open spec fn on_decline(self, ctx: RequestContext, m: DhcpModel, leases: Seq<Lease>) -> Result<
        OutcomeModel,
        Refusal,
    > {
        match server_fault(
            self.server_duid@,
            m,
            "Server ID mismatch"@,
            "No SERVER_ID in DECLINE"@,
        ) {
            Some(reason) => Err(Refusal::Protocol { reason }),
            None => match asked_address(m, "No IA_NA in DECLINE"@) {
                Err(f) => Err(f),
                Ok(a) => Ok(self.given_back(ctx, a, leases, OutcomeModel::Decline(a))),
            },
        }
    }

    /// Decides on the report of a duplicate address.
    pub fn handle_decline(&self, ctx: &RequestContext, msg: &DhcpV6Message, leases: &Vec<Lease>) -> (r:
        Result<Outcome, DhcpError>)
        ensures
            outcome_is(r, self.on_decline(*ctx, msg@, leases@)),
    {
        if let Err(e) = self.check_server(msg, "Server ID mismatch", "No SERVER_ID in DECLINE") {
            return Err(e);
        }
        match read_asked_address(msg, "No IA_NA in DECLINE") {
            Ok(a) => Ok(self.give_back(ctx, a, leases, Outcome::Decline(a))),
            Err(e) => Err(e),
        }
    }

    /// Whether all addresses of the association of a message are on the link.
    pub open spec fn on_link(ctx: RequestContext, m: DhcpModel) -> bool {
        ctx.context matches Some(c) && forall|i: int|
            0 <= i < listed_addresses(m.options[OPTION_IA_NA].skip(12)).len() ==> c.covers(
                IpAddr::V6(#[trigger] listed_addresses(m.options[OPTION_IA_NA].skip(12))[i]),
            )
    }

    /// The answer to the question whether addresses are on the link.
    pub open spec fn on_confirm(self, ctx: RequestContext, m: DhcpModel) -> Result<
        DhcpModel,
        Refusal,
    > {
        match asked_address(m, "No IA_NA in CONFIRM"@) {
            Err(f) => Err(f),
            Ok(_) => Ok(
                self.status_reply(
                    ctx,
                    if Self::on_link(ctx, m) {
                        StatusCode::Success
                    } else {
                        StatusCode::NotOnLink
                    },
                ),
            ),
        }
    }

    /// Answers the question whether addresses are on the link.
    pub fn handle_confirm(&self, ctx: &RequestContext, msg: &DhcpV6Message) -> (r: Result<
        DhcpV6Message,
        DhcpError,
    >)
        ensures
            message_is(r, self.on_confirm(*ctx, msg@)),
    {
        if let Err(e) = read_asked_address(msg, "No IA_NA in CONFIRM") {
            return Err(e);
        }
        let on_link = match (&ctx.context, msg.get_option(OPTION_IA_NA)) {
            (Some(c), Some(data)) => {
                let options = copy_range(data, 12, data.len());
                assert(options@ =~= data@.skip(12));
                all_in_pool(options.as_slice(), c)
            },
            _ => false,
        };
        Ok(
            self.build_reply_with_status(
                ctx,
                if on_link {
                    StatusCode::Success
                } else {
                    StatusCode::NotOnLink
                },
            ),
        )
    }

    /// Answers a request for configuration: the options that the configuration adds.
    pub fn handle_information_request(&self, ctx: &RequestContext, _msg: &DhcpV6Message) -> (r: Result<
        DhcpV6Message,
        DhcpError,
    >)
        ensures
            message_is(r, self.config.applied(self.base(*ctx, MSG_REPLY))),
    {
        self.config.apply(self.start_reply(ctx, MSG_REPLY))
    }

    /// Refuses an offer: only clients get them.
    pub fn handle_advertise(&self, _ctx: &RequestContext, _msg: &DhcpV6Message) -> (r: Result<
        DhcpV6Message,
        DhcpError,
    >)
        ensures
            r matches Err(e) && protocol_error(e, "Server should not receive ADVERTISE messages"@),
    {
        Err(refuse("Server should not receive ADVERTISE messages"))
    }

    /// Refuses an answer: only clients get them.
    pub fn handle_reply(&self, _ctx: &RequestContext, _msg: &DhcpV6Message) -> (r: Result<
        DhcpV6Message,
        DhcpError,
    >)
        ensures
            r matches Err(e) && protocol_error(e, "Server should not receive REPLY messages"@),
    {
        Err(refuse("Server should not receive REPLY messages"))
    }
}

/// The handlers of messages.
#[derive(Debug, Clone, Copy, PartialEq, Eq, Structural)]
pub enum Handler {
    Solicit,
    Request,
    Renew,
    Rebind,
    Release,
    Decline,
    InformationRequest,
}

impl Handler {
    /// The handler of a type of message.
    pub open spec fn of(message_type: u8) -> Option<Handler> {
        if message_type == MSG_SOLICIT {
            Some(Handler::Solicit)
        } else if message_type == MSG_REQUEST {
            Some(Handler::Request)
        } else if message_type == MSG_RENEW {
            Some(Handler::Renew)
        } else if message_type == MSG_REBIND {
            Some(Handler::Rebind)
        } else if message_type == MSG_RELEASE {
            Some(Handler::Release)
        } else if message_type == MSG_DECLINE {
            Some(Handler::Decline)
        } else if message_type == MSG_INFORMATION_REQUEST {
            Some(Handler::InformationRequest)
        } else {
            None
        }
    }

    /// The handler of a type of message.
    pub fn from_type(message_type: u8) -> (r: Option<Handler>)
        ensures
            r == Handler::of(message_type),
    {
        if message_type == MSG_SOLICIT {
            Some(Handler::Solicit)
        } else if message_type == MSG_REQUEST {
            Some(Handler::Request)
        } else if message_type == MSG_RENEW {
            Some(Handler::Renew)
        } else if message_type == MSG_REBIND {
            Some(Handler::Rebind)
        } else if message_type == MSG_RELEASE {
            Some(Handler::Release)
        } else if message_type == MSG_DECLINE {
            Some(Handler::Decline)
        } else if message_type == MSG_INFORMATION_REQUEST {
            Some(Handler::InformationRequest)
        } else {
            None
        }
    }

    /// Whether what a handler answers is sent: a client that gives an address back gets no answer.
    pub fn responds(&self) -> (r: bool)
        ensures
            r == !(self is Release || self is Decline),
    {
        match self {
            Handler::Release => false,
            Handler::Decline => false,
            _ => true,
        }
    }
}

impl DhcpV6StateMachine {
    /// What a message leads to.
    pub open spec fn on_message(
        self,
        handler: Handler,
        ctx: RequestContext,
        m: DhcpModel,
        leases: Seq<Lease>,
    ) -> Result<OutcomeModel, Refusal> {
        match handler {
            Handler::Solicit => self.on_solicit(ctx, m, leases),
            Handler::Request => self.on_request(ctx, m),
            Handler::Renew => self.on_renew(ctx, m, leases),
            Handler::Rebind => self.on_rebind(ctx, m, leases),
            Handler::Release => self.on_release(ctx, m, leases),
            Handler::Decline => self.on_decline(ctx, m, leases),
            Handler::InformationRequest => match self.config.applied(self.base(ctx, MSG_REPLY)) {
                Ok(reply) => Ok(OutcomeModel::Reply(reply)),
                Err(f) => Err(f),
            },
        }
    }

    /// Decides on a message.
    pub fn handle_message(
        &self,
        handler: Handler,
        ctx: &RequestContext,
        msg: &DhcpV6Message,
        leases: &Vec<Lease>,
    ) -> (r: Result<Outcome, DhcpError>)
        ensures
            outcome_is(r, self.on_message(handler, *ctx, msg@, leases@)),
    {
        match handler {
            Handler::Solicit => self.handle_solicit(ctx, msg, leases),
            Handler::Request => self.handle_request(ctx, msg),
            Handler::Renew => self.handle_renew(ctx, msg, leases),
            Handler::Rebind => self.handle_rebind(ctx, msg, leases),
            Handler::Release => self.handle_release(ctx, msg, leases),
            Handler::Decline => self.handle_decline(ctx, msg, leases),
            Handler::InformationRequest => match self.handle_information_request(ctx, msg) {
                Ok(reply) => Ok(Outcome::Reply(reply)),
                Err(e) => Err(e),
            },
        }
    }
}

impl DhcpV6StateMachine {
    /// The answer once what is to be done is done: success is reported after a lease was given up or
    /// marked, and a lease that was made or extended is granted.
    pub open spec fn completed(
        self,
        ctx: RequestContext,
        outcome: OutcomeModel,
        lease: Option<Lease>,
        now: Timestamp,
    ) -> Result<DhcpModel, Refusal> {
        match outcome {
            OutcomeModel::Reply(m) => Ok(m),
            OutcomeModel::Allocate { rapid_commit, .. } => self.config.applied(
                self.granted(ctx, lease->0, StatusCode::Success, rapid_commit, now),
            ),
            OutcomeModel::Renew(_) => self.config.applied(
                self.granted(ctx, lease->0, StatusCode::Success, false, now),
            ),
            OutcomeModel::Release(_) => Ok(self.status_reply(ctx, StatusCode::Success)),
            OutcomeModel::Decline(_) => Ok(self.status_reply(ctx, StatusCode::Success)),
        }
    }

    /// Answers once what is to be done is done, with the lease that was made or extended.
    pub fn complete(
        &self,
        ctx: &RequestContext,
        outcome: Outcome,
        lease: Option<&Lease>,
        now: Timestamp,
    ) -> (r: Result<DhcpV6Message, DhcpError>)
        requires
            outcome is Allocate || outcome is Renew ==> lease is Some,
        ensures
            message_is(
                r,
                self.completed(
                    *ctx,
                    outcome@,
                    match lease {
                        Some(l) => Some(*l),
                        None => None,
                    },
                    now,
                ),
            ),
    {
        match (outcome, lease) {
            (Outcome::Reply(m), _) => Ok(m),
            (Outcome::Allocate { rapid_commit, .. }, Some(l)) => self.build_reply_with_address(
                ctx,
                l,
                StatusCode::Success,
                rapid_commit,
                now,
            ),
            (Outcome::Renew(_), Some(l)) => self.build_reply_with_address(
                ctx,
                l,
                StatusCode::Success,
                false,
                now,
            ),
            _ => Ok(self.build_reply_with_status(ctx, StatusCode::Success)),
        }
    }
}

// Laws.

/// True of the answers to a request: they carry its transaction, the identifier of the server and
/// that of the client.
pub open spec fn answers(server: DhcpV6StateMachine, ctx: RequestContext, m: DhcpModel) -> bool {
    &&& m.transaction_id == ctx.transaction_id@
    &&& m.options.contains_key(OPTION_SERVER_ID)
    &&& m.options[OPTION_SERVER_ID] == server.server_duid@
    &&& m.options.contains_key(OPTION_CLIENT_ID)
    &&& m.options[OPTION_CLIENT_ID] == ctx.clid@
}

/// Every answer carries the transaction of the request and the identifiers of server and client.
pub proof fn law_answers_echo(
    server: DhcpV6StateMachine,
    handler: Handler,
    ctx: RequestContext,
    m: DhcpModel,
    leases: Seq<Lease>,
    lease: Lease,
    now: Timestamp,
)
    ensures
        server.on_message(handler, ctx, m, leases) matches Ok(OutcomeModel::Reply(a)) ==> answers(
            server,
            ctx,
            a,
        ),
        server.on_confirm(ctx, m) matches Ok(a) ==> answers(server, ctx, a),
        server.on_message(handler, ctx, m, leases) matches Ok(o) ==> (server.completed(
            ctx,
            o,
            Some(lease),
            now,
        ) matches Ok(a) ==> answers(server, ctx, a)),
{
}

/// A lease is extended, given up or marked only for the client that has it.
pub proof fn law_leases_are_the_clients(
    server: DhcpV6StateMachine,
    handler: Handler,
    ctx: RequestContext,
    m: DhcpModel,
    leases: Seq<Lease>,
    a: IpAddr,
)
    requires
        server.on_message(handler, ctx, m, leases) matches Ok(o) && (o == OutcomeModel::Renew(a) || o
            == OutcomeModel::Release(a) || o == OutcomeModel::Decline(a)),
    ensures
        lease_of(leases, a) matches Some(l) && l.held_by(ctx.clid@),
{
}

/// An address is leased, or its lease extended, only where the pool of the request has it. One that
/// is leased to answer a search, or because nobody had it, was free.
pub proof fn law_leases_are_in_the_pool(
    server: DhcpV6StateMachine,
    handler: Handler,
    ctx: RequestContext,
    m: DhcpModel,
    leases: Seq<Lease>,
)
    ensures
        match server.on_message(handler, ctx, m, leases) {
            Ok(OutcomeModel::Allocate { address, rapid_commit }) => {
                &&& ctx.context matches Some(c) && c.covers(address)
                &&& rapid_commit <==> handler is Solicit
                &&& !(handler is Request) ==> lease_of(leases, address) is None
            },
            Ok(OutcomeModel::Renew(a)) => ctx.context matches Some(c) && c.covers(a),
            _ => true,
        },
{
    if let Some(c) = ctx.context {
        law_available(c, leases);
    }
}

/// A message that names another server changes nothing: it is refused.
pub proof fn law_other_servers_are_left_alone(
    server: DhcpV6StateMachine,
    handler: Handler,
    ctx: RequestContext,
    m: DhcpModel,
    leases: Seq<Lease>,
)
    requires
        m.options.contains_key(OPTION_SERVER_ID),
        m.options[OPTION_SERVER_ID] != server.server_duid@,
        handler is Request || handler is Renew || handler is Release || handler is Decline,
    ensures
        server.on_message(handler, ctx, m, leases) is Err,
{
}

/// The times of a granted lease are in order: renew first, then rebind, both before it ends.
pub proof fn law_times_in_order(expires: Timestamp, now: Timestamp)
    requires
        seconds_left(expires, now) < 0x1_0000_0000,
    ensures
        low32(seconds_left(expires, now) / 2) <= low32(seconds_left(expires, now) * 4 / 5)
            <= low32(seconds_left(expires, now)) == seconds_left(expires, now),
{
}

/// The address that an answer grants is the one that a message with the same association asks for.
pub proof fn law_granted_address_reads_back(iaid: u32, t1: u32, t2: u32, a: Ipv6Addr, lifetime: u32)
    ensures
        first_address(ia_data(iaid, t1, t2, IpAddr::V6(a), lifetime).skip(12)) == Ok::<
            Ipv6Addr,
            Seq<char>,
        >(a),
{
    let header = ia_header(iaid, t1, t2);
    let data = addr_header(a, lifetime, lifetime);
    let option = option_bytes(OPTION_IAADDR, data);
    lemma_be_bytes_len(iaid as nat, 4);
    lemma_be_bytes_len(t1 as nat, 4);
    lemma_be_bytes_len(t2 as nat, 4);
    lemma_be_bytes_len(a.bits as nat, 16);
    lemma_be_bytes_len(lifetime as nat, 4);
    assert(ia_data(iaid, t1, t2, IpAddr::V6(a), lifetime).skip(12) =~= option);
    law_option_reads_back(OPTION_IAADDR, data, Seq::empty());
    assert(option + Seq::<u8>::empty() =~= option);
    assert(option.subrange(4, 20) =~= be_bytes(a.bits as nat, 16));
    lemma_pow256_16();
    lemma_be_nat_of_bytes(a.bits as nat, 16);
}

/// A status option begins with the number of the status in two bytes, and only success has the number
/// zero.
pub proof fn law_status_numbers(status: StatusCode)
    ensures
        status.data().len() >= 2,
        u16_at(status.data(), 0) == status.number(),
        status.number() == 0 <==> status is Success,
        StatusCode::Success.number() == 0,
        StatusCode::UnspecFail.number() == 1,
        StatusCode::NoAddrsAvail.number() == 2,
        StatusCode::NoBinding.number() == 3,
        StatusCode::NotOnLink.number() == 4,
        StatusCode::UseMulticast.number() == 5,
        StatusCode::NoPrefixAvail.number() == 6,
{
    lemma_be2(status.number());
}

/// Where the fields of an association with an address stand: the association, the two times, and the
/// address (option 5, 24 bytes) with its lifetime as preferred and as valid.
pub proof fn law_association_fields(iaid: u32, t1: u32, t2: u32, a: Ipv6Addr, lifetime: u32)
    ensures
        ({
            let d = ia_data(iaid, t1, t2, IpAddr::V6(a), lifetime);
            &&& d.len() == 40
            &&& u32_at(d, 0) == iaid
            &&& u32_at(d, 4) == t1
            &&& u32_at(d, 8) == t2
            &&& u16_at(d, 12) == 5
            &&& u16_at(d, 14) == 24
            &&& be_nat(d.subrange(16, 32)) == a.bits
            &&& u32_at(d, 32) == lifetime
            &&& u32_at(d, 36) == lifetime
        }),
{
    let d = ia_data(iaid, t1, t2, IpAddr::V6(a), lifetime);
    law_association_headers(iaid, t1, t2, a, 0);
    law_association_headers(iaid, lifetime, lifetime, a, 0);
    lemma_be_bytes_len(iaid as nat, 4);
    lemma_be_bytes_len(t1 as nat, 4);
    lemma_be_bytes_len(t2 as nat, 4);
    lemma_be_bytes_len(lifetime as nat, 4);
    lemma_be_bytes_len(5, 2);
    lemma_be_bytes_len(24, 2);
    lemma_be_bytes_len(a.bits as nat, 16);
    assert(d.subrange(0, 4) =~= be_bytes(iaid as nat, 4));
    assert(d.subrange(4, 8) =~= be_bytes(t1 as nat, 4));
    assert(d.subrange(8, 12) =~= be_bytes(t2 as nat, 4));
    assert(d.subrange(12, 14) =~= be_bytes(5, 2));
    assert(d.subrange(14, 16) =~= be_bytes(24, 2));
    assert(d.subrange(16, 32) =~= be_bytes(a.bits as nat, 16));
    assert(d.subrange(32, 36) =~= be_bytes(lifetime as nat, 4));
    assert(d.subrange(36, 40) =~= be_bytes(lifetime as nat, 4));
    lemma_u32_field(d, 0, iaid);
    lemma_u32_field(d, 4, t1);
    lemma_u32_field(d, 8, t2);
    lemma_u16_field(d, 12, 5);
    lemma_u16_field(d, 14, 24);
    lemma_u32_field(d, 32, lifetime);
    lemma_u32_field(d, 36, lifetime);
    lemma_pow256_16();
    lemma_be_nat_of_bytes(a.bits as nat, 16);
}

/// The seconds that are left of a lease are the whole seconds until it ends; one that has ended counts
/// as an hour.
pub proof fn law_seconds_left(now: Timestamp, seconds: nat, nanos: nat, expires: Timestamp)
    requires
        nanos < 1_000_000_000,
    ensures
        expires.nanos == now.nanos + seconds * 1_000_000_000 + nanos ==> seconds_left(expires, now)
            == seconds,
        expires.nanos < now.nanos ==> seconds_left(expires, now) == 3600,
{
}

/// Whenever a lease was made or extended, the answer is a REPLY with status zero that holds the address
/// of the lease; it confirms that the lease was made at once exactly where it was.
pub proof fn law_granted_lease(
    server: DhcpV6StateMachine,
    ctx: RequestContext,
    outcome: OutcomeModel,
    lease: Lease,
    a: Ipv6Addr,
    now: Timestamp,
)
    requires
        outcome is Allocate || outcome is Renew,
        lease.ip == IpAddr::V6(a),
    ensures
        server.completed(ctx, outcome, Some(lease), now) matches Ok(m) ==> {
            &&& m.message_type == 7
            &&& m.options.contains_key(13)
            &&& m.options[13].len() >= 2
            &&& m.options[13][0] == 0
            &&& m.options[13][1] == 0
            &&& m.options.contains_key(3)
            &&& m.options[3].len() == 40
            &&& first_address(m.options[3].skip(12)) == Ok::<Ipv6Addr, Seq<char>>(a)
            &&& m.options.contains_key(14) <==> (outcome matches OutcomeModel::Allocate { rapid_commit, .. }
                && rapid_commit)
        },
        server.completed(ctx, outcome, Some(lease), now) is Err <==> long_search_label(
            server.config.search(),
        ) is Some,
{
    let left = seconds_left(lease.expires, now);
    law_association_fields(ctx.iaid, low32(left / 2), low32(left * 4 / 5), a, low32(left));
    law_granted_address_reads_back(ctx.iaid, low32(left / 2), low32(left * 4 / 5), a, low32(left));
    lemma_be2(0);
}

/// The answer after a lease was made or extended is for the association of the client, and tells the time
/// that is left of the lease: half of it until the client renews, four fifths until it rebinds.
pub proof fn law_granted_times(
    server: DhcpV6StateMachine,
    ctx: RequestContext,
    outcome: OutcomeModel,
    lease: Lease,
    a: Ipv6Addr,
    now: Timestamp,
    left: u32,
)
    requires
        outcome is Allocate || outcome is Renew,
        lease.ip == IpAddr::V6(a),
        left * 1_000_000_000 <= lease.expires.nanos - now.nanos < (left + 1) * 1_000_000_000,
    ensures
        server.completed(ctx, outcome, Some(lease), now) matches Ok(m) ==> {
            &&& u32_at(m.options[3], 0) == ctx.iaid
            &&& u32_at(m.options[3], 4) == left / 2
            &&& u32_at(m.options[3], 8) == left * 4 / 5
            &&& u32_at(m.options[3], 32) == left
            &&& u32_at(m.options[3], 36) == left
        },
{
    let l = seconds_left(lease.expires, now);
    assert(l == left);
    assert(low32(l) == left && low32(l / 2) == left / 2 && low32(l * 4 / 5) == left * 4 / 5);
    law_association_fields(ctx.iaid, low32(l / 2), low32(l * 4 / 5), a, low32(l));
    if let Ok(m) = server.completed(ctx, outcome, Some(lease), now) {
        assert(m.options[3] == ia_data(
            ctx.iaid,
            low32(l / 2),
            low32(l * 4 / 5),
            lease.ip,
            low32(l),
        ));
    }
}

/// An answer that reports a status other than zero grants no address, and an answer that holds an address
/// is an offer (ADVERTISE, without a status) or reports success.
pub proof fn law_failures_grant_nothing(
    server: DhcpV6StateMachine,
    handler: Handler,
    ctx: RequestContext,
    m: DhcpModel,
    leases: Seq<Lease>,
    lease: Lease,
    now: Timestamp,
)
    ensures
        server.on_message(handler, ctx, m, leases) matches Ok(o) ==> (server.completed(
            ctx,
            o,
            Some(lease),
            now,
        ) matches Ok(r) ==> {
            &&& r.options.contains_key(3) && r.options.contains_key(13) ==> u16_at(r.options[13], 0) == 0
                && (o is Allocate || o is Renew)
            &&& r.options.contains_key(3) && !r.options.contains_key(13) ==> r.message_type == 2 && handler
                is Solicit && o is Reply
            &&& r.message_type == 2 || r.message_type == 7
            &&& r.message_type == 2 ==> r.options.contains_key(3)
        }),
        server.on_confirm(ctx, m) matches Ok(r) ==> r.message_type == 7 && !r.options.contains_key(3)
            && r.options.contains_key(13),
{
    law_status_numbers(StatusCode::Success);
}

/// Giving an address back is answered with success once it is done, and so is giving back one that has
/// no lease; one of another client is answered with "no binding" (3).
pub proof fn law_given_back(
    server: DhcpV6StateMachine,
    ctx: RequestContext,
    m: DhcpModel,
    leases: Seq<Lease>,
    a: Ipv6Addr,
    now: Timestamp,
)
    requires
        m.options.contains_key(2),
        m.options[2] == server.server_duid@,
        m.options.contains_key(3),
        m.options[3].len() >= 12,
        first_address(m.options[3].skip(12)) == Ok::<Ipv6Addr, Seq<char>>(a),
    ensures
        match lease_of(leases, IpAddr::V6(a)) {
            Some(l) => if l.client_id matches Some(c) && c@ == ctx.clid@ {
                &&& server.on_message(Handler::Release, ctx, m, leases) == Ok::<OutcomeModel, Refusal>(
                    OutcomeModel::Release(IpAddr::V6(a)),
                )
                &&& server.on_message(Handler::Decline, ctx, m, leases) == Ok::<OutcomeModel, Refusal>(
                    OutcomeModel::Decline(IpAddr::V6(a)),
                )
            } else {
                &&& reports(server.on_message(Handler::Release, ctx, m, leases), 3)
                &&& reports(server.on_message(Handler::Decline, ctx, m, leases), 3)
            },
            None => {
                &&& reports(server.on_message(Handler::Release, ctx, m, leases), 0)
                &&& reports(server.on_message(Handler::Decline, ctx, m, leases), 0)
            },
        },
        reports_status(server.completed(ctx, OutcomeModel::Release(IpAddr::V6(a)), None, now), 0),
        reports_status(server.completed(ctx, OutcomeModel::Decline(IpAddr::V6(a)), None, now), 0),
{
    law_status_numbers(StatusCode::Success);
    law_status_numbers(StatusCode::NoBinding);
}

/// True of a REPLY with the given status and no address.
pub open spec fn reports_status(m: Result<DhcpModel, Refusal>, status: u16) -> bool {
    m matches Ok(r) && r.message_type == 7 && r.options.contains_key(13) && r.options[13].len() >= 2
        && u16_at(r.options[13], 0) == status && !r.options.contains_key(3)
}

/// True of the decision to send a REPLY with the given status and no address.
pub open spec fn reports(o: Result<OutcomeModel, Refusal>, status: u16) -> bool {
    o matches Ok(OutcomeModel::Reply(r)) && reports_status(Ok(r), status)
}

/// A client that names this server and asks for an address of the pool gets it, and the lease that it
/// already has extended: one that it does not have, or whose address the pool no longer has, is answered
/// with "no binding" (3).
pub proof fn law_request_and_renew(
    server: DhcpV6StateMachine,
    ctx: RequestContext,
    m: DhcpModel,
    leases: Seq<Lease>,
    a: Ipv6Addr,
)
    requires
        m.options.contains_key(2),
        m.options[2] == server.server_duid@,
        m.options.contains_key(3),
        m.options[3].len() >= 12,
        first_address(m.options[3].skip(12)) == Ok::<Ipv6Addr, Seq<char>>(a),
    ensures
        ({
            let ip = IpAddr::V6(a);
            let in_pool = ctx.context matches Some(c) && c.covers(ip);
            let bound = lease_of(leases, ip) matches Some(l) && (l.client_id matches Some(c) && c@
                == ctx.clid@);
            &&& in_pool ==> server.on_message(Handler::Request, ctx, m, leases) == Ok::<
                OutcomeModel,
                Refusal,
            >(OutcomeModel::Allocate { address: ip, rapid_commit: false })
            &&& !in_pool ==> server.on_message(Handler::Request, ctx, m, leases) is Err
            &&& in_pool && bound ==> server.on_message(Handler::Renew, ctx, m, leases) == Ok::<
                OutcomeModel,
                Refusal,
            >(OutcomeModel::Renew(ip))
            &&& !(in_pool && bound) ==> reports(server.on_message(Handler::Renew, ctx, m, leases), 3)
        }),
{
    law_status_numbers(StatusCode::NoBinding);
}

/// A client that asks any server gets its lease extended, or a lease where nobody has one, if the address
/// is in the pool; else it is told that the address is not on the link (4), or, where another client has
/// the lease, that there is no binding (3).
pub proof fn law_rebind(
    server: DhcpV6StateMachine,
    ctx: RequestContext,
    m: DhcpModel,
    leases: Seq<Lease>,
    a: Ipv6Addr,
)
    requires
        m.options.contains_key(3),
        m.options[3].len() >= 12,
        first_address(m.options[3].skip(12)) == Ok::<Ipv6Addr, Seq<char>>(a),
    ensures
        ({
            let ip = IpAddr::V6(a);
            let r = server.on_message(Handler::Rebind, ctx, m, leases);
            if !(ctx.context matches Some(c) && c.covers(ip)) {
                reports(r, 4)
            } else {
                match lease_of(leases, ip) {
                    None => r == Ok::<OutcomeModel, Refusal>(
                        OutcomeModel::Allocate { address: ip, rapid_commit: false },
                    ),
                    Some(l) => if l.client_id matches Some(c) && c@ == ctx.clid@ {
                        r == Ok::<OutcomeModel, Refusal>(OutcomeModel::Renew(ip))
                    } else {
                        reports(r, 3)
                    },
                }
            }
        }),
{
    law_status_numbers(StatusCode::NoBinding);
    law_status_numbers(StatusCode::NotOnLink);
}

/// Messages without the identifier of this server (where they need one) or without an association that
/// holds an address are refused.
pub proof fn law_incomplete_messages_are_refused(
    server: DhcpV6StateMachine,
    handler: Handler,
    ctx: RequestContext,
    m: DhcpModel,
    leases: Seq<Lease>,
)
    ensures
        !(m.options.contains_key(2) && m.options[2] == server.server_duid@) && (handler is Request
            || handler is Renew || handler is Release || handler is Decline) ==> server.on_message(
            handler,
            ctx,
            m,
            leases,
        ) is Err,
        !(m.options.contains_key(3) && m.options[3].len() >= 12 && first_address(m.options[3].skip(12))
            is Ok) ==> {
            &&& (handler is Request || handler is Renew || handler is Release || handler is Decline || handler
                is Rebind) ==> server.on_message(handler, ctx, m, leases) is Err
            &&& server.on_confirm(ctx, m) is Err
        },
        handler is Solicit && !m.options.contains_key(1) ==> (server.on_message(handler, ctx, m, leases)
            matches Err(Refusal::MissingOption { .. })),
        handler is Solicit && (match ctx.context {
            None => true,
            Some(c) => c.available(leases) is None,
        }) ==> server.on_message(handler, ctx, m, leases) is Err,
{
}

/// A client that looks for servers is offered the first free address of the pool, for the configured
/// lease time; one that asks for it at once gets the lease of that address.
#[verifier::spinoff_prover]
#[verifier::rlimit(40)]
pub proof fn law_solicit(
    server: DhcpV6StateMachine,
    ctx: RequestContext,
    m: DhcpModel,
    leases: Seq<Lease>,
    a: Ipv6Addr,
)
    requires
        m.options.contains_key(1),
        ctx.context matches Some(c) && c.available(leases) == Some(IpAddr::V6(a)),
        server.config.lease_time < 0x1_0000_0000,
    ensures
        m.options.contains_key(14) ==> server.on_message(Handler::Solicit, ctx, m, leases) == Ok::<
            OutcomeModel,
            Refusal,
        >(OutcomeModel::Allocate { address: IpAddr::V6(a), rapid_commit: true }),
        !m.options.contains_key(14) ==> (server.on_message(Handler::Solicit, ctx, m, leases) matches Ok(
            OutcomeModel::Reply(r),
        ) && {
            &&& r.message_type == 2
            &&& r.options.contains_key(3)
            &&& first_address(r.options[3].skip(12)) == Ok::<Ipv6Addr, Seq<char>>(a)
            &&& u32_at(r.options[3], 0) == ctx.iaid
            &&& u32_at(r.options[3], 4) == server.config.lease_time
            &&& u32_at(r.options[3], 8) == server.config.lease_time
            &&& u32_at(r.options[3], 32) == server.config.lease_time
            &&& u32_at(r.options[3], 36) == server.config.lease_time
        }),
{
    let secs = server.config.lease_time as u32;
    let ip = IpAddr::V6(a);
    let data = ia_data(ctx.iaid, secs, secs, ip, secs);
    if !m.options.contains_key(14) {
        assert(low32(server.config.lease_time as nat) == secs);
        assert(server.on_message(Handler::Solicit, ctx, m, leases) == Ok::<OutcomeModel, Refusal>(
            OutcomeModel::Reply(server.offer(ctx, ip)),
        ));
        assert(server.offer(ctx, ip).options.contains_key(3));
        assert(server.offer(ctx, ip).options[3] == data);
        assert(server.offer(ctx, ip).message_type == 2);
        law_association_fields(ctx.iaid, secs, secs, a, secs);
        law_granted_address_reads_back(ctx.iaid, secs, secs, a, secs);
    }
}

/// The question whether addresses are on the link is answered with success where the pool has all of
/// them, and else with "not on link" (4).
pub proof fn law_confirm(server: DhcpV6StateMachine, ctx: RequestContext, m: DhcpModel)
    requires
        m.options.contains_key(3),
        m.options[3].len() >= 12,
        first_address(m.options[3].skip(12)) is Ok,
    ensures
        ({
            let listed = listed_addresses(m.options[3].skip(12));
            let all = ctx.context matches Some(c) && forall|i: int|
                0 <= i < listed.len() ==> c.covers(IpAddr::V6(#[trigger] listed[i]));
            &&& all ==> reports_status(server.on_confirm(ctx, m), 0)
            &&& !all ==> reports_status(server.on_confirm(ctx, m), 4)
        }),
{
    law_status_numbers(StatusCode::Success);
    law_status_numbers(StatusCode::NotOnLink);
}

/// Of the options of an association only addresses (5) with at least 16 bytes of data count; their first
/// 16 bytes are the address. Other options are passed over.
pub proof fn law_addresses_of_association(code: u16, data: Seq<u8>, rest: Seq<u8>)
    requires
        data.len() <= 0xffff,
    ensures
        ({
            let wire = option_bytes(code, data) + rest;
            &&& code != 5 ==> first_address(wire) == first_address(rest)
            &&& code != 5 ==> listed_addresses(wire) == listed_addresses(rest)
            &&& code == 5 && data.len() >= 16 ==> first_address(wire) == Ok::<Ipv6Addr, Seq<char>>(
                Ipv6Addr { bits: be_nat(data.take(16)) as u128 },
            )
            &&& code == 5 && data.len() >= 16 ==> listed_addresses(wire) == seq![
                Ipv6Addr { bits: be_nat(data.take(16)) as u128 },
            ] + listed_addresses(rest)
            &&& code == 5 && data.len() < 16 ==> first_address(wire) is Err
        }),
        first_address(Seq::empty()) is Err,
        listed_addresses(Seq::empty()) == Seq::<Ipv6Addr>::empty(),
{
    let wire = option_bytes(code, data) + rest;
    law_option_reads_back(code, data, rest);
    lemma_be2(code);
    lemma_be2(data.len() as u16);
    if data.len() >= 16 {
        assert(wire.subrange(4, 20) =~= data.take(16));
    }
}

/// A pool has its first address and, with an end, every address of the same kind from the first to the
/// last; nothing else.
pub proof fn law_pool_members(c: DhcpContext, start: Ipv6Addr, end: Ipv6Addr, a: Ipv6Addr, ip: IpAddr)
    ensures
        c.covers(c.start6),
        c.end6 is None ==> (c.covers(ip) <==> ip == c.start6),
        c.start6 == IpAddr::V6(start) && c.end6 == Some(IpAddr::V6(end)) ==> (c.covers(IpAddr::V6(a))
            <==> a.bits == start.bits || (start.bits <= a.bits && a.bits <= end.bits)),
        c.start6 is V6 && ip is V4 ==> !c.covers(ip),
{
}

/// An identifier is valid where it has 2 to 128 bytes, its first two give its kind, and it is long enough
/// for the kind: 8 bytes for kind 1, 6 for 2, 4 for 3.
pub proof fn law_duids(duid: Seq<u8>)
    ensures
        duid_fault(duid) is None <==> duid.len() <= 128 && ((duid.len() >= 8 && duid[0] == 0 && duid[1] == 1)
            || (duid.len() >= 6 && duid[0] == 0 && duid[1] == 2) || (duid.len() >= 4 && duid[0] == 0
            && duid[1] == 3)),
{
}

/// The status of a request: 5 where it was not sent to multicast, 2 where no pool serves it, 4 where the
/// pool does not have the address, and else success.
pub proof fn law_request_status(server: DhcpV6StateMachine, ctx: RequestContext, requested: Option<IpAddr>)
    ensures
        server.status(ctx, requested, true).number() == 5,
        ctx.context is None ==> server.status(ctx, requested, false).number() == 2,
        ctx.context matches Some(c) ==> server.status(ctx, requested, false).number() == (if requested
            matches Some(a) && !c.covers(a) {
            4u16
        } else {
            0u16
        }),
{
}

/// Seven types of messages are handled: 1 SOLICIT, 3 REQUEST, 5 RENEW, 6 REBIND, 8 RELEASE, 9 DECLINE and
/// 11 INFORMATION-REQUEST.
pub proof fn law_handlers(message_type: u8)
    ensures
        Handler::of(1) == Some(Handler::Solicit),
        Handler::of(3) == Some(Handler::Request),
        Handler::of(5) == Some(Handler::Renew),
        Handler::of(6) == Some(Handler::Rebind),
        Handler::of(8) == Some(Handler::Release),
        Handler::of(9) == Some(Handler::Decline),
        Handler::of(11) == Some(Handler::InformationRequest),
        Handler::of(message_type) is Some <==> message_type == 1 || message_type == 3 || message_type == 5
            || message_type == 6 || message_type == 8 || message_type == 9 || message_type == 11,
{
}

/// The configuration adds name servers (option 23), the search list (24) and time servers (56) where there
/// are some, and changes nothing else. A request for configuration is answered with these alone.
pub proof fn law_configuration(
    server: DhcpV6StateMachine,
    ctx: RequestContext,
    m: DhcpModel,
    leases: Seq<Lease>,
    reply: DhcpModel,
)
    ensures
        server.config.applied(m) matches Ok(r) ==> {
            let c = server.config;
            &&& r.message_type == m.message_type && r.transaction_id == m.transaction_id
            &&& c.dns_servers@.len() > 0 ==> r.options.contains_key(23) && r.options[23] == address_bytes(
                c.dns_servers@,
            )
            &&& c.domain_search@.len() > 0 ==> r.options.contains_key(24) && r.options[24] == search_bytes(
                c.search(),
            )
            &&& c.ntp_servers@.len() > 0 ==> r.options.contains_key(56) && r.options[56] == address_bytes(
                c.ntp_servers@,
            )
            &&& forall|k: u16|
                #![trigger r.options.contains_key(k)]
                k != 23 && k != 24 && k != 56 ==> r.options.contains_key(k) == m.options.contains_key(k)
                    && r.options[k] == m.options[k]
            &&& c.dns_servers@.len() == 0 ==> r.options.contains_key(23) == m.options.contains_key(23)
            &&& c.domain_search@.len() == 0 ==> r.options.contains_key(24) == m.options.contains_key(24)
            &&& c.ntp_servers@.len() == 0 ==> r.options.contains_key(56) == m.options.contains_key(56)
        },
        server.config.applied(m) is Err <==> long_search_label(server.config.search()) is Some,
        server.on_message(Handler::InformationRequest, ctx, m, leases) == Ok::<OutcomeModel, Refusal>(
            OutcomeModel::Reply(reply),
        ) ==> reply.message_type == 7 && !reply.options.contains_key(3) && !reply.options.contains_key(13)
            && reply.options[1] == ctx.clid@ && reply.options[2] == server.server_duid@ && (
        server.config.dns_servers@.len() > 0 ==> reply.options[23] == address_bytes(
            server.config.dns_servers@,
        )),
{
}

/// A domain name in a search list is its labels that are not empty, each behind its length, and a zero
/// byte.
pub proof fn law_search_name(before: Seq<Seq<char>>, domain: Seq<char>)
    requires
        long_label(split_on(domain, '.')) is None,
    ensures
        search_bytes(before.push(domain)) == search_bytes(before) + label_bytes(
            split_on(domain, '.'),
            false,
        ) + seq![0u8],
        search_bytes(Seq::empty()) == Seq::<u8>::empty(),
        long_search_label(before.push(domain)) == long_search_label(before),
{
    assert(before.push(domain).drop_last() =~= before);
    assert(search_bytes(before.push(domain)) =~= search_bytes(before) + label_bytes(
        split_on(domain, '.'),
        false,
    ) + seq![0u8]);
}

proof fn lemma_pow256_16()
    ensures
        pow256(16) == u128::MAX + 1,
{
    reveal_with_fuel(pow256, 17);
}

} // verus!
