//! Addresses and other small values shared by the modules.
use vstd::prelude::*;
use vstd::arithmetic::power2::pow2;
use vstd::bits::{lemma_u128_shr_is_div, lemma_u32_shr_is_div};
use crate::wire::{be_bytes, be_nat, pow256, copy_range, lemma_be4, lemma_be_bytes_len, lemma_be_bytes_of_nat};

verus! {

/// An IPv4 address, by its number.
#[derive(Debug, Clone, Copy, PartialEq, Eq, PartialOrd, Ord, Hash, Structural)]
pub struct Ipv4Addr {
    pub bits: u32,
}

/// An IPv6 address, by its number.
#[derive(Debug, Clone, Copy, PartialEq, Eq, PartialOrd, Ord, Hash, Structural)]
pub struct Ipv6Addr {
    pub bits: u128,
}

/// An IP address of either family.
#[derive(Debug, Clone, Copy, PartialEq, Eq, PartialOrd, Ord, Hash, Structural)]
pub enum IpAddr {
    V4(Ipv4Addr),
    V6(Ipv6Addr),
}

/// A hardware address.
#[derive(Debug, Clone, Copy, PartialEq, Eq)]
pub struct MacAddress {
    pub bytes: [u8; 6],
}

impl Ipv4Addr {
    /// The four bytes of the address in network order.
    pub open spec fn spec_octets(self) -> Seq<u8> {
        be_bytes(self.bits as nat, 4)
    }

    /// The address a.b.c.d.
    pub fn new(a: u8, b: u8, c: u8, d: u8) -> (r: Self)
        ensures
            r.spec_octets() == seq![a, b, c, d],
    {
        let bits: u32 = a as u32 * 0x100_0000 + b as u32 * 0x1_0000 + c as u32 * 0x100 + d as u32;
        proof {
            let s = seq![a, b, c, d];
            assert(s.drop_last() =~= seq![a, b, c]);
            assert(seq![a, b, c].drop_last() =~= seq![a, b]);
            assert(seq![a, b].drop_last() =~= seq![a]);
            assert(seq![a].drop_last() =~= Seq::<u8>::empty());
            reveal_with_fuel(be_nat, 5);
            lemma_be_bytes_of_nat(s);
        }
        Ipv4Addr { bits }
    }

    /// The four bytes of the address in network order.
    pub fn octets(&self) -> (r: Vec<u8>)
        ensures
            r@ == self.spec_octets(),
    {
        let v = self.bits;
        let r = vec![
            (v / 0x100_0000) as u8,
            ((v / 0x1_0000) % 256) as u8,
            ((v / 0x100) % 256) as u8,
            (v % 256) as u8,
        ];
        proof {
            lemma_be4(v);
            assert(r@ =~= be_bytes(v as nat, 4));
        }
        r
    }

    /// True in 10.0.0.0/8, 172.16.0.0/12 and 192.168.0.0/16.
    pub open spec fn spec_is_private(self) -> bool {
        self.bits / 0x100_0000 == 10 || self.bits / 0x10_0000 == 0xAC1 || self.bits / 0x1_0000
            == 0xC0A8
    }

    /// True in 127.0.0.0/8.
    pub open spec fn spec_is_loopback(self) -> bool {
        self.bits / 0x100_0000 == 127
    }

    /// True in 169.254.0.0/16.
    pub open spec fn spec_is_link_local(self) -> bool {
        self.bits / 0x1_0000 == 0xA9FE
    }

    /// True for an address of a private network.
    pub fn is_private(&self) -> (r: bool)
        ensures
            r == self.spec_is_private(),
    {
        self.bits / 0x100_0000 == 10 || self.bits / 0x10_0000 == 0xAC1 || self.bits / 0x1_0000
            == 0xC0A8
    }

    /// True for a loopback address.
    pub fn is_loopback(&self) -> (r: bool)
        ensures
            r == self.spec_is_loopback(),
    {
        self.bits / 0x100_0000 == 127
    }

    /// True for a link-local address.
    pub fn is_link_local(&self) -> (r: bool)
        ensures
            r == self.spec_is_link_local(),
    {
        self.bits / 0x1_0000 == 0xA9FE
    }
}

impl Ipv6Addr {
    /// The sixteen bytes of the address in network order.
    pub open spec fn spec_octets(self) -> Seq<u8> {
        be_bytes(self.bits as nat, 16)
    }

    /// The address with the given eight 16-bit groups.
    pub fn new(a: u16, b: u16, c: u16, d: u16, e: u16, f: u16, g: u16, h: u16) -> (r: Self)
        ensures
            r.bits == ((((((a * 0x1_0000 + b) * 0x1_0000 + c) * 0x1_0000 + d) * 0x1_0000 + e)
                * 0x1_0000 + f) * 0x1_0000 + g) * 0x1_0000 + h,
    {
        let bits: u128 = ((((((a as u128 * 0x1_0000 + b as u128) * 0x1_0000 + c as u128) * 0x1_0000
            + d as u128) * 0x1_0000 + e as u128) * 0x1_0000 + f as u128) * 0x1_0000 + g as u128)
            * 0x1_0000 + h as u128;
        Ipv6Addr { bits }
    }

    /// The address whose bytes are the sixteen bytes of `data` from `at` on.
    pub fn read(data: &[u8], at: usize) -> (r: Self)
        requires
            at + 16 <= data@.len(),
        ensures
            r.bits == be_nat(data@.subrange(at as int, at + 16)),
            r.spec_octets() == data@.subrange(at as int, at + 16),
    {
        let n: usize = data.len();
        let bytes = copy_range(data, at, n - (n - at - 16));
        proof {
            lemma_be_bytes_of_nat(bytes@);
        }
        Ipv6Addr { bits: number(bytes.as_slice()) }
    }

    /// The sixteen bytes of the address in network order.
    pub fn octets(&self) -> (r: Vec<u8>)
        ensures
            r@ == self.spec_octets(),
    {
        digits(self.bits, 16)
    }

    /// True for the address ::1.
    pub fn is_loopback(&self) -> (r: bool)
        ensures
            r == (self.bits == 1),
    {
        self.bits == 1
    }

    /// True for the address ::.
    pub fn is_unspecified(&self) -> (r: bool)
        ensures
            r == (self.bits == 0),
    {
        self.bits == 0
    }

    /// True in fe80::/10.
    pub open spec fn spec_is_unicast_link_local(self) -> bool {
        self.bits / 0x40_0000_0000_0000_0000_0000_0000_0000 == 0x3FA
    }

    /// True in fc00::/7.
    pub open spec fn spec_is_unique_local(self) -> bool {
        self.bits / 0x200_0000_0000_0000_0000_0000_0000_0000 == 0x7E
    }

    /// True for a link-local address.
    pub fn is_unicast_link_local(&self) -> (r: bool)
        ensures
            r == self.spec_is_unicast_link_local(),
    {
        self.bits / 0x40_0000_0000_0000_0000_0000_0000_0000 == 0x3FA
    }

    /// True for a unique local address.
    pub fn is_unique_local(&self) -> (r: bool)
        ensures
            r == self.spec_is_unique_local(),
    {
        self.bits / 0x200_0000_0000_0000_0000_0000_0000_0000 == 0x7E
    }
}

/// The address and port of a peer.
#[derive(Debug, Clone, Copy, PartialEq, Eq, Structural)]
pub struct SocketAddr {
    pub ip: IpAddr,
    pub port: u16,
}

impl IpAddr {
    pub proof fn lemma_octets_len(self)
        ensures
            self.spec_octets().len() == match self {
                IpAddr::V4(_) => 4nat,
                IpAddr::V6(_) => 16nat,
            },
    {
        lemma_be_bytes_len(self->V4_0.bits as nat, 4);
        lemma_be_bytes_len(self->V6_0.bits as nat, 16);
    }

    /// The bytes of the address in network order.
    pub open spec fn spec_octets(self) -> Seq<u8> {
        match self {
            IpAddr::V4(a) => a.spec_octets(),
            IpAddr::V6(a) => a.spec_octets(),
        }
    }

    /// The bytes of the address in network order.
    pub fn octets(&self) -> (r: Vec<u8>)
        ensures
            r@ == self.spec_octets(),
    {
        match self {
            IpAddr::V4(a) => a.octets(),
            IpAddr::V6(a) => a.octets(),
        }
    }

    /// True for an IPv4 address.
    pub fn is_ipv4(&self) -> (r: bool)
        ensures
            r == (self is V4),
    {
        matches!(self, IpAddr::V4(_))
    }

    /// True for an address that only hosts of the local network have.
    pub open spec fn spec_is_local(self) -> bool {
        match self {
            IpAddr::V4(a) => a.spec_is_private() || a.spec_is_loopback() || a.spec_is_link_local(),
            IpAddr::V6(a) => a.bits == 1 || a.spec_is_unicast_link_local()
                || a.spec_is_unique_local(),
        }
    }

    /// True for an address that only hosts of the local network have.
    pub fn is_local(&self) -> (r: bool)
        ensures
            r == self.spec_is_local(),
    {
        match self {
            IpAddr::V4(a) => a.is_private() || a.is_loopback() || a.is_link_local(),
            IpAddr::V6(a) => a.is_loopback() || a.is_unicast_link_local() || a.is_unique_local(),
        }
    }
}

/// A block of addresses that share their first `prefix` bits with `addr`.
#[derive(Debug, Clone, Copy, PartialEq, Eq, Structural)]
pub struct IpNetwork {
    pub addr: IpAddr,
    pub prefix: u8,
}

impl IpNetwork {
    /// The number of bits of an address of the network that do not belong to its prefix.
    pub open spec fn host_bits(self) -> nat {
        let width: nat = if self.addr is V4 {
            32
        } else {
            128
        };
        if self.prefix < width {
            (width - self.prefix) as nat
        } else {
            0
        }
    }

    /// True when `a` is of the same family and starts with the same bits.
    pub open spec fn spec_contains(self, a: IpAddr) -> bool {
        match (self.addr, a) {
            (IpAddr::V4(n), IpAddr::V4(x)) => n.bits as nat / pow2(self.host_bits())
                == x.bits as nat / pow2(self.host_bits()),
            (IpAddr::V6(n), IpAddr::V6(x)) => n.bits as nat / pow2(self.host_bits())
                == x.bits as nat / pow2(self.host_bits()),
            _ => false,
        }
    }

    /// The network with the given prefix length; `None` where it exceeds the address length.
    pub open spec fn of(addr: IpAddr, prefix: u8) -> Option<IpNetwork> {
        if prefix <= (if addr is V4 {
            32
        } else {
            128int
        }) {
            Some(IpNetwork { addr, prefix })
        } else {
            None
        }
    }

    /// The network with the given prefix length; `None` where it exceeds the address length.
    pub fn new(addr: IpAddr, prefix: u8) -> (r: Option<Self>)
        ensures
            r == Self::of(addr, prefix),
    {
        let longest: u8 = if addr.is_ipv4() {
            32
        } else {
            128
        };
        if prefix <= longest {
            Some(IpNetwork { addr, prefix })
        } else {
            None
        }
    }

    /// True when `a` lies in the network.
    pub fn contains(&self, a: &IpAddr) -> (r: bool)
        ensures
            r == self.spec_contains(*a),
    {
        match (&self.addr, a) {
            (IpAddr::V4(n), IpAddr::V4(x)) => {
                if self.prefix == 0 {
                    proof {
                        vstd::arithmetic::power2::lemma2_to64();
                        assert(n.bits as nat / pow2(32) == 0 && x.bits as nat / pow2(32) == 0)
                            by (nonlinear_arith)
                            requires
                                n.bits < pow2(32),
                                x.bits < pow2(32),
                        ;
                    }
                    true
                } else {
                    let shift: u32 = if self.prefix < 32 {
                        32 - self.prefix as u32
                    } else {
                        0
                    };
                    proof {
                        lemma_u32_shr_is_div(n.bits, shift);
                        lemma_u32_shr_is_div(x.bits, shift);
                    }
                    n.bits >> shift == x.bits >> shift
                }
            },
            (IpAddr::V6(n), IpAddr::V6(x)) => {
                if self.prefix == 0 {
                    proof {
                        vstd::arithmetic::power2::lemma2_to64();
                        vstd::arithmetic::power2::lemma_pow2_adds(64, 64);
                        assert(pow2(128) == 0x1_0000_0000_0000_0000_0000_0000_0000_0000);
                        assert(n.bits as nat / pow2(128) == 0 && x.bits as nat / pow2(128) == 0)
                            by (nonlinear_arith)
                            requires
                                n.bits < pow2(128),
                                x.bits < pow2(128),
                        ;
                    }
                    true
                } else {
                    let shift: u128 = if self.prefix < 128 {
                        128 - self.prefix as u128
                    } else {
                        0
                    };
                    proof {
                        lemma_u128_shr_is_div(n.bits, shift);
                        lemma_u128_shr_is_div(x.bits, shift);
                    }
                    n.bits >> shift == x.bits >> shift
                }
            },
            _ => false,
        }
    }
}

impl MacAddress {
    /// The address with the given bytes.
    pub fn from_bytes(bytes: [u8; 6]) -> (r: Self)
        ensures
            r.bytes == bytes,
    {
        MacAddress { bytes }
    }

    /// The six bytes of the address.
    pub fn octets(&self) -> (r: &[u8])
        ensures
            r@ == self.bytes@,
    {
        self.bytes.as_slice()
    }
}

/// A DNS record type.
#[derive(Debug, Clone, Copy, PartialEq, Eq, Hash, Structural)]
pub enum RecordType {
    A,
    NS,
    CNAME,
    SOA,
    PTR,
    MX,
    TXT,
    AAAA,
    SRV,
    DS,
    RRSIG,
    NSEC,
    DNSKEY,
    NSEC3,
    AXFR,
    /// Any other type, by its number.
    Unknown(u16),
}

impl RecordType {
    /// The number of the type.
    pub open spec fn spec_code(self) -> u16 {
        match self {
            RecordType::A => 1,
            RecordType::NS => 2,
            RecordType::CNAME => 5,
            RecordType::SOA => 6,
            RecordType::PTR => 12,
            RecordType::MX => 15,
            RecordType::TXT => 16,
            RecordType::AAAA => 28,
            RecordType::SRV => 33,
            RecordType::DS => 43,
            RecordType::RRSIG => 46,
            RecordType::NSEC => 47,
            RecordType::DNSKEY => 48,
            RecordType::NSEC3 => 50,
            RecordType::AXFR => 252,
            RecordType::Unknown(c) => c,
        }
    }

    /// The number of the type.
    pub fn code(&self) -> (r: u16)
        ensures
            r == self.spec_code(),
    {
        match self {
            RecordType::A => 1,
            RecordType::NS => 2,
            RecordType::CNAME => 5,
            RecordType::SOA => 6,
            RecordType::PTR => 12,
            RecordType::MX => 15,
            RecordType::TXT => 16,
            RecordType::AAAA => 28,
            RecordType::SRV => 33,
            RecordType::DS => 43,
            RecordType::RRSIG => 46,
            RecordType::NSEC => 47,
            RecordType::DNSKEY => 48,
            RecordType::NSEC3 => 50,
            RecordType::AXFR => 252,
            RecordType::Unknown(c) => *c,
        }
    }

    /// The type with the given number; a type that has a name here is not `Unknown`.
    pub open spec fn of_code(code: u16) -> RecordType {
        match code {
            1 => RecordType::A,
            2 => RecordType::NS,
            5 => RecordType::CNAME,
            6 => RecordType::SOA,
            12 => RecordType::PTR,
            15 => RecordType::MX,
            16 => RecordType::TXT,
            28 => RecordType::AAAA,
            33 => RecordType::SRV,
            43 => RecordType::DS,
            46 => RecordType::RRSIG,
            47 => RecordType::NSEC,
            48 => RecordType::DNSKEY,
            50 => RecordType::NSEC3,
            252 => RecordType::AXFR,
            _ => RecordType::Unknown(code),
        }
    }

    /// The type with the given number.
    pub fn from_code(code: u16) -> (r: Self)
        ensures
            r == Self::of_code(code),
            r.spec_code() == code,
    {
        match code {
            1 => RecordType::A,
            2 => RecordType::NS,
            5 => RecordType::CNAME,
            6 => RecordType::SOA,
            12 => RecordType::PTR,
            15 => RecordType::MX,
            16 => RecordType::TXT,
            28 => RecordType::AAAA,
            33 => RecordType::SRV,
            43 => RecordType::DS,
            46 => RecordType::RRSIG,
            47 => RecordType::NSEC,
            48 => RecordType::DNSKEY,
            50 => RecordType::NSEC3,
            252 => RecordType::AXFR,
            _ => RecordType::Unknown(code),
        }
    }
}

/// The numbers of the types that have a name here. A number denotes the type that it is the number of, and a
/// number without a name stands for itself.
pub proof fn law_type_numbers(code: u16, t: RecordType)
    ensures
        RecordType::A.spec_code() == 1 && RecordType::NS.spec_code() == 2 && RecordType::CNAME.spec_code() == 5
            && RecordType::SOA.spec_code() == 6 && RecordType::PTR.spec_code() == 12
            && RecordType::MX.spec_code() == 15 && RecordType::TXT.spec_code() == 16
            && RecordType::AAAA.spec_code() == 28 && RecordType::SRV.spec_code() == 33
            && RecordType::DS.spec_code() == 43 && RecordType::RRSIG.spec_code() == 46
            && RecordType::NSEC.spec_code() == 47 && RecordType::DNSKEY.spec_code() == 48
            && RecordType::NSEC3.spec_code() == 50 && RecordType::AXFR.spec_code() == 252,
        RecordType::of_code(code).spec_code() == code,
        !(t is Unknown) ==> RecordType::of_code(t.spec_code()) == t,
        RecordType::Unknown(code).spec_code() == code,
{
}

/// The flags that tell where a cache entry comes from and what it serves; a set of them is the
/// bitwise or of its members.
pub struct CacheFlags;

impl CacheFlags {
    /// The entry answers reverse lookups.
    pub const REVERSE: u32 = 4;

    /// The entry answers forward lookups.
    pub const FORWARD: u32 = 8;

    /// The entry stems from a DHCP lease.
    pub const DHCP: u32 = 16;

    /// The entry stems from the hosts file.
    pub const HOSTS: u32 = 64;

    /// The record of the entry was validated.
    pub const DNSSECOK: u32 = 0x8000;

    /// True when every flag of `flag` is in `set`.
    pub open spec fn has(set: u32, flag: u32) -> bool {
        set & flag == flag
    }

    /// True when every flag of `flag` is in `set`.
    pub fn contains(set: u32, flag: u32) -> (r: bool)
        ensures
            r == Self::has(set, flag),
    {
        set & flag == flag
    }
}

proof fn lemma_pow256_monotone(i: nat, j: nat)
    requires
        i <= j,
    ensures
        pow256(i) <= pow256(j),
    decreases j,
{
    if i < j {
        lemma_pow256_monotone(i, (j - 1) as nat);
    }
}

/// The number that at most sixteen bytes denote, most significant first.
pub fn number(data: &[u8]) -> (v: u128)
    requires
        data@.len() <= 16,
    ensures
        v == be_nat(data@),
{
    let mut bits: u128 = 0;
    let mut i: usize = 0;
    while i < data.len()
        invariant
            i <= data@.len() <= 16,
            bits == be_nat(data@.take(i as int)),
        decreases data@.len() - i,
    {
        proof {
            lemma_be_bytes_of_nat(data@.take(i as int));
            lemma_pow256_monotone(i as nat, 15);
            assert(pow256(15) == 0x1000000000000000000000000000000) by {
                reveal_with_fuel(pow256, 16);
            }
            assert(data@.take(i + 1).drop_last() =~= data@.take(i as int));
        }
        bits = bits * 256 + data[i] as u128;
        i = i + 1;
    }
    assert(data@.take(i as int) =~= data@);
    bits
}

/// The last `k` base-256 digits of `v`, most significant first.
fn digits(v: u128, k: usize) -> (r: Vec<u8>)
    ensures
        r@ == be_bytes(v as nat, k as nat),
    decreases k,
{
    if k == 0 {
        return Vec::new();
    }
    let mut r = digits(v / 256, k - 1);
    r.push((v % 256) as u8);
    r
}

/// The local IPv4 addresses: 10.0.0.0 to 10.255.255.255, 172.16.0.0 to 172.31.255.255, 192.168.0.0
/// to 192.168.255.255, 127.0.0.0 to 127.255.255.255, and 169.254.0.0 to 169.254.255.255.
pub proof fn law_local_ipv4(a: Ipv4Addr)
    ensures
        a.spec_is_private() <==> 0x0A00_0000 <= a.bits <= 0x0AFF_FFFF || 0xAC10_0000 <= a.bits
            <= 0xAC1F_FFFF || 0xC0A8_0000 <= a.bits <= 0xC0A8_FFFF,
        a.spec_is_loopback() <==> 0x7F00_0000 <= a.bits <= 0x7FFF_FFFF,
        a.spec_is_link_local() <==> 0xA9FE_0000 <= a.bits <= 0xA9FE_FFFF,
        IpAddr::V4(a).spec_is_local() <==> 0x0A00_0000 <= a.bits <= 0x0AFF_FFFF || 0xAC10_0000
            <= a.bits <= 0xAC1F_FFFF || 0xC0A8_0000 <= a.bits <= 0xC0A8_FFFF || 0x7F00_0000 <= a.bits
            <= 0x7FFF_FFFF || 0xA9FE_0000 <= a.bits <= 0xA9FE_FFFF,
{
}

/// The local IPv6 addresses: ::1, those of fe80::/10, and those of fc00::/7.
pub proof fn law_local_ipv6(a: Ipv6Addr)
    ensures
        a.spec_is_unicast_link_local() <==> 0xFE80_0000_0000_0000_0000_0000_0000_0000 <= a.bits
            <= 0xFEBF_FFFF_FFFF_FFFF_FFFF_FFFF_FFFF_FFFF,
        a.spec_is_unique_local() <==> 0xFC00_0000_0000_0000_0000_0000_0000_0000 <= a.bits
            <= 0xFDFF_FFFF_FFFF_FFFF_FFFF_FFFF_FFFF_FFFF,
        IpAddr::V6(a).spec_is_local() <==> a.bits == 1 || 0xFE80_0000_0000_0000_0000_0000_0000_0000
            <= a.bits <= 0xFEBF_FFFF_FFFF_FFFF_FFFF_FFFF_FFFF_FFFF
            || 0xFC00_0000_0000_0000_0000_0000_0000_0000 <= a.bits
            <= 0xFDFF_FFFF_FFFF_FFFF_FFFF_FFFF_FFFF_FFFF,
{
}

/// A network has the block of addresses round its own whose size is a power of two: the bits that
/// the prefix leaves. Addresses of the other family are in none. A prefix that is longer than the
/// address makes no network.
pub proof fn law_network(n: Ipv4Addr, x: Ipv4Addr, m: Ipv6Addr, y: Ipv6Addr, prefix: u8)
    ensures
        prefix <= 32 ==> ({
            let net = IpNetwork { addr: IpAddr::V4(n), prefix };
            let size = pow2((32 - prefix) as nat);
            let start = n.bits as int - n.bits as int % size as int;
            &&& IpNetwork::of(IpAddr::V4(n), prefix) == Some(net)
            &&& net.spec_contains(IpAddr::V4(x)) <==> start <= x.bits < start + size
            &&& !net.spec_contains(IpAddr::V6(y))
        }),
        prefix > 32 ==> IpNetwork::of(IpAddr::V4(n), prefix) is None,
        prefix <= 128 ==> ({
            let net = IpNetwork { addr: IpAddr::V6(m), prefix };
            let size = pow2((128 - prefix) as nat);
            let start = m.bits as int - m.bits as int % size as int;
            &&& IpNetwork::of(IpAddr::V6(m), prefix) == Some(net)
            &&& net.spec_contains(IpAddr::V6(y)) <==> start <= y.bits < start + size
            &&& !net.spec_contains(IpAddr::V4(x))
        }),
        prefix > 128 ==> IpNetwork::of(IpAddr::V6(m), prefix) is None,
{
    if prefix <= 32 {
        lemma_block(n.bits as nat, x.bits as nat, (32 - prefix) as nat);
    }
    if prefix <= 128 {
        lemma_block(m.bits as nat, y.bits as nat, (128 - prefix) as nat);
    }
}

/// Two numbers have the same quotient exactly where they lie in the same block.
proof fn lemma_block(n: nat, x: nat, k: nat)
    ensures
        n / pow2(k) == x / pow2(k) <==> n - n % pow2(k) <= x < n - n % pow2(k) + pow2(k),
{
    vstd::arithmetic::power2::lemma_pow2_pos(k);
    let d = pow2(k) as int;
    vstd::arithmetic::div_mod::lemma_fundamental_div_mod(n as int, d);
    vstd::arithmetic::div_mod::lemma_fundamental_div_mod(x as int, d);
    vstd::arithmetic::div_mod::lemma_mod_bound(n as int, d);
    vstd::arithmetic::div_mod::lemma_mod_bound(x as int, d);
    let a = n as int / d;
    let b = x as int / d;
    let s = n as int % d;
    let t = x as int % d;
    assert(d * a <= d * b + t < d * a + d <==> a == b) by (nonlinear_arith)
        requires
            0 <= t < d,
    ;
}

/// Two addresses are in the same network of 24 bits exactly where their first three bytes agree, and
/// in the same one of 64 bits where their first eight do. A network of no bits has every address of
/// the family, one of all bits only its own.
pub proof fn law_usual_networks(n: Ipv4Addr, x: Ipv4Addr, m: Ipv6Addr, y: Ipv6Addr)
    ensures
        (IpNetwork { addr: IpAddr::V4(n), prefix: 24 }).spec_contains(IpAddr::V4(x)) <==> n.bits / 0x100
            == x.bits / 0x100,
        (IpNetwork { addr: IpAddr::V4(n), prefix: 0 }).spec_contains(IpAddr::V4(x)),
        (IpNetwork { addr: IpAddr::V4(n), prefix: 32 }).spec_contains(IpAddr::V4(x)) <==> n == x,
        (IpNetwork { addr: IpAddr::V6(m), prefix: 64 }).spec_contains(IpAddr::V6(y)) <==> m.bits
            / 0x1_0000_0000_0000_0000 == y.bits / 0x1_0000_0000_0000_0000,
        (IpNetwork { addr: IpAddr::V6(m), prefix: 128 }).spec_contains(IpAddr::V6(y)) <==> m == y,
{
    vstd::arithmetic::power2::lemma2_to64();
    assert(pow2(0) == 1 && pow2(8) == 0x100 && pow2(32) == 0x1_0000_0000 && pow2(64)
        == 0x1_0000_0000_0000_0000);
    assert(n.bits as nat / 0x1_0000_0000 == 0 && x.bits as nat / 0x1_0000_0000 == 0);
    assert(n.bits as nat / 1 == n.bits && x.bits as nat / 1 == x.bits);
    assert(m.bits as nat / 1 == m.bits && y.bits as nat / 1 == y.bits);
}

} // verus!
