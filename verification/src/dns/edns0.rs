//! EDNS0: the OPT pseudo record and its options (RFC 6891).
use vstd::prelude::*;
use vstd::utf8::{decode_utf8, encode_utf8, valid_utf8};
use crate::address_text::{ip_text, show_ip};
use crate::error::{edns0_failed, DnsmasqError};
use crate::text::{
    byte_list, colon_hex, dec, hex_with_colons, list_text, message1, message2, message3, message_text,
};
use crate::types::{IpAddr, Ipv4Addr, Ipv6Addr, MacAddress, SocketAddr};
use crate::wire::{be_bytes, copy_range, lemma_be2, put_slice, put_u16, read_u16, u16_at};

verus! {

/// The largest UDP payload size that a builder accepts.
pub const MAX_UDP_PAYLOAD: u16 = 4096;

/// The UDP payload size used where none is given.
pub const DEFAULT_UDP_PAYLOAD: u16 = 1232;

/// The EDNS version.
pub const EDNS_VERSION: u8 = 0;

/// The DNSSEC OK bit of the flags.
pub const EDNS_DO_BIT: u16 = 0x8000;

/// Record type of the OPT pseudo record.
pub const T_OPT: u16 = 41;

/// Option code of the client subnet (RFC 7871).
pub const EDNS0_OPTION_CLIENT_SUBNET: u16 = 8;

/// Option code of DNS cookies (RFC 7873).
pub const EDNS0_OPTION_COOKIE: u16 = 10;

/// Option code of padding (RFC 7830).
pub const EDNS0_OPTION_PADDING: u16 = 12;

/// Option code of extended errors (RFC 8914).
pub const EDNS0_OPTION_EDE: u16 = 15;

/// Option code of a hardware address.
pub const EDNS0_OPTION_MAC: u16 = 65001;

/// Option code of a Nominum device identifier.
pub const EDNS0_OPTION_NOMDEVICEID: u16 = 65073;

/// Option code of a Nominum customer premises identifier.
pub const EDNS0_OPTION_NOMCPEID: u16 = 65074;

/// Option code of a Cisco Umbrella identifier.
pub const EDNS0_OPTION_UMBRELLA: u16 = 20292;

/// Extended error: the answer is stale.
pub const EDE_STALE: i32 = 3;

/// Extended error: DNSSEC validation failed.
pub const EDE_DNSSEC_BOGUS: i32 = 6;

/// An EDNS0 option.
#[derive(Debug, Clone, PartialEq)]
pub enum Edns0Option {
    /// The subnet of the client (RFC 7871).
    ClientSubnet { family: u16, source_netmask: u8, scope_netmask: u8, address: IpAddr },
    /// The DNSSEC OK bit; it lives in the flags and is never written as an option.
    DnssecOk,
    /// A DNS cookie (RFC 7873).
    Cookie { client: Vec<u8>, server: Option<Vec<u8>> },
    /// An extended error (RFC 8914).
    ExtendedError { info_code: u16, extra_text: String },
    /// Padding (RFC 7830).
    Padding { length: usize },
    /// The hardware address of the client.
    Mac { address: MacAddress },
    /// A Nominum device identifier.
    NomDeviceId { device_id: Vec<u8> },
    /// A Nominum customer premises identifier.
    NomCpeId { cpe_id: Vec<u8> },
    /// A Cisco Umbrella device identifier.
    Umbrella { device_id: Vec<u8> },
    /// Any other option, kept as it came.
    Unknown { code: u16, data: Vec<u8> },
}

/// What an option says.
#[verifier::ext_equal]
pub ghost enum OptionModel {
    ClientSubnet { family: u16, source_netmask: u8, scope_netmask: u8, address: IpAddr },
    DnssecOk,
    Cookie { client: Seq<u8>, server: Option<Seq<u8>> },
    ExtendedError { info_code: u16, extra_text: Seq<char> },
    Padding { length: nat },
    Mac { octets: Seq<u8> },
    NomDeviceId { device_id: Seq<u8> },
    NomCpeId { cpe_id: Seq<u8> },
    Umbrella { device_id: Seq<u8> },
    Unknown { code: u16, data: Seq<u8> },
}

impl View for Edns0Option {
    type V = OptionModel;

    open spec fn view(&self) -> OptionModel {
        match self {
            Edns0Option::ClientSubnet { family, source_netmask, scope_netmask, address } =>
                OptionModel::ClientSubnet {
                    family: *family,
                    source_netmask: *source_netmask,
                    scope_netmask: *scope_netmask,
                    address: *address,
                },
            Edns0Option::DnssecOk => OptionModel::DnssecOk,
            Edns0Option::Cookie { client, server } => OptionModel::Cookie {
                client: client@,
                server: match server {
                    Some(s) => Some(s@),
                    None => None,
                },
            },
            Edns0Option::ExtendedError { info_code, extra_text } => OptionModel::ExtendedError {
                info_code: *info_code,
                extra_text: extra_text@,
            },
            Edns0Option::Padding { length } => OptionModel::Padding { length: *length as nat },
            Edns0Option::Mac { address } => OptionModel::Mac { octets: address.bytes@ },
            Edns0Option::NomDeviceId { device_id } => OptionModel::NomDeviceId {
                device_id: device_id@,
            },
            Edns0Option::NomCpeId { cpe_id } => OptionModel::NomCpeId { cpe_id: cpe_id@ },
            Edns0Option::Umbrella { device_id } => OptionModel::Umbrella { device_id: device_id@ },
            Edns0Option::Unknown { code, data } => OptionModel::Unknown {
                code: *code,
                data: data@,
            },
        }
    }
}

/// `n` zero bytes.
pub open spec fn zeros(n: nat) -> Seq<u8> {
    Seq::new(n, |i: int| 0u8)
}

/// The bytes that the first `mask` bits of an address take up, at most the whole address.
pub open spec fn significant(octets: Seq<u8>, mask: u8) -> Seq<u8> {
    octets.take(
        if (mask + 7) / 8 < octets.len() {
            (mask + 7) / 8
        } else {
            octets.len() as int
        },
    )
}

impl OptionModel {
    /// The option code.
    pub open spec fn code(self) -> u16 {
        match self {
            OptionModel::ClientSubnet { .. } => EDNS0_OPTION_CLIENT_SUBNET,
            OptionModel::DnssecOk => 0,
            OptionModel::Cookie { .. } => EDNS0_OPTION_COOKIE,
            OptionModel::ExtendedError { .. } => EDNS0_OPTION_EDE,
            OptionModel::Padding { .. } => EDNS0_OPTION_PADDING,
            OptionModel::Mac { .. } => EDNS0_OPTION_MAC,
            OptionModel::NomDeviceId { .. } => EDNS0_OPTION_NOMDEVICEID,
            OptionModel::NomCpeId { .. } => EDNS0_OPTION_NOMCPEID,
            OptionModel::Umbrella { .. } => EDNS0_OPTION_UMBRELLA,
            OptionModel::Unknown { code, .. } => code,
        }
    }

    /// The option data on the wire.
    pub open spec fn data(self) -> Seq<u8> {
        match self {
            OptionModel::ClientSubnet { family, source_netmask, scope_netmask, address } =>
                be_bytes(family as nat, 2) + seq![source_netmask, scope_netmask] + significant(
                    address.spec_octets(),
                    source_netmask,
                ),
            OptionModel::DnssecOk => Seq::empty(),
            OptionModel::Cookie { client, server } => match server {
                Some(s) => client + s,
                None => client,
            },
            OptionModel::ExtendedError { info_code, extra_text } => be_bytes(info_code as nat, 2)
                + encode_utf8(extra_text),
            OptionModel::Padding { length } => zeros(length),
            OptionModel::Mac { octets } => octets,
            OptionModel::NomDeviceId { device_id } => device_id,
            OptionModel::NomCpeId { cpe_id } => cpe_id,
            OptionModel::Umbrella { device_id } => device_id,
            OptionModel::Unknown { data, .. } => data,
        }
    }

    /// A description for people.
    pub open spec fn description(self) -> Seq<char> {
        match self {
            OptionModel::ClientSubnet { family, source_netmask, scope_netmask, address } =>
                "CLIENT-SUBNET: family="@ + dec(family as nat) + " source="@ + dec(
                    source_netmask as nat,
                ) + " scope="@ + dec(scope_netmask as nat) + " addr="@ + ip_text(address),
            OptionModel::DnssecOk => "DNSSEC-OK"@,
            OptionModel::Cookie { client, server } => match server {
                Some(s) => "COOKIE: client="@ + list_text(client) + " server="@ + list_text(s),
                None => "COOKIE: client="@ + list_text(client),
            },
            OptionModel::ExtendedError { info_code, extra_text } => "EDE: code="@ + dec(
                info_code as nat,
            ) + " text='"@ + extra_text + "'"@,
            OptionModel::Padding { length } => "PADDING: "@ + dec(length) + " bytes"@,
            OptionModel::Mac { octets } => "MAC: "@ + colon_hex(octets),
            OptionModel::NomDeviceId { device_id } => "NOMINUM-DEVICE: "@ + list_text(device_id),
            OptionModel::NomCpeId { cpe_id } => "NOMINUM-CPE: "@ + list_text(cpe_id),
            OptionModel::Umbrella { device_id } => "UMBRELLA: "@ + list_text(device_id),
            OptionModel::Unknown { code, data } => "UNKNOWN("@ + dec(code as nat) + "): "@ + dec(
                data.len(),
            ) + " bytes"@,
        }
    }

    /// The option with its header of code and length; nothing for the DNSSEC OK bit.
    pub open spec fn wire(self) -> Seq<u8> {
        if self is DnssecOk {
            Seq::empty()
        } else {
            be_bytes(self.code() as nat, 2) + be_bytes((self.data().len() as u16) as nat, 2)
                + self.data()
        }
    }
}

/// The client subnet that option data denotes, or why it denotes none.
pub open spec fn parse_client_subnet(data: Seq<u8>) -> Result<OptionModel, Seq<char>> {
    let n: nat = data.len();
    if n < 4 {
        Err("Client subnet option too short: "@ + dec(n) + " bytes"@)
    } else {
        let family = u16_at(data, 0);
        let addr = data.skip(4);
        if family == 1 {
            if n > 8 {
                Err("IPv4 client subnet address too long: "@ + dec((n - 4) as nat) + " bytes"@)
            } else {
                Ok(
                    OptionModel::ClientSubnet {
                        family,
                        source_netmask: data[2],
                        scope_netmask: data[3],
                        address: IpAddr::V4(
                            Ipv4Addr {
                                bits: crate::wire::be_nat(addr + zeros((8 - n) as nat)) as u32,
                            },
                        ),
                    },
                )
            }
        } else if family == 2 {
            if n > 20 {
                Err("IPv6 client subnet address too long: "@ + dec((n - 4) as nat) + " bytes"@)
            } else {
                Ok(
                    OptionModel::ClientSubnet {
                        family,
                        source_netmask: data[2],
                        scope_netmask: data[3],
                        address: IpAddr::V6(
                            Ipv6Addr {
                                bits: crate::wire::be_nat(addr + zeros((20 - n) as nat)) as u128,
                            },
                        ),
                    },
                )
            }
        } else {
            Err("Unsupported address family in client subnet: "@ + dec(family as nat) + ""@)
        }
    }
}

/// The cookie that option data denotes, or why it denotes none.
pub open spec fn parse_cookie(data: Seq<u8>) -> Result<OptionModel, Seq<char>> {
    let n: nat = data.len();
    if n < 8 {
        Err("Cookie option too short: "@ + dec(n) + " bytes (minimum 8)"@)
    } else if n == 8 {
        Ok(OptionModel::Cookie { client: data, server: None })
    } else if n < 16 || n > 40 {
        Err("Invalid server cookie length: "@ + dec((n - 8) as nat) + " bytes (must be 8-32)"@)
    } else {
        Ok(OptionModel::Cookie { client: data.take(8), server: Some(data.skip(8)) })
    }
}

/// The text that `String::from_utf8_lossy` makes of bytes that are not valid UTF-8.
pub uninterp spec fn lossy_text(bytes: Seq<u8>) -> Seq<char>;

/// The text of an extended error: the bytes read as UTF-8, with replacement characters where they
/// are not valid.
pub open spec fn text_of(bytes: Seq<u8>) -> Seq<char> {
    if valid_utf8(bytes) {
        decode_utf8(bytes)
    } else {
        lossy_text(bytes)
    }
}

/// The extended error that option data denotes, or why it denotes none.
pub open spec fn parse_extended_error(data: Seq<u8>) -> Result<OptionModel, Seq<char>> {
    if data.len() < 2 {
        Err("Extended error option too short: "@ + dec(data.len()) + " bytes"@)
    } else {
        Ok(
            OptionModel::ExtendedError {
                info_code: u16_at(data, 0),
                extra_text: text_of(data.skip(2)),
            },
        )
    }
}

/// The hardware address that option data denotes, or why it denotes none.
pub open spec fn parse_mac(data: Seq<u8>) -> Result<OptionModel, Seq<char>> {
    if data.len() != 6 {
        Err("Invalid MAC address length: "@ + dec(data.len()) + " bytes (expected 6)"@)
    } else {
        Ok(OptionModel::Mac { octets: data })
    }
}

/// The option that a code and its data denote, or why they denote none.
pub open spec fn parse_option(code: u16, data: Seq<u8>) -> Result<OptionModel, Seq<char>> {
    if code == EDNS0_OPTION_CLIENT_SUBNET {
        parse_client_subnet(data)
    } else if code == EDNS0_OPTION_COOKIE {
        parse_cookie(data)
    } else if code == EDNS0_OPTION_EDE {
        parse_extended_error(data)
    } else if code == EDNS0_OPTION_PADDING {
        Ok(OptionModel::Padding { length: data.len() })
    } else if code == EDNS0_OPTION_MAC {
        parse_mac(data)
    } else if code == EDNS0_OPTION_NOMDEVICEID {
        Ok(OptionModel::NomDeviceId { device_id: data })
    } else if code == EDNS0_OPTION_NOMCPEID {
        Ok(OptionModel::NomCpeId { cpe_id: data })
    } else if code == EDNS0_OPTION_UMBRELLA {
        Ok(OptionModel::Umbrella { device_id: data })
    } else {
        Ok(OptionModel::Unknown { code, data })
    }
}

/// The option that a record holds for a code and its data: what does not parse is kept as unknown.
pub open spec fn kept_option(code: u16, data: Seq<u8>) -> OptionModel {
    match parse_option(code, data) {
        Ok(o) => o,
        Err(_) => OptionModel::Unknown { code, data },
    }
}

/// True when a parse result agrees with what the bytes denote.
pub open spec fn agrees(r: Result<Edns0Option, DnsmasqError>, m: Result<OptionModel, Seq<char>>) -> bool {
    match (r, m) {
        (Ok(o), Ok(x)) => o@ == x,
        (Err(e), Err(t)) => e.is_edns0(t),
        _ => false,
    }
}

/// `String::from_utf8_lossy` decodes valid UTF-8 exactly; for other bytes its result depends on
/// the bytes alone and is not described further.
#[verifier::external_body]
fn text_from_bytes(bytes: &[u8]) -> (r: String)
    ensures
        r@ == if valid_utf8(bytes@) {
            decode_utf8(bytes@)
        } else {
            lossy_text(bytes@)
        },
{
    String::from_utf8_lossy(bytes).into_owned()
}

/// The number of at most sixteen bytes followed by zeros up to `width` bytes.
fn padded_number(data: &[u8], from: usize, width: usize) -> (v: u128)
    requires
        from <= data@.len(),
        data@.len() - from <= width <= 16,
    ensures
        v == crate::wire::be_nat(data@.skip(from as int) + zeros((width - (data@.len() - from)) as nat)),
{
    let mut padded = copy_range(data, from, data.len());
    assert(padded@ =~= data@.skip(from as int));
    let n: usize = padded.len();
    let ghost want = padded@ + zeros((width - n) as nat);
    while padded.len() < width
        invariant
            n <= padded.len() <= width,
            want.len() == width,
            padded@ == want.take(padded@.len() as int),
            forall|i: int| n <= i < width ==> want[i] == 0,
        decreases width - padded.len(),
    {
        padded.push(0);
        assert(padded@ =~= want.take(padded@.len() as int));
    }
    assert(padded@ =~= want);
    crate::types::number(&padded)
}

impl Edns0Option {
    /// The option code.
    pub fn code(&self) -> (r: u16)
        ensures
            r == self@.code(),
    {
        match self {
            Edns0Option::ClientSubnet { .. } => EDNS0_OPTION_CLIENT_SUBNET,
            Edns0Option::DnssecOk => 0,
            Edns0Option::Cookie { .. } => EDNS0_OPTION_COOKIE,
            Edns0Option::ExtendedError { .. } => EDNS0_OPTION_EDE,
            Edns0Option::Padding { .. } => EDNS0_OPTION_PADDING,
            Edns0Option::Mac { .. } => EDNS0_OPTION_MAC,
            Edns0Option::NomDeviceId { .. } => EDNS0_OPTION_NOMDEVICEID,
            Edns0Option::NomCpeId { .. } => EDNS0_OPTION_NOMCPEID,
            Edns0Option::Umbrella { .. } => EDNS0_OPTION_UMBRELLA,
            Edns0Option::Unknown { code, .. } => *code,
        }
    }

    /// The length of the option data on the wire.
    pub fn data_len(&self) -> (r: usize)
        requires
            self@.data().len() <= usize::MAX,
        ensures
            r == self@.data().len(),
    {
        match self {
            Edns0Option::ClientSubnet { source_netmask, address, .. } => {
                proof {
                    address.lemma_octets_len();
                    lemma_be2(self->family);
                }
                let addr_len: usize = if address.is_ipv4() {
                    4
                } else {
                    16
                };
                let wanted: usize = (*source_netmask as usize + 7) / 8;
                if wanted < addr_len {
                    4 + wanted
                } else {
                    4 + addr_len
                }
            },
            Edns0Option::DnssecOk => 0,
            Edns0Option::Cookie { client, server } => match server {
                Some(s) => client.len() + s.len(),
                None => client.len(),
            },
            Edns0Option::ExtendedError { extra_text, .. } => {
                proof {
                    lemma_be2(self->info_code);
                }
                2 + extra_text.as_str().len()
            },
            Edns0Option::Padding { length } => *length,
            Edns0Option::Mac { .. } => 6,
            Edns0Option::NomDeviceId { device_id } => device_id.len(),
            Edns0Option::NomCpeId { cpe_id } => cpe_id.len(),
            Edns0Option::Umbrella { device_id } => device_id.len(),
            Edns0Option::Unknown { data, .. } => data.len(),
        }
    }

    /// The option code together with the option data.
    pub fn serialize(&self) -> (r: Result<(u16, Vec<u8>), DnsmasqError>)
        ensures
            r matches Ok(p) && p.0 == self@.code() && p.1@ == self@.data(),
    {
        let code: u16 = self.code();
        match self.to_wire_format() {
            Ok(data) => Ok((code, data)),
            Err(e) => Err(e),
        }
    }

    /// A description of the option for people.
    pub fn to_text(&self) -> (r: String)
        ensures
            r@ == self@.description(),
    {
        match self {
            Edns0Option::ClientSubnet { family, source_netmask, scope_netmask, address } => {
                let mut r = message3(
                    "CLIENT-SUBNET: family=",
                    *family as u64,
                    " source=",
                    *source_netmask as u64,
                    " scope=",
                    *scope_netmask as u64,
                );
                r.append(" addr=");
                r.append(show_ip(address).as_str());
                r
            },
            Edns0Option::DnssecOk => String::from_str("DNSSEC-OK"),
            Edns0Option::Cookie { client, server } => {
                let c = byte_list(client.as_slice());
                let mut r = message_text("COOKIE: client=", c.as_str(), "");
                assert(r@ =~= "COOKIE: client="@ + list_text(client@)) by {
                    reveal_strlit("");
                }
                if let Some(s) = server {
                    let t = byte_list(s.as_slice());
                    r.append(" server=");
                    r.append(t.as_str());
                }
                r
            },
            Edns0Option::ExtendedError { info_code, extra_text } => {
                let mut r = message1("EDE: code=", *info_code as u64, " text='");
                r.append(extra_text.as_str());
                r.append("'");
                r
            },
            Edns0Option::Padding { length } => message1("PADDING: ", *length as u64, " bytes"),
            Edns0Option::Mac { address } => String::from_str("MAC: ").concat(
                hex_with_colons(address.octets()).as_str(),
            ),
            Edns0Option::NomDeviceId { device_id } => String::from_str("NOMINUM-DEVICE: ").concat(
                byte_list(device_id.as_slice()).as_str(),
            ),
            Edns0Option::NomCpeId { cpe_id } => String::from_str("NOMINUM-CPE: ").concat(
                byte_list(cpe_id.as_slice()).as_str(),
            ),
            Edns0Option::Umbrella { device_id } => String::from_str("UMBRELLA: ").concat(
                byte_list(device_id.as_slice()).as_str(),
            ),
            Edns0Option::Unknown { code, data } => message2(
                "UNKNOWN(",
                *code as u64,
                "): ",
                data.len() as u64,
                " bytes",
            ),
        }
    }

    /// The option data on the wire, without code and length.
    pub fn to_wire_format(&self) -> (r: Result<Vec<u8>, DnsmasqError>)
        ensures
            r matches Ok(v) && v@ == self@.data(),
    {
        let mut buf: Vec<u8> = Vec::new();
        match self {
            Edns0Option::ClientSubnet { family, source_netmask, scope_netmask, address } => {
                put_u16(&mut buf, *family);
                buf.push(*source_netmask);
                buf.push(*scope_netmask);
                let octets = address.octets();
                proof {
                    address.lemma_octets_len();
                }
                let wanted: usize = (*source_netmask as usize + 7) / 8;
                let count: usize = if wanted < octets.len() {
                    wanted
                } else {
                    octets.len()
                };
                let part = copy_range(octets.as_slice(), 0, count);
                put_slice(&mut buf, part.as_slice());
                assert(part@ =~= significant(address.spec_octets(), *source_netmask));
                assert(buf@ =~= self@.data());
            },
            Edns0Option::DnssecOk => {
                assert(buf@ =~= self@.data());
            },
            Edns0Option::Cookie { client, server } => {
                put_slice(&mut buf, client.as_slice());
                if let Some(s) = server {
                    put_slice(&mut buf, s.as_slice());
                }
                assert(buf@ =~= self@.data());
            },
            Edns0Option::ExtendedError { info_code, extra_text } => {
                put_u16(&mut buf, *info_code);
                put_slice(&mut buf, extra_text.as_str().as_bytes());
                assert(buf@ =~= self@.data());
            },
            Edns0Option::Padding { length } => {
                buf.resize(*length, 0);
                assert(buf@ =~= self@.data());
            },
            Edns0Option::Mac { address } => {
                put_slice(&mut buf, address.octets());
                assert(buf@ =~= self@.data());
            },
            Edns0Option::NomDeviceId { device_id } => {
                put_slice(&mut buf, device_id.as_slice());
                assert(buf@ =~= self@.data());
            },
            Edns0Option::NomCpeId { cpe_id } => {
                put_slice(&mut buf, cpe_id.as_slice());
                assert(buf@ =~= self@.data());
            },
            Edns0Option::Umbrella { device_id } => {
                put_slice(&mut buf, device_id.as_slice());
                assert(buf@ =~= self@.data());
            },
            Edns0Option::Unknown { data, .. } => {
                put_slice(&mut buf, data.as_slice());
                assert(buf@ =~= self@.data());
            },
        }
        Ok(buf)
    }

    /// The option that a code and its data denote.
    pub fn from_wire_format(code: u16, data: &[u8]) -> (r: Result<Self, DnsmasqError>)
        ensures
            agrees(r, parse_option(code, data@)),
    {
        if code == EDNS0_OPTION_CLIENT_SUBNET {
            Self::parse_client_subnet(data)
        } else if code == EDNS0_OPTION_COOKIE {
            Self::parse_cookie(data)
        } else if code == EDNS0_OPTION_EDE {
            Self::parse_extended_error(data)
        } else if code == EDNS0_OPTION_PADDING {
            Ok(Edns0Option::Padding { length: data.len() })
        } else if code == EDNS0_OPTION_MAC {
            Self::parse_mac(data)
        } else {
            let copy = copy_range(data, 0, data.len());
            assert(copy@ =~= data@);
            if code == EDNS0_OPTION_NOMDEVICEID {
                Ok(Edns0Option::NomDeviceId { device_id: copy })
            } else if code == EDNS0_OPTION_NOMCPEID {
                Ok(Edns0Option::NomCpeId { cpe_id: copy })
            } else if code == EDNS0_OPTION_UMBRELLA {
                Ok(Edns0Option::Umbrella { device_id: copy })
            } else {
                Ok(Edns0Option::Unknown { code, data: copy })
            }
        }
    }

    /// The option that a code and its data denote, or the two kept as they are.
    fn keep(code: u16, data: Vec<u8>) -> (r: Self)
        ensures
            r@ == kept_option(code, data@),
    {
        match Self::from_wire_format(code, data.as_slice()) {
            Ok(option) => option,
            Err(_) => Edns0Option::Unknown { code, data },
        }
    }

    fn parse_client_subnet(data: &[u8]) -> (r: Result<Self, DnsmasqError>)
        ensures
            agrees(r, parse_client_subnet(data@)),
    {
        let n: usize = data.len();
        if n < 4 {
            return Err(
                edns0_failed(message1("Client subnet option too short: ", n as u64, " bytes")),
            );
        }
        let family: u16 = read_u16(data, 0);
        let address = if family == 1 {
            if n > 8 {
                return Err(
                    edns0_failed(
                        message1("IPv4 client subnet address too long: ", (n - 4) as u64, " bytes"),
                    ),
                );
            }
            let v: u128 = padded_number(data, 4, 4);
            proof {
                crate::wire::lemma_be_bytes_of_nat(data@.skip(4) + zeros((8 - n) as nat));
                reveal_with_fuel(crate::wire::pow256, 5);
            }
            IpAddr::V4(Ipv4Addr { bits: v as u32 })
        } else if family == 2 {
            if n > 20 {
                return Err(
                    edns0_failed(
                        message1("IPv6 client subnet address too long: ", (n - 4) as u64, " bytes"),
                    ),
                );
            }
            IpAddr::V6(Ipv6Addr { bits: padded_number(data, 4, 16) })
        } else {
            return Err(
                edns0_failed(
                    message1("Unsupported address family in client subnet: ", family as u64, ""),
                ),
            );
        };
        Ok(
            Edns0Option::ClientSubnet {
                family,
                source_netmask: data[2],
                scope_netmask: data[3],
                address,
            },
        )
    }

    fn parse_cookie(data: &[u8]) -> (r: Result<Self, DnsmasqError>)
        ensures
            agrees(r, parse_cookie(data@)),
    {
        let n: usize = data.len();
        if n < 8 {
            return Err(
                edns0_failed(message1("Cookie option too short: ", n as u64, " bytes (minimum 8)")),
            );
        }
        let client = copy_range(data, 0, 8);
        assert(client@ =~= data@.take(8));
        if n == 8 {
            assert(data@.take(8) =~= data@);
            return Ok(Edns0Option::Cookie { client, server: None });
        }
        if n < 16 || n > 40 {
            return Err(
                edns0_failed(
                    message1(
                        "Invalid server cookie length: ",
                        (n - 8) as u64,
                        " bytes (must be 8-32)",
                    ),
                ),
            );
        }
        let server = copy_range(data, 8, n);
        assert(server@ =~= data@.skip(8));
        Ok(Edns0Option::Cookie { client, server: Some(server) })
    }

    fn parse_extended_error(data: &[u8]) -> (r: Result<Self, DnsmasqError>)
        ensures
            agrees(r, parse_extended_error(data@)),
    {
        let n: usize = data.len();
        if n < 2 {
            return Err(
                edns0_failed(message1("Extended error option too short: ", n as u64, " bytes")),
            );
        }
        let rest = copy_range(data, 2, n);
        assert(rest@ =~= data@.skip(2));
        Ok(
            Edns0Option::ExtendedError {
                info_code: read_u16(data, 0),
                extra_text: text_from_bytes(rest.as_slice()),
            },
        )
    }

    fn parse_mac(data: &[u8]) -> (r: Result<Self, DnsmasqError>)
        ensures
            agrees(r, parse_mac(data@)),
    {
        let n: usize = data.len();
        if n != 6 {
            return Err(
                edns0_failed(
                    message1("Invalid MAC address length: ", n as u64, " bytes (expected 6)"),
                ),
            );
        }
        let bytes: [u8; 6] = [data[0], data[1], data[2], data[3], data[4], data[5]];
        assert(bytes@ =~= data@);
        Ok(Edns0Option::Mac { address: MacAddress::from_bytes(bytes) })
    }
}

/// An OPT pseudo record.
#[derive(Debug, Clone, PartialEq)]
pub struct OptRecord {
    /// UDP payload size (the class field).
    pub udp_payload_size: u16,
    /// Upper bits of the response code.
    pub extended_rcode: u8,
    /// EDNS version.
    pub version: u8,
    /// Flags, among them the DNSSEC OK bit.
    pub flags: u16,
    /// The options.
    pub options: Vec<Edns0Option>,
}

/// What an OPT record says.
#[verifier::ext_equal]
pub ghost struct OptModel {
    pub udp_payload_size: u16,
    pub extended_rcode: u8,
    pub version: u8,
    pub flags: u16,
    pub options: Seq<OptionModel>,
}

impl View for OptRecord {
    type V = OptModel;

    open spec fn view(&self) -> OptModel {
        OptModel {
            udp_payload_size: self.udp_payload_size,
            extended_rcode: self.extended_rcode,
            version: self.version,
            flags: self.flags,
            options: option_models(self.options@),
        }
    }
}

/// What the options of a list say.
pub open spec fn option_models(options: Seq<Edns0Option>) -> Seq<OptionModel> {
    options.map_values(|o: Edns0Option| o@)
}

/// The options one after the other on the wire.
pub open spec fn options_wire(options: Seq<OptionModel>) -> Seq<u8>
    decreases options.len(),
{
    if options.len() == 0 {
        Seq::empty()
    } else {
        options[0].wire() + options_wire(options.skip(1))
    }
}

/// The options that the data of a record denotes, or why it denotes none.
pub open spec fn parse_options(rdata: Seq<u8>) -> Result<Seq<OptionModel>, Seq<char>>
    decreases rdata.len(),
{
    let n: nat = rdata.len();
    if n == 0 {
        Ok(Seq::empty())
    } else if n < 4 {
        Err("Truncated EDNS0 option header"@)
    } else {
        let code = u16_at(rdata, 0);
        let len = u16_at(rdata, 2);
        if 4 + len > n {
            Err(
                "EDNS0 option "@ + dec(code as nat) + " data truncated: expected "@ + dec(
                    len as nat,
                ) + " bytes, got "@ + dec((n - 4) as nat),
            )
        } else {
            prepend(
                seq![kept_option(code, rdata.subrange(4, 4 + len))],
                parse_options(rdata.skip(4 + len)),
            )
        }
    }
}

/// `first` in front of the options of `rest`, where there are any.
pub open spec fn prepend(
    first: Seq<OptionModel>,
    rest: Result<Seq<OptionModel>, Seq<char>>,
) -> Result<Seq<OptionModel>, Seq<char>> {
    match rest {
        Ok(r) => Ok(first + r),
        Err(t) => Err(t),
    }
}

/// Reading one more option after those already read.
proof fn lemma_parse_step(before: Seq<OptionModel>, rest: Seq<u8>)
    requires
        rest.len() >= 4,
        4 + u16_at(rest, 2) <= rest.len(),
    ensures
        prepend(before, parse_options(rest)) == prepend(
            before.push(kept_option(u16_at(rest, 0), rest.subrange(4, 4 + u16_at(rest, 2)))),
            parse_options(rest.skip(4 + u16_at(rest, 2))),
        ),
{
    let o = kept_option(u16_at(rest, 0), rest.subrange(4, 4 + u16_at(rest, 2)));
    if let Ok(t) = parse_options(rest.skip(4 + u16_at(rest, 2))) {
        assert(before + (seq![o] + t) =~= before.push(o) + t);
    }
}

/// The OPT record at the start of `data`, or why there is none.
pub open spec fn parse_record(data: Seq<u8>) -> Result<OptModel, Seq<char>> {
    let n: nat = data.len();
    if n == 0 || data[0] != 0 {
        Err("OPT record must have empty (root) name"@)
    } else if n < 11 {
        Err("OPT record too short: "@ + dec(n) + " bytes"@)
    } else if u16_at(data, 1) != T_OPT {
        Err("Expected OPT type "@ + dec(41) + ", got "@ + dec(u16_at(data, 1) as nat) + ""@)
    } else {
        let rdlength = u16_at(data, 9);
        if n < 11 + rdlength {
            Err(
                "OPT RDATA truncated: expected "@ + dec(rdlength as nat) + " bytes, got "@ + dec(
                    (n - 11) as nat,
                ) + ""@,
            )
        } else {
            match parse_options(data.subrange(11, 11 + rdlength)) {
                Ok(options) => Ok(
                    OptModel {
                        udp_payload_size: u16_at(data, 3),
                        extended_rcode: data[5],
                        version: data[6],
                        flags: u16_at(data, 7),
                        options,
                    },
                ),
                Err(t) => Err(t),
            }
        }
    }
}

impl OptModel {
    /// The record on the wire.
    pub open spec fn wire(self) -> Seq<u8> {
        let rdata = options_wire(self.options);
        seq![0u8] + be_bytes(T_OPT as nat, 2) + be_bytes(self.udp_payload_size as nat, 2) + seq![
            self.extended_rcode,
            self.version,
        ] + be_bytes(self.flags as nat, 2) + be_bytes((rdata.len() as u16) as nat, 2) + rdata
    }
}

/// True when the DNSSEC OK bit is set in `flags`.
pub open spec fn do_bit(flags: u16) -> bool {
    flags & EDNS_DO_BIT != 0
}

impl OptRecord {
    /// A record with the default payload size and nothing else.
    pub fn new() -> (r: Self)
        ensures
            r@ == (OptModel {
                udp_payload_size: DEFAULT_UDP_PAYLOAD,
                extended_rcode: 0,
                version: EDNS_VERSION,
                flags: 0,
                options: Seq::empty(),
            }),
    {
        let r = OptRecord {
            udp_payload_size: DEFAULT_UDP_PAYLOAD,
            extended_rcode: 0,
            version: EDNS_VERSION,
            flags: 0,
            options: Vec::new(),
        };
        assert(r@.options =~= Seq::empty());
        r
    }

    /// True when the DNSSEC OK bit is set.
    pub fn has_do_bit(&self) -> (r: bool)
        ensures
            r == do_bit(self.flags),
    {
        self.flags & EDNS_DO_BIT != 0
    }

    /// Sets or clears the DNSSEC OK bit and leaves everything else as it is.
    pub fn set_do_bit(&mut self, value: bool)
        ensures
            do_bit(final(self).flags) == value,
            final(self).flags & 0x7fff == old(self).flags & 0x7fff,
            final(self)@ == (OptModel { flags: final(self).flags, ..old(self)@ }),
    {
        let f: u16 = self.flags;
        assert((f | 0x8000u16) & 0x8000u16 != 0 && (f | 0x8000u16) & 0x7fffu16 == f & 0x7fffu16
            && (f & 0x7fffu16) & 0x8000u16 == 0 && (f & 0x7fffu16) & 0x7fffu16 == f & 0x7fffu16)
            by (bit_vector);
        if value {
            self.flags = f | EDNS_DO_BIT;
        } else {
            self.flags = f & 0x7fff;
        }
    }

    /// Appends an option.
    pub fn add_option(&mut self, option: Edns0Option)
        ensures
            final(self)@ == (OptModel { options: old(self)@.options.push(option@), ..old(self)@ }),
    {
        self.options.push(option);
        assert(self@.options =~= old(self)@.options.push(option@));
    }

    /// The length of the record on the wire.
    pub fn wire_size(&self) -> (r: usize)
        requires
            self@.wire().len() <= usize::MAX,
        ensures
            r == self@.wire().len(),
    {
        let ghost models = self@.options;
        proof {
            lemma_be2(T_OPT);
            lemma_be2(self.udp_payload_size);
            lemma_be2(self.flags);
            lemma_be2(options_wire(models).len() as u16);
            assert(models.skip(0) =~= models);
        }
        let mut size: usize = 11;
        let mut i: usize = 0;
        while i < self.options.len()
            invariant
                models == option_models(self.options@),
                i <= self.options@.len(),
                size + options_wire(models.skip(i as int)).len() == self@.wire().len(),
                self@.wire().len() <= usize::MAX,
            decreases self.options@.len() - i,
        {
            let option = &self.options[i];
            proof {
                assert(models.skip(i as int)[0] == option@);
                assert(models.skip(i as int).skip(1) =~= models.skip(i + 1));
                lemma_be2(option@.code());
                lemma_be2(option@.data().len() as u16);
            }
            if !matches!(option, Edns0Option::DnssecOk) {
                size = size + 4 + option.data_len();
            }
            i = i + 1;
        }
        size
    }

    /// The record on the wire.
    pub fn to_wire_format(&self) -> (r: Result<Vec<u8>, DnsmasqError>)
        ensures
            r matches Ok(v) && v@ == self@.wire(),
    {
        let ghost models = self@.options;
        assert(models.skip(0) =~= models);
        let mut rdata: Vec<u8> = Vec::new();
        let mut i: usize = 0;
        while i < self.options.len()
            invariant
                models == option_models(self.options@),
                i <= self.options@.len(),
                rdata@ + options_wire(models.skip(i as int)) =~= options_wire(models),
            decreases self.options@.len() - i,
        {
            let option = &self.options[i];
            proof {
                assert(models.skip(i as int)[0] == option@);
                assert(models.skip(i as int).skip(1) =~= models.skip(i + 1));
            }
            if !matches!(option, Edns0Option::DnssecOk) {
                put_u16(&mut rdata, option.code());
                match option.to_wire_format() {
                    Ok(data) => {
                        put_u16(&mut rdata, data.len() as u16);
                        put_slice(&mut rdata, data.as_slice());
                    },
                    Err(e) => {
                        return Err(e);
                    },
                }
            }
            i = i + 1;
        }
        assert(rdata@ =~= options_wire(models));
        let mut buf: Vec<u8> = Vec::new();
        buf.push(0);
        put_u16(&mut buf, T_OPT);
        put_u16(&mut buf, self.udp_payload_size);
        buf.push(self.extended_rcode);
        buf.push(self.version);
        put_u16(&mut buf, self.flags);
        put_u16(&mut buf, rdata.len() as u16);
        put_slice(&mut buf, rdata.as_slice());
        assert(buf@ =~= self@.wire());
        Ok(buf)
    }

    /// The OPT record at the start of `data` and the number of bytes that it takes up.
    pub fn from_wire_format(data: &[u8]) -> (r: Result<(Self, usize), DnsmasqError>)
        ensures
            match (r, parse_record(data@)) {
                (Ok(p), Ok(m)) => p.0@ == m && p.1 == 11 + u16_at(data@, 9),
                (Err(e), Err(t)) => e.is_edns0(t),
                _ => false,
            },
    {
        let n: usize = data.len();
        if n == 0 || data[0] != 0 {
            return Err(edns0_failed(String::from_str("OPT record must have empty (root) name")));
        }
        if n < 11 {
            return Err(edns0_failed(message1("OPT record too short: ", n as u64, " bytes")));
        }
        let rr_type: u16 = read_u16(data, 1);
        if rr_type != T_OPT {
            return Err(
                edns0_failed(message2("Expected OPT type ", 41, ", got ", rr_type as u64, "")),
            );
        }
        let rdlength: usize = read_u16(data, 9) as usize;
        if n - 11 < rdlength {
            return Err(
                edns0_failed(
                    message2(
                        "OPT RDATA truncated: expected ",
                        rdlength as u64,
                        " bytes, got ",
                        (n - 11) as u64,
                        "",
                    ),
                ),
            );
        }
        let end: usize = 11 + rdlength;
        let ghost rdata = data@.subrange(11, end as int);
        let mut options: Vec<Edns0Option> = Vec::new();
        let mut offset: usize = 11;
        assert(data@.subrange(11, end as int) =~= rdata);
        proof {
            assert(prepend(option_models(options@), parse_options(rdata)) == parse_options(rdata))
                by {
                if parse_options(rdata) is Ok {
                    assert(option_models(options@) + parse_options(rdata)->Ok_0
                        =~= parse_options(rdata)->Ok_0);
                }
            }
        }
        while offset < end
            invariant
                11 <= offset <= end <= n == data@.len(),
                rdata == data@.subrange(11, end as int),
                prepend(
                    option_models(options@),
                    parse_options(data@.subrange(offset as int, end as int)),
                ) == parse_options(rdata),
                data@[0] == 0,
                u16_at(data@, 1) == T_OPT,
                end == 11 + u16_at(data@, 9),
            decreases end - offset,
        {
            let ghost rest = data@.subrange(offset as int, end as int);
            if end - offset < 4 {
                return Err(edns0_failed(String::from_str("Truncated EDNS0 option header")));
            }
            let code: u16 = read_u16(data, offset);
            let len: usize = read_u16(data, offset + 2) as usize;
            assert(code == u16_at(rest, 0) && len == u16_at(rest, 2));
            if end - offset - 4 < len {
                return Err(
                    edns0_failed(
                        message3(
                            "EDNS0 option ",
                            code as u64,
                            " data truncated: expected ",
                            len as u64,
                            " bytes, got ",
                            (end - offset - 4) as u64,
                        ),
                    ),
                );
            }
            let option_data = copy_range(data, offset + 4, offset + 4 + len);
            assert(option_data@ =~= rest.subrange(4, 4 + len));
            let ghost before = option_models(options@);
            let option = Edns0Option::keep(code, option_data);
            options.push(option);
            offset = offset + 4 + len;
            proof {
                assert(rest.skip(4 + len) =~= data@.subrange(offset as int, end as int));
                assert(option_models(options@) =~= before.push(option@));
                lemma_parse_step(before, rest);
            }
        }
        proof {
            assert(data@.subrange(offset as int, end as int) =~= Seq::empty());
            assert(option_models(options@) + Seq::empty() =~= option_models(options@));
        }
        let record = OptRecord {
            udp_payload_size: read_u16(data, 3),
            extended_rcode: data[5],
            version: data[6],
            flags: read_u16(data, 7),
            options,
        };
        Ok((record, offset))
    }
}

impl Default for OptRecord {
    fn default() -> (r: Self)
        ensures
            r@ == (OptModel {
                udp_payload_size: DEFAULT_UDP_PAYLOAD,
                extended_rcode: 0,
                version: EDNS_VERSION,
                flags: 0,
                options: Seq::empty(),
            }),
    {
        Self::new()
    }
}

impl OptionModel {
    /// True of an option that its own bytes denote: the parts fit together, nothing is set that
    /// is not written, and a code that the library knows is not kept as unknown.
    pub open spec fn canonical(self) -> bool {
        match self {
            OptionModel::ClientSubnet { family, source_netmask, address, .. } => {
                let octets = address.spec_octets();
                let kept = significant(octets, source_netmask);
                &&& family == if address is V4 {
                    1u16
                } else {
                    2u16
                }
                &&& kept + zeros((octets.len() - kept.len()) as nat) == octets
            },
            OptionModel::DnssecOk => false,
            OptionModel::Cookie { client, server } => client.len() == 8 && (server matches Some(s)
                ==> 8 <= s.len() <= 32),
            OptionModel::Mac { octets } => octets.len() == 6,
            OptionModel::Unknown { code, .. } => !known_code(code),
            _ => true,
        }
    }
}

/// True of the option codes that have a meaning here.
pub open spec fn known_code(code: u16) -> bool {
    code == EDNS0_OPTION_CLIENT_SUBNET || code == EDNS0_OPTION_COOKIE || code == EDNS0_OPTION_EDE
        || code == EDNS0_OPTION_PADDING || code == EDNS0_OPTION_MAC || code
        == EDNS0_OPTION_NOMDEVICEID || code == EDNS0_OPTION_NOMCPEID || code
        == EDNS0_OPTION_UMBRELLA
}

/// Reading back the code and data of an option gives the option.
pub proof fn law_option_roundtrip(option: OptionModel)
    requires
        option.canonical(),
    ensures
        parse_option(option.code(), option.data()) == Ok::<OptionModel, Seq<char>>(option),
{
    let data = option.data();
    match option {
        OptionModel::ClientSubnet { family, source_netmask, scope_netmask, address } => {
            let octets = address.spec_octets();
            let kept = significant(octets, source_netmask);
            address.lemma_octets_len();
            lemma_be2(family);
            assert(data.skip(4) =~= kept);
            assert(u16_at(data, 0) == family);
            reveal_with_fuel(crate::wire::pow256, 17);
            match address {
                IpAddr::V4(a) => {
                    crate::wire::lemma_be_nat_of_bytes(a.bits as nat, 4);
                },
                IpAddr::V6(a) => {
                    crate::wire::lemma_be_nat_of_bytes(a.bits as nat, 16);
                },
            }
        },
        OptionModel::Cookie { client, server } => {
            if let Some(s) = server {
                assert(data.take(8) =~= client);
                assert(data.skip(8) =~= s);
            }
        },
        OptionModel::ExtendedError { info_code, extra_text } => {
            lemma_be2(info_code);
            vstd::utf8::encode_utf8_valid_utf8(extra_text);
            vstd::utf8::encode_utf8_decode_utf8(extra_text);
            assert(data.skip(2) =~= encode_utf8(extra_text));
        },
        _ => {},
    }
}

/// An option whose code has no meaning here comes back from the wire with its code and data
/// unchanged.
pub proof fn law_unknown_option_preserved(code: u16, data: Seq<u8>)
    requires
        !known_code(code),
    ensures
        kept_option(code, data) == (OptionModel::Unknown { code, data }),
        kept_option(code, data).code() == code,
        kept_option(code, data).data() == data,
{
}

/// The options of a list that are written.
pub open spec fn written(options: Seq<OptionModel>) -> Seq<OptionModel>
    decreases options.len(),
{
    if options.len() == 0 {
        Seq::empty()
    } else if options[0] is DnssecOk {
        written(options.skip(1))
    } else {
        seq![options[0]] + written(options.skip(1))
    }
}

/// True when every option that is written can be read back and fits its length field.
pub open spec fn writable(options: Seq<OptionModel>) -> bool {
    forall|i: int|
        0 <= i < options.len() ==> #[trigger] options[i] is DnssecOk || (options[i].canonical()
            && options[i].data().len() <= 0xffff)
}

proof fn lemma_options_roundtrip(options: Seq<OptionModel>)
    requires
        writable(options),
    ensures
        parse_options(options_wire(options)) == Ok::<Seq<OptionModel>, Seq<char>>(
            written(options),
        ),
    decreases options.len(),
{
    if options.len() > 0 {
        let tail = options.skip(1);
        assert(writable(tail)) by {
            assert forall|i: int| 0 <= i < tail.len() implies #[trigger] tail[i] is DnssecOk || (
            tail[i].canonical() && tail[i].data().len() <= 0xffff) by {
                assert(tail[i] == options[i + 1]);
            }
        }
        lemma_options_roundtrip(tail);
        let first = options[0];
        let wire = options_wire(options);
        if first is DnssecOk {
            assert(wire =~= options_wire(tail));
        } else {
            let data = first.data();
            lemma_be2(first.code());
            lemma_be2(data.len() as u16);
            law_option_roundtrip(first);
            assert(u16_at(wire, 0) == first.code());
            assert(u16_at(wire, 2) == data.len());
            assert(wire.subrange(4, 4 + data.len() as int) =~= data);
            assert(wire.skip(4 + data.len() as int) =~= options_wire(tail));
        }
    }
}

/// Reading back a written record gives the record, less any mark for the DNSSEC OK bit among its
/// options (the bit itself is in the flags), and consumes exactly what was written.
pub proof fn law_record_roundtrip(record: OptModel, rest: Seq<u8>)
    requires
        writable(record.options),
        options_wire(record.options).len() <= 0xffff,
    ensures
        parse_record(record.wire() + rest) == Ok::<OptModel, Seq<char>>(
            OptModel { options: written(record.options), ..record },
        ),
        11 + u16_at(record.wire() + rest, 9) == record.wire().len(),
{
    let rdata = options_wire(record.options);
    let data = record.wire() + rest;
    lemma_be2(T_OPT);
    lemma_be2(record.udp_payload_size);
    lemma_be2(record.flags);
    lemma_be2(rdata.len() as u16);
    lemma_options_roundtrip(record.options);
    assert(data[0] == 0);
    assert(u16_at(data, 1) == T_OPT);
    assert(u16_at(data, 3) == record.udp_payload_size);
    assert(u16_at(data, 7) == record.flags);
    assert(u16_at(data, 9) == rdata.len());
    assert(data.subrange(11, 11 + rdata.len() as int) =~= rdata);
}

/// True of the bytes of an additional record that is an OPT record: they start with the one byte
/// of the root name and then the type.
pub open spec fn is_opt(rr: Seq<u8>) -> bool {
    rr.len() >= 3 && u16_at(rr, 1) == T_OPT
}

/// Finds, adds and checks OPT records and their options.
#[derive(Debug, Clone)]
pub struct Edns0Handler {
    /// Whether options that identify a device are taken from local sources only.
    pub check_source: bool,
}

/// True of an option that identifies a device.
pub open spec fn identifies_device(option: OptionModel) -> bool {
    option is Mac || option is NomDeviceId || option is NomCpeId || option is Umbrella
}

/// True of an option that is taken from a source: with the check on, options that identify a device
/// are taken from local addresses only.
pub open spec fn taken(check: bool, option: OptionModel, source: IpAddr) -> bool {
    !check || !identifies_device(option) || source.spec_is_local()
}

/// True of a netmask that is no longer than the address.
pub open spec fn netmask_fits(address: IpAddr, netmask: u8) -> bool {
    match address {
        IpAddr::V4(_) => netmask <= 32,
        IpAddr::V6(_) => netmask <= 128,
    }
}

/// The payload size that a builder keeps of one that it is given.
pub open spec fn kept_size(size: u16) -> u16 {
    if size < MAX_UDP_PAYLOAD {
        size
    } else {
        MAX_UDP_PAYLOAD
    }
}

/// The payload size that a record is built with.
pub open spec fn built_size(size: u16) -> u16 {
    if size < 512 {
        DEFAULT_UDP_PAYLOAD
    } else {
        size
    }
}

/// The client subnet option for an address: the family follows the address and the scope is zero.
pub open spec fn subnet_option(address: IpAddr, source_netmask: u8) -> OptionModel {
    OptionModel::ClientSubnet {
        family: if address is V4 {
            1
        } else {
            2
        },
        source_netmask,
        scope_netmask: 0,
        address,
    }
}

impl Edns0Handler {
    /// A handler that takes every option from every source.
    pub fn new() -> (r: Self)
        ensures
            !r.check_source,
    {
        Edns0Handler { check_source: false }
    }

    /// The position of the first OPT record among the additional records.
    pub fn find_opt_record(&self, additional: &[Vec<u8>]) -> (r: Option<usize>)
        ensures
            match r {
                Some(i) => i < additional@.len() && is_opt(additional@[i as int]@) && forall|j: int|
                    0 <= j < i ==> !is_opt((#[trigger] additional@[j])@),
                None => forall|j: int|
                    0 <= j < additional@.len() ==> !is_opt((#[trigger] additional@[j])@),
            },
    {
        let mut i: usize = 0;
        while i < additional.len()
            invariant
                i <= additional@.len(),
                forall|j: int| 0 <= j < i ==> !is_opt((#[trigger] additional@[j])@),
            decreases additional@.len() - i,
        {
            let rr = &additional[i];
            if rr.len() >= 3 && read_u16(rr.as_slice(), 1) == T_OPT {
                return Some(i);
            }
            i = i + 1;
        }
        None
    }

    /// Appends a record to the additional records and returns its position.
    pub fn add_opt_record(&self, additional: &mut Vec<Vec<u8>>, opt_record: OptRecord) -> (r: Result<
        usize,
        DnsmasqError,
    >)
        ensures
            r == Ok::<usize, DnsmasqError>(old(additional)@.len() as usize),
            final(additional)@.len() == old(additional)@.len() + 1,
            final(additional)@.drop_last() == old(additional)@,
            final(additional)@.last()@ == opt_record@.wire(),
    {
        match opt_record.to_wire_format() {
            Ok(wire) => {
                let at: usize = additional.len();
                additional.push(wire);
                assert(additional@.drop_last() =~= old(additional)@);
                Ok(at)
            },
            Err(e) => Err(e),
        }
    }

    /// Sets the DNSSEC OK bit of a record.
    pub fn set_do_bit(&self, opt_record: &mut OptRecord)
        ensures
            do_bit(final(opt_record).flags),
            final(opt_record).flags & 0x7fff == old(opt_record).flags & 0x7fff,
            final(opt_record)@ == (OptModel { flags: final(opt_record).flags, ..old(opt_record)@ }),
    {
        opt_record.set_do_bit(true);
    }

    /// Appends a client subnet option; a netmask longer than the address is an error and leaves
    /// the record as it is.
    pub fn add_client_subnet(
        &self,
        opt_record: &mut OptRecord,
        address: IpAddr,
        source_netmask: u8,
    ) -> (r: Result<(), DnsmasqError>)
        ensures
            r is Ok <==> netmask_fits(address, source_netmask),
            match r {
                Ok(_) => final(opt_record)@ == (OptModel {
                    options: old(opt_record)@.options.push(subnet_option(address, source_netmask)),
                    ..old(opt_record)@
                }),
                Err(e) => *final(opt_record) == *old(opt_record) && e.is_edns0(
                    if address is V4 {
                        "Invalid IPv4 netmask: "@
                    } else {
                        "Invalid IPv6 netmask: "@
                    } + dec(source_netmask as nat) + ""@,
                ),
            },
    {
        let family: u16 = match address {
            IpAddr::V4(_) => {
                if source_netmask > 32 {
                    return Err(
                        edns0_failed(message1("Invalid IPv4 netmask: ", source_netmask as u64, "")),
                    );
                }
                1
            },
            IpAddr::V6(_) => {
                if source_netmask > 128 {
                    return Err(
                        edns0_failed(message1("Invalid IPv6 netmask: ", source_netmask as u64, "")),
                    );
                }
                2
            },
        };
        opt_record.add_option(
            Edns0Option::ClientSubnet { family, source_netmask, scope_netmask: 0, address },
        );
        Ok(())
    }

    /// Appends an extended error option.
    pub fn add_extended_error(&self, opt_record: &mut OptRecord, info_code: u16, extra_text: &str) -> (r:
        Result<(), DnsmasqError>)
        ensures
            r is Ok,
            final(opt_record)@ == (OptModel {
                options: old(opt_record)@.options.push(
                    OptionModel::ExtendedError { info_code, extra_text: extra_text@ },
                ),
                ..old(opt_record)@
            }),
    {
        opt_record.add_option(
            Edns0Option::ExtendedError { info_code, extra_text: String::from_str(extra_text) },
        );
        Ok(())
    }

    /// Appends a hardware address option.
    pub fn add_mac_option(&self, opt_record: &mut OptRecord, mac: MacAddress) -> (r: Result<
        (),
        DnsmasqError,
    >)
        ensures
            r is Ok,
            final(opt_record)@ == (OptModel {
                options: old(opt_record)@.options.push(OptionModel::Mac { octets: mac.bytes@ }),
                ..old(opt_record)@
            }),
    {
        opt_record.add_option(Edns0Option::Mac { address: mac });
        Ok(())
    }

    /// Tells whether an option is taken from a source: with the check on, options that identify a
    /// device are taken from local addresses only.
    pub fn check_source(&self, option: &Edns0Option, source: &SocketAddr) -> (r: bool)
        ensures
            r == taken(self.check_source, option@, source.ip),
    {
        if !self.check_source {
            return true;
        }
        match option {
            Edns0Option::Mac { .. }
            | Edns0Option::NomDeviceId { .. }
            | Edns0Option::NomCpeId { .. }
            | Edns0Option::Umbrella { .. } => source.ip.is_local(),
            _ => true,
        }
    }
}

impl Default for Edns0Handler {
    fn default() -> (r: Self)
        ensures
            !r.check_source,
    {
        Self::new()
    }
}

/// Builds an OPT record step by step.
#[derive(Debug, Clone)]
pub struct Edns0Builder {
    pub udp_payload_size: u16,
    pub do_bit: bool,
    pub options: Vec<Edns0Option>,
}

impl Edns0Builder {
    /// A builder with the default payload size and nothing else.
    pub fn new() -> (r: Self)
        ensures
            r.udp_payload_size == DEFAULT_UDP_PAYLOAD,
            !r.do_bit,
            r.options@ == Seq::<Edns0Option>::empty(),
    {
        Edns0Builder { udp_payload_size: DEFAULT_UDP_PAYLOAD, do_bit: false, options: Vec::new() }
    }

    /// Sets the payload size, at most the largest that is accepted.
    pub fn udp_size(self, size: u16) -> (r: Self)
        ensures
            r == (Edns0Builder {
                udp_payload_size: kept_size(size),
                ..self
            }),
    {
        Edns0Builder {
            udp_payload_size: if size < MAX_UDP_PAYLOAD {
                size
            } else {
                MAX_UDP_PAYLOAD
            },
            do_bit: self.do_bit,
            options: self.options,
        }
    }

    /// Sets or clears the DNSSEC OK bit.
    pub fn do_bit(self, value: bool) -> (r: Self)
        ensures
            r == (Edns0Builder { do_bit: value, ..self }),
    {
        Edns0Builder {
            udp_payload_size: self.udp_payload_size,
            do_bit: value,
            options: self.options,
        }
    }

    fn with_option(self, option: Edns0Option) -> (r: Self)
        ensures
            r.udp_payload_size == self.udp_payload_size,
            r.do_bit == self.do_bit,
            r.options@ == self.options@.push(option),
    {
        let mut options = self.options;
        options.push(option);
        Edns0Builder { udp_payload_size: self.udp_payload_size, do_bit: self.do_bit, options }
    }

    /// Appends a client subnet option.
    pub fn client_subnet(self, address: IpAddr, source_netmask: u8) -> (r: Self)
        ensures
            r.udp_payload_size == self.udp_payload_size,
            r.do_bit == self.do_bit,
            option_models(r.options@) == option_models(self.options@).push(
                subnet_option(address, source_netmask),
            ),
    {
        let family: u16 = if address.is_ipv4() {
            1
        } else {
            2
        };
        let r = self.with_option(
            Edns0Option::ClientSubnet { family, source_netmask, scope_netmask: 0, address },
        );
        assert(option_models(r.options@) =~= option_models(self.options@).push(
            subnet_option(address, source_netmask),
        ));
        r
    }

    /// Appends an extended error option.
    pub fn extended_error(self, info_code: u16, extra_text: &str) -> (r: Self)
        ensures
            r.udp_payload_size == self.udp_payload_size,
            r.do_bit == self.do_bit,
            option_models(r.options@) == option_models(self.options@).push(
                OptionModel::ExtendedError { info_code, extra_text: extra_text@ },
            ),
    {
        let r = self.with_option(
            Edns0Option::ExtendedError { info_code, extra_text: String::from_str(extra_text) },
        );
        assert(option_models(r.options@) =~= option_models(self.options@).push(
            OptionModel::ExtendedError { info_code, extra_text: extra_text@ },
        ));
        r
    }

    /// Appends a hardware address option.
    pub fn mac(self, mac: MacAddress) -> (r: Self)
        ensures
            r.udp_payload_size == self.udp_payload_size,
            r.do_bit == self.do_bit,
            option_models(r.options@) == option_models(self.options@).push(
                OptionModel::Mac { octets: mac.bytes@ },
            ),
    {
        let r = self.with_option(Edns0Option::Mac { address: mac });
        assert(option_models(r.options@) =~= option_models(self.options@).push(
            OptionModel::Mac { octets: mac.bytes@ },
        ));
        r
    }

    /// The record. A payload size below the minimum of 512 gives way to the default.
    pub fn build(self) -> (r: Result<OptRecord, DnsmasqError>)
        ensures
            r matches Ok(opt) && opt@ == (OptModel {
                udp_payload_size: built_size(self.udp_payload_size),
                extended_rcode: 0,
                version: EDNS_VERSION,
                flags: if self.do_bit {
                    EDNS_DO_BIT
                } else {
                    0
                },
                options: option_models(self.options@),
            }),
    {
        Ok(
            OptRecord {
                udp_payload_size: if self.udp_payload_size < 512 {
                    DEFAULT_UDP_PAYLOAD
                } else {
                    self.udp_payload_size
                },
                extended_rcode: 0,
                version: EDNS_VERSION,
                flags: if self.do_bit {
                    EDNS_DO_BIT
                } else {
                    0
                },
                options: self.options,
            },
        )
    }
}

impl Default for Edns0Builder {
    fn default() -> (r: Self)
        ensures
            r.udp_payload_size == DEFAULT_UDP_PAYLOAD,
            !r.do_bit,
            r.options@ == Seq::<Edns0Option>::empty(),
    {
        Self::new()
    }
}

/// The assigned numbers of the options, of the record and of its parts.
pub proof fn law_option_numbers(m: OptionModel)
    ensures
        m is ClientSubnet ==> m.code() == 8,
        m is Cookie ==> m.code() == 10,
        m is Padding ==> m.code() == 12,
        m is ExtendedError ==> m.code() == 15,
        m is Mac ==> m.code() == 65001,
        m is NomDeviceId ==> m.code() == 65073,
        m is NomCpeId ==> m.code() == 65074,
        m is Umbrella ==> m.code() == 20292,
        T_OPT == 41,
        EDNS_VERSION == 0,
        EDE_STALE == 3,
        EDE_DNSSEC_BOGUS == 6,
{
}

/// The DNSSEC OK bit is the highest of the sixteen flags.
pub proof fn law_do_bit(flags: u16)
    ensures
        do_bit(flags) <==> flags >= 0x8000,
{
    assert((flags & 0x8000u16 != 0) == (flags >= 0x8000u16)) by (bit_vector);
}

/// A payload size over 4096 is kept as 4096; one below 512 gives way to 1232; others stay.
pub proof fn law_payload_sizes(size: u16)
    ensures
        size >= 4096 ==> built_size(kept_size(size)) == 4096,
        size < 512 ==> built_size(kept_size(size)) == 1232,
        512 <= size < 4096 ==> built_size(kept_size(size)) == size,
{
}

/// A client subnet is two bytes of family, two netmasks, and as many bytes of the address as the
/// netmask reaches into.
pub proof fn law_client_subnet_layout(
    family: u16,
    source_netmask: u8,
    scope_netmask: u8,
    address: IpAddr,
)
    ensures
        ({
            let data = (OptionModel::ClientSubnet {
                family,
                source_netmask,
                scope_netmask,
                address,
            }).data();
            let octets = address.spec_octets();
            &&& data.len() >= 4
            &&& u16_at(data, 0) == family
            &&& data[2] == source_netmask
            &&& data[3] == scope_netmask
            &&& data.len() - 4 <= octets.len()
            &&& data.skip(4) == octets.take(data.len() - 4)
            &&& 8 * (data.len() - 4) <= source_netmask + 7
            &&& 8 * (data.len() - 4) >= source_netmask || data.len() - 4 == octets.len()
        }),
{
    let data = (OptionModel::ClientSubnet { family, source_netmask, scope_netmask, address }).data();
    let octets = address.spec_octets();
    lemma_be2(family);
    assert(data.subrange(0, 2) =~= be_bytes(family as nat, 2));
    crate::wire::lemma_u16_field(data, 0, family);
    assert(data.skip(4) =~= octets.take(data.len() - 4));
}

/// A client subnet is read where its family is 1 with at most four bytes of an address, or 2 with at
/// most sixteen; the bytes that are left out are zero. Anything else is refused.
pub proof fn law_client_subnet_read(data: Seq<u8>)
    ensures
        parse_client_subnet(data) is Ok <==> 4 <= data.len() && (u16_at(data, 0) == 1 && data.len()
            <= 8 || u16_at(data, 0) == 2 && data.len() <= 20),
        parse_client_subnet(data) matches Ok(m) ==> (m matches OptionModel::ClientSubnet {
            family,
            source_netmask,
            scope_netmask,
            address,
        } && family == u16_at(data, 0) && source_netmask == data[2] && scope_netmask == data[3]
            && (address is V4 <==> family == 1) && data.len() - 4 <= address.spec_octets().len()
            && address.spec_octets().take(data.len() - 4) == data.skip(4) && (forall|i: int|
            data.len() - 4 <= i < address.spec_octets().len() ==> #[trigger] address.spec_octets()[i]
                == 0)),
{
    if let Ok(m) = parse_client_subnet(data) {
        let n = data.len();
        let width: nat = if u16_at(data, 0) == 1 {
            4
        } else {
            16
        };
        let all = data.skip(4) + zeros((width + 4 - n) as nat);
        assert(all.len() == width);
        crate::wire::lemma_be_bytes_of_nat(all);
        reveal_with_fuel(crate::wire::pow256, 17);
        assert(all.take(n - 4) =~= data.skip(4));
    }
}

/// A cookie is read where it has eight bytes of the client and, if anything more, eight to
/// thirty-two of the server.
pub proof fn law_cookie(data: Seq<u8>)
    ensures
        data.len() == 8 ==> parse_cookie(data) == Ok::<OptionModel, Seq<char>>(
            OptionModel::Cookie { client: data, server: None },
        ),
        16 <= data.len() <= 40 ==> parse_cookie(data) == Ok::<OptionModel, Seq<char>>(
            OptionModel::Cookie { client: data.take(8), server: Some(data.skip(8)) },
        ),
        data.len() < 8 || 8 < data.len() < 16 || data.len() > 40 ==> parse_cookie(data) is Err,
{
}

/// An extended error is two bytes of code and then text; less is refused. A hardware address is six
/// bytes and nothing else.
pub proof fn law_small_options(data: Seq<u8>, code: u16, text: Seq<char>)
    ensures
        data.len() < 2 ==> parse_extended_error(data) is Err,
        data.len() >= 2 && u16_at(data, 0) == code && data.skip(2) == encode_utf8(text)
            ==> parse_extended_error(data) == Ok::<OptionModel, Seq<char>>(
            OptionModel::ExtendedError { info_code: code, extra_text: text },
        ),
        data.len() == 6 ==> parse_mac(data) == Ok::<OptionModel, Seq<char>>(
            OptionModel::Mac { octets: data },
        ),
        data.len() != 6 ==> parse_mac(data) is Err,
{
    vstd::utf8::encode_utf8_valid_utf8(text);
    vstd::utf8::encode_utf8_decode_utf8(text);
}

/// What option data is read as, by the number of the option.
pub proof fn law_options_by_number(data: Seq<u8>)
    ensures
        parse_option(8, data) == parse_client_subnet(data),
        parse_option(10, data) == parse_cookie(data),
        parse_option(15, data) == parse_extended_error(data),
        parse_option(65001, data) == parse_mac(data),
        parse_option(12, data) == Ok::<OptionModel, Seq<char>>(
            OptionModel::Padding { length: data.len() },
        ),
        parse_option(65073, data) == Ok::<OptionModel, Seq<char>>(
            OptionModel::NomDeviceId { device_id: data },
        ),
        parse_option(65074, data) == Ok::<OptionModel, Seq<char>>(
            OptionModel::NomCpeId { cpe_id: data },
        ),
        parse_option(20292, data) == Ok::<OptionModel, Seq<char>>(
            OptionModel::Umbrella { device_id: data },
        ),
{
}

/// An option whose data does not fit its number is kept as it came.
pub proof fn law_unreadable_option_preserved(code: u16, data: Seq<u8>)
    requires
        parse_option(code, data) is Err,
    ensures
        kept_option(code, data) == (OptionModel::Unknown { code, data }),
{
}

/// A record starts with a zero byte and then has its type, payload size, extended code, version,
/// flags and the length of its options at fixed places.
pub proof fn law_record_layout(record: OptModel)
    requires
        options_wire(record.options).len() <= 0xffff,
    ensures
        ({
            let w = record.wire();
            &&& w.len() == 11 + options_wire(record.options).len()
            &&& w[0] == 0
            &&& u16_at(w, 1) == 41
            &&& u16_at(w, 3) == record.udp_payload_size
            &&& w[5] == record.extended_rcode
            &&& w[6] == record.version
            &&& u16_at(w, 7) == record.flags
            &&& u16_at(w, 9) == options_wire(record.options).len()
            &&& w.skip(11) == options_wire(record.options)
        }),
{
    let w = record.wire();
    let n = options_wire(record.options).len() as u16;
    lemma_be2(T_OPT);
    lemma_be2(record.udp_payload_size);
    lemma_be2(record.flags);
    lemma_be2(n);
    assert(w.subrange(1, 3) =~= be_bytes(41, 2));
    assert(w.subrange(3, 5) =~= be_bytes(record.udp_payload_size as nat, 2));
    assert(w.subrange(7, 9) =~= be_bytes(record.flags as nat, 2));
    assert(w.subrange(9, 11) =~= be_bytes(n as nat, 2));
    crate::wire::lemma_u16_field(w, 1, 41);
    crate::wire::lemma_u16_field(w, 3, record.udp_payload_size);
    crate::wire::lemma_u16_field(w, 7, record.flags);
    crate::wire::lemma_u16_field(w, 9, n);
    assert(w.skip(11) =~= options_wire(record.options));
}

/// An option is two bytes of number, two of length, and its data. The mark for the DNSSEC OK bit is
/// not written.
pub proof fn law_option_layout(option: OptionModel, rest: Seq<OptionModel>)
    requires
        option.data().len() <= 0xffff,
    ensures
        options_wire(Seq::empty()).len() == 0,
        options_wire(seq![option] + rest) == option.wire() + options_wire(rest),
        option is DnssecOk ==> option.wire().len() == 0,
        !(option is DnssecOk) ==> option.wire().len() == 4 + option.data().len() && u16_at(
            option.wire(),
            0,
        ) == option.code() && u16_at(option.wire(), 2) == option.data().len() && option.wire().skip(4)
            == option.data(),
{
    let all = seq![option] + rest;
    assert(all[0] == option && all.skip(1) =~= rest);
    if !(option is DnssecOk) {
        let w = option.wire();
        let n = option.data().len() as u16;
        lemma_be2(option.code());
        lemma_be2(n);
        assert(w.subrange(0, 2) =~= be_bytes(option.code() as nat, 2));
        assert(w.subrange(2, 4) =~= be_bytes(n as nat, 2));
        crate::wire::lemma_u16_field(w, 0, option.code());
        crate::wire::lemma_u16_field(w, 2, n);
        assert(w.skip(4) =~= option.data());
    }
}

/// A record is refused where it has a name, where it is shorter than eleven bytes, where it is of
/// another type, and where its options are cut short.
pub proof fn law_records_refused(data: Seq<u8>)
    ensures
        data.len() < 11 ==> parse_record(data) is Err,
        data.len() > 0 && data[0] != 0 ==> parse_record(data) is Err,
        data.len() >= 11 && u16_at(data, 1) != 41 ==> parse_record(data) is Err,
        data.len() >= 11 && data.len() < 11 + u16_at(data, 9) ==> parse_record(data) is Err,
        0 < data.len() < 4 ==> parse_options(data) is Err,
        data.len() >= 4 && 4 + u16_at(data, 2) > data.len() ==> parse_options(data) is Err,
{
}

/// An additional record is an OPT record where a one-byte name is followed by the type 41.
pub proof fn law_is_opt(rr: Seq<u8>)
    ensures
        is_opt(rr) <==> rr.len() >= 3 && rr[1] == 0 && rr[2] == 41,
{
}

/// Without the check every option is taken. With it, hardware addresses and the identifiers of
/// devices are taken from local addresses only, and all others from anywhere.
pub proof fn law_sources(option: OptionModel, source: IpAddr)
    ensures
        taken(false, option, source),
        source.spec_is_local() ==> taken(true, option, source),
        !source.spec_is_local() && (option is Mac || option is NomDeviceId || option is NomCpeId
            || option is Umbrella) ==> !taken(true, option, source),
        option is ClientSubnet || option is DnssecOk || option is Cookie || option is ExtendedError
            || option is Padding || option is Unknown ==> taken(true, option, source),
{
}

/// The subnet of a client is of family 1 for an IPv4 address, with a netmask of at most 32, and of
/// family 2 for an IPv6 address, with one of at most 128; its scope is zero.
pub proof fn law_subnet_option(a: Ipv4Addr, b: Ipv6Addr, netmask: u8)
    ensures
        subnet_option(IpAddr::V4(a), netmask) == (OptionModel::ClientSubnet {
            family: 1,
            source_netmask: netmask,
            scope_netmask: 0,
            address: IpAddr::V4(a),
        }),
        subnet_option(IpAddr::V6(b), netmask) == (OptionModel::ClientSubnet {
            family: 2,
            source_netmask: netmask,
            scope_netmask: 0,
            address: IpAddr::V6(b),
        }),
        netmask_fits(IpAddr::V4(a), netmask) <==> netmask < 33,
        netmask_fits(IpAddr::V6(b), netmask) <==> netmask < 129,
{
}

/// The description of an option starts with the name of its kind and tells its parts.
pub proof fn law_descriptions(option: OptionModel)
    ensures
        option matches OptionModel::ClientSubnet { family, source_netmask, scope_netmask, address }
            ==> option.description() == "CLIENT-SUBNET: family="@ + dec(family as nat) + " source="@
            + dec(source_netmask as nat) + " scope="@ + dec(scope_netmask as nat) + " addr="@
            + ip_text(address),
        option matches OptionModel::Cookie { client, server: None } ==> option.description()
            == "COOKIE: client="@ + list_text(client),
        option matches OptionModel::Cookie { client, server: Some(s) } ==> option.description()
            == "COOKIE: client="@ + list_text(client) + " server="@ + list_text(s),
        option matches OptionModel::ExtendedError { info_code, extra_text } ==> option.description()
            == "EDE: code="@ + dec(info_code as nat) + " text='"@ + extra_text + "'"@,
        option matches OptionModel::Padding { length } ==> option.description() == "PADDING: "@ + dec(
            length,
        ) + " bytes"@,
        option matches OptionModel::Mac { octets } ==> option.description() == "MAC: "@ + colon_hex(
            octets,
        ),
        option matches OptionModel::Unknown { code, data } ==> option.description() == "UNKNOWN("@
            + dec(code as nat) + "): "@ + dec(data.len()) + " bytes"@,
        option is DnssecOk ==> option.description() == "DNSSEC-OK"@,
{
}

} // verus!
