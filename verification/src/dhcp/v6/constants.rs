//! The numbers of DHCPv6 (RFC 3315, RFC 3633 and related).
use vstd::prelude::*;

verus! {

/// The port that servers and relay agents listen on.
pub const PORT_SERVER: u16 = 547;

/// The port that clients listen on.
pub const PORT_CLIENT: u16 = 546;

/// The multicast address of relay agents and servers on the link, ff02::1:2, by its number.
pub const ALL_RELAY_AGENTS_AND_SERVERS: u128 = 0xff02_0000_0000_0000_0000_0000_0001_0002;

/// The multicast address of the servers of the site, ff05::1:3, by its number.
pub const ALL_SERVERS: u128 = 0xff05_0000_0000_0000_0000_0000_0001_0003;

/// Message type: a client looks for servers.
pub const MSG_SOLICIT: u8 = 1;

/// Message type: a server answers a SOLICIT.
pub const MSG_ADVERTISE: u8 = 2;

/// Message type: a client asks a server for addresses.
pub const MSG_REQUEST: u8 = 3;

/// Message type: a client asks whether its addresses fit the link.
pub const MSG_CONFIRM: u8 = 4;

/// Message type: a client extends its lifetimes with its server.
pub const MSG_RENEW: u8 = 5;

/// Message type: a client extends its lifetimes with any server.
pub const MSG_REBIND: u8 = 6;

/// Message type: a server's answer.
pub const MSG_REPLY: u8 = 7;

/// Message type: a client gives addresses back.
pub const MSG_RELEASE: u8 = 8;

/// Message type: a client found an address in use.
pub const MSG_DECLINE: u8 = 9;

/// Message type: a server calls for a new exchange.
pub const MSG_RECONFIGURE: u8 = 10;

/// Message type: a client asks for configuration only.
pub const MSG_INFORMATION_REQUEST: u8 = 11;

/// Message type: a relay agent forwards to a server.
pub const MSG_RELAY_FORW: u8 = 12;

/// Message type: a server answers through a relay agent.
pub const MSG_RELAY_REPL: u8 = 13;

/// Option: the identifier of the client.
pub const OPTION_CLIENT_ID: u16 = 1;

/// Option: the identifier of the server.
pub const OPTION_SERVER_ID: u16 = 2;

/// Option: an association for lasting addresses.
pub const OPTION_IA_NA: u16 = 3;

/// Option: an association for temporary addresses.
pub const OPTION_IA_TA: u16 = 4;

/// Option: an address of an association.
pub const OPTION_IAADDR: u16 = 5;

/// Option: the options that a client asks for.
pub const OPTION_ORO: u16 = 6;

/// Option: the preference of a server.
pub const OPTION_PREFERENCE: u16 = 7;

/// Option: the time since the exchange began.
pub const OPTION_ELAPSED_TIME: u16 = 8;

/// Option: a status.
pub const OPTION_STATUS_CODE: u16 = 13;

/// Option: an exchange of two messages is wanted.
pub const OPTION_RAPID_COMMIT: u16 = 14;

/// Option: the classes of the user.
pub const OPTION_USER_CLASS: u16 = 15;

/// Option: the classes of the vendor.
pub const OPTION_VENDOR_CLASS: u16 = 16;

/// Option: data of a vendor.
pub const OPTION_VENDOR_OPTS: u16 = 17;

/// Option: the addresses of DNS servers.
pub const OPTION_DNS_SERVER: u16 = 23;

/// Option: the DNS search list.
pub const OPTION_DOMAIN_SEARCH: u16 = 24;

/// Option: an association for delegated prefixes.
pub const OPTION_IA_PD: u16 = 25;

/// Option: a prefix of an association.
pub const OPTION_IAPREFIX: u16 = 26;

/// Option: the addresses of time servers.
pub const OPTION_NTP_SERVER: u16 = 56;

/// Option: the hardware address of the client.
pub const OPTION_CLIENT_MAC: u16 = 79;

/// Option: the name of the client.
pub const OPTION_FQDN: u16 = 39;

/// Part of a time server option: a unicast address.
pub const NTP_SUBOPTION_SRV_ADDR: u16 = 1;

/// Part of a time server option: a multicast address.
pub const NTP_SUBOPTION_MC_ADDR: u16 = 2;

/// Part of a time server option: a name.
pub const NTP_SUBOPTION_SRV_FQDN: u16 = 3;

/// Status: success.
pub const STATUS_SUCCESS: u16 = 0;

/// Status: failure for an unstated reason.
pub const STATUS_UNSPEC: u16 = 1;

/// Status: no addresses are available.
pub const STATUS_NOADDRS: u16 = 2;

/// Status: the server has no such binding.
pub const STATUS_NOBINDING: u16 = 3;

/// Status: the address does not belong on the link of the client.
pub const STATUS_NOTONCLIENT: u16 = 4;

/// Status: the address does not belong on the link.
pub const STATUS_NOTONLINK: u16 = 4;

/// Status: the client must use multicast.
pub const STATUS_USEMULTICAST: u16 = 5;

/// Status: no prefixes are available.
pub const STATUS_NOPREFIXAVAIL: u16 = 6;

/// Identifier type: hardware address and time.
pub const DUID_LLT: u16 = 1;

/// Identifier type: enterprise number.
pub const DUID_EN: u16 = 2;

/// Identifier type: hardware address.
pub const DUID_LL: u16 = 3;

/// Identifier type: UUID.
pub const DUID_UUID: u16 = 4;

/// The numbers that are assigned to the ports, messages, options, statuses and identifiers of DHCPv6.
pub proof fn law_assigned_numbers()
    ensures
        PORT_CLIENT == 546 && PORT_SERVER == 547,
        MSG_SOLICIT == 1 && MSG_ADVERTISE == 2 && MSG_REQUEST == 3 && MSG_CONFIRM == 4 && MSG_RENEW == 5
            && MSG_REBIND == 6 && MSG_REPLY == 7 && MSG_RELEASE == 8 && MSG_DECLINE == 9
            && MSG_RECONFIGURE == 10 && MSG_INFORMATION_REQUEST == 11 && MSG_RELAY_FORW == 12
            && MSG_RELAY_REPL == 13,
        OPTION_CLIENT_ID == 1 && OPTION_SERVER_ID == 2 && OPTION_IA_NA == 3 && OPTION_IA_TA == 4
            && OPTION_IAADDR == 5 && OPTION_ORO == 6 && OPTION_PREFERENCE == 7 && OPTION_ELAPSED_TIME == 8
            && OPTION_STATUS_CODE == 13 && OPTION_RAPID_COMMIT == 14 && OPTION_USER_CLASS == 15
            && OPTION_VENDOR_CLASS == 16 && OPTION_VENDOR_OPTS == 17 && OPTION_DNS_SERVER == 23
            && OPTION_DOMAIN_SEARCH == 24 && OPTION_IA_PD == 25 && OPTION_IAPREFIX == 26 && OPTION_FQDN == 39
            && OPTION_NTP_SERVER == 56 && OPTION_CLIENT_MAC == 79,
        STATUS_SUCCESS == 0 && STATUS_UNSPEC == 1 && STATUS_NOADDRS == 2 && STATUS_NOBINDING == 3
            && STATUS_NOTONLINK == 4 && STATUS_USEMULTICAST == 5 && STATUS_NOPREFIXAVAIL == 6,
        DUID_LLT == 1 && DUID_EN == 2 && DUID_LL == 3 && DUID_UUID == 4,
{
}

} // verus!
