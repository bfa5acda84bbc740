use dnsmasq::clock::Timestamp;
use dnsmasq::dhcp::v6::constants::{
    MSG_ADVERTISE, MSG_CONFIRM, MSG_DECLINE, MSG_INFORMATION_REQUEST, MSG_REBIND, MSG_RELEASE, MSG_RENEW,
    MSG_REPLY, MSG_REQUEST, MSG_SOLICIT, OPTION_CLIENT_ID, OPTION_DNS_SERVER, OPTION_DOMAIN_SEARCH,
    OPTION_IA_NA, OPTION_IA_PD, OPTION_IA_TA, OPTION_NTP_SERVER, OPTION_RAPID_COMMIT, OPTION_SERVER_ID,
    OPTION_STATUS_CODE, STATUS_NOADDRS, STATUS_NOBINDING, STATUS_NOPREFIXAVAIL, STATUS_NOTONLINK,
    STATUS_SUCCESS, STATUS_UNSPEC, STATUS_USEMULTICAST,
};
use dnsmasq::dhcp::v6::message::DhcpV6Message;
use dnsmasq::dhcp::v6::pool::Lease;
use dnsmasq::dhcp::v6::protocol::{
    encode_dns_name, parse_iaaddr_from_options, DhcpConfig, DhcpContext, DhcpV6StateMachine, Outcome,
    RequestContext, StatusCode,
};
use dnsmasq::error::DhcpError;
use dnsmasq::types::{IpAddr, Ipv4Addr, Ipv6Addr};

#[test]
fn test_status_code_to_u16() {
    assert_eq!(StatusCode::Success.to_u16(), STATUS_SUCCESS);
    assert_eq!(StatusCode::NoAddrsAvail.to_u16(), STATUS_NOADDRS);
    assert_eq!(StatusCode::NoBinding.to_u16(), STATUS_NOBINDING);
    assert_eq!(StatusCode::NotOnLink.to_u16(), STATUS_NOTONLINK);
    assert_eq!(StatusCode::UseMulticast.to_u16(), STATUS_USEMULTICAST);
    assert_eq!(StatusCode::NoPrefixAvail.to_u16(), STATUS_NOPREFIXAVAIL);
}

#[test]
fn test_request_context_creation() {
    let clid = vec![0x00, 0x01, 0x00, 0x01, 0x29, 0xf3, 0xa4, 0x32];
    let txid = [0x12, 0x34, 0x56];

    let ctx = RequestContext::new(clid.clone(), txid, "eth0", 0x12345678, OPTION_IA_NA, true);

    assert_eq!(ctx.clid, clid);
    assert_eq!(ctx.clid_len, clid.len());
    assert_eq!(ctx.transaction_id, txid);
    assert_eq!(ctx.interface, "eth0");
    assert_eq!(ctx.iaid, 0x12345678);
    assert_eq!(ctx.ia_type, OPTION_IA_NA);
    assert!(ctx.multicast_dest);
}

#[test]
fn test_status_code_messages() {
    assert_eq!(StatusCode::Success.message(), "Success");
    assert_eq!(StatusCode::NoAddrsAvail.message(), "No addresses available");
    assert_eq!(StatusCode::NoBinding.message(), "Client binding not found");
}

#[test]
fn test_status_code_unspec_fail() {
    assert_eq!(StatusCode::UnspecFail.to_u16(), STATUS_UNSPEC);
    assert_eq!(StatusCode::UnspecFail.message(), "Unspecified failure");
}

#[test]
fn test_status_code_not_on_link() {
    assert_eq!(StatusCode::NotOnLink.to_u16(), STATUS_NOTONLINK);
    assert_eq!(StatusCode::NotOnLink.message(), "Address not on link");
}

#[test]
fn test_status_code_use_multicast() {
    assert_eq!(StatusCode::UseMulticast.to_u16(), STATUS_USEMULTICAST);
    assert_eq!(StatusCode::UseMulticast.message(), "Use multicast");
}

#[test]
fn test_status_code_no_prefix_avail() {
    assert_eq!(StatusCode::NoPrefixAvail.to_u16(), STATUS_NOPREFIXAVAIL);
    assert_eq!(StatusCode::NoPrefixAvail.message(), "No prefixes available");
}

#[test]
fn test_request_context_with_hostname() {
    let clid = vec![0x00, 0x01];
    let txid = [0x11, 0x22, 0x33];

    let ctx = RequestContext::new(clid.clone(), txid, "eth1", 0x1234, OPTION_IA_NA, false)
        .with_hostname(Some("testhost.local".to_string()));

    assert_eq!(ctx.client_hostname, Some("testhost.local".to_string()));
    assert_eq!(ctx.interface, "eth1");
    assert!(!ctx.multicast_dest);
}

#[test]
fn test_request_context_with_context() {
    let clid = vec![0x00, 0x03, 0x00, 0x01];
    let txid = [0xAA, 0xBB, 0xCC];

    let dhcp_ctx = DhcpContext {
        start6: IpAddr::V6(Ipv6Addr::new(0xfe80, 0, 0, 0, 0, 0, 0, 1)),
        flags: 0,
        if_index: 1,
        lease_time: 3600,
        ..DhcpContext::default()
    };

    let ctx = RequestContext::new(clid, txid, "eth0", 0x9999, OPTION_IA_PD, true)
        .with_context(Some(dhcp_ctx.clone()));

    assert_eq!(ctx.ia_type, OPTION_IA_PD);
    assert!(ctx.context.is_some());
}

#[test]
fn test_request_context_ia_types() {
    let clid = vec![0x00, 0x01];
    let txid = [0x00, 0x00, 0x00];

    let ctx_na = RequestContext::new(clid.clone(), txid, "eth0", 0x1111, OPTION_IA_NA, true);
    assert_eq!(ctx_na.ia_type, OPTION_IA_NA);

    let ctx_ta = RequestContext::new(clid.clone(), txid, "eth0", 0x2222, OPTION_IA_TA, true);
    assert_eq!(ctx_ta.ia_type, OPTION_IA_TA);

    let ctx_pd = RequestContext::new(clid, txid, "eth0", 0x3333, OPTION_IA_PD, true);
    assert_eq!(ctx_pd.ia_type, OPTION_IA_PD);
}

#[test]
fn test_request_context_clid_len() {
    let short_clid = vec![0x00, 0x01];
    let ctx_short =
        RequestContext::new(short_clid.clone(), [0, 0, 0], "eth0", 0, OPTION_IA_NA, true);
    assert_eq!(ctx_short.clid_len, 2);

    let long_clid = vec![0u8; 128];
    let ctx_long =
        RequestContext::new(long_clid.clone(), [0, 0, 0], "eth0", 0, OPTION_IA_NA, true);
    assert_eq!(ctx_long.clid_len, 128);
}

#[test]
fn test_request_context_transaction_id() {
    let clid = vec![0x00, 0x01];
    let txid1 = [0x12, 0x34, 0x56];
    let txid2 = [0xFF, 0xEE, 0xDD];

    let ctx1 = RequestContext::new(clid.clone(), txid1, "eth0", 0, OPTION_IA_NA, true);
    let ctx2 = RequestContext::new(clid, txid2, "eth0", 0, OPTION_IA_NA, true);

    assert_eq!(ctx1.transaction_id, txid1);
    assert_eq!(ctx2.transaction_id, txid2);
    assert_ne!(ctx1.transaction_id, ctx2.transaction_id);
}

#[test]
fn test_validate_duid_llt_valid() {
    let server_duid = vec![
        0x00, 0x01, 0x00, 0x01, 0x00, 0x00, 0x00, 0x00, 0xAA, 0xBB, 0xCC, 0xDD, 0xEE, 0xFF,
    ];
    let state_machine = DhcpV6StateMachine::new(DhcpConfig::new(3600), server_duid);

    let duid_llt = vec![
        0x00, 0x01, // DUID-LLT
        0x00, 0x01, // Ethernet
        0x12, 0x34, 0x56, 0x78, // time
        0xAA, 0xBB, 0xCC, 0xDD, 0xEE, 0xFF, // hardware address
    ];

    assert!(state_machine.validate_duid(&duid_llt).is_ok());
}

#[test]
fn test_validate_duid_en_valid() {
    let server_duid = vec![0x00, 0x02, 0x00, 0x00, 0x09, 0x12, 0x01, 0x02, 0x03];
    let state_machine = DhcpV6StateMachine::new(DhcpConfig::new(3600), server_duid);

    let duid_en = vec![
        0x00, 0x02, // DUID-EN
        0x00, 0x00, 0x09, 0x12, // enterprise number
        0x01, 0x02, 0x03, // identifier
    ];

    assert!(state_machine.validate_duid(&duid_en).is_ok());
}

#[test]
fn test_validate_duid_ll_valid() {
    let server_duid = vec![0x00, 0x03, 0x00, 0x01, 0xAA, 0xBB, 0xCC, 0xDD, 0xEE, 0xFF];
    let state_machine = DhcpV6StateMachine::new(DhcpConfig::new(3600), server_duid);

    let duid_ll = vec![
        0x00, 0x03, // DUID-LL
        0x00, 0x01, // Ethernet
        0xAA, 0xBB, 0xCC, 0xDD, 0xEE, 0xFF, // hardware address
    ];

    assert!(state_machine.validate_duid(&duid_ll).is_ok());
}

#[test]
fn test_validate_duid_too_short() {
    let server_duid = vec![0x00, 0x01];
    let state_machine = DhcpV6StateMachine::new(DhcpConfig::new(3600), server_duid);

    let duid_short = vec![0x00];

    let result = state_machine.validate_duid(&duid_short);
    assert!(result.is_err());
    if let Err(e) = result {
        assert!(format!("{:?}", e).contains("too short") || format!("{:?}", e).contains("Invalid"));
    }
}

#[test]
fn test_validate_duid_too_long() {
    let server_duid = vec![0x00, 0x01];
    let state_machine = DhcpV6StateMachine::new(DhcpConfig::new(3600), server_duid);

    let duid_long = vec![0u8; 129];

    let result = state_machine.validate_duid(&duid_long);
    assert!(result.is_err());
}

#[test]
fn test_validate_duid_invalid_type() {
    let server_duid = vec![0x00, 0x01];
    let state_machine = DhcpV6StateMachine::new(DhcpConfig::new(3600), server_duid);

    let duid_invalid = vec![
        0x00, 0xFF, // no such type
        0x00, 0x01, 0xAA, 0xBB,
    ];

    let result = state_machine.validate_duid(&duid_invalid);
    assert!(result.is_err());
}

#[test]
fn test_state_machine_creation() {
    let server_duid = vec![0x00, 0x03, 0x00, 0x01, 0xAA, 0xBB, 0xCC, 0xDD, 0xEE, 0xFF];
    let state_machine = DhcpV6StateMachine::new(DhcpConfig::new(3600), server_duid.clone());
    assert_eq!(state_machine.server_duid, server_duid);
}

fn reason_of<T>(r: Result<T, DhcpError>) -> String {
    match r {
        Err(DhcpError::V6ProtocolError { reason }) => reason,
        _ => panic!("expected a protocol error"),
    }
}

#[test]
fn faults_of_identifiers() {
    let m = machine();
    assert_eq!(reason_of(m.validate_duid(&[])), "DUID too short");
    assert_eq!(reason_of(m.validate_duid(&[0; 129])), "DUID too long (max 128 bytes)");
    assert_eq!(reason_of(m.validate_duid(&[0, 1, 0])), "DUID-LLT too short (min 8 bytes)");
    assert_eq!(reason_of(m.validate_duid(&[0, 2, 0])), "DUID-EN too short (min 6 bytes)");
    assert_eq!(reason_of(m.validate_duid(&[0, 3, 0])), "DUID-LL too short (min 4 bytes)");
    assert_eq!(reason_of(m.validate_duid(&[1, 0, 0])), "Invalid DUID type: 256");
}

const SERVER: [u8; 4] = [0, 3, 0, 1];
const CLIENT: [u8; 4] = [0, 3, 9, 9];

fn address(last: u16) -> IpAddr {
    IpAddr::V6(Ipv6Addr::new(0x2001, 0xdb8, 0, 0, 0, 0, 0, last))
}

fn octets(last: u8) -> Vec<u8> {
    vec![0x20, 0x01, 0x0d, 0xb8, 0, 0, 0, 0, 0, 0, 0, 0, 0, 0, 0, last]
}

fn machine() -> DhcpV6StateMachine {
    DhcpV6StateMachine::new(DhcpConfig::new(600), SERVER.to_vec())
}

fn context() -> DhcpContext {
    DhcpContext { start6: address(1), end6: Some(address(3)), ..DhcpContext::default() }
}

fn request() -> RequestContext {
    RequestContext::new(CLIENT.to_vec(), [1, 2, 3], "eth0", 0x0a0b0c0d, OPTION_IA_NA, true)
        .with_context(Some(context()))
}

fn association(addresses: &[u8]) -> Vec<u8> {
    let mut data = vec![0x0a, 0x0b, 0x0c, 0x0d, 0, 0, 0, 0, 0, 0, 0, 0];
    for a in addresses {
        data.extend_from_slice(&[0, 5, 0, 24]);
        data.extend_from_slice(&octets(*a));
        data.extend_from_slice(&[0; 8]);
    }
    data
}

fn message(kind: u8, server: Option<&[u8]>, addresses: &[u8]) -> DhcpV6Message {
    let mut m = DhcpV6Message::new(kind, [1, 2, 3]);
    m.add_option(OPTION_CLIENT_ID, CLIENT.to_vec());
    if let Some(s) = server {
        m.add_option(OPTION_SERVER_ID, s.to_vec());
    }
    m.add_option(OPTION_IA_NA, association(addresses));
    m
}

fn lease(last: u16, client: &[u8]) -> Lease {
    Lease {
        ip: address(last),
        client_id: Some(client.to_vec()),
        expires: Timestamp { nanos: 5_000_000_000 },
    }
}

fn status_of(o: Result<Outcome, DhcpError>) -> Vec<u8> {
    match o {
        Ok(Outcome::Reply(m)) => {
            check_echo(&m, MSG_REPLY);
            m.get_option(OPTION_STATUS_CODE).unwrap().to_vec()
        }
        _ => panic!("expected a reply"),
    }
}

fn check_echo(m: &DhcpV6Message, kind: u8) {
    assert_eq!(m.message_type(), kind);
    assert_eq!(m.transaction_id(), &[1, 2, 3]);
    assert_eq!(m.get_option(OPTION_SERVER_ID).unwrap(), &SERVER);
    assert_eq!(m.get_option(OPTION_CLIENT_ID).unwrap(), &CLIENT);
}

fn status(code: u8, words: &str) -> Vec<u8> {
    let mut v = vec![0, code];
    v.extend_from_slice(words.as_bytes());
    v
}

#[test]
fn a_search_is_offered_the_first_free_address() {
    let m = machine();
    let leases = vec![lease(1, &[7]), lease(2, &[8])];
    let msg = message(MSG_SOLICIT, None, &[]);
    match m.handle_solicit(&request(), &msg, &leases) {
        Ok(Outcome::Reply(offer)) => {
            check_echo(&offer, MSG_ADVERTISE);
            let mut want = vec![0x0a, 0x0b, 0x0c, 0x0d, 0, 0, 2, 0x58, 0, 0, 2, 0x58, 0, 5, 0, 24];
            want.extend_from_slice(&octets(3));
            want.extend_from_slice(&[0, 0, 2, 0x58, 0, 0, 2, 0x58]);
            assert_eq!(offer.get_option(OPTION_IA_NA).unwrap(), want.as_slice());
        }
        _ => panic!("expected an offer"),
    }
}

#[test]
fn a_search_can_fail() {
    let m = machine();
    let msg = message(MSG_SOLICIT, None, &[]);
    let all = vec![lease(1, &[7]), lease(3, &[7]), lease(2, &[8])];
    assert_eq!(
        reason_of(m.handle_solicit(&request(), &msg, &all)),
        "No addresses available in pool"
    );
    let lost = request().with_context(None);
    assert_eq!(
        reason_of(m.handle_solicit(&lost, &msg, &vec![])),
        "No address pool configured for interface"
    );
    let nameless = DhcpV6Message::new(MSG_SOLICIT, [1, 2, 3]);
    match m.handle_solicit(&request(), &nameless, &vec![]) {
        Err(DhcpError::MissingOption(name)) => assert_eq!(name, "CLIENT_ID"),
        _ => panic!("expected a missing option"),
    }
}

#[test]
fn a_search_with_rapid_commit_gets_a_lease() {
    let m = machine();
    let mut msg = message(MSG_SOLICIT, None, &[]);
    msg.add_option(OPTION_RAPID_COMMIT, vec![]);
    match m.handle_solicit(&request(), &msg, &vec![lease(1, &[7])]) {
        Ok(Outcome::Allocate { address: a, rapid_commit }) => {
            assert_eq!(a, address(2));
            assert!(rapid_commit);
        }
        _ => panic!("expected a lease"),
    }
}

#[test]
fn a_pool_without_an_end_has_one_address() {
    let m = machine();
    let one = DhcpContext { start6: address(1), ..DhcpContext::default() };
    let ctx = request().with_context(Some(one));
    let msg = message(MSG_SOLICIT, None, &[]);
    assert_eq!(
        reason_of(m.handle_solicit(&ctx, &msg, &vec![lease(1, &[7])])),
        "No addresses available in pool"
    );
    assert!(one.contains(&address(1)));
    assert!(!one.contains(&address(2)));
    let v4 = DhcpContext {
        start6: IpAddr::V4(Ipv4Addr::new(10, 0, 0, 1)),
        ..DhcpContext::default()
    };
    assert_eq!(v4.find_available(&vec![]), Some(IpAddr::V4(Ipv4Addr::new(10, 0, 0, 1))));
}

#[test]
fn a_request_leads_to_a_lease() {
    let m = machine();
    let msg = message(MSG_REQUEST, Some(&SERVER), &[2]);
    match m.handle_request(&request(), &msg) {
        Ok(Outcome::Allocate { address: a, rapid_commit }) => {
            assert_eq!(a, address(2));
            assert!(!rapid_commit);
        }
        _ => panic!("expected a lease"),
    }
}

#[test]
fn a_request_can_be_refused() {
    let m = machine();
    let ctx = request();
    assert_eq!(
        reason_of(m.handle_request(&ctx, &message(MSG_REQUEST, Some(&[1]), &[2]))),
        "Server ID does not match this server"
    );
    assert_eq!(
        reason_of(m.handle_request(&ctx, &message(MSG_REQUEST, None, &[2]))),
        "No SERVER_ID in REQUEST"
    );
    let mut bare = message(MSG_REQUEST, Some(&SERVER), &[]);
    bare.remove_option(OPTION_IA_NA);
    assert_eq!(reason_of(m.handle_request(&ctx, &bare)), "No IA_NA in REQUEST");
    bare.add_option(OPTION_IA_NA, vec![0; 11]);
    assert_eq!(reason_of(m.handle_request(&ctx, &bare)), "Malformed IA_NA option");
    assert_eq!(
        reason_of(m.handle_request(&ctx, &message(MSG_REQUEST, Some(&SERVER), &[]))),
        "No IAADDR found in IA_NA"
    );
    let lost = request().with_context(None);
    assert_eq!(
        reason_of(m.handle_request(&lost, &message(MSG_REQUEST, Some(&SERVER), &[2]))),
        "No matching address pool"
    );
    assert_eq!(
        reason_of(m.handle_request(&ctx, &message(MSG_REQUEST, Some(&SERVER), &[9]))),
        "Address 2001:db8::9 not in pool"
    );
}

#[test]
fn a_granted_lease_is_answered() {
    let m = machine();
    let now = Timestamp { nanos: 1_000_000_000 };
    let long = Lease {
        ip: address(2),
        client_id: None,
        expires: Timestamp { nanos: 1_002_500_000_000 },
    };
    let reply = m
        .build_reply_with_address(&request(), &long, StatusCode::Success, false, now)
        .unwrap();
    check_echo(&reply, MSG_REPLY);
    assert_eq!(reply.get_option(OPTION_STATUS_CODE).unwrap(), status(0, "Success"));
    assert!(reply.get_option(OPTION_RAPID_COMMIT).is_none());
    // 1001 seconds are left: half of them is 500, four fifths are 800.
    let mut want = vec![0x0a, 0x0b, 0x0c, 0x0d, 0, 0, 1, 0xf4, 0, 0, 3, 0x20, 0, 5, 0, 24];
    want.extend_from_slice(&octets(2));
    want.extend_from_slice(&[0, 0, 3, 0xe9, 0, 0, 3, 0xe9]);
    assert_eq!(reply.get_option(OPTION_IA_NA).unwrap(), want.as_slice());
}

#[test]
fn an_ended_lease_counts_as_an_hour() {
    let m = machine();
    let now = Timestamp { nanos: 9_000_000_000 };
    let reply = m
        .build_reply_with_address(&request(), &lease(2, &CLIENT), StatusCode::NoBinding, true, now)
        .unwrap();
    assert_eq!(reply.get_option(OPTION_STATUS_CODE).unwrap(), status(3, "Client binding not found"));
    let none: [u8; 0] = [];
    assert_eq!(reply.get_option(OPTION_RAPID_COMMIT).unwrap(), &none);
    let data = reply.get_option(OPTION_IA_NA).unwrap();
    assert_eq!(&data[4..12], &[0, 0, 7, 8, 0, 0, 11, 64]);
}

#[test]
fn a_renewal_extends_the_clients_lease() {
    let m = machine();
    let msg = message(MSG_RENEW, Some(&SERVER), &[2]);
    match m.handle_renew(&request(), &msg, &vec![lease(2, &CLIENT)]) {
        Ok(Outcome::Renew(a)) => assert_eq!(a, address(2)),
        _ => panic!("expected a renewal"),
    }
    let unbound = status(3, "Client binding not found");
    assert_eq!(status_of(m.handle_renew(&request(), &msg, &vec![])), unbound);
    assert_eq!(status_of(m.handle_renew(&request(), &msg, &vec![lease(2, &[5])])), unbound);
    let outside = message(MSG_RENEW, Some(&SERVER), &[9]);
    assert_eq!(status_of(m.handle_renew(&request(), &outside, &vec![lease(9, &CLIENT)])), unbound);
    assert_eq!(
        reason_of(m.handle_renew(&request(), &message(MSG_RENEW, Some(&[1]), &[2]), &vec![])),
        "Server ID mismatch"
    );
    assert_eq!(
        reason_of(m.handle_renew(&request(), &message(MSG_RENEW, None, &[2]), &vec![])),
        "No SERVER_ID in RENEW"
    );
    let mut bare = message(MSG_RENEW, Some(&SERVER), &[]);
    bare.remove_option(OPTION_IA_NA);
    assert_eq!(reason_of(m.handle_renew(&request(), &bare, &vec![])), "No IA_NA in RENEW");
}

#[test]
fn a_rebinding_extends_or_makes_a_lease() {
    let m = machine();
    let msg = message(MSG_REBIND, None, &[2]);
    match m.handle_rebind(&request(), &msg, &vec![lease(2, &CLIENT)]) {
        Ok(Outcome::Renew(a)) => assert_eq!(a, address(2)),
        _ => panic!("expected a renewal"),
    }
    match m.handle_rebind(&request(), &msg, &vec![]) {
        Ok(Outcome::Allocate { address: a, rapid_commit }) => {
            assert_eq!(a, address(2));
            assert!(!rapid_commit);
        }
        _ => panic!("expected a lease"),
    }
    assert_eq!(
        status_of(m.handle_rebind(&request(), &msg, &vec![lease(2, &[5])])),
        status(3, "Client binding not found")
    );
    let off_link = status(4, "Address not on link");
    let outside = message(MSG_REBIND, None, &[9]);
    assert_eq!(status_of(m.handle_rebind(&request(), &outside, &vec![])), off_link);
    let lost = request().with_context(None);
    assert_eq!(status_of(m.handle_rebind(&lost, &msg, &vec![])), off_link);
    let mut bare = message(MSG_REBIND, None, &[]);
    bare.remove_option(OPTION_IA_NA);
    assert_eq!(reason_of(m.handle_rebind(&request(), &bare, &vec![])), "No IA_NA in REBIND");
}

#[test]
fn leases_are_given_back() {
    let m = machine();
    let release = message(MSG_RELEASE, Some(&SERVER), &[2]);
    match m.handle_release(&request(), &release, &vec![lease(2, &CLIENT)]) {
        Ok(Outcome::Release(a)) => assert_eq!(a, address(2)),
        _ => panic!("expected a release"),
    }
    let fine = status(0, "Success");
    let unbound = status(3, "Client binding not found");
    assert_eq!(status_of(m.handle_release(&request(), &release, &vec![])), fine);
    assert_eq!(status_of(m.handle_release(&request(), &release, &vec![lease(2, &[5])])), unbound);
    assert_eq!(
        reason_of(m.handle_release(&request(), &message(MSG_RELEASE, None, &[2]), &vec![])),
        "No SERVER_ID in RELEASE"
    );
    let mut bare = message(MSG_RELEASE, Some(&SERVER), &[]);
    bare.remove_option(OPTION_IA_NA);
    assert_eq!(reason_of(m.handle_release(&request(), &bare, &vec![])), "No IA_NA in RELEASE");

    let decline = message(MSG_DECLINE, Some(&SERVER), &[2]);
    match m.handle_decline(&request(), &decline, &vec![lease(2, &CLIENT)]) {
        Ok(Outcome::Decline(a)) => assert_eq!(a, address(2)),
        _ => panic!("expected a decline"),
    }
    assert_eq!(status_of(m.handle_decline(&request(), &decline, &vec![])), fine);
    assert_eq!(status_of(m.handle_decline(&request(), &decline, &vec![lease(2, &[5])])), unbound);
    assert_eq!(
        reason_of(m.handle_decline(&request(), &message(MSG_DECLINE, None, &[2]), &vec![])),
        "No SERVER_ID in DECLINE"
    );
    bare.add_option(OPTION_SERVER_ID, vec![1]);
    assert_eq!(reason_of(m.handle_decline(&request(), &bare, &vec![])), "Server ID mismatch");
}

#[test]
fn all_confirmed_addresses_must_be_on_the_link() {
    let m = machine();
    let answer = |ctx: &RequestContext, addresses: &[u8]| {
        let reply = m.handle_confirm(ctx, &message(MSG_CONFIRM, None, addresses)).unwrap();
        check_echo(&reply, MSG_REPLY);
        assert!(reply.get_option(OPTION_IA_NA).is_none());
        reply.get_option(OPTION_STATUS_CODE).unwrap().to_vec()
    };
    let fine = status(0, "Success");
    let off_link = status(4, "Address not on link");
    assert_eq!(answer(&request(), &[1]), fine);
    assert_eq!(answer(&request(), &[1, 3]), fine);
    assert_eq!(answer(&request(), &[1, 9]), off_link);
    assert_eq!(answer(&request().with_context(None), &[1]), off_link);
    assert_eq!(
        reason_of(m.handle_confirm(&request(), &message(MSG_CONFIRM, None, &[]))),
        "No IAADDR found in IA_NA"
    );
    assert_eq!(
        reason_of(m.handle_confirm(&request(), &DhcpV6Message::new(MSG_CONFIRM, [0; 3]))),
        "No IA_NA in CONFIRM"
    );
}

#[test]
fn configuration_is_handed_out() {
    let mut m = machine();
    let msg = message(MSG_INFORMATION_REQUEST, None, &[]);
    let bare = m.handle_information_request(&request(), &msg).unwrap();
    check_echo(&bare, MSG_REPLY);
    assert_eq!(bare.options().len(), 2);

    m.config.dns_servers = vec![Ipv6Addr::new(0x2001, 0xdb8, 0, 0, 0, 0, 0, 7)];
    m.config.ntp_servers = vec![Ipv6Addr::new(0x2001, 0xdb8, 0, 0, 0, 0, 0, 8)];
    m.config.domain_search = vec!["a.bc".to_string(), "".to_string()];
    let full = m.handle_information_request(&request(), &msg).unwrap();
    check_echo(&full, MSG_REPLY);
    assert_eq!(full.get_option(OPTION_DNS_SERVER).unwrap(), octets(7).as_slice());
    assert_eq!(full.get_option(OPTION_NTP_SERVER).unwrap(), octets(8).as_slice());
    assert_eq!(
        full.get_option(OPTION_DOMAIN_SEARCH).unwrap(),
        &[1, b'a', 2, b'b', b'c', 0, 0]
    );

    m.config.domain_search = vec!["x".repeat(64)];
    assert_eq!(
        reason_of(m.handle_information_request(&request(), &msg)),
        "DNS label too long: 64 bytes (max 63)"
    );
}

#[test]
fn messages_for_clients_are_refused() {
    let m = machine();
    let msg = message(MSG_ADVERTISE, None, &[]);
    assert_eq!(
        reason_of(m.handle_advertise(&request(), &msg)),
        "Server should not receive ADVERTISE messages"
    );
    assert_eq!(
        reason_of(m.handle_reply(&request(), &msg)),
        "Server should not receive REPLY messages"
    );
}

#[test]
fn status_of_requests() {
    let m = machine();
    assert_eq!(m.generate_status_code(&request(), None, true), StatusCode::UseMulticast);
    let lost = request().with_context(None);
    assert_eq!(m.generate_status_code(&lost, None, false), StatusCode::NoAddrsAvail);
    assert_eq!(m.generate_status_code(&request(), None, false), StatusCode::Success);
    let (inside, outside) = (address(3), address(4));
    assert_eq!(m.generate_status_code(&request(), Some(&inside), false), StatusCode::Success);
    assert_eq!(m.generate_status_code(&request(), Some(&outside), false), StatusCode::NotOnLink);
}

#[test]
fn addresses_of_associations() {
    let mut data = vec![0, 13, 0, 2, 0, 0];
    data.extend_from_slice(&association(&[5])[12..]);
    assert_eq!(parse_iaaddr_from_options(&data).unwrap(), address(5));
    assert_eq!(reason_of(parse_iaaddr_from_options(&[0, 5, 0, 24, 1])), "Malformed IA option");
    assert_eq!(reason_of(parse_iaaddr_from_options(&[0, 5, 0, 1, 1])), "IAADDR too short");
    assert_eq!(reason_of(parse_iaaddr_from_options(&[0, 5, 0])), "No IAADDR found in IA_NA");
}

#[test]
fn names_in_wire_form() {
    let mut out = vec![9];
    encode_dns_name("example.com.", &mut out).unwrap();
    assert_eq!(out, b"\x09\x07example\x03com\x00".to_vec());
    let mut root = vec![];
    encode_dns_name("", &mut root).unwrap();
    assert_eq!(root, vec![0]);
    let mut cut = vec![];
    let long = format!("ab.{}", "y".repeat(70));
    assert_eq!(
        reason_of(encode_dns_name(&long, &mut cut)),
        "DNS label too long: 70 bytes (max 63)"
    );
    assert_eq!(cut, vec![2, b'a', b'b']);
}

#[test]
fn requests_are_completed() {
    let m = machine();
    let now = Timestamp { nanos: 1_000_000_000 };
    let done = |o: Outcome, l: Option<&Lease>| m.complete(&request(), o, l, now).unwrap();
    for o in [Outcome::Release(address(2)), Outcome::Decline(address(2))] {
        let reply = done(o, None);
        check_echo(&reply, MSG_REPLY);
        assert_eq!(reply.get_option(OPTION_STATUS_CODE).unwrap(), status(0, "Success"));
        assert!(reply.get_option(OPTION_IA_NA).is_none());
    }
    let l = lease(2, &CLIENT);
    let renewed = done(Outcome::Renew(address(2)), Some(&l));
    check_echo(&renewed, MSG_REPLY);
    assert_eq!(&renewed.get_option(OPTION_IA_NA).unwrap()[16..32], octets(2).as_slice());
    assert!(renewed.get_option(OPTION_RAPID_COMMIT).is_none());
    let quick = Outcome::Allocate { address: address(2), rapid_commit: true };
    assert!(done(quick, Some(&l)).get_option(OPTION_RAPID_COMMIT).is_some());
    let ready = DhcpV6Message::new(MSG_ADVERTISE, [9, 9, 9]);
    assert_eq!(done(Outcome::Reply(ready.clone()), None), ready);
}

#[test]
fn associations_that_are_cut_short_are_refused() {
    let m = machine();
    let ctx = request();
    let leases = vec![lease(2, &CLIENT)];
    let short = |kind: u8, server: Option<&[u8]>, n: usize| {
        let mut msg = message(kind, server, &[]);
        msg.add_option(OPTION_IA_NA, vec![0; n]);
        msg
    };
    let malformed = "Malformed IA_NA option";
    for n in [0, 4, 11] {
        let own: Option<&[u8]> = Some(&SERVER);
        assert_eq!(reason_of(m.handle_renew(&ctx, &short(MSG_RENEW, own, n), &leases)), malformed);
        assert_eq!(reason_of(m.handle_rebind(&ctx, &short(MSG_REBIND, None, n), &leases)), malformed);
        assert_eq!(reason_of(m.handle_release(&ctx, &short(MSG_RELEASE, own, n), &leases)), malformed);
        assert_eq!(reason_of(m.handle_decline(&ctx, &short(MSG_DECLINE, own, n), &leases)), malformed);
        assert_eq!(reason_of(m.handle_confirm(&ctx, &short(MSG_CONFIRM, None, n))), malformed);
    }
    let whole = short(MSG_RENEW, Some(&SERVER), 12);
    assert_eq!(reason_of(m.handle_renew(&ctx, &whole, &leases)), "No IAADDR found in IA_NA");
    // Whom the message is for is looked at first.
    let foreign = short(MSG_RENEW, Some(&[1]), 3);
    assert_eq!(reason_of(m.handle_renew(&ctx, &foreign, &leases)), "Server ID mismatch");
    let unnamed = short(MSG_RELEASE, None, 3);
    assert_eq!(reason_of(m.handle_release(&ctx, &unnamed, &leases)), "No SERVER_ID in RELEASE");
}
