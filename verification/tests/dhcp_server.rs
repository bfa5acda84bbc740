use dnsmasq::clock::Timestamp;
use dnsmasq::dhcp::v6::constants::{
    MSG_CONFIRM, MSG_DECLINE, MSG_INFORMATION_REQUEST, MSG_REBIND, MSG_RELEASE, MSG_RENEW, MSG_REQUEST,
    MSG_SOLICIT, OPTION_CLIENT_ID, OPTION_IA_NA, OPTION_IA_PD,
};
use dnsmasq::dhcp::v6::message::DhcpV6Message;
use dnsmasq::dhcp::v6::pool::{find_by_client, find_by_ip, find_free, Lease};
use dnsmasq::dhcp::v6::protocol::{DhcpConfig, DhcpV6StateMachine, Handler, Outcome};
use dnsmasq::dhcp::v6::server::{
    AddressPool, Allocation, DhcpV6Server, PoolConfig, DEFAULT_LEASE_TIME,
};
use dnsmasq::error::DhcpError;
use dnsmasq::types::{IpAddr, Ipv4Addr, Ipv6Addr, MacAddress};

#[test]
fn test_increment_ipv6_addr() {
    let addr = Ipv6Addr::new(0x2001, 0xdb8, 0, 0, 0, 0, 0, 1);
    let next = DhcpV6Server::increment_ipv6_addr(addr);
    assert_eq!(next, Ipv6Addr::new(0x2001, 0xdb8, 0, 0, 0, 0, 0, 2));

    let addr = Ipv6Addr::new(0x2001, 0xdb8, 0, 0, 0, 0, 0, 0xffff);
    let next = DhcpV6Server::increment_ipv6_addr(addr);
    assert_eq!(next, Ipv6Addr::new(0x2001, 0xdb8, 0, 0, 0, 0, 1, 0));
}

#[test]
fn test_is_address_in_pools() {
    let pool = AddressPool {
        start6: Ipv6Addr::new(0x2001, 0xdb8, 0, 0, 0, 0, 0, 100),
        end6: Ipv6Addr::new(0x2001, 0xdb8, 0, 0, 0, 0, 0, 200),
        ..Default::default()
    };

    let addr_in = Ipv6Addr::new(0x2001, 0xdb8, 0, 0, 0, 0, 0, 150);
    assert!(DhcpV6Server::is_address_in_pools(&addr_in, &[pool.clone()]));

    let addr_out = Ipv6Addr::new(0x2001, 0xdb8, 0, 0, 0, 0, 0, 250);
    assert!(!DhcpV6Server::is_address_in_pools(&addr_out, &[pool]));
}

#[test]
fn the_last_address_is_followed_by_the_first() {
    let last = Ipv6Addr { bits: u128::MAX };
    assert_eq!(DhcpV6Server::increment_ipv6_addr(last), Ipv6Addr { bits: 0 });
}

fn addr(last: u16) -> Ipv6Addr {
    Ipv6Addr::new(0x2001, 0xdb8, 0, 0, 0, 0, 0, last)
}

fn lease(ip: IpAddr, client: u8) -> Lease {
    Lease { ip, client_id: Some(vec![client]), expires: Timestamp { nanos: 0 } }
}

fn pool(interface: Option<&str>, start: u16, end: u16, prefix_len: u8) -> PoolConfig {
    PoolConfig {
        interface: interface.map(|s| s.to_string()),
        pool: AddressPool { start6: addr(start), end6: addr(end), prefix_len },
    }
}

fn server() -> DhcpV6Server {
    let contexts = vec![
        pool(Some("eth0"), 1, 2, 0),
        pool(None, 100, 101, 0),
        pool(Some("eth1"), 50, 50, 0),
        pool(Some("eth0"), 10, 10, 56),
        PoolConfig { interface: Some("eth2".to_string()), pool: AddressPool::default() },
    ];
    DhcpV6Server::index_address_pools(&contexts)
}

fn allocate(
    client: u8,
    interface: &str,
    requested: Option<Ipv6Addr>,
    leases: &Vec<Lease>,
) -> Result<Allocation, DhcpError> {
    server().allocate_address(&[client], 1, interface, requested, leases)
}

#[test]
fn the_first_free_address_is_allocated() {
    let mut leases = vec![];
    assert_eq!(allocate(1, "eth0", None, &leases).unwrap(), Allocation::Free(addr(1)));
    leases.push(lease(IpAddr::V6(addr(1)), 2));
    assert_eq!(allocate(1, "eth0", None, &leases).unwrap(), Allocation::Free(addr(2)));
    leases.push(lease(IpAddr::V6(addr(2)), 3));
    assert_eq!(allocate(1, "eth0", None, &leases).unwrap(), Allocation::Free(addr(10)));
    leases.push(lease(IpAddr::V6(addr(10)), 4));
    assert!(matches!(allocate(1, "eth0", None, &leases), Err(DhcpError::NoAddressesAvailable)));
    assert_eq!(allocate(1, "default", None, &leases).unwrap(), Allocation::Free(addr(100)));
}

#[test]
fn a_client_keeps_its_address() {
    let leases = vec![lease(IpAddr::V6(addr(77)), 1), lease(IpAddr::V6(addr(1)), 2)];
    assert_eq!(allocate(1, "eth0", Some(addr(2)), &leases).unwrap(), Allocation::Existing(addr(77)));
    let v4 = vec![lease(IpAddr::V4(Ipv4Addr::new(10, 0, 0, 1)), 1)];
    assert_eq!(allocate(1, "eth0", None, &v4).unwrap(), Allocation::Free(addr(1)));
}

#[test]
fn a_requested_address_is_allocated_if_free() {
    let none = vec![];
    assert_eq!(allocate(1, "eth0", Some(addr(2)), &none).unwrap(), Allocation::Free(addr(2)));
    assert_eq!(allocate(1, "eth0", Some(addr(9)), &none).unwrap(), Allocation::Free(addr(1)));
    let leases = vec![lease(IpAddr::V6(addr(2)), 3)];
    match allocate(1, "eth0", Some(addr(2)), &leases) {
        Err(DhcpError::AddressInUse(a)) => assert_eq!(a, addr(2)),
        _ => panic!("expected an address in use"),
    }
}

#[test]
fn interfaces_without_pools_have_no_addresses() {
    for interface in ["eth2", "eth9"] {
        match allocate(1, interface, None, &vec![]) {
            Err(DhcpError::NoAddressPool(i)) => assert_eq!(i, interface),
            _ => panic!("expected no pool"),
        }
        match server().handle_prefix_delegation(&[1], 1, interface, None) {
            Err(DhcpError::NoAddressPool(i)) => assert_eq!(i, interface),
            _ => panic!("expected no pool"),
        }
    }
}

#[test]
fn the_first_prefix_is_delegated() {
    let s = server();
    assert_eq!(s.handle_prefix_delegation(&[1], 1, "eth0", None).unwrap(), (addr(10), 56));
    assert!(matches!(
        s.handle_prefix_delegation(&[1], 1, "eth1", None),
        Err(DhcpError::NoPrefixAvailable)
    ));
}

#[test]
fn a_range_can_end_at_the_last_address() {
    let top = Ipv6Addr { bits: u128::MAX };
    let below = Ipv6Addr { bits: u128::MAX - 1 };
    assert_eq!(find_free(&vec![], below, top), Some(below));
    let one = vec![lease(IpAddr::V6(below), 1)];
    assert_eq!(find_free(&one, below, top), Some(top));
    let two = vec![lease(IpAddr::V6(below), 1), lease(IpAddr::V6(top), 1)];
    assert_eq!(find_free(&two, below, top), None);
    assert_eq!(find_free(&vec![], top, below), None);
}

#[test]
fn leases_are_found() {
    let leases = vec![lease(IpAddr::V6(addr(1)), 1), lease(IpAddr::V6(addr(2)), 1)];
    assert_eq!(find_by_client(&leases, &[1]).unwrap().ip, IpAddr::V6(addr(1)));
    assert!(find_by_client(&leases, &[2]).is_none());
    assert!(find_by_ip(&leases, &IpAddr::V6(addr(2))).unwrap().is_held_by(&[1]));
    assert!(find_by_ip(&leases, &IpAddr::V6(addr(3))).is_none());
    let nobody =
        Lease { ip: IpAddr::V6(addr(1)), client_id: None, expires: Timestamp { nanos: 0 } };
    assert!(!nobody.is_held_by(&[]));
}

#[test]
fn the_identifier_of_a_server_is_valid() {
    let mac = MacAddress::from_bytes([1, 2, 3, 4, 5, 6]);
    let duid = DhcpV6Server::generate_server_duid(&mac, 0x0a0b0c0d);
    assert_eq!(duid, vec![0, 1, 0, 1, 0x0a, 0x0b, 0x0c, 0x0d, 1, 2, 3, 4, 5, 6]);
    let machine = DhcpV6StateMachine::new(DhcpConfig::new(1), duid.clone());
    assert!(machine.validate_duid(&duid).is_ok());
}

#[test]
fn packets_are_dispatched() {
    let kinds = [
        (MSG_SOLICIT, Handler::Solicit, true),
        (MSG_REQUEST, Handler::Request, true),
        (MSG_RENEW, Handler::Renew, true),
        (MSG_REBIND, Handler::Rebind, true),
        (MSG_RELEASE, Handler::Release, false),
        (MSG_DECLINE, Handler::Decline, false),
        (MSG_INFORMATION_REQUEST, Handler::InformationRequest, true),
    ];
    for (kind, handler, responds) in kinds {
        let packet = [kind, 1, 2, 3, 0, 1, 0, 1, 9];
        match DhcpV6Server::dispatch(&packet) {
            Ok(Some((h, m))) => {
                assert_eq!(h, handler);
                assert_eq!(h.responds(), responds);
                assert_eq!(m.get_option(OPTION_CLIENT_ID).unwrap(), &[9]);
            }
            _ => panic!("expected a handler"),
        }
    }
    assert!(matches!(
        DhcpV6Server::dispatch(&[MSG_CONFIRM, 1, 2, 3, 0, 1, 0, 1, 9]),
        Ok(None)
    ));
    match DhcpV6Server::dispatch(&[MSG_SOLICIT, 1, 2, 3]) {
        Err(DhcpError::MissingOption(n)) => assert_eq!(n, "CLIENT_ID"),
        _ => panic!("expected a missing option"),
    }
    assert!(matches!(DhcpV6Server::dispatch(&[1]), Err(DhcpError::ParseFailed { .. })));
}

#[test]
fn requests_are_read_from_messages() {
    let mut m = DhcpV6Message::new(MSG_SOLICIT, [1, 2, 3]);
    m.add_option(OPTION_CLIENT_ID, vec![7, 8]);
    m.add_option(OPTION_IA_PD, vec![0, 0, 1, 0, 0, 0, 0, 0]);
    let ctx = server().request_context(&m, "eth0", 4, true);
    assert_eq!(ctx.clid, vec![7, 8]);
    assert_eq!(ctx.clid_len, 2);
    assert_eq!(ctx.transaction_id, [1, 2, 3]);
    assert_eq!(ctx.interface, "eth0");
    assert_eq!((ctx.ia_type, ctx.iaid), (OPTION_IA_PD, 256));
    assert!(ctx.multicast_dest);
    let context = ctx.context.unwrap();
    assert_eq!(context.start6, IpAddr::V6(addr(1)));
    assert_eq!(context.end6, Some(IpAddr::V6(addr(2))));
    assert_eq!(context.if_index, 4);
    assert_eq!(context.lease_time, DEFAULT_LEASE_TIME);

    m.add_option(OPTION_IA_NA, vec![0, 0, 0, 5]);
    let other = server().request_context(&m, "eth9", 4, false);
    assert_eq!((other.ia_type, other.iaid), (OPTION_IA_NA, 5));
    assert!(other.context.is_none());
}

#[test]
fn packets_are_handled() {
    let s = server();
    let machine = DhcpV6StateMachine::new(DhcpConfig::new(600), vec![0, 3, 0, 1]);
    let solicit = [MSG_SOLICIT, 1, 2, 3, 0, 1, 0, 1, 9];
    let (handler, m) = DhcpV6Server::dispatch(&solicit).unwrap().unwrap();
    let ctx = s.request_context(&m, "eth0", 4, true);
    match machine.handle_message(handler, &ctx, &m, &vec![lease(IpAddr::V6(addr(1)), 2)]) {
        Ok(Outcome::Reply(offer)) => {
            assert_eq!(offer.get_option(OPTION_CLIENT_ID).unwrap(), &[9]);
            assert_eq!(&offer.get_option(OPTION_IA_NA).unwrap()[16..32], addr(2).octets().as_slice());
        }
        _ => panic!("expected an offer"),
    }
    let information = [MSG_INFORMATION_REQUEST, 1, 2, 3, 0, 1, 0, 1, 9];
    let (handler, m) = DhcpV6Server::dispatch(&information).unwrap().unwrap();
    let ctx = s.request_context(&m, "eth0", 4, true);
    assert!(matches!(
        machine.handle_message(handler, &ctx, &m, &vec![]),
        Ok(Outcome::Reply(_))
    ));
}

#[test]
fn a_pool_that_ends_before_its_start_has_its_start() {
    let turned = DhcpV6Server::index_address_pools(&vec![pool(Some("eth0"), 9, 3, 0)]);
    let free = turned.allocate_address(&[1], 1, "eth0", None, &vec![]).unwrap();
    assert_eq!(free, Allocation::Free(addr(9)));
    let taken = vec![lease(IpAddr::V6(addr(9)), 2)];
    assert!(matches!(
        turned.allocate_address(&[1], 1, "eth0", None, &taken),
        Err(DhcpError::NoAddressesAvailable)
    ));
    // No address is in such a pool, so a request for one is not met.
    let asked = turned.allocate_address(&[1], 1, "eth0", Some(addr(5)), &vec![]).unwrap();
    assert_eq!(asked, Allocation::Free(addr(9)));
}
