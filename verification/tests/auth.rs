use dnsmasq::clock::Timestamp;
use dnsmasq::dns::auth::{AuthService, AuthoritativeZone, SoaParams, RCODE_NXDOMAIN};
use dnsmasq::dns::cache::{CacheEntry, DnsCache, DnsConfig};
use dnsmasq::dns::message::{DnsMessage, Question};
use dnsmasq::dns::name::DomainName;
use dnsmasq::dns::record::RData;
use dnsmasq::error::{DnsError, DnsmasqError};
use dnsmasq::types::{CacheFlags, IpAddr, IpNetwork, Ipv4Addr, Ipv6Addr, RecordType};

fn zone(domain: &str) -> AuthoritativeZone {
    AuthoritativeZone {
        domain: DomainName::new(domain).unwrap(),
        soa_params: SoaParams::default(),
        ns_records: vec![DomainName::new("ns.localhost").unwrap()],
        subnet_filters: vec![],
        exclude_filters: vec![],
    }
}

fn v4(a: u8, b: u8, c: u8, d: u8) -> IpAddr {
    IpAddr::V4(Ipv4Addr::new(a, b, c, d))
}

#[test]
fn test_soa_params_default() {
    let params = SoaParams::default();
    assert_eq!(params.refresh, 1200);
    assert_eq!(params.retry, 180);
    assert_eq!(params.expire, 1209600);
    assert_eq!(params.minimum, 600);
    assert!(params.serial > 0);
}

#[test]
fn test_authoritative_zone_is_match() {
    let zone = zone("example.local");

    let query1 = DomainName::new("example.local").unwrap();
    assert!(zone.is_match(&query1));

    let query2 = DomainName::new("host.example.local").unwrap();
    assert!(zone.is_match(&query2));

    let query3 = DomainName::new("www.host.example.local").unwrap();
    assert!(zone.is_match(&query3));

    let query4 = DomainName::new("example.com").unwrap();
    assert!(!zone.is_match(&query4));

    let query5 = DomainName::new("other.local").unwrap();
    assert!(!zone.is_match(&query5));
}

#[test]
fn test_subnet_filtering() {
    let make = || {
        let mut zone = zone("example.local");
        zone.subnet_filters = vec![IpNetwork::new(v4(192, 168, 1, 0), 24).unwrap()];
        zone.exclude_filters = vec![IpNetwork::new(v4(192, 168, 1, 100), 32).unwrap()];
        zone
    };
    let zone = make();
    let service = AuthService::new(vec![make()], 600);

    let client1 = v4(192, 168, 1, 50);
    assert!(service.filter_by_subnet(client1, &zone));

    let client2 = v4(192, 168, 1, 100);
    assert!(!service.filter_by_subnet(client2, &zone));

    let client3 = v4(10, 0, 0, 1);
    assert!(!service.filter_by_subnet(client3, &zone));
}

#[test]
fn test_find_zone_longest_match() {
    let zone1 = zone("example.local");
    let zone2 = zone("sub.example.local");

    let service = AuthService::new(vec![zone1, zone2], 600);

    let query = DomainName::new("host.sub.example.local").unwrap();
    let matched_zone = service.find_zone(&query).unwrap();
    assert_eq!(matched_zone.domain.as_str(), "sub.example.local");

    let query2 = DomainName::new("other.example.local").unwrap();
    let matched_zone2 = service.find_zone(&query2).unwrap();
    assert_eq!(matched_zone2.domain.as_str(), "example.local");
}

fn now() -> Timestamp {
    Timestamp { nanos: 5_000_000_000 }
}

fn query(name: &str, qtype: RecordType) -> DnsMessage {
    let mut q = DnsMessage::new(77);
    q.flags.rd = true;
    q.add_question(Question { qname: DomainName::new(name).unwrap(), qtype, qclass: 1 });
    q
}

fn cache() -> DnsCache {
    let mut cache = DnsCache::new(&DnsConfig { cache_size: 150, ..Default::default() });
    let names = vec!["host.example.local".to_string(), "elsewhere.org".to_string()];
    cache.add_hosts_at(v4(10, 0, 0, 5), &names, now());
    let entry = CacheEntry::new_at(
        DomainName::new("remote.example.local").unwrap(),
        RecordType::A,
        Some(v4(10, 0, 0, 6)),
        60,
        CacheFlags::FORWARD,
        now(),
    );
    cache.insert(entry).unwrap();
    cache
}

fn ask(name: &str, qtype: RecordType) -> Option<DnsMessage> {
    let service = AuthService::new(vec![zone("example.local")], 600);
    service.answer_auth_query_at(&query(name, qtype), v4(1, 2, 3, 4), &mut cache(), now()).unwrap()
}

#[test]
fn names_outside_all_zones_are_not_answered() {
    assert!(ask("elsewhere.org", RecordType::A).is_none());
    let service = AuthService::new(vec![zone("example.local")], 600);
    let empty = DnsMessage::new(1);
    let answer = service.answer_auth_query_at(&empty, v4(1, 2, 3, 4), &mut cache(), now());
    assert!(answer.unwrap().is_none());
}

#[test]
fn addresses_are_answered_from_the_cache() {
    let answer = ask("HOST.example.local", RecordType::A).unwrap();
    assert_eq!(answer.id, 77);
    assert!(answer.is_response() && answer.flags.authoritative && answer.flags.rd);
    assert_eq!(answer.flags.rcode, 0);
    assert_eq!(answer.questions.len(), 1);
    assert_eq!(answer.answers.len(), 1);
    assert!(matches!(answer.answers[0].rdata(), RData::A(a) if *a == Ipv4Addr::new(10, 0, 0, 5)));
}

#[test]
fn names_without_an_address_do_not_exist() {
    let answer = ask("nobody.example.local", RecordType::A).unwrap();
    assert_eq!(answer.flags.rcode, RCODE_NXDOMAIN);
    assert!(answer.flags.authoritative);
    assert_eq!(answer.answers.len(), 0);
    assert!(matches!(answer.authority[0].rdata(), RData::Soa { .. }));
}

#[test]
fn the_start_of_authority_is_answered() {
    let answer = ask("example.local", RecordType::SOA).unwrap();
    match answer.answers[0].rdata() {
        RData::Soa { mname, rname, refresh, .. } => {
            assert_eq!(mname.as_str(), "ns.localhost");
            assert_eq!(rname.as_str(), "hostmaster.example.local");
            assert_eq!(*refresh, 1200);
        }
        _ => panic!("expected a start of authority"),
    }
    let servers = ask("example.local", RecordType::NS).unwrap();
    assert!(matches!(
        servers.answers[0].rdata(),
        RData::Ns { nsdname } if nsdname.as_str() == "ns.localhost"
    ));
}

#[test]
fn clients_can_be_refused() {
    let mut closed = zone("example.local");
    closed.exclude_filters = vec![IpNetwork::new(v4(1, 2, 0, 0), 16).unwrap()];
    let service = AuthService::new(vec![closed], 600);
    let q = query("host.example.local", RecordType::A);
    match service.answer_auth_query_at(&q, v4(1, 2, 3, 4), &mut cache(), now()) {
        Err(DnsmasqError::Dns(DnsError::AuthFailed { zone, reason })) => {
            assert_eq!(zone, "example.local");
            assert_eq!(reason, "Client IP not allowed by zone subnet filters");
        }
        _ => panic!("expected a refusal"),
    }
    assert!(service.answer_auth_query_at(&q, v4(9, 2, 3, 4), &mut cache(), now()).is_ok());
}

#[test]
fn a_zone_without_room_for_its_mailbox_fails() {
    let label = "a".repeat(60);
    let long = format!("{}.{}.{}.{}", label, label, label, label);
    let service = AuthService::new(vec![zone(&long)], 600);
    let r = service.generate_soa_record(&service.get_zones()[0]);
    assert!(matches!(r, Err(DnsmasqError::Dns(DnsError::InvalidName { .. }))));
}

#[test]
fn a_transfer_is_framed_by_the_start_of_authority() {
    let service = AuthService::new(vec![zone("example.local")], 600);
    let q = query("example.local", RecordType::AXFR);
    let full = service.handle_axfr_request(&q, &service.get_zones()[0], &cache()).unwrap();
    assert_eq!(full.len(), 3);
    for m in &full {
        assert_eq!(m.id, 77);
        assert!(m.flags.response && m.flags.authoritative);
    }
    assert_eq!(full[0].answers.len(), 1);
    assert!(matches!(full[0].answers[0].rdata(), RData::Soa { .. }));
    assert_eq!(full[1].answers.len(), 2);
    assert!(matches!(full[1].answers[0].rdata(), RData::Ns { .. }));
    assert_eq!(full[1].answers[1].name().as_str(), "host.example.local");
    assert_eq!(full[2].answers.len(), 1);
    assert!(matches!(full[2].answers[0].rdata(), RData::Soa { .. }));

    let short = ask("example.local", RecordType::AXFR).unwrap();
    assert_eq!(short.answers.len(), 4);
    assert!(matches!(short.answers[0].rdata(), RData::Soa { .. }));
    assert!(matches!(short.answers[1].rdata(), RData::Ns { .. }));
    assert_eq!(short.answers[2].name().as_str(), "host.example.local");
    assert!(matches!(short.answers[3].rdata(), RData::Soa { .. }));

    let apex = DomainName::new("EXAMPLE.local").unwrap();
    assert_eq!(service.get_zone_records(&apex, &cache()).len(), 3);
    let other = DomainName::new("other.local").unwrap();
    assert_eq!(service.get_zone_records(&other, &cache()).len(), 0);
}

#[test]
fn the_serial_number_stops_at_its_largest() {
    assert_eq!(SoaParams::at(12).serial, 12);
    assert_eq!(SoaParams::at(0x1_0000_0000).serial, 0xffff_ffff);
}

#[test]
fn addresses_are_looked_up_under_their_names() {
    let pointer = |service: &AuthService, cache: &mut DnsCache, name: &str| {
        let q = query(name, RecordType::PTR);
        service.answer_auth_query_at(&q, v4(1, 2, 3, 4), cache, now()).unwrap().unwrap()
    };
    let service = AuthService::new(vec![zone("10.in-addr.arpa"), zone("ip6.arpa")], 600);
    let mut cache = cache();
    cache.add_hosts_at(v4(10, 0, 0, 8), &vec!["solo.example.local".to_string()], now());
    let answer = pointer(&service, &mut cache, "8.0.0.10.IN-ADDR.arpa");
    assert!(answer.flags.authoritative);
    assert_eq!(answer.flags.rcode, 0);
    assert_eq!(answer.answers.len(), 1);
    assert_eq!(answer.answers[0].name().as_str(), "8.0.0.10.IN-ADDR.arpa");
    assert_eq!(answer.answers[0].ttl, 600);
    assert!(matches!(
        answer.answers[0].rdata(),
        RData::Ptr { ptrdname } if ptrdname.as_str() == "solo.example.local"
    ));

    // Forwarded entries, unknown addresses and names of no address.
    for name in ["6.0.0.10.in-addr.arpa", "7.0.0.10.in-addr.arpa", "x.0.0.10.in-addr.arpa"] {
        let answer = pointer(&service, &mut cache, name);
        assert_eq!(answer.flags.rcode, RCODE_NXDOMAIN);
        assert_eq!(answer.answers.len(), 0);
    }

    let six = IpAddr::V6(Ipv6Addr::new(0x2001, 0xdb8, 0, 0, 0, 0, 0, 0xab));
    cache.add_hosts_at(six, &vec!["six.example.local".to_string()], now());
    let name = format!("b.a.{}8.b.d.0.1.0.0.2.ip6.arpa", "0.".repeat(22));
    let answer = pointer(&service, &mut cache, &name);
    assert!(matches!(
        answer.answers[0].rdata(),
        RData::Ptr { ptrdname } if ptrdname.as_str() == "six.example.local"
    ));
}
