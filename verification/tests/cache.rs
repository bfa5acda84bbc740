use dnsmasq::clock::Timestamp;
use dnsmasq::dns::cache::{parse_hosts_line, CacheEntry, CacheStats, DnsCache, DnsConfig, CACHESIZ};
use dnsmasq::dns::name::DomainName;
use dnsmasq::dns::record::RData;
use dnsmasq::types::{CacheFlags, IpAddr, Ipv4Addr, Ipv6Addr, RecordType};

fn create_test_config(cache_size: usize) -> DnsConfig {
    DnsConfig { cache_size, ..Default::default() }
}

#[test]
fn test_cache_creation() {
    let config = create_test_config(100);
    let cache = DnsCache::new(&config);

    assert_eq!(cache.capacity(), 100);
    assert_eq!(cache.len(), 0);
    assert!(cache.is_empty());
}

#[test]
fn test_cache_insert_and_find() {
    let config = create_test_config(10);
    let mut cache = DnsCache::new(&config);

    let domain = DomainName::new("example.com").unwrap();
    let addr = IpAddr::V4(Ipv4Addr::new(93, 184, 216, 34));

    let entry =
        CacheEntry::new(domain.clone(), RecordType::A, Some(addr), 300, CacheFlags::FORWARD);

    cache.insert(entry).unwrap();
    assert_eq!(cache.len(), 1);

    let found = cache.find_by_name(&domain, RecordType::A);
    assert!(found.is_some());
    assert_eq!(found.unwrap().ip_addr(), Some(addr));
}

#[test]
fn test_cache_find_by_addr() {
    let config = create_test_config(10);
    let mut cache = DnsCache::new(&config);

    let domain = DomainName::new("example.com").unwrap();
    let addr = IpAddr::V4(Ipv4Addr::new(93, 184, 216, 34));

    let entry = CacheEntry::new(
        domain.clone(),
        RecordType::A,
        Some(addr),
        300,
        CacheFlags::FORWARD | CacheFlags::REVERSE,
    );

    cache.insert(entry).unwrap();

    let found = cache.find_by_addr(&addr);
    assert!(found.is_some());
    assert_eq!(found.unwrap().domain_name(), &domain);
}

#[test]
fn test_lru_eviction() {
    let config = create_test_config(3);
    let mut cache = DnsCache::new(&config);

    for i in 1..=3 {
        let domain = DomainName::new(&format!("test{}.com", i)).unwrap();
        let addr = IpAddr::V4(Ipv4Addr::new(192, 168, 1, i as u8));
        let entry = CacheEntry::new(domain, RecordType::A, Some(addr), 300, CacheFlags::FORWARD);
        cache.insert(entry).unwrap();
    }

    assert_eq!(cache.len(), 3);

    let domain = DomainName::new("test4.com").unwrap();
    let addr = IpAddr::V4(Ipv4Addr::new(192, 168, 1, 4));
    let entry = CacheEntry::new(domain, RecordType::A, Some(addr), 300, CacheFlags::FORWARD);
    cache.insert(entry).unwrap();

    assert_eq!(cache.len(), 3);
    assert_eq!(cache.get_stats().evictions, 1);
}

#[test]
fn test_dhcp_entry() {
    let config = create_test_config(10);
    let mut cache = DnsCache::new(&config);

    let hostname = DomainName::new("client.lan").unwrap();
    let addr = IpAddr::V4(Ipv4Addr::new(192, 168, 1, 100));

    cache.add_dhcp_entry(hostname.clone(), addr, 3600).unwrap();

    let found = cache.find_by_name(&hostname, RecordType::A);
    assert!(found.is_some());
    assert!(found.unwrap().is_dhcp());

    let removed = cache.remove_dhcp_entry(&hostname, RecordType::A);
    assert!(removed);
    assert_eq!(cache.len(), 0);
}

#[test]
fn test_cache_stats() {
    let config = create_test_config(10);
    let mut cache = DnsCache::new(&config);

    let domain = DomainName::new("example.com").unwrap();

    cache.find_by_name(&domain, RecordType::A);

    let stats = cache.get_stats();
    assert_eq!(stats.lookups, 1);
    assert_eq!(stats.hits, 0);
    assert_eq!(stats.misses, 1);

    let addr = IpAddr::V4(Ipv4Addr::new(93, 184, 216, 34));
    let entry =
        CacheEntry::new(domain.clone(), RecordType::A, Some(addr), 300, CacheFlags::FORWARD);
    cache.insert(entry).unwrap();

    cache.find_by_name(&domain, RecordType::A);

    let stats = cache.get_stats();
    assert_eq!(stats.lookups, 2);
    assert_eq!(stats.hits, 1);
    assert_eq!(stats.misses, 1);
    assert_eq!(stats.insertions, 1);
}

#[test]
fn test_clear() {
    let config = create_test_config(10);
    let mut cache = DnsCache::new(&config);

    let domain = DomainName::new("example.com").unwrap();
    let addr = IpAddr::V4(Ipv4Addr::new(93, 184, 216, 34));
    let entry = CacheEntry::new(domain, RecordType::A, Some(addr), 300, CacheFlags::FORWARD);

    cache.insert(entry).unwrap();
    assert_eq!(cache.len(), 1);

    cache.clear();
    assert_eq!(cache.len(), 0);
    assert!(cache.is_empty());
}

const SECOND: u128 = 1_000_000_000;

fn at(secs: u128) -> Timestamp {
    Timestamp { nanos: secs * SECOND }
}

fn v4(last: u8) -> IpAddr {
    IpAddr::V4(Ipv4Addr::new(10, 0, 0, last))
}

fn name(text: &str) -> DomainName {
    DomainName::new(text).unwrap()
}

fn entry(text: &str, last: u8, ttl: u32, flags: u32) -> CacheEntry {
    CacheEntry::new_at(name(text), RecordType::A, Some(v4(last)), ttl, flags, at(100))
}

#[test]
fn names_are_found_in_any_case() {
    let mut cache = DnsCache::with_capacity(4);
    cache.insert(entry("Host.Example", 1, 60, CacheFlags::FORWARD)).unwrap();
    assert!(cache.find_by_name_at(&name("hOST.eXAMPLE"), RecordType::A, at(100)).is_some());
    assert!(cache.find_by_name_at(&name("host.example"), RecordType::AAAA, at(100)).is_none());
    assert!(cache.find_by_name_at(&name("other.example"), RecordType::A, at(100)).is_none());
}

#[test]
fn a_new_entry_replaces_the_old_one() {
    let mut cache = DnsCache::with_capacity(4);
    cache.insert(entry("a.b", 1, 60, CacheFlags::FORWARD)).unwrap();
    cache.insert(entry("A.B", 2, 60, CacheFlags::FORWARD)).unwrap();
    assert_eq!(cache.len(), 1);
    let found = cache.find_by_name_at(&name("a.b"), RecordType::A, at(100)).unwrap();
    assert_eq!(found.ip_addr(), Some(v4(2)));
}

#[test]
fn expired_entries_are_not_found() {
    let mut cache = DnsCache::with_capacity(4);
    cache.insert(entry("a.b", 1, 60, CacheFlags::FORWARD | CacheFlags::REVERSE)).unwrap();
    assert!(cache.find_by_name_at(&name("a.b"), RecordType::A, at(159)).is_some());
    assert!(cache.find_by_name_at(&name("a.b"), RecordType::A, at(160)).is_none());
    assert_eq!(cache.len(), 0);
    assert_eq!(cache.get_stats().expirations, 1);

    cache.insert(entry("a.b", 1, 60, CacheFlags::FORWARD | CacheFlags::REVERSE)).unwrap();
    assert!(cache.find_by_addr_at(&v4(1), at(160)).is_none());
    assert_eq!(cache.len(), 0);
    assert_eq!(cache.get_stats().expirations, 2);
}

#[test]
fn the_least_recently_used_entry_leaves() {
    let mut cache = DnsCache::with_capacity(2);
    cache.insert(entry("a", 1, 60, CacheFlags::FORWARD)).unwrap();
    cache.insert(entry("b", 2, 60, CacheFlags::FORWARD)).unwrap();
    cache.find_by_name_at(&name("a"), RecordType::A, at(100));
    cache.insert(entry("c", 3, 60, CacheFlags::FORWARD)).unwrap();
    assert!(cache.find_by_name_at(&name("b"), RecordType::A, at(100)).is_none());
    assert!(cache.find_by_name_at(&name("a"), RecordType::A, at(100)).is_some());
    assert!(cache.find_by_name_at(&name("c"), RecordType::A, at(100)).is_some());
}

#[test]
fn entries_are_walked_by_recency() {
    let mut cache = DnsCache::with_capacity(4);
    for (i, n) in ["a", "b", "c"].iter().enumerate() {
        cache.insert(entry(n, i as u8, 60, CacheFlags::FORWARD)).unwrap();
    }
    cache.find_by_name_at(&name("a"), RecordType::A, at(100));
    let names: Vec<String> = cache.entries().iter().map(|e| e.domain_name().as_str()).collect();
    assert_eq!(names, vec!["a", "c", "b"]);
    let gone = cache.evict_lru().unwrap();
    assert_eq!(gone.domain_name().as_str(), "b");
    assert_eq!(cache.get_stats().evictions, 1);
}

#[test]
fn expired_entries_can_be_pruned() {
    let mut cache = DnsCache::with_capacity(8);
    cache.insert(entry("a", 1, 10, CacheFlags::FORWARD)).unwrap();
    cache.insert(entry("b", 2, 20, CacheFlags::FORWARD)).unwrap();
    cache.insert(entry("c", 3, 30, CacheFlags::FORWARD)).unwrap();
    assert!(cache.evict_expired_at(at(105)).is_none());
    let first = cache.evict_expired_at(at(115)).unwrap();
    assert_eq!(first.domain_name().as_str(), "a");
    assert_eq!(cache.prune_expired_at(at(125)), 1);
    assert_eq!(cache.prune_expired_at(at(125)), 0);
    assert_eq!(cache.len(), 1);
    let stats = cache.get_stats();
    assert_eq!(stats.current_size, 1);
    assert_eq!(stats.capacity, 8);
    assert_eq!(stats.insertions, 3);
}

#[test]
fn the_rest_of_a_life_counts_down() {
    let e = entry("a", 1, 60, CacheFlags::FORWARD);
    assert_eq!(e.ttl_at(at(100)), 60);
    assert_eq!(e.ttl_at(at(159)), 1);
    assert_eq!(e.ttl_at(at(160)), 0);
    assert_eq!(e.ttl_at(at(500)), 0);
    assert_eq!(e.expiry(), at(160));
    assert!(!e.is_expired_at(Timestamp { nanos: 160 * SECOND - 1 }));
    assert!(e.is_expired_at(at(160)));
}

#[test]
fn an_entry_holds_the_record_of_its_address() {
    let e = entry("a.b", 9, 60, CacheFlags::HOSTS | CacheFlags::FORWARD);
    assert!(e.is_hosts() && e.is_forward() && !e.is_dhcp() && !e.is_reverse());
    assert_eq!(e.record_type(), RecordType::A);
    assert_eq!(e.record().name(), &name("a.b"));
    assert!(matches!(e.record().rdata(), RData::A(a) if *a == Ipv4Addr::new(10, 0, 0, 9)));
    let bare = CacheEntry::new_at(name("a"), RecordType::AAAA, Some(v4(1)), 1, 0, at(0));
    assert!(matches!(bare.record().rdata(), RData::Unknown { rtype: 28, .. }));
}

#[test]
fn only_dhcp_entries_are_removed_as_such() {
    let mut cache = DnsCache::with_capacity(4);
    cache.insert(entry("a", 1, 60, CacheFlags::HOSTS)).unwrap();
    assert!(!cache.remove_dhcp_entry(&name("a"), RecordType::A));
    assert!(!cache.remove_dhcp_entry(&name("b"), RecordType::A));
    assert_eq!(cache.len(), 1);
    let v6 = IpAddr::V6(Ipv6Addr::new(1, 0, 0, 0, 0, 0, 0, 2));
    cache.add_dhcp_entry_at(name("c"), v6, 60, at(100)).unwrap();
    assert!(cache.find_by_name_at(&name("c"), RecordType::AAAA, at(100)).unwrap().is_dhcp());
    assert!(cache.remove_dhcp_entry(&name("C"), RecordType::AAAA));
}

#[test]
fn hosts_lines_are_read() {
    let (addr, hosts) = parse_hosts_line("  10.0.0.1\thost  host.lan # note").unwrap();
    assert_eq!(addr, "10.0.0.1");
    assert_eq!(hosts[0], "host");
    assert_eq!(hosts[1], "host.lan");
    assert!(parse_hosts_line("# 10.0.0.1 host").is_none());
    assert!(parse_hosts_line("   ").is_none());
    assert!(parse_hosts_line("10.0.0.1").is_none());
}

#[test]
fn hosts_come_into_the_cache() {
    let mut cache = DnsCache::with_capacity(8);
    let names = vec!["host".to_string(), "bad..name".to_string(), "host.lan".to_string()];
    assert_eq!(cache.add_hosts_at(v4(7), &names, at(100)), 2);
    let found = cache.find_by_name_at(&name("host.lan"), RecordType::A, at(100)).unwrap();
    assert!(found.is_hosts());
    assert_eq!(found.ip_addr(), Some(v4(7)));
    assert_eq!(found.ttl_at(at(100)), 0xffff_ffff);
}

#[test]
fn a_cache_of_no_size_has_the_usual_size() {
    assert_eq!(DnsConfig::default().cache_size, CACHESIZ);
    assert_eq!(CacheStats::default().lookups, 0);
}

#[test]
fn addresses_are_found_only_where_they_are_offered() {
    let mut cache = DnsCache::with_capacity(4);
    cache.insert(entry("a", 1, 60, CacheFlags::FORWARD | CacheFlags::REVERSE)).unwrap();
    assert!(cache.find_by_addr_at(&v4(2), at(100)).is_none());
    let found = cache.find_by_addr_at(&v4(1), at(100)).unwrap();
    assert_eq!(found.domain_name(), &name("a"));
    let stats = cache.get_stats();
    assert_eq!((stats.lookups, stats.hits, stats.misses), (2, 1, 1));
}
