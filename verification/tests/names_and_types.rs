use dnsmasq::clock::{ClockReading, Timestamp};
use dnsmasq::address_text::show_ip;
use dnsmasq::dns::cache::parse_hosts_line;
use dnsmasq::dns::name::{bytes_before, DomainName};
use dnsmasq::dns::reverse::reverse_address;
use dnsmasq::error::{DnsError, DnsmasqError, DnssecError};
use dnsmasq::text::{
    byte_list, chars_of, decimal, has_prefix, hex_with_colons, message1, message2, message3,
    message_text, number_of, remove_white, split_chars, string_of, trim_chars, white, words_of,
};
use dnsmasq::types::{
    CacheFlags, IpAddr, IpNetwork, Ipv4Addr, Ipv6Addr, MacAddress, RecordType,
};
use dnsmasq::wire::{copy_range, put_slice, put_u16, put_u32, read_u16, read_u32, same_bytes};

fn name(text: &str) -> DomainName {
    DomainName::new(text).unwrap()
}

#[test]
fn names_are_read_and_written() {
    assert_eq!(name("www.Example.org").as_str(), "www.Example.org");
    assert_eq!(name("www.Example.org.").as_str(), "www.Example.org");
    assert_eq!(name(".").as_str(), ".");
    assert_eq!(DomainName::root().label_count(), 0);
    assert_eq!(name("www.example.org").to_wire(), b"\x03www\x07example\x03org\x00".to_vec());
    assert_eq!(name("A.bC").to_canonical_wire(), b"\x01a\x02bc\x00".to_vec());
    assert_eq!(name("a.bc").label(1).as_slice(), b"bc");
    assert_eq!(name("a.bc.d").parent().as_str(), "bc.d");
}

#[test]
fn what_is_not_a_name_is_refused() {
    for bad in ["a..b", &"x".repeat(64), &vec!["abcdefg"; 32].join(".")] {
        match DomainName::new(bad) {
            Err(DnsError::InvalidName { name, .. }) => assert_eq!(name, bad),
            _ => panic!("expected an error"),
        }
    }
    assert!(DomainName::new(&"x".repeat(63)).is_ok());
}

#[test]
fn names_are_compared_without_case() {
    assert_eq!(name("A.b"), name("a.B"));
    assert!(name("A.b").same_name(&name("a.B")));
    assert!(name("x.A.b").is_subdomain_of(&name("a.B")));
    assert!(!name("xa.b").is_subdomain_of(&name("a.b")));
    assert!(name("x").is_subdomain_of(&DomainName::root()));
}

#[test]
fn names_are_ordered_from_the_right() {
    let order = ["example", "a.example", "yljkjljk.a.example", "Z.a.example", "z.example"];
    for (i, a) in order.iter().enumerate() {
        for (j, b) in order.iter().enumerate() {
            assert_eq!(name(a).is_before(&name(b)), i < j);
        }
    }
    assert!(bytes_before(b"ab", b"abc"));
    assert!(bytes_before(b"ab", b"b"));
    assert!(!bytes_before(b"b", b"b"));
}

#[test]
fn white_space_is_what_std_says() {
    for n in 0..0x11_0000u32 {
        if let Some(c) = char::from_u32(n) {
            assert_eq!(white(c), c.is_whitespace());
        }
    }
}

#[test]
fn texts_are_taken_apart() {
    let chars = chars_of("\u{a0} a\tb  c\n");
    assert_eq!(string_of(&trim_chars(&chars)), "a\tb  c");
    assert_eq!(string_of(&remove_white(&chars)), "abc");
    let words: Vec<String> = words_of(&chars).iter().map(|w| string_of(w)).collect();
    assert_eq!(words, vec!["a", "b", "c"]);
    let parts: Vec<String> =
        split_chars(&chars_of(",x,,y"), ',').iter().map(|w| string_of(w)).collect();
    assert_eq!(parts, vec!["", "x", "", "y"]);
    assert!(has_prefix(&chars_of("abc"), &chars_of("ab")));
    assert!(!has_prefix(&chars_of("a"), &chars_of("ab")));
    assert!(parse_hosts_line("\u{2003}#x y").is_none());
}

#[test]
fn numbers_are_read_as_std_does() {
    for text in ["0", "007", "+5", "255", "256", "", "+", "-1", " 1", "1 ", "a", "++1", "99999999999"] {
        let want = text.parse::<u8>().ok().map(|n| n as u64);
        assert_eq!(number_of(&chars_of(text), 255), want);
    }
}

#[test]
fn texts_are_put_together() {
    assert_eq!(decimal(0), "0");
    assert_eq!(decimal(u64::MAX), u64::MAX.to_string());
    assert_eq!(message1("a", 1, "b"), "a1b");
    assert_eq!(message2("a", 1, "b", 2, "c"), "a1b2c");
    assert_eq!(message3("a", 1, "b", 2, "c", 3), "a1b2c3");
    assert_eq!(message_text("<", "x", ">"), "<x>");
    assert_eq!(byte_list(&[]), format!("{:?}", Vec::<u8>::new()));
    assert_eq!(byte_list(&[1, 20, 255]), format!("{:?}", vec![1, 20, 255]));
    assert_eq!(hex_with_colons(&[0, 0xab, 0x1f]), "00:ab:1f");
}

#[test]
fn bytes_are_written_and_read() {
    let mut v = vec![];
    put_u16(&mut v, 0x0102);
    put_u32(&mut v, 0x03040506);
    put_slice(&mut v, &[7, 8]);
    assert_eq!(v, vec![1, 2, 3, 4, 5, 6, 7, 8]);
    assert_eq!(read_u16(&v, 3), 0x0405);
    assert_eq!(read_u32(&v, 4), 0x05060708);
    assert_eq!(copy_range(&v, 2, 4), vec![3, 4]);
    assert!(same_bytes(&v[..2], &[1, 2]));
    assert!(!same_bytes(&v[..2], &[1]));
    assert!(!same_bytes(&v[..2], &[1, 3]));
}

#[test]
fn addresses_have_octets_and_kinds() {
    let a = Ipv4Addr::new(192, 168, 3, 4);
    assert_eq!(a.octets(), vec![192, 168, 3, 4]);
    assert_eq!(a.bits, 0xc0a80304);
    for n in (0..=u32::MAX).step_by(0x1_2345) {
        let a = Ipv4Addr { bits: n };
        let o = n.to_be_bytes();
        let private = o[0] == 10
            || (o[0] == 172 && (16..32).contains(&o[1]))
            || (o[0] == 192 && o[1] == 168);
        assert_eq!(a.is_private(), private);
        assert_eq!(a.is_loopback(), o[0] == 127);
        assert_eq!(a.is_link_local(), o[0] == 169 && o[1] == 254);
    }
    let c = Ipv6Addr::new(0x2001, 0xdb8, 1, 2, 3, 4, 5, 6);
    assert_eq!(c.octets(), vec![0x20, 1, 0x0d, 0xb8, 0, 1, 0, 2, 0, 3, 0, 4, 0, 5, 0, 6]);
    assert_eq!(Ipv6Addr::read(&c.octets(), 0), c);
    for top in 0..=0xffffu128 {
        let c = Ipv6Addr { bits: top << 112 | 1 };
        assert_eq!(c.is_loopback(), top == 0);
        assert!(!c.is_unspecified());
        assert_eq!(c.is_unicast_link_local(), top & 0xffc0 == 0xfe80);
        assert_eq!(c.is_unique_local(), top & 0xfe00 == 0xfc00);
    }
    assert!(Ipv6Addr { bits: 0 }.is_unspecified());
}

#[test]
fn networks_have_their_addresses() {
    let v4 = |a, b, c, d| IpAddr::V4(Ipv4Addr::new(a, b, c, d));
    let net = IpNetwork::new(v4(10, 1, 2, 3), 16).unwrap();
    assert!(net.contains(&v4(10, 1, 255, 255)));
    assert!(!net.contains(&v4(10, 2, 0, 0)));
    assert!(!net.contains(&IpAddr::V6(Ipv6Addr::new(0, 0, 0, 0, 0, 0, 0, 1))));
    assert!(IpNetwork::new(v4(0, 0, 0, 0), 0).unwrap().contains(&v4(255, 0, 0, 1)));
    assert!(IpNetwork::new(v4(0, 0, 0, 0), 33).is_none());
    let v6 = IpAddr::V6(Ipv6Addr::new(0xfe80, 0, 0, 0, 0, 0, 0, 1));
    assert!(IpNetwork::new(v6, 129).is_none());
    assert!(IpNetwork::new(v6, 128).unwrap().contains(&v6));
    assert!(v6.is_local() && !v6.is_ipv4());
    assert_eq!(v6.octets().len(), 16);
    assert_eq!(MacAddress::from_bytes([1, 2, 3, 4, 5, 6]).octets(), &[1, 2, 3, 4, 5, 6]);
}

#[test]
fn record_types_have_codes() {
    for code in 0..=0xffffu16 {
        assert_eq!(RecordType::from_code(code).code(), code);
    }
    assert_eq!(RecordType::from_code(1), RecordType::A);
    assert_eq!(RecordType::from_code(28), RecordType::AAAA);
    assert!(CacheFlags::contains(CacheFlags::DHCP | CacheFlags::FORWARD, CacheFlags::DHCP));
    assert!(!CacheFlags::contains(CacheFlags::FORWARD, CacheFlags::HOSTS));
}

#[test]
fn the_clock_agrees_with_std() {
    let before = std::time::SystemTime::now()
        .duration_since(std::time::SystemTime::UNIX_EPOCH)
        .unwrap()
        .as_nanos();
    let now = Timestamp::now();
    let after = std::time::SystemTime::now()
        .duration_since(std::time::SystemTime::UNIX_EPOCH)
        .unwrap()
        .as_nanos();
    assert!(before <= now.nanos && now.nanos <= after);
    assert_eq!(now.secs() as u128, now.nanos / 1_000_000_000);
    assert!(matches!(ClockReading::now(), ClockReading::Time(_)));
    assert_eq!(Timestamp { nanos: 5 }.plus_secs(2).nanos, 2_000_000_005);
    assert_eq!(ClockReading::of(Ok((7, 12))).timestamp().nanos, 7_000_000_012);
    assert!(matches!(ClockReading::of(Err("early".to_string())),
        ClockReading::BeforeEpoch(t) if t == "early"));
    let broken = ClockReading::BeforeEpoch(String::new());
    assert_eq!(broken.timestamp().nanos, 0);
}

#[test]
fn errors_have_words() {
    let e = DnsmasqError::Dnssec(DnssecError::TooManyIterations {
        iterations: 200,
        max_iterations: 150,
    });
    let text = e.to_text();
    assert!(text.contains("200") && text.contains("150"));
}

#[test]
fn addresses_are_written_in_short_form() {
    let six = |a: [u16; 8]| {
        let v = Ipv6Addr::new(a[0], a[1], a[2], a[3], a[4], a[5], a[6], a[7]);
        show_ip(&IpAddr::V6(v))
    };
    assert_eq!(show_ip(&IpAddr::V4(Ipv4Addr::new(192, 0, 2, 10))), "192.0.2.10");
    assert_eq!(show_ip(&IpAddr::V4(Ipv4Addr::new(0, 0, 0, 0))), "0.0.0.0");
    assert_eq!(six([0, 0, 0, 0, 0, 0, 0, 0]), "::");
    assert_eq!(six([0, 0, 0, 0, 0, 0, 0, 1]), "::1");
    assert_eq!(six([0x2001, 0xdb8, 0, 0, 0, 0, 0, 9]), "2001:db8::9");
    assert_eq!(six([0xfe80, 0, 0, 0, 0, 0, 0, 0]), "fe80::");
    assert_eq!(six([1, 0, 0, 2, 0, 0, 0, 3]), "1:0:0:2::3");
    assert_eq!(six([1, 0, 0, 2, 3, 0, 0, 4]), "1::2:3:0:0:4");
    assert_eq!(six([1, 0, 2, 3, 4, 5, 6, 7]), "1:0:2:3:4:5:6:7");
    assert_eq!(six([0xffff, 0x10, 0xabc, 1, 2, 3, 4, 0xdef0]), "ffff:10:abc:1:2:3:4:def0");
    assert_eq!(six([0, 0, 0, 0, 0, 0xffff, 0xc000, 0x020a]), "::ffff:192.0.2.10");
    assert_eq!(six([0, 0, 0, 0, 0, 0, 0xc000, 0x020a]), "::c000:20a");
}

#[test]
fn names_of_addresses_are_read() {
    let four = |t: &str| reverse_address(&name(t));
    let v4 = |a, b, c, d| Some(IpAddr::V4(Ipv4Addr::new(a, b, c, d)));
    assert_eq!(four("10.2.0.192.in-addr.arpa"), v4(192, 0, 2, 10));
    assert_eq!(four("255.0.9.1.In-Addr.ARPA"), v4(1, 9, 0, 255));
    for bad in [
        "2.0.192.in-addr.arpa",
        "1.10.2.0.192.in-addr.arpa",
        "010.2.0.192.in-addr.arpa",
        "256.2.0.192.in-addr.arpa",
        "1000.2.0.192.in-addr.arpa",
        "a.2.0.192.in-addr.arpa",
        "10.2.0.192.in-addr.org",
        "10.2.0.192.ip6.arpa",
    ] {
        assert_eq!(four(bad), None);
    }
    let six = Some(IpAddr::V6(Ipv6Addr::new(0x2001, 0xdb8, 0, 0, 0, 0, 0, 0xabc)));
    let tail = "0.0.0.0.0.0.0.0.0.0.0.0.0.0.0.0.0.0.0.0.8.b.d.0.1.0.0.2.ip6.arpa";
    assert_eq!(four(&format!("c.B.a.0.{}", tail)), six);
    assert_eq!(four(&format!("b.a.0.{}", tail)), None);
    assert_eq!(four(&format!("g.b.a.0.{}", tail)), None);
    assert_eq!(four(&format!("10.b.a.0.{}", tail)), None);
}
