use dnsmasq::dns::edns0::{
    Edns0Builder, Edns0Handler, Edns0Option, OptRecord, DEFAULT_UDP_PAYLOAD, EDE_DNSSEC_BOGUS, EDE_STALE,
    EDNS0_OPTION_CLIENT_SUBNET, EDNS0_OPTION_COOKIE, EDNS0_OPTION_EDE, EDNS0_OPTION_MAC,
    EDNS0_OPTION_NOMCPEID, EDNS0_OPTION_NOMDEVICEID, EDNS0_OPTION_PADDING, EDNS0_OPTION_UMBRELLA,
    EDNS_DO_BIT, EDNS_VERSION,
};
use dnsmasq::error::{DnsError, DnsmasqError};
use dnsmasq::types::{IpAddr, Ipv4Addr, Ipv6Addr, MacAddress, SocketAddr};

#[test]
fn test_opt_record_creation() {
    let opt = OptRecord::new();
    assert_eq!(opt.udp_payload_size, DEFAULT_UDP_PAYLOAD);
    assert_eq!(opt.version, EDNS_VERSION);
    assert_eq!(opt.flags, 0);
    assert!(!opt.has_do_bit());
}

#[test]
fn test_do_bit() {
    let mut opt = OptRecord::new();
    assert!(!opt.has_do_bit());

    opt.set_do_bit(true);
    assert!(opt.has_do_bit());
    assert_eq!(opt.flags & EDNS_DO_BIT, EDNS_DO_BIT);

    opt.set_do_bit(false);
    assert!(!opt.has_do_bit());
}

#[test]
fn test_client_subnet_ipv4() {
    let addr = IpAddr::V4(Ipv4Addr::new(192, 0, 2, 1));
    let option = Edns0Option::ClientSubnet {
        family: 1,
        source_netmask: 24,
        scope_netmask: 0,
        address: addr,
    };

    assert_eq!(option.code(), EDNS0_OPTION_CLIENT_SUBNET);
    let data = option.to_wire_format().expect("Failed to serialize");
    assert!(data.len() >= 7);
}

#[test]
fn test_client_subnet_ipv6() {
    let addr = IpAddr::V6(Ipv6Addr::new(0x2001, 0xdb8, 0, 0, 0, 0, 0, 1));
    let option = Edns0Option::ClientSubnet {
        family: 2,
        source_netmask: 48,
        scope_netmask: 0,
        address: addr,
    };

    assert_eq!(option.code(), EDNS0_OPTION_CLIENT_SUBNET);
    let data = option.to_wire_format().expect("Failed to serialize");
    assert!(data.len() >= 10);
}

#[test]
fn test_extended_error() {
    let option = Edns0Option::ExtendedError {
        info_code: EDE_DNSSEC_BOGUS as u16,
        extra_text: "DNSSEC validation failed".to_string(),
    };

    assert_eq!(option.code(), 15);
    let data = option.to_wire_format().expect("Failed to serialize");
    assert_eq!(data[0..2], (EDE_DNSSEC_BOGUS as u16).to_be_bytes());
    assert!(data.len() > 2);
}

#[test]
fn test_mac_option() {
    let mac = MacAddress::from_bytes([0xaa, 0xbb, 0xcc, 0xdd, 0xee, 0xff]);
    let option = Edns0Option::Mac { address: mac };

    assert_eq!(option.code(), EDNS0_OPTION_MAC);
    assert_eq!(option.data_len(), 6);

    let data = option.to_wire_format().expect("Failed to serialize");
    assert_eq!(data, &[0xaa, 0xbb, 0xcc, 0xdd, 0xee, 0xff]);
}

#[test]
fn test_edns0_builder() {
    let addr = IpAddr::V4(Ipv4Addr::new(10, 0, 0, 1));
    let mac = MacAddress::from_bytes([0x11, 0x22, 0x33, 0x44, 0x55, 0x66]);

    let opt = Edns0Builder::new()
        .udp_size(4096)
        .do_bit(true)
        .client_subnet(addr, 24)
        .extended_error(EDE_STALE as u16, "Stale answer")
        .mac(mac)
        .build()
        .expect("Builder failed");

    assert_eq!(opt.udp_payload_size, 4096);
    assert!(opt.has_do_bit());
    assert_eq!(opt.options.len(), 3);
}

#[test]
fn test_opt_wire_format_roundtrip() {
    let mut opt = OptRecord::new();
    opt.udp_payload_size = 1232;
    opt.set_do_bit(true);
    opt.add_option(Edns0Option::ClientSubnet {
        family: 1,
        source_netmask: 24,
        scope_netmask: 0,
        address: IpAddr::V4(Ipv4Addr::new(198, 51, 100, 0)),
    });

    let wire = opt.to_wire_format().expect("Serialization failed");
    let (parsed, _consumed) = OptRecord::from_wire_format(&wire).expect("Parsing failed");

    assert_eq!(parsed.udp_payload_size, opt.udp_payload_size);
    assert_eq!(parsed.has_do_bit(), opt.has_do_bit());
    assert_eq!(parsed.options.len(), opt.options.len());
}

#[test]
fn test_check_source_local() {
    let handler = Edns0Handler::new();
    let mac = MacAddress::from_bytes([0x00, 0x11, 0x22, 0x33, 0x44, 0x55]);
    let option = Edns0Option::Mac { address: mac };

    let local_source =
        SocketAddr { ip: IpAddr::V4(Ipv4Addr::new(192, 168, 1, 100)), port: 12345 };
    assert!(handler.check_source(&option, &local_source));

    let mut handler_strict = Edns0Handler::new();
    handler_strict.check_source = true;
    let public_source = SocketAddr { ip: IpAddr::V4(Ipv4Addr::new(8, 8, 8, 8)), port: 12345 };
    assert!(!handler_strict.check_source(&option, &public_source));
}

#[test]
fn test_parse_client_subnet_option() {
    let data = vec![
        0x00, 0x01, // IPv4
        24,   // source netmask
        0,    // scope netmask
        192, 0, 2,
    ];

    let option =
        Edns0Option::from_wire_format(EDNS0_OPTION_CLIENT_SUBNET, &data).expect("Failed to parse");

    match option {
        Edns0Option::ClientSubnet { family, source_netmask, scope_netmask, address } => {
            assert_eq!(family, 1);
            assert_eq!(source_netmask, 24);
            assert_eq!(scope_netmask, 0);
            assert!(matches!(address, IpAddr::V4(_)));
        }
        _ => panic!("Wrong option type"),
    }
}

#[test]
fn test_parse_extended_error_option() {
    let mut data = vec![0x00, 0x06];
    data.extend_from_slice(b"signature expired");

    let option = Edns0Option::from_wire_format(15, &data).expect("Failed to parse EDE");

    match option {
        Edns0Option::ExtendedError { info_code, extra_text } => {
            assert_eq!(info_code, 6);
            assert_eq!(extra_text, "signature expired");
        }
        _ => panic!("Wrong option type"),
    }
}

fn samples() -> Vec<Edns0Option> {
    vec![
        Edns0Option::ClientSubnet {
            family: 1,
            source_netmask: 20,
            scope_netmask: 3,
            address: IpAddr::V4(Ipv4Addr::new(192, 0, 2, 0)),
        },
        Edns0Option::ClientSubnet {
            family: 2,
            source_netmask: 128,
            scope_netmask: 0,
            address: IpAddr::V6(Ipv6Addr::new(1, 2, 3, 4, 5, 6, 7, 8)),
        },
        Edns0Option::Cookie { client: vec![1; 8], server: None },
        Edns0Option::Cookie { client: vec![1; 8], server: Some(vec![2; 32]) },
        Edns0Option::ExtendedError { info_code: 7, extra_text: "caf\u{e9} \u{1F600}".to_string() },
        Edns0Option::Padding { length: 5 },
        Edns0Option::Mac { address: MacAddress::from_bytes([1, 2, 3, 4, 5, 6]) },
        Edns0Option::NomDeviceId { device_id: vec![1, 2] },
        Edns0Option::NomCpeId { cpe_id: vec![] },
        Edns0Option::Umbrella { device_id: vec![9] },
        Edns0Option::Unknown { code: 4242, data: vec![0, 1, 2] },
    ]
}

#[test]
fn options_are_read_back() {
    for option in samples() {
        let data = option.to_wire_format().unwrap();
        assert_eq!(option.data_len(), data.len());
        assert_eq!(option.serialize().unwrap(), (option.code(), data.clone()));
        assert_eq!(Edns0Option::from_wire_format(option.code(), &data).unwrap(), option);
    }
}

#[test]
fn records_are_read_back() {
    let mut opt = OptRecord::new();
    opt.extended_rcode = 1;
    opt.set_do_bit(true);
    for option in samples() {
        opt.add_option(option);
    }
    let mut wire = opt.to_wire_format().unwrap();
    let size = wire.len();
    assert_eq!(opt.wire_size(), size);
    wire.extend_from_slice(&[9, 9]);
    let (parsed, consumed) = OptRecord::from_wire_format(&wire).unwrap();
    assert_eq!(consumed, size);
    assert_eq!(parsed, opt);
}

#[test]
fn a_record_is_exact_on_the_wire() {
    let mut opt = OptRecord::new();
    opt.set_do_bit(true);
    opt.add_option(Edns0Option::DnssecOk);
    opt.add_option(Edns0Option::Padding { length: 2 });
    assert_eq!(
        opt.to_wire_format().unwrap(),
        vec![0, 0, 41, 4, 208, 0, 0, 0x80, 0, 0, 6, 0, 12, 0, 2, 0, 0]
    );
}

#[test]
fn texts_that_are_not_utf8_are_replaced() {
    let option = Edns0Option::from_wire_format(EDNS0_OPTION_EDE, &[0, 1, b'a', 0xff, b'b']).unwrap();
    assert_eq!(
        option,
        Edns0Option::ExtendedError { info_code: 1, extra_text: "a\u{FFFD}b".to_string() }
    );
}

fn reason(r: Result<Edns0Option, DnsmasqError>) -> String {
    match r {
        Err(DnsmasqError::Dns(DnsError::Edns0Failed { reason })) => reason,
        _ => panic!("expected an error"),
    }
}

#[test]
fn malformed_options_are_told() {
    let read = |code: u16, data: &[u8]| reason(Edns0Option::from_wire_format(code, data));
    assert_eq!(read(EDNS0_OPTION_CLIENT_SUBNET, &[0]), "Client subnet option too short: 1 bytes");
    assert_eq!(
        read(EDNS0_OPTION_CLIENT_SUBNET, &[0, 1, 0, 0, 1, 2, 3, 4, 5]),
        "IPv4 client subnet address too long: 5 bytes"
    );
    assert_eq!(
        read(EDNS0_OPTION_CLIENT_SUBNET, &[0, 2, 0, 0, 1, 2, 3, 4, 5, 6, 7, 8, 9, 0, 1, 2, 3, 4, 5, 6, 7]),
        "IPv6 client subnet address too long: 17 bytes"
    );
    assert_eq!(
        read(EDNS0_OPTION_CLIENT_SUBNET, &[0, 3, 0, 0]),
        "Unsupported address family in client subnet: 3"
    );
    assert_eq!(read(EDNS0_OPTION_COOKIE, &[0; 7]), "Cookie option too short: 7 bytes (minimum 8)");
    assert_eq!(
        read(EDNS0_OPTION_COOKIE, &[0; 15]),
        "Invalid server cookie length: 7 bytes (must be 8-32)"
    );
    assert_eq!(read(EDNS0_OPTION_EDE, &[0]), "Extended error option too short: 1 bytes");
    assert_eq!(
        read(EDNS0_OPTION_MAC, &[0; 5]),
        "Invalid MAC address length: 5 bytes (expected 6)"
    );
}

#[test]
fn malformed_records_are_told() {
    let read = |data: &[u8]| match OptRecord::from_wire_format(data) {
        Err(DnsmasqError::Dns(DnsError::Edns0Failed { reason })) => reason,
        _ => panic!("expected an error"),
    };
    assert_eq!(read(&[]), "OPT record must have empty (root) name");
    assert_eq!(read(&[0, 0, 41]), "OPT record too short: 3 bytes");
    assert_eq!(read(&[0, 0, 1, 0, 0, 0, 0, 0, 0, 0, 0]), "Expected OPT type 41, got 1");
    assert_eq!(
        read(&[0, 0, 41, 0, 0, 0, 0, 0, 0, 0, 5]),
        "OPT RDATA truncated: expected 5 bytes, got 0"
    );
    assert_eq!(
        read(&[0, 0, 41, 0, 0, 0, 0, 0, 0, 0, 1, 9]),
        "Truncated EDNS0 option header"
    );
    assert_eq!(
        read(&[0, 0, 41, 0, 0, 0, 0, 0, 0, 0, 5, 0, 12, 0, 2, 1]),
        "EDNS0 option 12 data truncated: expected 2 bytes, got 1"
    );
}

#[test]
fn options_that_do_not_parse_are_kept() {
    let wire = [0, 0, 41, 0, 0, 0, 0, 0, 0, 0, 5, 0, 15, 0, 1, 7];
    let (opt, _) = OptRecord::from_wire_format(&wire).unwrap();
    assert_eq!(opt.options, vec![Edns0Option::Unknown { code: 15, data: vec![7] }]);
    assert_eq!(opt.to_wire_format().unwrap(), wire);
}

#[test]
fn handlers_add_and_find_records() {
    let handler = Edns0Handler::default();
    let mut additional = vec![vec![0, 0, 1, 0, 1], vec![0]];
    assert_eq!(handler.find_opt_record(&additional), None);
    let mut opt = OptRecord::default();
    handler.set_do_bit(&mut opt);
    handler.add_extended_error(&mut opt, 3, "x").unwrap();
    handler.add_mac_option(&mut opt, MacAddress::from_bytes([1; 6])).unwrap();
    handler.add_client_subnet(&mut opt, IpAddr::V4(Ipv4Addr::new(1, 2, 3, 4)), 32).unwrap();
    assert!(opt.has_do_bit());
    assert_eq!(opt.options.len(), 3);
    let wire = opt.to_wire_format().unwrap();
    assert_eq!(handler.add_opt_record(&mut additional, opt).unwrap(), 2);
    assert_eq!(additional[2], wire);
    assert_eq!(handler.find_opt_record(&additional), Some(2));
}

#[test]
fn netmasks_must_fit_the_address() {
    let handler = Edns0Handler::new();
    let mut opt = OptRecord::new();
    let text = |r: Result<(), DnsmasqError>| match r {
        Err(DnsmasqError::Dns(DnsError::Edns0Failed { reason })) => reason,
        _ => panic!("expected an error"),
    };
    let v4 = IpAddr::V4(Ipv4Addr::new(1, 2, 3, 4));
    let v6 = IpAddr::V6(Ipv6Addr::new(1, 0, 0, 0, 0, 0, 0, 1));
    assert_eq!(text(handler.add_client_subnet(&mut opt, v4, 33)), "Invalid IPv4 netmask: 33");
    assert_eq!(text(handler.add_client_subnet(&mut opt, v6, 129)), "Invalid IPv6 netmask: 129");
    assert_eq!(opt.options.len(), 0);
}

#[test]
fn device_options_are_checked() {
    let mut strict = Edns0Handler::new();
    strict.check_source = true;
    let public = SocketAddr { ip: IpAddr::V4(Ipv4Addr::new(8, 8, 8, 8)), port: 1 };
    let local = SocketAddr { ip: IpAddr::V6(Ipv6Addr::new(0xfe80, 0, 0, 0, 0, 0, 0, 1)), port: 1 };
    let device = [
        EDNS0_OPTION_MAC,
        EDNS0_OPTION_NOMDEVICEID,
        EDNS0_OPTION_NOMCPEID,
        EDNS0_OPTION_UMBRELLA,
    ];
    for option in samples() {
        let identifies = device.contains(&option.code());
        assert_eq!(strict.check_source(&option, &public), !identifies);
        assert!(strict.check_source(&option, &local));
        assert!(Edns0Handler::new().check_source(&option, &public));
    }
}

#[test]
fn options_are_described() {
    let texts: Vec<String> = samples().iter().map(|o| o.to_text()).collect();
    assert_eq!(texts[0], "CLIENT-SUBNET: family=1 source=20 scope=3 addr=192.0.2.0");
    assert_eq!(texts[2], "COOKIE: client=[1, 1, 1, 1, 1, 1, 1, 1]");
    assert_eq!(texts[4], "EDE: code=7 text='caf\u{e9} \u{1F600}'");
    assert_eq!(texts[5], "PADDING: 5 bytes");
    assert_eq!(texts[6], "MAC: 01:02:03:04:05:06");
    assert_eq!(texts[7], "NOMINUM-DEVICE: [1, 2]");
    assert_eq!(texts[8], "NOMINUM-CPE: []");
    assert_eq!(texts[9], "UMBRELLA: [9]");
    assert_eq!(texts[10], "UNKNOWN(4242): 3 bytes");
    assert_eq!(Edns0Option::DnssecOk.to_text(), "DNSSEC-OK");
    assert_eq!(EDNS0_OPTION_PADDING, 12);
}
