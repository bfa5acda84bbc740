use dnsmasq::dhcp::v6::constants;
use dnsmasq::dhcp::v6::options::OptionBuilder;
use dnsmasq::error::DhcpError;
use dnsmasq::types::Ipv6Addr;

#[test]
fn test_new_option_builder() {
    let builder = OptionBuilder::new();
    assert_eq!(builder.buffer.len(), 0);
    assert_eq!(builder.container_stack.len(), 0);
}

#[test]
fn test_put_u8() {
    let mut builder = OptionBuilder::new();
    builder.put_u8(42).unwrap();
    assert_eq!(builder.buffer, vec![42]);
}

#[test]
fn test_put_u16_big_endian() {
    let mut builder = OptionBuilder::new();
    builder.put_u16(0x1234).unwrap();
    assert_eq!(builder.buffer, vec![0x12, 0x34]);
}

#[test]
fn test_put_u32_big_endian() {
    let mut builder = OptionBuilder::new();
    builder.put_u32(0x12345678).unwrap();
    assert_eq!(builder.buffer, vec![0x12, 0x34, 0x56, 0x78]);
}

#[test]
fn test_put_ipv6_addr() {
    let mut builder = OptionBuilder::new();
    let addr = Ipv6Addr::new(0x2001, 0xdb8, 0, 0, 0, 0, 0, 1);
    builder.put_ipv6_addr(&addr).unwrap();
    assert_eq!(builder.buffer.len(), 16);
    assert_eq!(&builder.buffer[0..2], &[0x20, 0x01]);
    assert_eq!(&builder.buffer[2..4], &[0x0d, 0xb8]);
}

#[test]
fn test_simple_option() {
    let mut builder = OptionBuilder::new();
    builder.put_preference(255).unwrap();
    let result = builder.build();

    assert_eq!(result.len(), 5);
    assert_eq!(&result[0..2], &constants::OPTION_PREFERENCE.to_be_bytes());
    assert_eq!(&result[2..4], &1u16.to_be_bytes());
    assert_eq!(result[4], 255);
}

#[test]
fn test_nested_option() {
    let mut builder = OptionBuilder::new();
    let addr = Ipv6Addr::new(0x2001, 0xdb8, 0, 0, 0, 0, 0, 1);

    builder
        .put_ia_na(0x12345678, 3600, 7200, |b: &mut OptionBuilder| {
            b.put_ia_addr(&addr, 7200, 14400, |_: &mut OptionBuilder| Ok(()))?;
            Ok(())
        })
        .unwrap();

    let result = builder.build();

    assert_eq!(&result[0..2], &constants::OPTION_IA_NA.to_be_bytes());
    assert!(result.len() > 20);
}

#[test]
fn test_container_stack_error() {
    let mut builder = OptionBuilder::new();
    let result = builder.end_container();
    assert!(result.is_err());
}

#[test]
fn nested_option_is_exact() {
    let mut builder = OptionBuilder::new();
    let addr = Ipv6Addr::new(0x2001, 0xdb8, 0, 0, 0, 0, 0, 1);
    builder
        .put_ia_na(0x01020304, 5, 6, |b: &mut OptionBuilder| {
            b.put_ia_addr(&addr, 7, 8, |_: &mut OptionBuilder| Ok(()))
        })
        .unwrap();
    let mut want = vec![0, 3, 0, 40, 1, 2, 3, 4, 0, 0, 0, 5, 0, 0, 0, 6, 0, 5, 0, 24];
    want.extend_from_slice(&[0x20, 0x01, 0x0d, 0xb8, 0, 0, 0, 0, 0, 0, 0, 0, 0, 0, 0, 1]);
    want.extend_from_slice(&[0, 0, 0, 7, 0, 0, 0, 8]);
    assert_eq!(builder.build(), want);
}

#[test]
fn an_error_inside_an_association_comes_out() {
    let mut builder = OptionBuilder::new();
    let result = builder.put_ia_ta(1, |b: &mut OptionBuilder| {
        b.put_fqdn(0, &"x".repeat(64))
    });
    assert!(matches!(result, Err(DhcpError::V6ProtocolError { .. })));
}

#[test]
fn prefix_delegation_is_exact() {
    let mut builder = OptionBuilder::new();
    let prefix = Ipv6Addr::new(0x2001, 0xdb8, 1, 0, 0, 0, 0, 0);
    builder
        .put_ia_pd(9, 1, 2, |b: &mut OptionBuilder| {
            b.put_ia_prefix(&prefix, 56, 3, 4, |_: &mut OptionBuilder| Ok(()))
        })
        .unwrap();
    let mut want = vec![0, 25, 0, 41, 0, 0, 0, 9, 0, 0, 0, 1, 0, 0, 0, 2, 0, 26, 0, 25];
    want.extend_from_slice(&[0, 0, 0, 3, 0, 0, 0, 4, 56]);
    want.extend_from_slice(&[0x20, 0x01, 0x0d, 0xb8, 0, 1, 0, 0, 0, 0, 0, 0, 0, 0, 0, 0]);
    assert_eq!(builder.build(), want);
}

#[test]
fn closing_after_opening_gives_the_option() {
    let mut builder = OptionBuilder::new();
    builder.start_container(0x0203).unwrap();
    assert_eq!(builder.container_stack.len(), 1);
    builder.put_bytes(&[1, 2, 3]).unwrap();
    builder.end_container().unwrap();
    assert_eq!(builder.build(), vec![2, 3, 0, 3, 1, 2, 3]);
}

#[test]
fn simple_options_are_exact() {
    let mut b = OptionBuilder::default();
    b.put_client_id(&[1, 2]).unwrap();
    b.put_server_id(&[3]).unwrap();
    b.put_option_request(&[23, 24]).unwrap();
    b.put_elapsed_time(0x0102).unwrap();
    b.put_rapid_commit().unwrap();
    b.put_status_code(2, "No").unwrap();
    assert_eq!(
        b.build(),
        vec![
            0, 1, 0, 2, 1, 2, // client
            0, 2, 0, 1, 3, // server
            0, 6, 0, 4, 0, 23, 0, 24, // requested options
            0, 8, 0, 2, 1, 2, // elapsed time
            0, 14, 0, 0, // rapid commit
            0, 13, 0, 4, 0, 2, b'N', b'o', // status
        ]
    );
}

#[test]
fn class_options_are_exact() {
    let mut b = OptionBuilder::new();
    b.put_user_class(&["ab", ""]).unwrap();
    b.put_vendor_class(9, &["c"]).unwrap();
    assert_eq!(
        b.build(),
        vec![0, 15, 0, 6, 0, 2, b'a', b'b', 0, 0, 0, 16, 0, 7, 0, 0, 0, 9, 0, 1, b'c']
    );
}

#[test]
fn server_lists_are_exact() {
    let addr = Ipv6Addr::new(0xfe80, 0, 0, 0, 0, 0, 0, 2);
    let mut octets = vec![0xfe, 0x80];
    octets.extend_from_slice(&[0; 13]);
    octets.push(2);
    let mut b = OptionBuilder::new();
    b.put_dns_servers(&[addr]).unwrap();
    b.put_ntp_server(&[addr]).unwrap();
    let mut want = vec![0, 23, 0, 16];
    want.extend_from_slice(&octets);
    want.extend_from_slice(&constants::OPTION_NTP_SERVER.to_be_bytes());
    want.extend_from_slice(&[0, 16]);
    want.extend_from_slice(&octets);
    assert_eq!(b.build(), want);
}

#[test]
fn names_are_exact() {
    let mut b = OptionBuilder::new();
    b.put_domain_list(&["a.bc", "d"]).unwrap();
    b.put_fqdn(1, "x.yz.").unwrap();
    let mut want = vec![0, 24, 0, 9, 1, b'a', 2, b'b', b'c', 0, 1, b'd', 0];
    want.extend_from_slice(&constants::OPTION_FQDN.to_be_bytes());
    want.extend_from_slice(&[0, 7, 1, 1, b'x', 2, b'y', b'z', 0]);
    assert_eq!(b.build(), want);
}

#[test]
fn long_labels_are_refused() {
    let long = "x".repeat(64);
    let mut b = OptionBuilder::new();
    match b.put_domain_list(&[long.as_str()]) {
        Err(DhcpError::V6ProtocolError { reason }) => {
            assert_eq!(reason, format!("Domain label too long: {}", long));
        }
        _ => panic!("expected an error"),
    }
    let mut b = OptionBuilder::new();
    match b.put_fqdn(0, &long) {
        Err(DhcpError::V6ProtocolError { reason }) => {
            assert_eq!(reason, format!("FQDN label too long: {}", long));
        }
        _ => panic!("expected an error"),
    }
}

#[test]
fn long_classes_are_refused() {
    let long = "x".repeat(65536);
    let mut b = OptionBuilder::new();
    assert!(matches!(b.put_user_class(&[long.as_str()]), Err(DhcpError::V6ProtocolError { .. })));
    let mut b = OptionBuilder::new();
    match b.put_vendor_class(1, &[long.as_str()]) {
        Err(DhcpError::V6ProtocolError { reason }) => {
            assert_eq!(reason, "Vendor class too long: 65536 bytes");
        }
        _ => panic!("expected an error"),
    }
}

#[test]
fn options_stand_in_the_order_of_the_calls() {
    assert!(OptionBuilder::new().build().is_empty());
    let mut b = OptionBuilder::new();
    b.put_server_id(&[7, 7, 7]).unwrap();
    b.put_preference(255).unwrap();
    b.put_client_id(&[]).unwrap();
    b.put_preference(1).unwrap();
    let bytes = b.build();
    let mut options: Vec<(u16, Vec<u8>)> = vec![];
    let mut at = 0;
    while at < bytes.len() {
        let code = u16::from(bytes[at]) * 256 + u16::from(bytes[at + 1]);
        let len = usize::from(bytes[at + 2]) * 256 + usize::from(bytes[at + 3]);
        options.push((code, bytes[at + 4..at + 4 + len].to_vec()));
        at += 4 + len;
    }
    assert_eq!(at, bytes.len());
    let want = vec![(2, vec![7, 7, 7]), (7, vec![255]), (1, vec![]), (7, vec![1])];
    assert_eq!(options, want);
}
