use dnsmasq::dhcp::v6::constants::{
    MSG_ADVERTISE, MSG_REPLY, MSG_REQUEST, MSG_SOLICIT, OPTION_CLIENT_ID, OPTION_IA_NA, OPTION_ORO,
    OPTION_PREFERENCE, OPTION_SERVER_ID,
};
use dnsmasq::dhcp::v6::message::DhcpV6Message;
use dnsmasq::error::DhcpError;

#[test]
fn test_new_message() {
    let xid = [0x12, 0x34, 0x56];
    let msg = DhcpV6Message::new(MSG_SOLICIT, xid);

    assert_eq!(msg.message_type(), MSG_SOLICIT);
    assert_eq!(msg.transaction_id(), &[0x12, 0x34, 0x56]);
    assert_eq!(msg.options().len(), 0);
}

#[test]
fn test_parse_minimal_message() {
    let packet = vec![0x01, 0x12, 0x34, 0x56];

    let msg = DhcpV6Message::from_bytes(&packet).unwrap();
    assert_eq!(msg.message_type(), 0x01);
    assert_eq!(msg.transaction_id(), &[0x12, 0x34, 0x56]);
    assert_eq!(msg.options().len(), 0);
}

#[test]
fn test_parse_message_with_options() {
    let packet = vec![
        0x01, // SOLICIT
        0x12, 0x34, 0x56, // transaction
        0x00, 0x01, // CLIENT_ID
        0x00, 0x04, //
        0xAA, 0xBB, 0xCC, 0xDD, //
        0x00, 0x06, // ORO
        0x00, 0x02, //
        0x00, 0x17,
    ];

    let msg = DhcpV6Message::from_bytes(&packet).unwrap();
    assert_eq!(msg.message_type(), 0x01);
    assert_eq!(msg.transaction_id(), &[0x12, 0x34, 0x56]);

    let client_id = msg.get_option(OPTION_CLIENT_ID).unwrap();
    assert_eq!(client_id, &[0xAA, 0xBB, 0xCC, 0xDD]);

    let oro = msg.get_option(OPTION_ORO).unwrap();
    assert_eq!(oro, &[0x00, 0x17]);
}

#[test]
fn test_parse_packet_too_short() {
    let packet = vec![0x01, 0x12, 0x34];

    let result = DhcpV6Message::from_bytes(&packet);
    assert!(result.is_err());
    match result {
        Err(DhcpError::ParseFailed { reason }) => {
            assert!(reason.contains("too short"));
        }
        _ => panic!("Expected ParseFailed error"),
    }
}

#[test]
fn test_to_bytes_minimal() {
    let xid = [0x12, 0x34, 0x56];
    let msg = DhcpV6Message::new(MSG_ADVERTISE, xid);

    let bytes = msg.to_bytes().unwrap();
    assert_eq!(bytes.len(), 4);
    assert_eq!(bytes[0], MSG_ADVERTISE);
    assert_eq!(&bytes[1..4], &[0x12, 0x34, 0x56]);
}

#[test]
fn test_to_bytes_with_options() {
    let xid = [0x12, 0x34, 0x56];
    let mut msg = DhcpV6Message::new(MSG_REPLY, xid);

    msg.add_option(OPTION_SERVER_ID, vec![0xAA, 0xBB]);
    msg.add_option(OPTION_PREFERENCE, vec![255]);

    let bytes = msg.to_bytes().unwrap();

    assert_eq!(bytes[0], MSG_REPLY);
    assert_eq!(&bytes[1..4], &[0x12, 0x34, 0x56]);

    let parsed = DhcpV6Message::from_bytes(&bytes).unwrap();
    assert_eq!(parsed.get_option(OPTION_SERVER_ID).unwrap(), &[0xAA, 0xBB]);
    assert_eq!(parsed.get_option(OPTION_PREFERENCE).unwrap(), &[255]);
}

#[test]
fn test_round_trip() {
    let xid = [0xAB, 0xCD, 0xEF];
    let mut original = DhcpV6Message::new(MSG_REQUEST, xid);
    original.add_option(OPTION_CLIENT_ID, vec![1, 2, 3, 4]);
    original.add_option(OPTION_IA_NA, vec![5, 6, 7, 8, 9, 10]);

    let bytes = original.to_bytes().unwrap();
    let parsed = DhcpV6Message::from_bytes(&bytes).unwrap();

    assert_eq!(parsed.message_type(), MSG_REQUEST);
    assert_eq!(parsed.transaction_id(), &[0xAB, 0xCD, 0xEF]);
    assert_eq!(parsed.get_option(OPTION_CLIENT_ID).unwrap(), &[1, 2, 3, 4]);
    assert_eq!(parsed.get_option(OPTION_IA_NA).unwrap(), &[5, 6, 7, 8, 9, 10]);
}

#[test]
fn test_add_option() {
    let mut msg = DhcpV6Message::new(MSG_SOLICIT, [0; 3]);

    msg.add_option(OPTION_CLIENT_ID, vec![1, 2, 3]);
    assert_eq!(msg.get_option(OPTION_CLIENT_ID).unwrap(), &[1, 2, 3]);

    msg.add_option(OPTION_CLIENT_ID, vec![4, 5, 6]);
    assert_eq!(msg.get_option(OPTION_CLIENT_ID).unwrap(), &[4, 5, 6]);
}

#[test]
fn test_remove_option() {
    let mut msg = DhcpV6Message::new(MSG_SOLICIT, [0; 3]);

    msg.add_option(OPTION_CLIENT_ID, vec![1, 2, 3]);
    assert!(msg.get_option(OPTION_CLIENT_ID).is_some());

    let removed = msg.remove_option(OPTION_CLIENT_ID);
    assert_eq!(removed, Some(vec![1, 2, 3]));
    assert!(msg.get_option(OPTION_CLIENT_ID).is_none());

    let removed = msg.remove_option(OPTION_SERVER_ID);
    assert_eq!(removed, None);
}

#[test]
fn test_transaction_id_preservation() {
    let xid = [0xFF, 0xAA, 0x55];
    let msg = DhcpV6Message::new(MSG_SOLICIT, xid);

    let bytes = msg.to_bytes().unwrap();
    let parsed = DhcpV6Message::from_bytes(&bytes).unwrap();

    assert_eq!(parsed.transaction_id(), &[0xFF, 0xAA, 0x55]);
}

#[test]
fn bytes_of_one_option_are_exact() {
    let mut msg = DhcpV6Message::new(MSG_REPLY, [1, 2, 3]);
    msg.add_option(0x0102, vec![9, 8, 7]);
    assert_eq!(msg.to_bytes().unwrap(), vec![7, 1, 2, 3, 0x01, 0x02, 0x00, 0x03, 9, 8, 7]);
}

#[test]
fn an_option_that_is_cut_short_does_not_parse() {
    let cut_data = vec![1, 1, 2, 3, 0, 1, 0, 9, 0xAA];
    assert!(matches!(DhcpV6Message::from_bytes(&cut_data), Err(DhcpError::ParseFailed { .. })));
    let cut_header = vec![1, 1, 2, 3, 0, 1];
    assert!(matches!(DhcpV6Message::from_bytes(&cut_header), Err(DhcpError::ParseFailed { .. })));
}

#[test]
fn the_last_of_two_equal_options_counts() {
    let packet = vec![1, 1, 2, 3, 0, 7, 0, 1, 5, 0, 7, 0, 1, 6];
    let msg = DhcpV6Message::from_bytes(&packet).unwrap();
    assert_eq!(msg.get_option(OPTION_PREFERENCE).unwrap(), &[6]);
}

#[test]
fn options_are_listed_once_each() {
    let mut msg = DhcpV6Message::new(MSG_REPLY, [1, 2, 3]);
    msg.add_option(1, vec![10]);
    msg.add_option(2, vec![20, 21]);
    msg.add_option(3, vec![]);
    let mut listed = msg.options();
    listed.sort();
    assert_eq!(listed, vec![(1, vec![10]), (2, vec![20, 21]), (3, vec![])]);
}

#[test]
fn many_options_are_read_back() {
    let mut msg = DhcpV6Message::new(MSG_REQUEST, [9, 0, 255]);
    for code in 0..200 {
        msg.add_option(code * 300, vec![code as u8; usize::from(code) * 7]);
    }
    msg.add_option(0xffff, vec![3; 0xffff]);
    let bytes = msg.to_bytes().unwrap();
    assert_eq!(DhcpV6Message::from_bytes(&bytes).unwrap(), msg);

    // A length that does not fit its field is cut off.
    let mut long = DhcpV6Message::new(MSG_REQUEST, [0; 3]);
    long.add_option(1, vec![0; 0x1_0000]);
    let bytes = long.to_bytes().unwrap();
    assert_eq!(bytes.len(), 8 + 0x1_0000);
    assert_eq!(&bytes[4..8], &[0, 1, 0, 0]);
}
