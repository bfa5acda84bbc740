//! A verified DHCPv6 and DNS library in the style of dnsmasq.
//!
//! The modules hold the protocol logic of a small network infrastructure daemon: DHCPv6 message
//! handling and address allocation, EDNS0 records, the DNS cache, authoritative zones, and the
//! decisions of DNSSEC validation. Everything that computes is here, with its contract; sockets,
//! files and locks belong to the program around it.
pub mod address_text;
pub mod clock;
pub mod dhcp;
pub mod dns;
pub mod error;
pub mod text;
pub mod types;
pub mod wire;
