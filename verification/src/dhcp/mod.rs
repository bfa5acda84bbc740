//! DHCP.
pub mod v6;
