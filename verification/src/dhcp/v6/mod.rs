//! DHCPv6: messages, options, the server's answers and its address pools.
pub mod constants;
pub mod message;
pub mod options;
pub mod pool;
pub mod protocol;
pub mod server;
