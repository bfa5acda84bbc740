//! The DNS side: EDNS0, names, records, the cache, authoritative zones and DNSSEC.
pub mod auth;
pub mod cache;
pub mod edns0;
pub mod message;
pub mod name;
pub mod record;
pub mod reverse;
pub mod dnssec;
