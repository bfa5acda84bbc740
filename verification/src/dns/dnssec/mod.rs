//! DNSSEC: key storage, signature checks, trust anchors and the validation of answers.
pub mod blockdata;
pub mod canonical;
pub mod chain;
pub mod crypto;
pub mod response;
pub mod trust_anchors;
pub mod validator;
