//! Canonical-request construction for AWS Signature Version 4 request signing.

pub mod encode;
pub mod order;
pub mod error;
pub mod headers;
pub mod query;
pub mod request;
pub mod canonical;
