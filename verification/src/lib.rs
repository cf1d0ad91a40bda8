//! Verified core of an obfs4 / WebTunnel relay.
//!
//! Everything the relay decides stands here, with its contract: which
//! connections are let in ([`admission`], [`ratelimit`]), what a connection
//! does next ([`conn`], [`http`]), which WebTunnel paths are valid
//! ([`webtunnel`]), how the upstream server is reached and what it has to prove
//! ([`upstream`]), where the relay's identity comes from ([`identity`]) and what
//! the environment configures ([`config`], [`addr`], [`notation`]).

pub mod addr;
pub mod admission;
pub mod clock;
pub mod config;
pub mod conn;
pub mod digest;
pub mod http;
pub mod identity;
pub mod ipmap;
pub mod notation;
pub mod ratelimit;
pub mod text;
pub mod upstream;
pub mod webtunnel;
