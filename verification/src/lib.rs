//! A verified core for an ICMP ping diagnostic tool: the RFC 1071 Internet
//! checksum, DNS query encoding and response decoding (with
//! compression-pointer names), the ICMP echo packet model, the IPv4 reply
//! header view, resolver-configuration parsing, and the probe engine's
//! decision logic. Sockets, clocks and files stay with the caller; the
//! engine consumes their outcomes as plain events.

pub mod addr;
pub mod bytes;
pub mod checksum;
pub mod dns;
pub mod dns_name;
pub mod engine;
pub mod icmp;
pub mod packet;
pub mod resolver;
mod rng;

pub use checksum::checksum;
