//! Automatic IPv6 prefix delegation for a gateway with one upstream (WAN)
//! interface and one or more downstream (LAN) interfaces.
//!
//! The library holds the verified logic: address classification, interface
//! discovery decisions, IPv6 address text parsing, subnet prefix derivation,
//! the route model, and the reconfiguration plan of the controller.
pub mod command;
pub mod error;
pub mod interface;
pub mod ipv6;
pub mod prefix;
pub mod route;
pub mod router;
pub mod text;
