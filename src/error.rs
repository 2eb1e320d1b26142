//! The failures that the router can meet.
use vstd::prelude::*;

verus! {

/// Every failure kind, as a closed set.
#[derive(Clone, Copy, Debug, PartialEq, Eq, Structural)]
pub enum RouterError {
    /// The interface query failed or its output could not be decoded.
    QueryError,
    /// Fewer than two interfaces remain once the loopback one is left out.
    InsufficientInterfaces,
    /// No interface holds a qualifying global IPv6 address.
    NoWanFound,
    /// More than one interface holds a qualifying global IPv6 address.
    MultipleWanFound,
    /// There are more LAN interfaces than the delegated prefix has subnets.
    SubnetBudgetExceeded,
    /// The configured delegation length is outside `48..64`.
    InvalidPrefixLen,
    /// The WAN interface holds no qualifying global IPv6 address.
    NoGlobalAddress,
    /// A daemon could not be launched or stopped.
    DaemonLifecycleError,
}

} // verus!
