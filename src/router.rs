//! The controller's decisions: whether the WAN address changed, and what a
//! reconfiguration removes and recomputes.
use vstd::prelude::*;

use crate::command::{cmds_view, OsCommand};
use crate::error::RouterError;
use crate::interface::{global_text, Interface};
use crate::ipv6::ipv6_segments;
use crate::prefix::baseline_of;
use crate::route::{cleanup_plan, Route};

verus! {

/// Seconds between two checks of the WAN address.
pub const POLL_INTERVAL_SECS: u64 = 2;

/// Seconds the daemons get to settle: after a launch, and while the
/// expiring announcement is sent.
pub const SETTLE_SECS: u64 = 2;

/// The controller's state: the current route.
#[derive(Debug)]
pub struct Router {
    pub route: Route,
}

impl Router {
    pub open spec fn wf(&self) -> bool {
        self.route.wf()
    }

    /// A controller serving `route`.
    pub fn new(route: Route) -> (r: Router)
        requires
            route.wf(),
        ensures
            r.route == route,
            r.wf(),
    {
        Router { route }
    }

    /// Whether the WAN's global address in a fresh record of it differs, as
    /// text, from the one the route was computed from. Fails when either has
    /// no qualifying global address.
    pub fn wan_check(&self, fresh_wan: &Interface) -> (r: Result<bool, RouterError>)
        ensures
            match r {
                Ok(changed) => {
                    &&& global_text(self.route.wan.1.interface) is Some
                    &&& global_text(*fresh_wan) is Some
                    &&& changed == (global_text(self.route.wan.1.interface) != global_text(*fresh_wan))
                },
                Err(e) => e == RouterError::NoGlobalAddress && (global_text(self.route.wan.1.interface) is None
                    || global_text(*fresh_wan) is None),
            },
    {
        let cached = self.route.wan.1.interface.get_ipv6_global_addr()?;
        let fresh = fresh_wan.get_ipv6_global_addr()?;
        Ok(!crate::text::text_eq(cached.as_str(), fresh.as_str()))
    }

    /// The removals of what the current prefixes left in the OS: the WAN's
    /// global address, and each LAN's proxy entry and global address. They
    /// are carried out before the WAN is queried again, so that the fresh
    /// record no longer holds the old address.
    pub fn cleanup_commands(&self) -> (r: Vec<OsCommand>)
        ensures
            cmds_view(r@) == cleanup_plan(self.route),
    {
        self.route.cleanup_commands()
    }

    /// Recomputes the route from the WAN's fresh record after a change of
    /// its address: new WAN prefix, same LANs in the same order, each with
    /// the prefix its position gives. On failure nothing changes.
    pub fn update(&mut self, fresh_wan: Interface) -> (r: Result<(), RouterError>)
        requires
            old(self).wf(),
        ensures
            match r {
                Ok(()) => {
                    &&& final(self).wf()
                    &&& final(self).route.wan.0 == old(self).route.wan.0
                    &&& final(self).route.wan.1.interface.ifname == old(self).route.wan.1.interface.ifname
                    &&& final(self).route.wan.1.interface.addr_info == fresh_wan.addr_info
                    &&& final(self).route.wan.1.prefix@ == baseline_of(
                        ipv6_segments(global_text(fresh_wan).unwrap()).unwrap(),
                    )
                    &&& final(self).route.lans@.len() == old(self).route.lans@.len()
                    &&& forall|i: int|
                        0 <= i < old(self).route.lans@.len() ==> (#[trigger] final(self).route.lans@[i]).0
                            == old(self).route.lans@[i].0 && final(self).route.lans@[i].1.interface == old(
                            self,
                        ).route.lans@[i].1.interface
                },
                Err(e) => {
                    &&& *final(self) == *old(self)
                    &&& e == RouterError::NoGlobalAddress
                    &&& global_text(fresh_wan) is None
                },
            },
    {
        self.route.update(fresh_wan)
    }
}

} // verus!
