//! OS mutations that the controller decides on and the caller carries out.
use vstd::prelude::*;

use crate::ipv6::{ipv6_segments, parse_ipv6};
use crate::text::text_eq;

verus! {

/// What an OS command does.
#[derive(Clone, Copy, Debug, PartialEq, Eq, Structural)]
pub enum CommandKind {
    /// Remove an address (with its /64) from a device.
    DelAddr,
    /// Add a neighbor-discovery proxy entry for an address on a device.
    AddProxy,
    /// Remove a neighbor-discovery proxy entry for an address on a device.
    DelProxy,
    /// Remove the default route via a gateway on a device.
    DelRoute,
}

/// One OS mutation: `address` is an address, or a gateway for `DelRoute`.
#[derive(Debug)]
pub struct OsCommand {
    pub kind: CommandKind,
    pub address: String,
    pub dev: String,
}

/// A command as plain values.
pub open spec fn cmd(kind: CommandKind, address: Seq<char>, dev: Seq<char>) -> (CommandKind, Seq<char>, Seq<char>) {
    (kind, address, dev)
}

/// Commands as plain values.
pub open spec fn cmds_view(s: Seq<OsCommand>) -> Seq<(CommandKind, Seq<char>, Seq<char>)> {
    s.map_values(|c: OsCommand| (c.kind, c.address@, c.dev@))
}

/// One entry of the IPv6 route listing of a device.
#[derive(Debug)]
pub struct RouteEntry {
    /// Destination, `default` for the default route.
    pub dst: String,
    pub gateway: Option<String>,
}

/// An IPv6 address text in the locally-assigned range `fd00::/8`: its first
/// byte is `0xfd`.
pub open spec fn in_ula_range(t: Seq<char>) -> bool {
    &&& ipv6_segments(t) is Some
    &&& ipv6_segments(t).unwrap()[0] / 256 == 0xfd
}

/// A default route through a locally-assigned gateway (`fd00::/8`).
pub open spec fn is_ula_default(e: RouteEntry) -> bool {
    &&& e.dst@ == seq!['d', 'e', 'f', 'a', 'u', 'l', 't']
    &&& e.gateway is Some
    &&& in_ula_range(e.gateway.unwrap()@)
}

/// The removals for the locally-assigned default routes of `routes`, in order.
pub open spec fn ula_removals(dev: Seq<char>, routes: Seq<RouteEntry>) -> Seq<(CommandKind, Seq<char>, Seq<char>)>
    decreases routes.len(),
{
    if routes.len() == 0 {
        Seq::empty()
    } else {
        let rest = ula_removals(dev, routes.drop_last());
        if is_ula_default(routes.last()) {
            rest.push(cmd(CommandKind::DelRoute, routes.last().gateway.unwrap()@, dev))
        } else {
            rest
        }
    }
}

fn is_ula_default_route(e: &RouteEntry) -> (r: bool)
    ensures
        r == is_ula_default(*e),
{
    proof {
        reveal_strlit("default");
        assert("default"@ =~= seq!['d', 'e', 'f', 'a', 'u', 'l', 't']);
    }
    if !text_eq(e.dst.as_str(), "default") {
        return false;
    }
    match &e.gateway {
        Some(g) => match parse_ipv6(g.as_str()) {
            Some(s) => s[0] / 256 == 0xfd,
            None => false,
        },
        None => false,
    }
}

/// The removals of the default routes of device `ifname` whose gateway is
/// a locally-assigned address (`fd00::/8`), which would shadow the route of
/// the delegated prefix.
pub fn del_ula_route(ifname: &str, routes: &Vec<RouteEntry>) -> (r: Vec<OsCommand>)
    ensures
        cmds_view(r@) == ula_removals(ifname@, routes@),
{
    let mut v: Vec<OsCommand> = Vec::new();
    let mut i: usize = 0;
    while i < routes.len()
        invariant
            i <= routes@.len(),
            cmds_view(v@) == ula_removals(ifname@, routes@.subrange(0, i as int)),
        decreases routes@.len() - i,
    {
        assert(routes@.subrange(0, i + 1).drop_last() =~= routes@.subrange(0, i as int));
        let e = &routes[i];
        if is_ula_default_route(e) {
            let g = e.gateway.as_ref().unwrap().clone();
            v.push(OsCommand { kind: CommandKind::DelRoute, address: g, dev: ifname.to_owned() });
            assert(cmds_view(v@) =~= ula_removals(ifname@, routes@.subrange(0, i + 1)));
        } else {
            assert(cmds_view(v@) =~= ula_removals(ifname@, routes@.subrange(0, i + 1)));
        }
        i = i + 1;
    }
    assert(routes@.subrange(0, routes@.len() as int) =~= routes@);
    v
}

} // verus!
