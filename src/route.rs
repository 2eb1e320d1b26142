//! The route model: the WAN binding and the LAN bindings with their prefixes.
use vstd::prelude::*;

use crate::command::{cmd, cmds_view, CommandKind, OsCommand};
use crate::error::RouterError;
use crate::interface::{
    global_text, lan_candidates, lemma_global_text_some, non_loopback, wan_candidates, Interface,
};
use crate::ipv6::ipv6_segments;
use crate::prefix::{
    baseline_of, derive_baseline, format_prefix, insert_by_name, keys_sorted, keys_view,
    lan_prefix, lan_prefix_of, names_view, prefix_text, same_members,
};

verus! {

/// An interface with the prefix assigned to it.
#[derive(Debug)]
pub struct InterfaceInfo {
    pub interface: Interface,
    pub prefix: [u16; 4],
}

impl InterfaceInfo {
    /// The prefix as four hexadecimal groups joined by `:`.
    pub fn prefix_str(&self) -> (r: String)
        ensures
            r@ == prefix_text(self.prefix@),
    {
        format_prefix(self.prefix)
    }
}

/// The smallest accepted delegation length.
pub const MIN_PREFIX_LEN: u32 = 48;

/// Delegation lengths must be below this.
pub const MAX_PREFIX_LEN: u32 = 64;

/// The delegation length used when none is configured.
pub const DEFAULT_PREFIX_LEN: u32 = 60;

/// 2 to the power `n`.
pub open spec fn two_pow(n: nat) -> nat
    decreases n,
{
    if n == 0 {
        1
    } else {
        2 * two_pow((n - 1) as nat)
    }
}

/// How many LAN subnets a delegation of length `len` leaves room for.
pub open spec fn subnet_budget(len: int) -> int {
    two_pow((64 - len) as nat) - 1
}

/// A delegation length in `48..64`.
pub open spec fn valid_prefix_len(len: int) -> bool {
    48 <= len < 64
}

proof fn lemma_two_pow_mono(a: nat, b: nat)
    requires
        a <= b,
    ensures
        two_pow(a) <= two_pow(b),
    decreases b,
{
    if a < b {
        lemma_two_pow_mono(a, (b - 1) as nat);
    }
}

/// The number of LAN subnets for a delegation length in `48..64`.
pub fn max_subnet_num(prefix_len: u32) -> (r: u32)
    requires
        valid_prefix_len(prefix_len as int),
    ensures
        r as int == subnet_budget(prefix_len as int),
        r <= 65535,
{
    let n = 64 - prefix_len;
    let mut m: u32 = 1;
    let mut i: u32 = 0;
    proof {
        reveal_with_fuel(two_pow, 17);
    }
    while i < n
        invariant
            n <= 16,
            i <= n,
            m as nat == two_pow(i as nat),
            two_pow(16) == 65536,
        decreases n - i,
    {
        proof {
            lemma_two_pow_mono((i + 1) as nat, 16);
        }
        m = m * 2;
        i = i + 1;
    }
    proof {
        lemma_two_pow_mono(n as nat, 16);
    }
    m - 1
}

/// The LAN bindings are in name order, named after their interfaces, fit
/// the largest budget, and carry the prefixes their positions give.
pub open spec fn lans_wf(wan_prefix: Seq<u16>, lans: Seq<(String, InterfaceInfo)>) -> bool {
    &&& keys_sorted(lans)
    &&& lans.len() <= 65535
    &&& forall|i: int| 0 <= i < lans.len() ==> (#[trigger] lans[i]).0@ == lans[i].1.interface.ifname@
    &&& forall|i: int| 0 <= i < lans.len() ==> (#[trigger] lans[i]).1.prefix@ == lan_prefix_of(wan_prefix, i)
}

/// The WAN's prefix is the first four groups of its global address.
pub open spec fn wan_wf(wan: (String, InterfaceInfo)) -> bool {
    &&& wan.0@ == wan.1.interface.ifname@
    &&& global_text(wan.1.interface) is Some
    &&& ipv6_segments(global_text(wan.1.interface).unwrap()) is Some
    &&& wan.1.prefix@ == baseline_of(ipv6_segments(global_text(wan.1.interface).unwrap()).unwrap())
}

/// The interface names of a sequence of interfaces.
pub open spec fn ifnames(s: Seq<Interface>) -> Seq<Seq<char>> {
    s.map_values(|i: Interface| i.ifname@)
}

/// The topology and prefix assignment.
#[derive(Debug)]
pub struct Route {
    /// The WAN's name and binding.
    pub wan: (String, InterfaceInfo),
    /// The LAN bindings, in ascending name order.
    pub lans: Vec<(String, InterfaceInfo)>,
}

impl Route {
    /// Well-formed: the WAN prefix comes from its address, and the LANs are
    /// in name order with the prefixes their positions give.
    pub open spec fn wf(&self) -> bool {
        &&& wan_wf(self.wan)
        &&& lans_wf(self.wan.1.prefix@, self.lans@)
    }

    /// The route for a WAN interface and LAN interfaces under a delegation
    /// length.
    pub fn new(prefix_len: u32, wan: Interface, lans: Vec<Interface>) -> (r: Result<Route, RouterError>)
        ensures
            !valid_prefix_len(prefix_len as int) <==> r == Err::<Route, RouterError>(RouterError::InvalidPrefixLen),
            valid_prefix_len(prefix_len as int) && lans@.len() > subnet_budget(prefix_len as int) <==> r == Err::<
                Route,
                RouterError,
            >(RouterError::SubnetBudgetExceeded),
            valid_prefix_len(prefix_len as int) && lans@.len() <= subnet_budget(prefix_len as int) ==> match r {
                Ok(route) => {
                    &&& route.wf()
                    &&& route.wan.1.interface == wan
                    &&& same_members(ifnames(lans@), keys_view(route.lans@))
                    &&& route.lans@.len() <= lans@.len()
                    &&& forall|i: int| 0 <= i < route.lans@.len() ==> lans@.contains(
                        (#[trigger] route.lans@[i]).1.interface,
                    )
                },
                Err(e) => e == RouterError::NoGlobalAddress && global_text(wan) is None,
            },
    {
        if prefix_len < MIN_PREFIX_LEN || prefix_len >= MAX_PREFIX_LEN {
            return Err(RouterError::InvalidPrefixLen);
        }
        let max = max_subnet_num(prefix_len);
        if lans.len() > max as usize {
            return Err(RouterError::SubnetBudgetExceeded);
        }
        let segments = wan.get_ipv6_global_segments()?;
        let base = derive_baseline(&segments);
        let ghost orig = lans@;
        let ghost names = ifnames(orig);
        let mut sorted: Vec<(String, InterfaceInfo)> = Vec::new();
        let mut rest = lans;
        assert(names.subrange(0, 0) =~= Seq::<Seq<char>>::empty());
        assert(keys_view(sorted@) =~= Seq::<Seq<char>>::empty());
        while rest.len() > 0
            invariant
                rest@.len() <= orig.len(),
                orig.len() <= 65535,
                names == ifnames(orig),
                rest@ == orig.subrange(orig.len() - rest@.len(), orig.len() as int),
                keys_sorted(sorted@),
                sorted@.len() <= orig.len() - rest@.len(),
                same_members(names.subrange(0, orig.len() - rest@.len()), keys_view(sorted@)),
                forall|i: int| 0 <= i < sorted@.len() ==> (#[trigger] sorted@[i]).0@ == sorted@[i].1.interface.ifname@,
                forall|i: int| 0 <= i < sorted@.len() ==> orig.contains((#[trigger] sorted@[i]).1.interface),
            decreases rest@.len(),
        {
            let ghost done = orig.len() - rest@.len();
            let ghost before = sorted@;
            let lan = rest.remove(0);
            assert(lan == orig[done]);
            let name = lan.ifname.clone();
            let ghost entry = (name, InterfaceInfo { interface: lan, prefix: base });
            let p = insert_by_name(&mut sorted, name, InterfaceInfo { interface: lan, prefix: base });
            assert(rest@ =~= orig.subrange(done + 1, orig.len() as int));
            assert(names.subrange(0, done + 1) =~= names.subrange(0, done).push(names[done]));
            proof {
                crate::prefix::lemma_entry_added(before, sorted@, p as int, entry, names.subrange(0, done));
                assert forall|i: int| 0 <= i < sorted@.len() implies orig.contains((#[trigger] sorted@[i]).1.interface) by {
                    if sorted@[i] == entry {
                        assert(orig[done] == entry.1.interface);
                    } else {
                        let j = choose|j: int| 0 <= j < before.len() && before[j] == sorted@[i];
                        assert(orig.contains(before[j].1.interface));
                    }
                }
            }
        }
        assert(names.subrange(0, orig.len() as int) =~= names);
        let ghost keys = sorted@;
        let mut i: usize = 0;
        while i < sorted.len()
            invariant
                sorted@.len() == keys.len(),
                keys.len() <= 65535,
                i <= keys.len(),
                forall|j: int| 0 <= j < keys.len() ==> (#[trigger] sorted@[j]).0 == keys[j].0,
                forall|j: int| 0 <= j < keys.len() ==> (#[trigger] sorted@[j]).1.interface == keys[j].1.interface,
                forall|j: int| 0 <= j < i ==> (#[trigger] sorted@[j]).1.prefix@ == lan_prefix_of(base@, j),
            decreases keys.len() - i,
        {
            let p = lan_prefix(base, i);
            sorted[i].1.prefix = p;
            i = i + 1;
        }
        assert(keys_view(sorted@) =~= keys_view(keys));
        assert forall|j: int| 0 <= j < sorted@.len() implies orig.contains((#[trigger] sorted@[j]).1.interface) by {
            assert(sorted@[j].1.interface == keys[j].1.interface);
            assert(orig.contains(keys[j].1.interface));
        }
        let wan_name = wan.ifname.clone();
        Ok(Route { wan: (wan_name, InterfaceInfo { interface: wan, prefix: base }), lans: sorted })
    }
    /// The route from one query of all interfaces: the loopback interface is
    /// left out, the only interface with a qualifying global address is the
    /// WAN, and the others are the LANs.
    pub fn initialize(prefix_len: u32, snapshot: Vec<Interface>) -> (r: Result<Route, RouterError>)
        ensures
            ({
                let ifs = non_loopback(snapshot@);
                let wans = wan_candidates(ifs);
                let lans = lan_candidates(ifs);
                let budget = subnet_budget(prefix_len as int);
                &&& !valid_prefix_len(prefix_len as int) ==> r == Err::<Route, RouterError>(
                    RouterError::InvalidPrefixLen,
                )
                &&& valid_prefix_len(prefix_len as int) && ifs.len() < 2 ==> r == Err::<Route, RouterError>(
                    RouterError::InsufficientInterfaces,
                )
                &&& valid_prefix_len(prefix_len as int) && ifs.len() >= 2 && wans.len() == 0 ==> r == Err::<
                    Route,
                    RouterError,
                >(RouterError::NoWanFound)
                &&& valid_prefix_len(prefix_len as int) && ifs.len() >= 2 && wans.len() >= 2 ==> r == Err::<
                    Route,
                    RouterError,
                >(RouterError::MultipleWanFound)
                &&& valid_prefix_len(prefix_len as int) && ifs.len() >= 2 && wans.len() == 1 && lans.len()
                    > budget ==> r == Err::<Route, RouterError>(RouterError::SubnetBudgetExceeded)
                &&& valid_prefix_len(prefix_len as int) && ifs.len() >= 2 && wans.len() == 1 && lans.len()
                    <= budget ==> r is Ok && match r {
                    Ok(route) => {
                        &&& route.wf()
                        &&& route.wan.1.interface == wans[0]
                        &&& same_members(ifnames(lans), keys_view(route.lans@))
                        &&& route.lans@.len() <= lans.len()
                        &&& forall|i: int| 0 <= i < route.lans@.len() ==> lans.contains(
                            (#[trigger] route.lans@[i]).1.interface,
                        )
                    },
                    Err(_) => false,
                }
            }),
    {
        if prefix_len < MIN_PREFIX_LEN || prefix_len >= MAX_PREFIX_LEN {
            return Err(RouterError::InvalidPrefixLen);
        }
        let ifs = Interface::fetch_interfaces(snapshot)?;
        let (wan, lans) = Interface::classify(ifs)?;
        proof {
            crate::interface::lemma_candidate_has_global(non_loopback(snapshot@), 0);
            lemma_global_text_some(wan);
        }
        Route::new(prefix_len, wan, lans)
    }

    /// Recomputes the route after the WAN's address changed: the WAN takes
    /// the addresses of its fresh record, its prefix comes from its new global
    /// address, and each LAN gets the prefix its position gives from it. On
    /// failure the route is left as it was.
    pub fn update(&mut self, fresh_wan: Interface) -> (r: Result<(), RouterError>)
        requires
            old(self).wf(),
        ensures
            match r {
                Ok(()) => {
                    &&& final(self).wf()
                    &&& final(self).wan.0 == old(self).wan.0
                    &&& final(self).wan.1.interface.ifname == old(self).wan.1.interface.ifname
                    &&& final(self).wan.1.interface.addr_info == fresh_wan.addr_info
                    &&& final(self).wan.1.prefix@ == baseline_of(
                        ipv6_segments(global_text(fresh_wan).unwrap()).unwrap(),
                    )
                    &&& final(self).lans@.len() == old(self).lans@.len()
                    &&& forall|i: int| 0 <= i < old(self).lans@.len() ==> (#[trigger] final(self).lans@[i]).0 == old(
                        self,
                    ).lans@[i].0 && final(self).lans@[i].1.interface == old(self).lans@[i].1.interface
                },
                Err(e) => {
                    &&& *final(self) == *old(self)
                    &&& e == RouterError::NoGlobalAddress
                    &&& global_text(fresh_wan) is None
                },
            },
    {
        let segments = fresh_wan.get_ipv6_global_segments()?;
        let base = derive_baseline(&segments);
        self.wan.1.interface.update_addr(fresh_wan);
        self.wan.1.prefix = base;
        let ghost keys = self.lans@;
        let ghost wan = self.wan;
        assert(global_text(wan.1.interface) == global_text(fresh_wan));
        let mut i: usize = 0;
        while i < self.lans.len()
            invariant
                self.lans@.len() == keys.len(),
                keys.len() <= 65535,
                i <= keys.len(),
                self.wan == wan,
                self.wan.1.prefix == base,
                keys_sorted(keys),
                forall|j: int| 0 <= j < keys.len() ==> (#[trigger] keys[j]).0@ == keys[j].1.interface.ifname@,
                forall|j: int| 0 <= j < keys.len() ==> (#[trigger] self.lans@[j]).0 == keys[j].0,
                forall|j: int| 0 <= j < keys.len() ==> (#[trigger] self.lans@[j]).1.interface == keys[j].1.interface,
                forall|j: int| 0 <= j < i ==> (#[trigger] self.lans@[j]).1.prefix@ == lan_prefix_of(base@, j),
            decreases keys.len() - i,
        {
            let p = lan_prefix(base, i);
            self.lans[i].1.prefix = p;
            i = i + 1;
        }
        assert(keys_sorted(self.lans@)) by {
            assert forall|a: int, b: int| 0 <= a < b < self.lans@.len() implies crate::text::text_lt(
                #[trigger] self.lans@[a].0@,
                #[trigger] self.lans@[b].0@,
            ) by {
                assert(self.lans@[a].0 == keys[a].0);
                assert(self.lans@[b].0 == keys[b].0);
            }
        }
        Ok(())
    }

    /// The removals of what the current prefixes left in the OS: the WAN's
    /// global address, and for each LAN with a global address, its proxy
    /// entry on the WAN and the address itself. An interface without a
    /// global address has nothing to remove.
    pub fn cleanup_commands(&self) -> (r: Vec<OsCommand>)
        ensures
            cmds_view(r@) == cleanup_plan(*self),
    {
        let mut v: Vec<OsCommand> = Vec::new();
        match self.wan.1.interface.get_ipv6_global_addr() {
            Ok(a) => {
                v.push(OsCommand { kind: CommandKind::DelAddr, address: a, dev: self.wan.0.clone() });
            },
            Err(_) => {},
        }
        assert(cmds_view(v@) =~= wan_cleanup(*self));
        let mut i: usize = 0;
        while i < self.lans.len()
            invariant
                i <= self.lans@.len(),
                cmds_view(v@) == wan_cleanup(*self) + lan_cleanup(self.wan.0@, self.lans@.subrange(0, i as int)),
            decreases self.lans@.len() - i,
        {
            assert(self.lans@.subrange(0, i + 1).drop_last() =~= self.lans@.subrange(0, i as int));
            let ghost before = cmds_view(v@);
            match self.lans[i].1.interface.get_ipv6_global_addr() {
                Ok(a) => {
                    let a2 = a.clone();
                    v.push(OsCommand { kind: CommandKind::DelProxy, address: a, dev: self.wan.0.clone() });
                    v.push(OsCommand { kind: CommandKind::DelAddr, address: a2, dev: self.lans[i].0.clone() });
                    assert(cmds_view(v@) =~= before + seq![
                        cmd(CommandKind::DelProxy, a@, self.wan.0@),
                        cmd(CommandKind::DelAddr, a@, self.lans@[i as int].0@),
                    ]);
                },
                Err(_) => {},
            }
            assert(cmds_view(v@) =~= wan_cleanup(*self) + lan_cleanup(self.wan.0@, self.lans@.subrange(0, i + 1)));
            i = i + 1;
        }
        assert(self.lans@.subrange(0, self.lans@.len() as int) =~= self.lans@);
        v
    }

    /// Takes a fresh record of each LAN, in name order, and gives the proxy
    /// entries on the WAN for the LANs' global addresses, in name order. Every
    /// LAN takes the addresses of its fresh record. A LAN without a qualifying
    /// global address gets no entry and is reported by name; the others are
    /// not held up by it.
    pub fn add_lan_ndp_proxy(&mut self, fresh_lans: Vec<Interface>) -> (r: ProxyPlan)
        requires
            old(self).wf(),
            fresh_lans@.len() == old(self).lans@.len(),
            forall|i: int| 0 <= i < fresh_lans@.len() ==> (#[trigger] fresh_lans@[i]).ifname@ == old(self).lans@[i].0@,
        ensures
            final(self).wf(),
            final(self).wan == old(self).wan,
            final(self).lans@.len() == old(self).lans@.len(),
            forall|i: int| 0 <= i < old(self).lans@.len() ==> {
                &&& (#[trigger] final(self).lans@[i]).0 == old(self).lans@[i].0
                &&& final(self).lans@[i].1.prefix == old(self).lans@[i].1.prefix
                &&& final(self).lans@[i].1.interface.ifname == old(self).lans@[i].1.interface.ifname
                &&& final(self).lans@[i].1.interface.addr_info == fresh_lans@[i].addr_info
            },
            cmds_view(r.commands@) == proxy_adds(old(self).wan.0@, fresh_lans@),
            names_view(r.missing@) == proxy_missing(fresh_lans@),
    {
        let ghost orig = fresh_lans@;
        let ghost start = self.lans@;
        let ghost wan = self.wan;
        let mut rest = fresh_lans;
        let mut i: usize = 0;
        while i < self.lans.len()
            invariant
                self.wan == wan,
                self.lans@.len() == start.len(),
                orig.len() == start.len(),
                i <= start.len(),
                rest@ == orig.subrange(i as int, orig.len() as int),
                forall|j: int| 0 <= j < start.len() ==> {
                    &&& (#[trigger] self.lans@[j]).0 == start[j].0
                    &&& self.lans@[j].1.prefix == start[j].1.prefix
                    &&& self.lans@[j].1.interface.ifname == start[j].1.interface.ifname
                },
                forall|j: int| 0 <= j < i ==> (#[trigger] self.lans@[j]).1.interface.addr_info == orig[j].addr_info,
                forall|j: int| i <= j < start.len() ==> (#[trigger] self.lans@[j]).1.interface == start[j].1.interface,
            decreases start.len() - i,
        {
            let fresh = rest.remove(0);
            assert(fresh == orig[i as int]);
            assert(rest@ =~= orig.subrange(i + 1, orig.len() as int));
            self.lans[i].1.interface.addr_info = fresh.addr_info;
            i = i + 1;
        }
        assert(keys_sorted(self.lans@)) by {
            assert forall|a: int, b: int| 0 <= a < b < self.lans@.len() implies crate::text::text_lt(
                #[trigger] self.lans@[a].0@,
                #[trigger] self.lans@[b].0@,
            ) by {
                assert(self.lans@[a].0 == start[a].0);
                assert(self.lans@[b].0 == start[b].0);
            }
        }
        assert(self.wf());
        let ghost mid = *self;
        let mut commands: Vec<OsCommand> = Vec::new();
        let mut missing: Vec<String> = Vec::new();
        let mut k: usize = 0;
        assert(orig.subrange(0, 0) =~= Seq::<Interface>::empty());
        assert(cmds_view(commands@) =~= Seq::empty());
        assert(names_view(missing@) =~= Seq::empty());
        while k < self.lans.len()
            invariant
                *self == mid,
                self.lans@.len() == start.len(),
                orig.len() == start.len(),
                k <= start.len(),
                forall|j: int| 0 <= j < start.len() ==> (#[trigger] self.lans@[j]).1.interface.addr_info == orig[j].addr_info,
                forall|j: int| 0 <= j < start.len() ==> (#[trigger] orig[j]).ifname@ == start[j].0@,
                forall|j: int| 0 <= j < start.len() ==> (#[trigger] self.lans@[j]).0 == start[j].0,
                cmds_view(commands@) == proxy_adds(wan.0@, orig.subrange(0, k as int)),
                names_view(missing@) == proxy_missing(orig.subrange(0, k as int)),
                self.wan == wan,
            decreases start.len() - k,
        {
            assert(orig.subrange(0, k + 1).drop_last() =~= orig.subrange(0, k as int));
            assert(global_text(self.lans@[k as int].1.interface) == global_text(orig[k as int]));
            let ghost c0 = cmds_view(commands@);
            let ghost m0 = names_view(missing@);
            match self.lans[k].1.interface.get_ipv6_global_addr() {
                Ok(a) => {
                    commands.push(OsCommand { kind: CommandKind::AddProxy, address: a, dev: self.wan.0.clone() });
                    assert(cmds_view(commands@) =~= c0.push(cmd(CommandKind::AddProxy, a@, wan.0@)));
                    assert(names_view(missing@) =~= m0);
                },
                Err(_) => {
                    missing.push(self.lans[k].0.clone());
                    assert(names_view(missing@) =~= m0.push(orig[k as int].ifname@));
                    assert(cmds_view(commands@) =~= c0);
                },
            }
            k = k + 1;
        }
        assert(orig.subrange(0, orig.len() as int) =~= orig);
        ProxyPlan { commands, missing }
    }

    /// The topology for the log: the WAN's name, global address and prefix,
    /// then each LAN's, in name order. Fails when an interface has no
    /// qualifying global address; a qualifying one is always a well-formed
    /// IPv6 address.
    pub fn route_info(&self) -> (r: Result<Vec<TopologyLine>, RouterError>)
        ensures
            match r {
                Ok(v) => {
                    &&& v@.len() == self.lans@.len() + 1
                    &&& line_of(v@[0], self.wan.0@, self.wan.1)
                    &&& forall|i: int| 0 <= i < self.lans@.len() ==> line_of(
                        #[trigger] v@[i + 1],
                        self.lans@[i].0@,
                        self.lans@[i].1,
                    )
                },
                Err(e) => e == RouterError::NoGlobalAddress && (global_text(self.wan.1.interface) is None
                    || exists|i: int| 0 <= i < self.lans@.len() && global_text(
                    (#[trigger] self.lans@[i]).1.interface,
                ) is None),
            },
    {
        let mut v: Vec<TopologyLine> = Vec::new();
        let address = self.wan.1.interface.get_ipv6_global_addr()?;
        proof {
            crate::interface::lemma_global_text_parses(self.wan.1.interface);
        }
        v.push(TopologyLine { ifname: self.wan.0.clone(), address, prefix: self.wan.1.prefix_str() });
        let mut i: usize = 0;
        while i < self.lans.len()
            invariant
                i <= self.lans@.len(),
                v@.len() == i + 1,
                line_of(v@[0], self.wan.0@, self.wan.1),
                forall|j: int| 0 <= j < i ==> line_of(#[trigger] v@[j + 1], self.lans@[j].0@, self.lans@[j].1),
            decreases self.lans@.len() - i,
        {
            let info = &self.lans[i].1;
            let address = match info.interface.get_ipv6_global_addr() {
                Ok(a) => a,
                Err(e) => {
                    assert(global_text(self.lans@[i as int].1.interface) is None);
                    return Err(e);
                },
            };
            proof {
                crate::interface::lemma_global_text_parses(info.interface);
            }
            v.push(TopologyLine { ifname: self.lans[i].0.clone(), address, prefix: info.prefix_str() });
            i = i + 1;
        }
        Ok(v)
    }
}

/// One line of the topology report.
#[derive(Debug)]
pub struct TopologyLine {
    pub ifname: String,
    pub address: String,
    pub prefix: String,
}

/// `l` reports the binding `info` under the name `name`.
pub open spec fn line_of(l: TopologyLine, name: Seq<char>, info: InterfaceInfo) -> bool {
    &&& l.ifname@ == name
    &&& global_text(info.interface) == Some(l.address@)
    &&& ipv6_segments(l.address@) is Some
    &&& l.prefix@ == prefix_text(info.prefix@)
}

/// Removal of the WAN's global address, if it has one.
pub open spec fn wan_cleanup(route: Route) -> Seq<(CommandKind, Seq<char>, Seq<char>)> {
    match global_text(route.wan.1.interface) {
        Some(t) => seq![cmd(CommandKind::DelAddr, t, route.wan.0@)],
        None => Seq::empty(),
    }
}

/// For each LAN with a global address, in order: removal of its proxy entry
/// on `wan_dev`, then of the address.
pub open spec fn lan_cleanup(wan_dev: Seq<char>, lans: Seq<(String, InterfaceInfo)>) -> Seq<
    (CommandKind, Seq<char>, Seq<char>),
>
    decreases lans.len(),
{
    if lans.len() == 0 {
        Seq::empty()
    } else {
        let rest = lan_cleanup(wan_dev, lans.drop_last());
        match global_text(lans.last().1.interface) {
            Some(t) => rest + seq![cmd(CommandKind::DelProxy, t, wan_dev), cmd(CommandKind::DelAddr, t, lans.last().0@)],
            None => rest,
        }
    }
}

/// What `cleanup_commands` removes.
pub open spec fn cleanup_plan(route: Route) -> Seq<(CommandKind, Seq<char>, Seq<char>)> {
    wan_cleanup(route) + lan_cleanup(route.wan.0@, route.lans@)
}

/// The number written by the decimal digits `s`.
pub open spec fn decimal_value(s: Seq<char>) -> int
    decreases s.len(),
{
    if s.len() == 0 {
        0
    } else {
        decimal_value(s.drop_last()) * 10 + (s.last() as int - '0' as int)
    }
}

/// One or more decimal digits.
pub open spec fn is_decimal(s: Seq<char>) -> bool {
    s.len() > 0 && forall|i: int| 0 <= i < s.len() ==> '0' <= #[trigger] s[i] && s[i] <= '9'
}

/// The digits of an unsigned number's text, after an optional `+`.
pub open spec fn unsigned_digits(s: Seq<char>) -> Seq<char> {
    if s.len() > 0 && s[0] == '+' {
        s.drop_first()
    } else {
        s
    }
}

proof fn lemma_decimal_nonneg(s: Seq<char>)
    requires
        forall|i: int| 0 <= i < s.len() ==> '0' <= #[trigger] s[i] && s[i] <= '9',
    ensures
        decimal_value(s) >= 0,
    decreases s.len(),
{
    if s.len() > 0 {
        lemma_decimal_nonneg(s.drop_last());
    }
}

/// The delegation length from its configured text: 60 when none is given;
/// otherwise the text must be an unsigned decimal number in `48..64`.
pub fn parse_prefix_len(value: Option<&str>) -> (r: Result<u32, RouterError>)
    ensures
        match value {
            None => r == Ok::<u32, RouterError>(DEFAULT_PREFIX_LEN),
            Some(t) => {
                let d = unsigned_digits(t@);
                if is_decimal(d) && valid_prefix_len(decimal_value(d)) {
                    r == Ok::<u32, RouterError>(decimal_value(d) as u32)
                } else {
                    r == Err::<u32, RouterError>(RouterError::InvalidPrefixLen)
                }
            },
        },
{
    match value {
        None => Ok(DEFAULT_PREFIX_LEN),
        Some(t) => parse_decimal_len(t),
    }
}

fn parse_decimal_len(t: &str) -> (r: Result<u32, RouterError>)
    ensures
        ({
            let d = unsigned_digits(t@);
            if is_decimal(d) && valid_prefix_len(decimal_value(d)) {
                r == Ok::<u32, RouterError>(decimal_value(d) as u32)
            } else {
                r == Err::<u32, RouterError>(RouterError::InvalidPrefixLen)
            }
        }),
{
    let n = t.unicode_len();
    let start: usize = if n > 0 && t.get_char(0) == '+' { 1 } else { 0 };
    let ghost d = unsigned_digits(t@);
    assert(d =~= t@.subrange(start as int, n as int));
    if start >= n {
        assert(d.len() == 0);
        assert(!is_decimal(d));
        return Err(RouterError::InvalidPrefixLen);
    }
    let mut v: u32 = 0;
    let mut big = false;
    let mut bad = false;
    let mut i: usize = start;
    while i < n && !bad
        invariant
            start <= i <= n,
            n == t@.len(),
            d == t@.subrange(start as int, n as int),
            forall|k: int| start <= k < i ==> '0' <= #[trigger] t@[k] && t@[k] <= '9',
            big ==> decimal_value(t@.subrange(start as int, i as int)) >= 1000,
            !big ==> v as int == decimal_value(t@.subrange(start as int, i as int)),
            v < 1000,
            bad ==> !is_decimal(d),
        decreases n - i + (if bad { 0int } else { 1int }),
    {
        let c = t.get_char(i);
        if c < '0' || c > '9' {
            assert(d[i - start] == c);
            bad = true;
        } else {
            let digit = c as u32 - '0' as u32;
            let ghost pre = t@.subrange(start as int, i as int);
            assert(t@.subrange(start as int, i + 1).drop_last() =~= pre);
            proof {
                lemma_decimal_nonneg(pre);
            }
            if !big {
                if v * 10 + digit >= 1000 {
                    big = true;
                    v = 0;
                } else {
                    v = v * 10 + digit;
                }
            }
            i = i + 1;
        }
    }
    if bad {
        return Err(RouterError::InvalidPrefixLen);
    }
    assert(t@.subrange(start as int, n as int) =~= d);
    if big || v < MIN_PREFIX_LEN || v >= MAX_PREFIX_LEN {
        Err(RouterError::InvalidPrefixLen)
    } else {
        Ok(v)
    }
}

/// In a well-formed route, every LAN prefix shares the first three groups
/// of the WAN prefix, and the fourth groups of the WAN and of all LANs are
/// pairwise different.
pub proof fn law_route_prefixes_distinct(route: Route, i: int, j: int)
    requires
        route.wf(),
        0 <= i < route.lans@.len(),
        0 <= j < route.lans@.len(),
        i != j,
    ensures
        route.lans@[i].1.prefix@.subrange(0, 3) == route.wan.1.prefix@.subrange(0, 3),
        route.lans@[i].1.prefix@[3] != route.lans@[j].1.prefix@[3],
        route.lans@[i].1.prefix@[3] != route.wan.1.prefix@[3],
{
    let w = route.wan.1.prefix@;
    assert(route.lans@[i].1.prefix@ == lan_prefix_of(w, i));
    assert(route.lans@[j].1.prefix@ == lan_prefix_of(w, j));
    assert(route.lans@[i].1.prefix@.subrange(0, 3) =~= w.subrange(0, 3));
}

/// The proxy entries to add on `wan_dev`: one for each interface of `fresh`
/// with a qualifying global address, in order.
pub open spec fn proxy_adds(wan_dev: Seq<char>, fresh: Seq<Interface>) -> Seq<(CommandKind, Seq<char>, Seq<char>)>
    decreases fresh.len(),
{
    if fresh.len() == 0 {
        Seq::empty()
    } else {
        let rest = proxy_adds(wan_dev, fresh.drop_last());
        match global_text(fresh.last()) {
            Some(t) => rest.push(cmd(CommandKind::AddProxy, t, wan_dev)),
            None => rest,
        }
    }
}

/// The names of the interfaces of `fresh` without a qualifying global
/// address, in order.
pub open spec fn proxy_missing(fresh: Seq<Interface>) -> Seq<Seq<char>>
    decreases fresh.len(),
{
    if fresh.len() == 0 {
        Seq::empty()
    } else {
        let rest = proxy_missing(fresh.drop_last());
        match global_text(fresh.last()) {
            Some(_) => rest,
            None => rest.push(fresh.last().ifname@),
        }
    }
}

/// The proxy entries to add, and the LANs that could not get one.
#[derive(Debug)]
pub struct ProxyPlan {
    pub commands: Vec<OsCommand>,
    pub missing: Vec<String>,
}

/// Prefixes carry no history: two well-formed routes with the same WAN
/// prefix and the same LAN names list the LANs in the same order with the
/// same prefixes, whatever they held before.
pub proof fn law_prefixes_from_names_alone(a: Route, b: Route)
    requires
        a.wf(),
        b.wf(),
        a.wan.1.prefix@ == b.wan.1.prefix@,
        same_members(keys_view(a.lans@), keys_view(b.lans@)),
    ensures
        a.lans@.len() == b.lans@.len(),
        forall|i: int|
            0 <= i < a.lans@.len() ==> (#[trigger] a.lans@[i]).0@ == b.lans@[i].0@ && a.lans@[i].1.prefix@
                == b.lans@[i].1.prefix@,
{
    let ka = keys_view(a.lans@);
    let kb = keys_view(b.lans@);
    assert forall|i: int, j: int| 0 <= i < j < ka.len() implies crate::text::text_lt(#[trigger] ka[i], #[trigger] ka[j]) by {
        assert(crate::text::text_lt(a.lans@[i].0@, a.lans@[j].0@));
    }
    assert forall|i: int, j: int| 0 <= i < j < kb.len() implies crate::text::text_lt(#[trigger] kb[i], #[trigger] kb[j]) by {
        assert(crate::text::text_lt(b.lans@[i].0@, b.lans@[j].0@));
    }
    crate::prefix::lemma_sorted_agree(ka, kb, 0);
    assert forall|i: int| 0 <= i < a.lans@.len() implies (#[trigger] a.lans@[i]).0@ == b.lans@[i].0@ && a.lans@[i].1.prefix@
        == b.lans@[i].1.prefix@ by {
        assert(ka[i] == kb[i]);
        assert(a.lans@[i].1.prefix@ == lan_prefix_of(a.wan.1.prefix@, i));
        assert(b.lans@[i].1.prefix@ == lan_prefix_of(b.wan.1.prefix@, i));
    }
}

/// LANs are numbered in ascending name order: where the fourth group does
/// not wrap, the LAN at position `i` (from zero) gets the WAN prefix with
/// `i + 1` added to its fourth group.
pub proof fn law_lan_numbering(route: Route, i: int)
    requires
        route.wf(),
        0 <= i < route.lans@.len(),
        route.wan.1.prefix@[3] + route.lans@.len() <= 0xffff,
    ensures
        route.lans@[i].1.prefix@ == seq![
            route.wan.1.prefix@[0],
            route.wan.1.prefix@[1],
            route.wan.1.prefix@[2],
            (route.wan.1.prefix@[3] + i + 1) as u16,
        ],
        forall|j: int| 0 <= j < i ==> crate::text::text_lt(route.lans@[j].0@, #[trigger] route.lans@[i].0@),
{
    assert(route.lans@[i].1.prefix@ == lan_prefix_of(route.wan.1.prefix@, i));
}

} // verus!
