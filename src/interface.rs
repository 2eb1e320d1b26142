//! Interface records as the OS reports them, and their classification into
//! one WAN interface and the LAN interfaces.
use vstd::prelude::*;

use crate::error::RouterError;
use crate::ipv6::{ipv6_segments, parse_ipv6};

verus! {

/// Address family.
#[derive(Clone, Copy, Debug, PartialEq, Eq, Structural)]
pub enum Family {
    INet,
    INet6,
}

/// Reach of an address.
#[derive(Clone, Copy, Debug, PartialEq, Eq, Structural)]
pub enum Scope {
    Global,
    Host,
    Link,
}

/// One address of an interface.
#[derive(Debug)]
pub struct AddrInfo {
    pub family: Family,
    /// The address text.
    pub local: String,
    pub scope: Scope,
    /// Seconds the address stays valid.
    pub valid_life_time: u32,
    /// Seconds the address stays preferred.
    pub preferred_life_time: u32,
}

/// The leading four bits of an IPv6 address text, when it is one.
pub open spec fn leading_nibble(t: Seq<char>) -> Option<int> {
    match ipv6_segments(t) {
        Some(g) => Some(g[0] as int / 4096),
        None => None,
    }
}

/// An IPv6 global unicast address that is in use: scope global, both
/// lifetimes positive, and an address whose leading four bits are 2 or 3
/// (the global unicast range `2000::/3`).
pub open spec fn addr_is_v6_global(a: AddrInfo) -> bool {
    &&& a.family == Family::INet6
    &&& a.scope == Scope::Global
    &&& a.valid_life_time > 0
    &&& a.preferred_life_time > 0
    &&& (leading_nibble(a.local@) == Some(2int) || leading_nibble(a.local@) == Some(3int))
}

impl AddrInfo {
    /// Whether this is a qualifying global IPv6 address.
    pub fn is_v6_global(&self) -> (r: bool)
        ensures
            r == addr_is_v6_global(*self),
    {
        let fam = match self.family {
            Family::INet6 => true,
            _ => false,
        };
        let glob = match self.scope {
            Scope::Global => true,
            _ => false,
        };
        let lead = match parse_ipv6(self.local.as_str()) {
            Some(g) => g[0] / 4096 == 2 || g[0] / 4096 == 3,
            None => false,
        };
        fam && glob && self.valid_life_time > 0 && self.preferred_life_time > 0 && lead
    }
}

/// A network interface with its addresses, as one query reported it.
#[derive(Debug)]
pub struct Interface {
    pub ifname: String,
    pub addr_info: Vec<AddrInfo>,
}

/// `k` is the position of the first qualifying global address of `addrs`.
pub open spec fn is_first_global(addrs: Seq<AddrInfo>, k: int) -> bool {
    &&& 0 <= k < addrs.len()
    &&& addr_is_v6_global(addrs[k])
    &&& forall|j: int| 0 <= j < k ==> !addr_is_v6_global(#[trigger] addrs[j])
}

/// Whether an interface exposes a qualifying global IPv6 address.
pub open spec fn has_global(i: Interface) -> bool {
    exists|k: int| 0 <= k < i.addr_info@.len() && addr_is_v6_global(#[trigger] i.addr_info@[k])
}

/// The text of the first qualifying global IPv6 address of an interface.
pub open spec fn global_text(i: Interface) -> Option<Seq<char>> {
    if exists|k: int| is_first_global(i.addr_info@, k) {
        Some(i.addr_info@[choose|k: int| is_first_global(i.addr_info@, k)].local@)
    } else {
        None
    }
}

/// The loopback interface's name.
pub open spec fn is_loopback_name(n: Seq<char>) -> bool {
    n == seq!['l', 'o']
}

/// The interfaces of `s` that are not the loopback interface, in order.
pub open spec fn non_loopback(s: Seq<Interface>) -> Seq<Interface> {
    s.filter(not_loopback_pred())
}

pub open spec fn not_loopback_pred() -> spec_fn(Interface) -> bool {
    |i: Interface| !is_loopback_name(i.ifname@)
}

pub open spec fn wan_pred() -> spec_fn(Interface) -> bool {
    |i: Interface| has_global(i)
}

pub open spec fn lan_pred() -> spec_fn(Interface) -> bool {
    |i: Interface| !has_global(i)
}

/// The interfaces of `s` that expose a qualifying global address, in order.
pub open spec fn wan_candidates(s: Seq<Interface>) -> Seq<Interface> {
    s.filter(wan_pred())
}

/// The interfaces of `s` that expose no qualifying global address, in order.
pub open spec fn lan_candidates(s: Seq<Interface>) -> Seq<Interface> {
    s.filter(lan_pred())
}

/// How many attempts WAN discovery makes before it gives up.
pub const WAN_ATTEMPTS: u32 = 3;

/// Seconds to wait between two WAN discovery attempts.
pub const WAN_RETRY_DELAY_SECS: u64 = 2;

/// What one WAN discovery attempt decides.
#[derive(Debug)]
pub enum WanLanStep {
    /// The WAN interface and the LAN interfaces.
    Found(Interface, Vec<Interface>),
    /// No WAN interface yet: wait and query again.
    Retry,
    /// Discovery has failed for good.
    Failed(RouterError),
}

proof fn lemma_filter_step<A>(s: Seq<A>, i: int, f: spec_fn(A) -> bool)
    requires
        0 <= i < s.len(),
    ensures
        s.subrange(0, i + 1).filter(f) == (if f(s[i]) {
            s.subrange(0, i).filter(f).push(s[i])
        } else {
            s.subrange(0, i).filter(f)
        }),
{
    reveal(Seq::filter);
    assert(s.subrange(0, i + 1).drop_last() =~= s.subrange(0, i));
}

proof fn lemma_filter_empty<A>(s: Seq<A>, f: spec_fn(A) -> bool)
    ensures
        s.subrange(0, 0).filter(f) == Seq::<A>::empty(),
{
    reveal(Seq::filter);
    assert(s.subrange(0, 0).len() == 0);
}

/// A qualifying global address is always a well-formed IPv6 address.
pub proof fn lemma_global_text_parses(i: Interface)
    ensures
        global_text(i) is Some ==> ipv6_segments(global_text(i).unwrap()) is Some,
{
}

/// An interface with a qualifying global address has a first one.
pub proof fn lemma_global_text_some(i: Interface)
    requires
        has_global(i),
    ensures
        global_text(i) is Some,
{
    let k = choose|k: int| 0 <= k < i.addr_info@.len() && addr_is_v6_global(#[trigger] i.addr_info@[k]);
    lemma_first_exists(i.addr_info@, k);
}

/// Every WAN candidate exposes a qualifying global address.
pub proof fn lemma_candidate_has_global(s: Seq<Interface>, i: int)
    requires
        0 <= i < wan_candidates(s).len(),
    ensures
        has_global(wan_candidates(s)[i]),
{
    s.lemma_filter_pred(wan_pred(), i);
}

proof fn lemma_first_exists(addrs: Seq<AddrInfo>, k: int)
    requires
        0 <= k < addrs.len(),
        addr_is_v6_global(addrs[k]),
    ensures
        exists|m: int| is_first_global(addrs, m),
    decreases k,
{
    if exists|j: int| 0 <= j < k && addr_is_v6_global(#[trigger] addrs[j]) {
        let j = choose|j: int| 0 <= j < k && addr_is_v6_global(#[trigger] addrs[j]);
        lemma_first_exists(addrs, j);
    } else {
        assert(is_first_global(addrs, k));
    }
}

proof fn lemma_first_global_unique(addrs: Seq<AddrInfo>, k: int)
    requires
        is_first_global(addrs, k),
    ensures
        forall|m: int| #[trigger] is_first_global(addrs, m) ==> m == k,
{
    assert forall|m: int| #[trigger] is_first_global(addrs, m) implies m == k by {
        if m < k {
            assert(!addr_is_v6_global(addrs[m]));
        } else if m > k {
            assert(!addr_is_v6_global(addrs[k]));
        }
    }
}

impl Interface {
    /// Position of the first qualifying global IPv6 address.
    pub fn global_index(&self) -> (r: Option<usize>)
        ensures
            match r {
                Some(k) => is_first_global(self.addr_info@, k as int),
                None => !has_global(*self),
            },
            r is Some <==> has_global(*self),
    {
        let mut i: usize = 0;
        while i < self.addr_info.len()
            invariant
                i <= self.addr_info@.len(),
                forall|j: int| 0 <= j < i ==> !addr_is_v6_global(#[trigger] self.addr_info@[j]),
            decreases self.addr_info@.len() - i,
        {
            if self.addr_info[i].is_v6_global() {
                return Some(i);
            }
            i = i + 1;
        }
        None
    }

    /// The text of the interface's first qualifying global IPv6 address.
    pub fn get_ipv6_global_addr(&self) -> (r: Result<String, RouterError>)
        ensures
            match r {
                Ok(t) => global_text(*self) == Some(t@),
                Err(e) => e == RouterError::NoGlobalAddress && global_text(*self) is None,
            },
    {
        match self.global_index() {
            Some(k) => {
                proof {
                    lemma_first_global_unique(self.addr_info@, k as int);
                }
                Ok(self.addr_info[k].local.clone())
            },
            None => {
                assert(!exists|k: int| is_first_global(self.addr_info@, k));
                Err(RouterError::NoGlobalAddress)
            },
        }
    }

    /// The eight groups of the interface's first qualifying global IPv6
    /// address.
    pub fn get_ipv6_global_segments(&self) -> (r: Result<Vec<u16>, RouterError>)
        ensures
            match r {
                Ok(v) => global_text(*self) is Some && ipv6_segments(global_text(*self).unwrap()) == Some(v@)
                    && v@.len() == 8,
                Err(e) => e == RouterError::NoGlobalAddress && global_text(*self) is None,
            },
    {
        let t = self.get_ipv6_global_addr()?;
        proof {
            lemma_global_text_parses(*self);
        }
        match parse_ipv6(t.as_str()) {
            Some(v) => Ok(v),
            None => Err(RouterError::NoGlobalAddress),
        }
    }

    /// Leaves out the loopback interface; fails unless at least two
    /// interfaces remain.
    pub fn fetch_interfaces(all: Vec<Interface>) -> (r: Result<Vec<Interface>, RouterError>)
        ensures
            match r {
                Ok(v) => v@ == non_loopback(all@) && v@.len() >= 2,
                Err(e) => e == RouterError::InsufficientInterfaces && non_loopback(all@).len() < 2,
            },
    {
        let ghost orig = all@;
        let mut rest = all;
        let mut kept: Vec<Interface> = Vec::new();
        proof {
            lemma_filter_empty(orig, not_loopback_pred());
        }
        while rest.len() > 0
            invariant
                rest@.len() <= orig.len(),
                rest@ == orig.subrange(orig.len() - rest@.len(), orig.len() as int),
                kept@ == orig.subrange(0, orig.len() - rest@.len()).filter(not_loopback_pred()),
            decreases rest@.len(),
        {
            let ghost i = orig.len() - rest@.len();
            let x = rest.remove(0);
            proof {
                lemma_filter_step(orig, i, not_loopback_pred());
                assert(rest@ =~= orig.subrange(i + 1, orig.len() as int));
            }
            let lo = x.ifname.as_str().unicode_len() == 2 && x.ifname.as_str().get_char(0) == 'l'
                && x.ifname.as_str().get_char(1) == 'o';
            proof {
                if lo {
                    assert(x.ifname@ =~= seq!['l', 'o']);
                }
            }
            if !lo {
                kept.push(x);
            }
        }
        assert(orig.subrange(0, orig.len() as int) =~= orig);
        if kept.len() < 2 {
            Err(RouterError::InsufficientInterfaces)
        } else {
            Ok(kept)
        }
    }

    /// Splits interfaces into the WAN interface, the only one with a
    /// qualifying global address, and the LAN interfaces, the others in
    /// their order.
    pub fn classify(ifaces: Vec<Interface>) -> (r: Result<(Interface, Vec<Interface>), RouterError>)
        ensures
            wan_candidates(ifaces@).len() == 0 <==> r == Err::<(Interface, Vec<Interface>), RouterError>(
                RouterError::NoWanFound,
            ),
            wan_candidates(ifaces@).len() >= 2 <==> r == Err::<(Interface, Vec<Interface>), RouterError>(
                RouterError::MultipleWanFound,
            ),
            match r {
                Ok((w, l)) => wan_candidates(ifaces@).len() == 1 && w == wan_candidates(ifaces@)[0]
                    && l@ == lan_candidates(ifaces@),
                Err(e) => e == RouterError::NoWanFound || e == RouterError::MultipleWanFound,
            },
    {
        let ghost orig = ifaces@;
        let mut rest = ifaces;
        let mut wans: Vec<Interface> = Vec::new();
        let mut lans: Vec<Interface> = Vec::new();
        proof {
            lemma_filter_empty(orig, wan_pred());
            lemma_filter_empty(orig, lan_pred());
        }
        while rest.len() > 0
            invariant
                rest@.len() <= orig.len(),
                rest@ == orig.subrange(orig.len() - rest@.len(), orig.len() as int),
                wans@ == orig.subrange(0, orig.len() - rest@.len()).filter(wan_pred()),
                lans@ == orig.subrange(0, orig.len() - rest@.len()).filter(lan_pred()),
            decreases rest@.len(),
        {
            let ghost i = orig.len() - rest@.len();
            let x = rest.remove(0);
            proof {
                lemma_filter_step(orig, i, wan_pred());
                lemma_filter_step(orig, i, lan_pred());
                assert(rest@ =~= orig.subrange(i + 1, orig.len() as int));
            }
            if x.global_index().is_some() {
                wans.push(x);
            } else {
                lans.push(x);
            }
        }
        assert(orig.subrange(0, orig.len() as int) =~= orig);
        if wans.len() == 0 {
            Err(RouterError::NoWanFound)
        } else if wans.len() >= 2 {
            Err(RouterError::MultipleWanFound)
        } else {
            let w = wans.pop().unwrap();
            Ok((w, lans))
        }
    }

    /// One WAN discovery attempt, `attempt` counted from zero, on a fresh
    /// query of all interfaces. Only the absence of a WAN interface is
    /// retried, and only while attempts remain.
    pub fn fetch_wanlan(attempt: u32, snapshot: Vec<Interface>) -> (r: WanLanStep)
        ensures
            ({
                let ifs = non_loopback(snapshot@);
                let wans = wan_candidates(ifs);
                if ifs.len() < 2 {
                    r == WanLanStep::Failed(RouterError::InsufficientInterfaces)
                } else if wans.len() == 0 {
                    if attempt + 1 < WAN_ATTEMPTS {
                        r == WanLanStep::Retry
                    } else {
                        r == WanLanStep::Failed(RouterError::NoWanFound)
                    }
                } else if wans.len() >= 2 {
                    r == WanLanStep::Failed(RouterError::MultipleWanFound)
                } else {
                    match r {
                        WanLanStep::Found(w, l) => w == wans[0] && l@ == lan_candidates(ifs),
                        _ => false,
                    }
                }
            }),
    {
        let ifs = match Interface::fetch_interfaces(snapshot) {
            Ok(v) => v,
            Err(e) => return WanLanStep::Failed(e),
        };
        match Interface::classify(ifs) {
            Ok((w, l)) => WanLanStep::Found(w, l),
            Err(RouterError::NoWanFound) => {
                if attempt < WAN_ATTEMPTS - 1 {
                    WanLanStep::Retry
                } else {
                    WanLanStep::Failed(RouterError::NoWanFound)
                }
            },
            Err(e) => WanLanStep::Failed(e),
        }
    }

    /// Replaces this interface's addresses with those of a fresh record of
    /// it; the name stays.
    pub fn update_addr(&mut self, fresh: Interface)
        ensures
            final(self).ifname == old(self).ifname,
            final(self).addr_info == fresh.addr_info,
    {
        self.addr_info = fresh.addr_info;
    }
}

} // verus!
