use v6tprouter::command::{del_ula_route, CommandKind, OsCommand, RouteEntry};
use v6tprouter::error::RouterError;
use v6tprouter::interface::{AddrInfo, Family, Interface, Scope, WanLanStep};
use v6tprouter::ipv6::parse_ipv6;
use v6tprouter::prefix::{derive_baseline, derive_lan_prefixes, format_prefix};
use v6tprouter::route::{max_subnet_num, parse_prefix_len, Route};
use v6tprouter::router::Router;

fn addr(family: Family, local: &str, scope: Scope, valid: u32, preferred: u32) -> AddrInfo {
    AddrInfo {
        family,
        local: local.to_string(),
        scope,
        valid_life_time: valid,
        preferred_life_time: preferred,
    }
}

fn global(local: &str) -> AddrInfo {
    addr(Family::INet6, local, Scope::Global, 3600, 1800)
}

fn link_local() -> AddrInfo {
    addr(Family::INet6, "fe80::1", Scope::Link, 4294967295, 4294967295)
}

fn iface(name: &str, addrs: Vec<AddrInfo>) -> Interface {
    Interface { ifname: name.to_string(), addr_info: addrs }
}

fn loopback() -> Interface {
    iface("lo", vec![addr(Family::INet, "127.0.0.1", Scope::Host, 0, 0), addr(Family::INet6, "::1", Scope::Host, 0, 0)])
}

fn scenario_a_snapshot() -> Vec<Interface> {
    vec![
        loopback(),
        iface("br-lan1", vec![link_local()]),
        iface("eth0", vec![link_local(), global("2001:0db8:0001:0000::1")]),
        iface("br-lan0", vec![link_local()]),
    ]
}

fn commands(v: &[OsCommand]) -> Vec<(CommandKind, String, String)> {
    v.iter().map(|c| (c.kind, c.address.clone(), c.dev.clone())).collect()
}

#[test]
fn scenario_a_initial_prefixes() {
    let route = Route::initialize(60, scenario_a_snapshot()).unwrap();
    assert_eq!(route.wan.0, "eth0");
    assert_eq!(route.wan.1.prefix, [0x2001, 0x0db8, 0x0001, 0x0000]);
    assert_eq!(route.lans.len(), 2);
    assert_eq!(route.lans[0].0, "br-lan0");
    assert_eq!(route.lans[0].1.prefix, [0x2001, 0x0db8, 0x0001, 0x0001]);
    assert_eq!(route.lans[1].0, "br-lan1");
    assert_eq!(route.lans[1].1.prefix, [0x2001, 0x0db8, 0x0001, 0x0002]);
    assert_eq!(route.lans[0].1.prefix_str(), "2001:db8:1:1");
}

#[test]
fn scenario_b_wan_change() {
    let mut route = Route::initialize(60, scenario_a_snapshot()).unwrap();
    let fresh = vec![
        iface("br-lan0", vec![global("2001:db8:1:1::1")]),
        iface("br-lan1", vec![global("2001:db8:1:2::1")]),
    ];
    let plan = route.add_lan_ndp_proxy(fresh);
    assert!(plan.missing.is_empty());
    assert_eq!(
        commands(&plan.commands),
        vec![
            (CommandKind::AddProxy, "2001:db8:1:1::1".to_string(), "eth0".to_string()),
            (CommandKind::AddProxy, "2001:db8:1:2::1".to_string(), "eth0".to_string()),
        ]
    );
    let mut router = Router::new(route);
    let new_wan = iface("eth0", vec![global("2001:0db8:0002:0000::1")]);
    assert_eq!(router.wan_check(&new_wan), Ok(true));
    let cleanup = router.cleanup_commands();
    router.update(new_wan).unwrap();
    assert_eq!(
        commands(&cleanup),
        vec![
            (CommandKind::DelAddr, "2001:0db8:0001:0000::1".to_string(), "eth0".to_string()),
            (CommandKind::DelProxy, "2001:db8:1:1::1".to_string(), "eth0".to_string()),
            (CommandKind::DelAddr, "2001:db8:1:1::1".to_string(), "br-lan0".to_string()),
            (CommandKind::DelProxy, "2001:db8:1:2::1".to_string(), "eth0".to_string()),
            (CommandKind::DelAddr, "2001:db8:1:2::1".to_string(), "br-lan1".to_string()),
        ]
    );
    let route = &router.route;
    assert_eq!(route.wan.1.prefix, [0x2001, 0x0db8, 0x0002, 0x0000]);
    assert_eq!(route.lans[0].0, "br-lan0");
    assert_eq!(route.lans[0].1.prefix, [0x2001, 0x0db8, 0x0002, 0x0001]);
    assert_eq!(route.lans[1].0, "br-lan1");
    assert_eq!(route.lans[1].1.prefix, [0x2001, 0x0db8, 0x0002, 0x0002]);
    let same = iface("eth0", vec![global("2001:0db8:0002:0000::1")]);
    assert_eq!(router.wan_check(&same), Ok(false));
}

#[test]
fn scenario_c_prefix_lengths() {
    assert!(Route::initialize(56, scenario_a_snapshot()).is_ok());
    assert_eq!(max_subnet_num(56), 255);
    assert_eq!(Route::initialize(64, scenario_a_snapshot()).unwrap_err(), RouterError::InvalidPrefixLen);
    assert_eq!(Route::initialize(47, scenario_a_snapshot()).unwrap_err(), RouterError::InvalidPrefixLen);
}

#[test]
fn subnet_budget_boundary() {
    // length 63 leaves room for exactly one subnet
    assert_eq!(max_subnet_num(63), 1);
    let one_lan = vec![iface("eth0", vec![global("2001:db8::1")]), iface("lan0", vec![])];
    assert!(Route::initialize(63, one_lan).is_ok());
    let two_lans = vec![iface("eth0", vec![global("2001:db8::1")]), iface("lan0", vec![]), iface("lan1", vec![])];
    assert_eq!(Route::initialize(63, two_lans).unwrap_err(), RouterError::SubnetBudgetExceeded);
    assert_eq!(max_subnet_num(48), 65535);
    assert_eq!(max_subnet_num(60), 15);
}

#[test]
fn no_wan_found() {
    let snapshot = vec![loopback(), iface("eth0", vec![link_local()]), iface("lan0", vec![link_local()])];
    assert_eq!(Route::initialize(60, snapshot).unwrap_err(), RouterError::NoWanFound);
}

#[test]
fn multiple_wan_found() {
    let snapshot = vec![iface("eth0", vec![global("2001:db8::1")]), iface("eth1", vec![global("3001:db8::1")])];
    assert_eq!(Route::initialize(60, snapshot).unwrap_err(), RouterError::MultipleWanFound);
}

#[test]
fn insufficient_interfaces() {
    let snapshot = vec![loopback(), iface("eth0", vec![global("2001:db8::1")])];
    assert_eq!(Route::initialize(60, snapshot).unwrap_err(), RouterError::InsufficientInterfaces);
}

#[test]
fn unparsable_address_does_not_qualify() {
    assert!(!global("2001:zz::1").is_v6_global());
    let snapshot = vec![iface("eth0", vec![global("2001:zz::1")]), iface("lan0", vec![])];
    assert_eq!(Route::initialize(60, snapshot).unwrap_err(), RouterError::NoWanFound);
}

#[test]
fn qualifying_addresses() {
    assert!(global("2001:db8::1").is_v6_global());
    assert!(global("3fff::1").is_v6_global());
    assert!(!global("fd00::1").is_v6_global());
    // 2::1 is 0002::1, outside 2000::/3
    assert!(!global("2::1").is_v6_global());
    assert!(!global("3a::1").is_v6_global());
    assert!(global("2a00::1").is_v6_global());
    assert!(!addr(Family::INet6, "2001:db8::1", Scope::Link, 10, 10).is_v6_global());
    assert!(!addr(Family::INet6, "2001:db8::1", Scope::Global, 0, 10).is_v6_global());
    assert!(!addr(Family::INet6, "2001:db8::1", Scope::Global, 10, 0).is_v6_global());
    assert!(!addr(Family::INet, "2.2.2.2", Scope::Global, 10, 10).is_v6_global());
}

#[test]
fn first_global_address_wins() {
    let i = iface("eth0", vec![global("fd00::5"), global("2001:db8::7"), global("2001:db8::8")]);
    assert_eq!(i.get_ipv6_global_addr().unwrap(), "2001:db8::7");
    assert_eq!(iface("eth0", vec![link_local()]).get_ipv6_global_addr().unwrap_err(), RouterError::NoGlobalAddress);
}

#[test]
fn wan_discovery_retries() {
    let none = || vec![iface("eth0", vec![link_local()]), iface("lan0", vec![])];
    assert!(matches!(Interface::fetch_wanlan(0, none()), WanLanStep::Retry));
    assert!(matches!(Interface::fetch_wanlan(1, none()), WanLanStep::Retry));
    assert!(matches!(Interface::fetch_wanlan(2, none()), WanLanStep::Failed(RouterError::NoWanFound)));
    let two = vec![iface("eth0", vec![global("2001:db8::1")]), iface("eth1", vec![global("2001:db8::2")])];
    assert!(matches!(Interface::fetch_wanlan(0, two), WanLanStep::Failed(RouterError::MultipleWanFound)));
    match Interface::fetch_wanlan(1, scenario_a_snapshot()) {
        WanLanStep::Found(w, l) => {
            assert_eq!(w.ifname, "eth0");
            let names: Vec<String> = l.iter().map(|i| i.ifname.clone()).collect();
            assert_eq!(names, vec!["br-lan1".to_string(), "br-lan0".to_string()]);
        }
        _ => panic!("expected a WAN"),
    }
}

#[test]
fn loopback_left_out() {
    let all = vec![loopback(), iface("eth0", vec![]), iface("lan0", vec![])];
    let kept = Interface::fetch_interfaces(all).unwrap();
    assert_eq!(kept.len(), 2);
    assert_eq!(kept[0].ifname, "eth0");
    assert_eq!(
        Interface::fetch_interfaces(vec![loopback(), iface("eth0", vec![])]).unwrap_err(),
        RouterError::InsufficientInterfaces
    );
}

#[test]
fn parse_ipv6_forms() {
    assert_eq!(parse_ipv6("2001:0db8:0001:0000::1").unwrap(), vec![0x2001, 0xdb8, 1, 0, 0, 0, 0, 1]);
    assert_eq!(parse_ipv6("::").unwrap(), vec![0; 8]);
    assert_eq!(parse_ipv6("::1").unwrap(), vec![0, 0, 0, 0, 0, 0, 0, 1]);
    assert_eq!(parse_ipv6("fe80::").unwrap(), vec![0xfe80, 0, 0, 0, 0, 0, 0, 0]);
    assert_eq!(parse_ipv6("1:2:3:4:5:6:7:8").unwrap(), vec![1, 2, 3, 4, 5, 6, 7, 8]);
    assert_eq!(parse_ipv6("2001:DB8:A::FfFf").unwrap(), vec![0x2001, 0xdb8, 0xa, 0, 0, 0, 0, 0xffff]);
    assert!(parse_ipv6("").is_none());
    assert!(parse_ipv6("1:2:3:4:5:6:7").is_none());
    assert!(parse_ipv6("1:2:3:4:5:6:7:8:9").is_none());
    assert!(parse_ipv6("1:2:3:4::5:6:7:8").is_none());
    assert!(parse_ipv6("1::2::3").is_none());
    assert!(parse_ipv6("12345::").is_none());
    assert!(parse_ipv6(":1::").is_none());
    assert!(parse_ipv6("2001:db8::g").is_none());
}

#[test]
fn lan_prefixes_in_name_order() {
    let names = vec!["wlan0".to_string(), "br-lan1".to_string(), "br-lan0".to_string()];
    let base = [0x2001, 0xdb8, 0x1, 0x10];
    let r = derive_lan_prefixes(base, names.clone());
    let expected = vec![
        ("br-lan0".to_string(), [0x2001, 0xdb8, 0x1, 0x11]),
        ("br-lan1".to_string(), [0x2001, 0xdb8, 0x1, 0x12]),
        ("wlan0".to_string(), [0x2001, 0xdb8, 0x1, 0x13]),
    ];
    assert_eq!(r, expected);
    assert_eq!(derive_lan_prefixes(base, names), expected);
    assert!(derive_lan_prefixes(base, vec![]).is_empty());
}

#[test]
fn lan_prefix_fourth_group_wraps() {
    let r = derive_lan_prefixes([1, 2, 3, 0xffff], vec!["a".to_string(), "b".to_string()]);
    assert_eq!(r[0].1, [1, 2, 3, 0]);
    assert_eq!(r[1].1, [1, 2, 3, 1]);
}

#[test]
fn baseline_keeps_fourth_group() {
    let segs = parse_ipv6("2001:db8:1:5::1").unwrap();
    assert_eq!(derive_baseline(&segs), [0x2001, 0xdb8, 1, 5]);
}

#[test]
fn prefix_text() {
    assert_eq!(format_prefix([0x2001, 0x0db8, 0x0001, 0x0000]), "2001:db8:1:0");
    assert_eq!(format_prefix([0xffff, 0xabc, 0x10, 0xf]), "ffff:abc:10:f");
}

#[test]
fn ula_default_routes_removed() {
    let routes = vec![
        RouteEntry { dst: "default".to_string(), gateway: Some("fd00::1".to_string()) },
        RouteEntry { dst: "default".to_string(), gateway: Some("fe80::1".to_string()) },
        RouteEntry { dst: "fd00::/64".to_string(), gateway: Some("fd00::2".to_string()) },
        RouteEntry { dst: "default".to_string(), gateway: None },
        RouteEntry { dst: "default".to_string(), gateway: Some("fdab::3".to_string()) },
        // fd::1 is 00fd::1, outside fd00::/8
        RouteEntry { dst: "default".to_string(), gateway: Some("fd::1".to_string()) },
        RouteEntry { dst: "default".to_string(), gateway: Some("FD12:3::1".to_string()) },
    ];
    let cmds = del_ula_route("eth0", &routes);
    assert_eq!(
        commands(&cmds),
        vec![
            (CommandKind::DelRoute, "fd00::1".to_string(), "eth0".to_string()),
            (CommandKind::DelRoute, "fdab::3".to_string(), "eth0".to_string()),
            (CommandKind::DelRoute, "FD12:3::1".to_string(), "eth0".to_string()),
        ]
    );
}

#[test]
fn topology_report() {
    let mut route = Route::initialize(60, scenario_a_snapshot()).unwrap();
    assert_eq!(route.route_info().unwrap_err(), RouterError::NoGlobalAddress);
    let fresh = vec![iface("br-lan0", vec![]), iface("br-lan1", vec![global("2001:db8:1:2::1")])];
    let plan = route.add_lan_ndp_proxy(fresh);
    assert_eq!(plan.missing, vec!["br-lan0".to_string()]);
    assert_eq!(
        commands(&plan.commands),
        vec![(CommandKind::AddProxy, "2001:db8:1:2::1".to_string(), "eth0".to_string())]
    );
    assert_eq!(route.route_info().unwrap_err(), RouterError::NoGlobalAddress);
    let fresh = vec![
        iface("br-lan0", vec![global("2001:db8:1:1::1")]),
        iface("br-lan1", vec![global("2001:db8:1:2::1")]),
    ];
    assert!(route.add_lan_ndp_proxy(fresh).missing.is_empty());
    let lines = route.route_info().unwrap();
    assert_eq!(lines.len(), 3);
    assert_eq!(lines[0].ifname, "eth0");
    assert_eq!(lines[0].address, "2001:0db8:0001:0000::1");
    assert_eq!(lines[0].prefix, "2001:db8:1:0");
    assert_eq!(lines[2].ifname, "br-lan1");
    assert_eq!(lines[2].address, "2001:db8:1:2::1");
    assert_eq!(lines[2].prefix, "2001:db8:1:2");
}

#[test]
fn failed_update_keeps_route() {
    let route = Route::initialize(60, scenario_a_snapshot()).unwrap();
    let mut router = Router::new(route);
    assert_eq!(router.wan_check(&iface("eth0", vec![link_local()])), Err(RouterError::NoGlobalAddress));
    assert_eq!(router.update(iface("eth0", vec![link_local()])).unwrap_err(), RouterError::NoGlobalAddress);
    assert_eq!(router.route.wan.1.prefix, [0x2001, 0x0db8, 0x0001, 0x0000]);
    assert_eq!(router.route.lans[1].1.prefix, [0x2001, 0x0db8, 0x0001, 0x0002]);
}

#[test]
fn configured_prefix_length() {
    assert_eq!(parse_prefix_len(None), Ok(60));
    assert_eq!(parse_prefix_len(Some("56")), Ok(56));
    assert_eq!(parse_prefix_len(Some("+48")), Ok(48));
    assert_eq!(parse_prefix_len(Some("063")), Ok(63));
    assert_eq!(parse_prefix_len(Some("64")), Err(RouterError::InvalidPrefixLen));
    assert_eq!(parse_prefix_len(Some("47")), Err(RouterError::InvalidPrefixLen));
    assert_eq!(parse_prefix_len(Some("")), Err(RouterError::InvalidPrefixLen));
    assert_eq!(parse_prefix_len(Some("+")), Err(RouterError::InvalidPrefixLen));
    assert_eq!(parse_prefix_len(Some("6x")), Err(RouterError::InvalidPrefixLen));
    assert_eq!(parse_prefix_len(Some("99999999999999999999")), Err(RouterError::InvalidPrefixLen));
}
