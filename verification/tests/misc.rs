use marstart_link::address::{
    parse_ip, parse_socket, IpAddr, Ipv4Addr, Ipv6Addr, SocketAddr, SocketAddrV4, SocketAddrV6,
};
use marstart_link::address_text::{ip_to_text, socket_to_text};
use marstart_link::arith::Op;
use marstart_link::metrics::MetricsStore;
use marstart_link::monitor::{MonitorService, MonitorTarget};
use marstart_link::name_map::NameMap;
use marstart_link::network_config::{
    address_row, entry_result, guid_text, interface_key, interface_route, name_server_value,
};
use marstart_link::profiles::{
    is_profile_id, load_profile, profile_candidates, EndpointSpec, Profile,
};
use marstart_link::route_registry::{endpoints_from_targets, RouteRegistry};
use marstart_link::routes::RouteManager;
use marstart_link::scalar::Scalar;
use marstart_link::snapshot::RouteSnapshotEngine;
use marstart_link::utils::{library_candidates, parse_cidr, parse_destination, resolve_dll_path};

fn sc(x: f32) -> Scalar {
    Scalar { bits: x.to_bits() }
}

fn fl(s: Scalar) -> f32 {
    f32::from_bits(s.bits)
}

fn unit(op: Op) -> Scalar {
    match op {
        Op::Plus(a, b) => sc(fl(a) + fl(b)),
        Op::Minus(a, b) => sc(fl(a) - fl(b)),
        Op::Times(a, b) => sc(fl(a) * fl(b)),
        Op::Over(a, b) => sc(fl(a) / fl(b)),
        Op::Root(a) => sc(fl(a).sqrt()),
        Op::Whole(n) => sc(n as f32),
    }
}

fn chars(s: &str) -> Vec<char> {
    s.chars().collect()
}

#[test]
fn address_texts_are_canonical() {
    for (text, canonical) in [
        ("::", "::"),
        ("0:0:0:0:0:0:0:1", "::1"),
        ("1::", "1::"),
        ("2001:DB8::1", "2001:db8::1"),
        ("2001:db8:0:1:1:1:1:1", "2001:db8:0:1:1:1:1:1"),
        ("2001:0:0:1::1", "2001:0:0:1::1"),
        ("1:0:0:2:0:0:0:3", "1:0:0:2::3"),
        ("1:0:0:2:3:0:0:4", "1::2:3:0:0:4"),
        ("0:1:0:1:0:1:0:1", "0:1:0:1:0:1:0:1"),
        ("::ffff:1.2.3.4", "::ffff:1.2.3.4"),
        ("::1.2.3.4", "::102:304"),
        ("fe80:0:0:0:abcd:0:0:1", "fe80::abcd:0:0:1"),
        ("1:2:3:4:5:6:7:8", "1:2:3:4:5:6:7:8"),
        ("1:2:3:4:5:6:0:0", "1:2:3:4:5:6::"),
        ("1.2.3.4", "1.2.3.4"),
        ("255.255.255.255", "255.255.255.255"),
        ("0.0.0.0", "0.0.0.0"),
    ] {
        let ip = parse_ip(&chars(text)).unwrap();
        assert_eq!(ip_to_text(ip), canonical, "{text}");
        assert_eq!(parse_ip(&chars(canonical)), Some(ip), "{canonical}");
    }
}

#[test]
fn address_values() {
    for (text, bits) in [
        ("::", 0),
        ("::1", 1),
        ("2001:db8::8:800:200c:417a", 0x2001_0db8_0000_0000_0008_0800_200c_417a),
        ("::ffff:9.8.7.6", 0xffff_0908_0706),
        ("1:2:3:4:5:6:7.8.9.10", 0x0001_0002_0003_0004_0005_0006_0708_090a),
    ] {
        assert_eq!(parse_ip(&chars(text)), Some(IpAddr::V6(Ipv6Addr { bits })), "{text}");
    }
    for text in ["", "1.2.3", "1.2.3.4.5", "01.2.3.4", "256.1.1.1", ":::", "1::2::3", "12345::", "g::"] {
        assert!(parse_ip(&chars(text)).is_none(), "{text}");
    }
}

#[test]
fn socket_texts_read_back() {
    for text in ["1.2.3.4:80", "[::1]:65535", "[fe80::1%7]:443", "[::ffff:1.2.3.4]:1"] {
        let a = parse_socket(&chars(text)).unwrap();
        assert_eq!(socket_to_text(a), text);
    }
    for text in ["1.2.3.4", "1.2.3.4:", "1.2.3.4:65536", "::1:80", "[::1]", "host:80"] {
        assert!(parse_socket(&chars(text)).is_none(), "{text}");
    }
}

#[test]
fn ranges() {
    assert_eq!(
        parse_cidr("10.0.0.0/8"),
        Ok((IpAddr::V4(Ipv4Addr::new(10, 0, 0, 0)), 8))
    );
    assert_eq!(
        parse_cidr("::1/128"),
        Ok((IpAddr::V6(Ipv6Addr { bits: 1 }), 128))
    );
    assert_eq!(parse_cidr("10.0.0.0").unwrap_err(), "Invalid CIDR format: 10.0.0.0");
    assert_eq!(parse_cidr("a/b/c").unwrap_err(), "Invalid CIDR format: a/b/c");
    assert_eq!(
        parse_cidr("x/8").unwrap_err(),
        "Invalid IP in CIDR: invalid IP address syntax"
    );
    assert_eq!(
        parse_cidr("1.1.1.1/256").unwrap_err(),
        "Invalid prefix in CIDR: number too large to fit in target type"
    );
    assert_eq!(parse_destination("203.0.113.0/24"), Some((Ipv4Addr::new(203, 0, 113, 0), 24)));
    assert_eq!(parse_destination("::1/128"), None);
    assert_eq!(parse_destination("203.0.113.0"), None);
    assert_eq!(parse_destination("203.0.113.0/"), None);
}

#[test]
fn libraries() {
    assert_eq!(
        resolve_dll_path("w.dll", Some("b".to_string()), Some("d".to_string())),
        Ok("b".to_string())
    );
    assert_eq!(resolve_dll_path("w.dll", None, Some("d".to_string())), Ok("d".to_string()));
    assert_eq!(
        resolve_dll_path("w.dll", None, None).unwrap_err(),
        "DLL w.dll not found in resources or dev path"
    );
    assert_eq!(
        library_candidates("x86_64").unwrap()[1],
        "sdk/wireguard-nt/amd64/wireguard.dll"
    );
    assert_eq!(library_candidates("aarch64").unwrap().len(), 3);
    assert!(library_candidates("riscv64").is_none());
}

#[test]
fn interface_settings() {
    let ip = IpAddr::V4(Ipv4Addr::new(10, 0, 0, 2));
    let row = address_row(7, ip, 24);
    assert_eq!((row.interface_index, row.prefix_length, row.family), (7, 24, 2));
    let route = interface_route(7, IpAddr::V6(Ipv6Addr { bits: 1 }), 64);
    assert_eq!((route.metric, route.family), (1, 23));
    assert!(entry_result("CreateUnicastIpAddressEntry", 0).is_ok());
    assert!(entry_result("CreateUnicastIpAddressEntry", 5010).is_ok());
    assert_eq!(
        entry_result("CreateIpForwardEntry2", 87).unwrap_err(),
        "CreateIpForwardEntry2 failed: 87"
    );
    assert_eq!(
        guid_text(0x1234abcd, 0xbeef, 0x0001, [0, 1, 2, 3, 0xfe, 5, 6, 7]),
        "{1234ABCD-BEEF-0001-0001-0203FE050607}"
    );
    assert_eq!(
        interface_key("{G}"),
        r"SYSTEM\CurrentControlSet\Services\Tcpip\Parameters\Interfaces\{G}"
    );
    assert_eq!(name_server_value(&vec![]), None);
    assert_eq!(
        name_server_value(&vec![ip, IpAddr::V6(Ipv6Addr { bits: 1 })]),
        Some("10.0.0.2,::1".to_string())
    );
}

#[test]
fn profile_names() {
    assert!(is_profile_id("default"));
    for bad in ["", "a/b", "a\\b", "..", "a..b"] {
        assert!(!is_profile_id(bad), "{bad}");
        assert_eq!(load_profile(bad, &vec![]).unwrap_err(), "invalid profile id");
        assert!(profile_candidates(bad).is_err());
    }
    assert!(is_profile_id("a.b"));
    assert_eq!(
        load_profile("home", &vec![]).unwrap_err(),
        "WireGuard profile 'home' not found; expected profiles/home.conf"
    );
    let p = load_profile("home", &vec!["/x/home.conf".to_string()]).unwrap();
    assert_eq!(p.id, "home");
    assert_eq!(p.display_name, "home");
    assert_eq!(p.wg_config_path.as_deref(), Some("/x/home.conf"));
    assert_eq!(p.path_count(), 1);
}

#[test]
fn config_paths_fall_back_to_the_single_one() {
    let mut p = load_profile("home", &vec!["/x/home.conf".to_string()]).unwrap();
    p.wg_config_paths.clear();
    assert_eq!(p.get_config_paths(), vec!["/x/home.conf".to_string()]);
    p.wg_config_path = None;
    assert!(p.get_config_paths().is_empty());
    p.wg_config_paths = vec!["a".to_string(), "b".to_string()];
    assert_eq!(p.path_count(), 2);
}

#[test]
fn trial_settings() {
    let a = Some("a.conf".to_string());
    let b = Some("b.conf".to_string());
    assert_eq!(
        Profile::from_test_env(None, b.clone(), None, true, true).unwrap_err(),
        "MARSTART_PATH_A_CONFIG env var not set"
    );
    assert_eq!(
        Profile::from_test_env(a.clone(), None, None, true, true).unwrap_err(),
        "MARSTART_PATH_B_CONFIG env var not set"
    );
    assert_eq!(
        Profile::from_test_env(a.clone(), b.clone(), None, false, true).unwrap_err(),
        "MARSTART_PATH_A_CONFIG file not found: a.conf"
    );
    assert_eq!(
        Profile::from_test_env(a.clone(), b.clone(), None, true, false).unwrap_err(),
        "MARSTART_PATH_B_CONFIG file not found: b.conf"
    );
    let p = Profile::from_test_env(a, b, Some("10.0.0.0/8".to_string()), true, true).unwrap();
    assert_eq!(p.id, "live-test");
    assert_eq!(p.path_count(), 2);
    assert_eq!(p.managed_destination.as_deref(), Some("10.0.0.0/8"));
}

#[test]
fn names_are_kept_in_order() {
    let mut m: NameMap<Scalar> = NameMap::new();
    m.insert("b".to_string(), sc(2.0));
    m.insert("a".to_string(), sc(1.0));
    m.insert("b".to_string(), sc(3.0));
    assert_eq!(m.len(), 2);
    assert_eq!(m.name_at(0), "a");
    assert_eq!(fl(*m.get("b").unwrap()), 3.0);
    assert!(m.contains("a"));
    m.retain(&vec!["b".to_string()]);
    assert!(!m.contains("a"));
    assert!(m.take("b").is_some());
    assert!(m.take("b").is_none());
}

fn registry() -> RouteRegistry {
    RouteRegistry::new(
        MonitorService::new(MetricsStore::new()),
        RouteSnapshotEngine::new(0),
        RouteManager::new(),
    )
}

fn endpoint(id: &str, port: u16) -> EndpointSpec {
    EndpointSpec {
        id: id.to_string(),
        addr: SocketAddr::V4(SocketAddrV4 { ip: Ipv4Addr::new(127, 0, 0, 1), port }),
        label: String::new(),
        weight: sc(1.0),
    }
}

#[test]
fn endpoints_are_set_everywhere() {
    let mut r = registry();
    r.set_endpoints(vec![endpoint("a", 1), endpoint("b", 2)]).unwrap();
    assert_eq!(r.state().endpoint_count, 2);
    assert_eq!(r.state().cooldown_ms, 10_000);
    assert_eq!(fl(r.state().switch_margin), 0.10);
    assert_eq!(r.monitor().snapshot_state().targets.len(), 2);
    assert_eq!(r.monitor().snapshot_state().targets[1].fallback_port, 2);
    assert_eq!(r.monitor().metrics().list_targets().len(), 2);
    let (snap, news) = r.refresh(&unit, 5);
    assert_eq!(snap.routes.len(), 2);
    assert!(!news);
    r.set_endpoints(vec![endpoint("b", 2)]).unwrap();
    assert_eq!(r.route_state().candidates.len(), 1);
    assert_eq!(r.refresh(&unit, 6).0.routes.len(), 1);
}

#[test]
fn a_route_chosen_by_hand_is_used() {
    let mut r = registry();
    r.set_endpoints(vec![endpoint("a", 1), endpoint("b", 2)]).unwrap();
    assert_eq!(r.select(Some("z".to_string()), 10).unwrap_err(), "unknown route id: z");
    let s = r.select(Some("b".to_string()), 10).unwrap();
    assert_eq!(s.current.as_deref(), Some("b"));
    assert_eq!(s.manual_override.as_deref(), Some("b"));
    assert_eq!(s.last_switch_ms, 10);
    assert!(r.refresh(&unit, 11).1);
    let s = r.select(None, 20).unwrap();
    assert_eq!(s.current.as_deref(), Some("b"));
    assert!(s.manual_override.is_none());
    assert_eq!(r.route_eval(&unit, 30).current.as_deref(), Some("b"));
    r.commit(None, 40);
    assert!(r.route_state().current.is_none());
}

#[test]
fn targets_stand_for_endpoints() {
    let specs = endpoints_from_targets(&vec![MonitorTarget {
        id: "x".to_string(),
        addr: IpAddr::V6(Ipv6Addr { bits: 5 }),
        fallback_port: 53,
    }]);
    assert_eq!(specs[0].id, "x");
    assert_eq!(
        specs[0].addr,
        SocketAddr::V6(SocketAddrV6 { ip: Ipv6Addr { bits: 5 }, port: 53, flowinfo: 0, scope_id: 0 })
    );
    assert_eq!(specs[0].label, "");
    assert_eq!(fl(specs[0].weight), 1.0);
}
