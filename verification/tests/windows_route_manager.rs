use marstart_link::address::Ipv4Addr;
use marstart_link::windows_route_manager::{
    build_row, recover_routes, RouteError, WindowsRouteManager, ACTIVE_METRIC,
    ERROR_ACCESS_DENIED, ERROR_FILE_NOT_FOUND, ERROR_OBJECT_ALREADY_EXISTS, STANDBY_METRIC,
};

#[test]
fn install_and_remove_route_in_registry() {
    let mut mgr = WindowsRouteManager::new();
    let result = mgr.install_route(
        "path-a",
        Ipv4Addr::new(203, 0, 113, 10),
        32,
        0x1234,
        42,
        ACTIVE_METRIC,
    );
    assert!(result.is_ok());
    assert!(mgr.route_exists(Ipv4Addr::new(203, 0, 113, 10), 32, 0x1234));
    let routes = mgr.all_routes();
    assert_eq!(routes.len(), 1);
    assert_eq!(routes[0].path_id, "path-a");
    assert_eq!(routes[0].metric, ACTIVE_METRIC);
}

#[test]
fn remove_unmanaged_route_is_safe() {
    let mut mgr = WindowsRouteManager::new();
    let result = mgr.remove_route("path-a", Ipv4Addr::new(192, 0, 2, 1), 32, 0x9999);
    assert!(result.is_err());
    let err = result.unwrap_err();
    assert!(err.message.contains("not found in MARSTART registry"));
}

#[test]
fn foreign_route_is_never_deleted() {
    let mut mgr = WindowsRouteManager::new();
    mgr.install_route(
        "path-a",
        Ipv4Addr::new(203, 0, 113, 10),
        32,
        0x0001,
        1,
        ACTIVE_METRIC,
    )
    .unwrap();
    let result = mgr.remove_route("path-b", Ipv4Addr::new(203, 0, 113, 10), 32, 0x0001);
    assert!(result.is_err());
    let result = mgr.remove_route("path-a", Ipv4Addr::new(203, 0, 113, 10), 32, 0x0001);
    assert!(result.is_ok());
}

#[test]
fn route_key_uniqueness() {
    let mut mgr = WindowsRouteManager::new();
    mgr.install_route("a", Ipv4Addr::new(203, 0, 113, 10), 32, 1, 1, ACTIVE_METRIC)
        .unwrap();
    mgr.install_route(
        "b",
        Ipv4Addr::new(203, 0, 113, 10),
        32,
        2,
        2,
        STANDBY_METRIC,
    )
    .unwrap();
    assert_eq!(mgr.all_routes().len(), 2);
}

#[test]
fn cleanup_removes_all() {
    let mut mgr = WindowsRouteManager::new();
    mgr.install_route("a", Ipv4Addr::new(203, 0, 113, 10), 32, 1, 1, 10)
        .unwrap();
    mgr.install_route("b", Ipv4Addr::new(203, 0, 113, 10), 32, 2, 2, 20)
        .unwrap();
    let _errors = mgr.cleanup_owned_routes();
    assert_eq!(mgr.all_routes().len(), 0);
}

#[test]
fn update_metric_changes_generation() {
    let mut mgr = WindowsRouteManager::new();
    mgr.install_route("a", Ipv4Addr::new(203, 0, 113, 10), 32, 1, 1, ACTIVE_METRIC)
        .unwrap();
    let gen_before = mgr.all_routes()[0].generation;
    mgr.update_route_metric("a", Ipv4Addr::new(203, 0, 113, 10), 32, STANDBY_METRIC)
        .unwrap();
    let gen_after = mgr.all_routes()[0].generation;
    assert_eq!(gen_after, gen_before + 1);
    assert_eq!(mgr.all_routes()[0].metric, STANDBY_METRIC);
}

#[test]
fn route_not_found_returns_error() {
    let mut mgr = WindowsRouteManager::new();
    let result = mgr.remove_route("nonexistent", Ipv4Addr::new(203, 0, 113, 10), 32, 1);
    assert!(result.is_err());
}

#[test]
fn remove_route_os_without_registry_entry_returns_error_non_windows() {
    let mut mgr = WindowsRouteManager::new();
    let result = mgr.remove_route_os(Ipv4Addr::new(203, 0, 113, 10), 32, 0x1234);
    assert!(result.is_ok());
}

#[test]
fn remove_route_os_removes_from_registry_when_present() {
    let mut mgr = WindowsRouteManager::new();
    mgr.install_route(
        "path-a",
        Ipv4Addr::new(203, 0, 113, 10),
        32,
        0x1234,
        42,
        ACTIVE_METRIC,
    )
    .unwrap();
    assert_eq!(mgr.all_routes().len(), 1);

    let result = mgr.remove_route_os(Ipv4Addr::new(203, 0, 113, 10), 32, 0x1234);
    assert!(result.is_ok());
    assert_eq!(mgr.all_routes().len(), 0);
}

#[test]
fn remove_route_os_preserves_unrelated_routes() {
    let mut mgr = WindowsRouteManager::new();
    mgr.install_route("a", Ipv4Addr::new(203, 0, 113, 10), 32, 1, 1, ACTIVE_METRIC)
        .unwrap();
    mgr.install_route(
        "b",
        Ipv4Addr::new(198, 51, 100, 1),
        32,
        2,
        2,
        STANDBY_METRIC,
    )
    .unwrap();
    assert_eq!(mgr.all_routes().len(), 2);
    let _ = mgr.remove_route_os(Ipv4Addr::new(203, 0, 113, 10), 32, 1);

    let remaining = mgr.all_routes();
    assert_eq!(remaining.len(), 1);
    assert_eq!(remaining[0].destination, Ipv4Addr::new(198, 51, 100, 1));
}

#[test]
fn update_metric_os_active_route_metric_becomes_10() {
    let mut mgr = WindowsRouteManager::new();
    mgr.install_route(
        "path-a",
        Ipv4Addr::new(203, 0, 113, 10),
        32,
        0x1234,
        42,
        STANDBY_METRIC,
    )
    .unwrap();

    let result = mgr.update_route_metric_os(
        "path-a",
        Ipv4Addr::new(203, 0, 113, 10),
        32,
        0x1234,
        ACTIVE_METRIC,
    );
    assert!(result.is_ok());

    let routes = mgr.all_routes();
    let route = routes
        .iter()
        .find(|r| r.path_id == "path-a" && r.destination == Ipv4Addr::new(203, 0, 113, 10))
        .expect("route should exist");
    assert_eq!(route.metric, ACTIVE_METRIC, "metric should be 10");
}

#[test]
fn update_metric_os_standby_route_metric_becomes_20() {
    let mut mgr = WindowsRouteManager::new();
    mgr.install_route(
        "path-a",
        Ipv4Addr::new(203, 0, 113, 10),
        32,
        0x1234,
        42,
        ACTIVE_METRIC,
    )
    .unwrap();

    let result = mgr.update_route_metric_os(
        "path-a",
        Ipv4Addr::new(203, 0, 113, 10),
        32,
        0x1234,
        STANDBY_METRIC,
    );
    assert!(result.is_ok());

    let routes = mgr.all_routes();
    let route = routes
        .iter()
        .find(|r| r.path_id == "path-a" && r.destination == Ipv4Addr::new(203, 0, 113, 10))
        .expect("route should exist");
    assert_eq!(route.metric, STANDBY_METRIC, "metric should be 20");
}

#[test]
fn update_metric_os_does_not_modify_unrelated_routes() {
    let mut mgr = WindowsRouteManager::new();
    mgr.install_route(
        "path-a",
        Ipv4Addr::new(203, 0, 113, 10),
        32,
        0x1234,
        42,
        ACTIVE_METRIC,
    )
    .unwrap();
    mgr.install_route(
        "path-b",
        Ipv4Addr::new(198, 51, 100, 1),
        32,
        0x5678,
        42,
        ACTIVE_METRIC,
    )
    .unwrap();
    let result = mgr.update_route_metric_os(
        "path-a",
        Ipv4Addr::new(203, 0, 113, 10),
        32,
        0x1234,
        STANDBY_METRIC,
    );
    assert!(result.is_ok());

    let routes = mgr.all_routes();
    let a_route = routes
        .iter()
        .find(|r| r.path_id == "path-a")
        .expect("path-a route should exist");
    let b_route = routes
        .iter()
        .find(|r| r.path_id == "path-b")
        .expect("path-b route should exist");

    assert_eq!(a_route.metric, STANDBY_METRIC, "path-a should be updated");
    assert_eq!(
        b_route.metric, ACTIVE_METRIC,
        "path-b should remain unchanged"
    );
}

#[test]
fn update_metric_os_preserves_route_identity() {
    let mut mgr = WindowsRouteManager::new();
    mgr.install_route(
        "path-a",
        Ipv4Addr::new(203, 0, 113, 10),
        32,
        0x1234,
        42,
        STANDBY_METRIC,
    )
    .unwrap();

    let before_routes = mgr.all_routes();
    let before = before_routes
        .iter()
        .find(|r| r.path_id == "path-a")
        .unwrap();
    let dest_before = before.destination;
    let prefix_before = before.prefix_length;
    let luid_before = before.interface_luid;
    let if_index_before = before.interface_index;
    let path_id_before = before.path_id.clone();
    let generation_before = before.generation;

    mgr.update_route_metric_os(
        "path-a",
        dest_before,
        prefix_before,
        luid_before,
        ACTIVE_METRIC,
    )
    .unwrap();

    let after_routes = mgr.all_routes();
    let after = after_routes
        .iter()
        .find(|r| r.path_id == "path-a")
        .expect("route should still exist");
    assert_eq!(
        after.destination, dest_before,
        "destination must be preserved"
    );
    assert_eq!(
        after.prefix_length, prefix_before,
        "prefix must be preserved"
    );
    assert_eq!(after.interface_luid, luid_before, "LUID must be preserved");
    assert_eq!(
        after.interface_index, if_index_before,
        "interface index must be preserved"
    );
    assert_eq!(after.path_id, path_id_before, "path_id must be preserved");
    assert_eq!(after.metric, ACTIVE_METRIC);
    assert_eq!(
        after.generation,
        generation_before + 1,
        "generation should advance"
    );
}

#[test]
fn update_metric_os_handles_access_denied_gracefully() {
    let mut mgr = WindowsRouteManager::new();
    mgr.install_route(
        "path-a",
        Ipv4Addr::new(203, 0, 113, 10),
        32,
        0x1234,
        42,
        STANDBY_METRIC,
    )
    .unwrap();
    let result = mgr.update_route_metric_os(
        "path-a",
        Ipv4Addr::new(203, 0, 113, 10),
        32,
        0x1234,
        ACTIVE_METRIC,
    );
    assert!(result.is_ok(), "ACCESS_DENIED should be handled gracefully");
    let routes = mgr.all_routes();
    let route = routes
        .iter()
        .find(|r| r.path_id == "path-a")
        .expect("route should still be tracked");
    assert_eq!(route.metric, ACTIVE_METRIC);
}

#[test]
fn update_metric_os_nonexistent_route_returns_error() {
    let mut mgr = WindowsRouteManager::new();

    let result = mgr.update_route_metric_os(
        "nonexistent",
        Ipv4Addr::new(203, 0, 113, 10),
        32,
        0x1234,
        ACTIVE_METRIC,
    );
    assert!(
        result.is_err(),
        "should error on non-Windows for unregistered route"
    );

}

#[test]
fn update_metric_os_non_windows_stub_is_deterministic() {
    let mut mgr = WindowsRouteManager::new();
    mgr.install_route(
        "path-a",
        Ipv4Addr::new(203, 0, 113, 10),
        32,
        0x1234,
        42,
        STANDBY_METRIC,
    )
    .unwrap();
    let result = mgr.update_route_metric_os(
        "path-a",
        Ipv4Addr::new(203, 0, 113, 10),
        32,
        0x1234,
        ACTIVE_METRIC,
    );

    assert!(result.is_ok(), "non-Windows stub should succeed");
    let routes = mgr.all_routes();
    let route = routes.iter().find(|r| r.path_id == "path-a").unwrap();
    assert_eq!(route.metric, ACTIVE_METRIC);

}

#[test]
fn tolerated_codes_keep_the_registry_going() {
    let d = Ipv4Addr::new(203, 0, 113, 10);
    let mut mgr = WindowsRouteManager::new();
    assert!(mgr.install_route_native("a", d, 32, 1, 7, 10, ERROR_ACCESS_DENIED).is_ok());
    assert!(mgr.install_route_native("b", d, 32, 2, 8, 20, ERROR_OBJECT_ALREADY_EXISTS).is_ok());
    assert!(mgr.install_route_native("c", d, 32, 3, 9, 20, 0).is_ok());
    assert_eq!(mgr.all_routes().len(), 3);
    assert!(mgr.update_route_metric_native("a", d, 32, 1, 20, ERROR_ACCESS_DENIED).is_ok());
    assert!(mgr.remove_route_os_native(d, 32, 1, ERROR_FILE_NOT_FOUND).is_ok());
    assert!(!mgr.owns("a", d, 32));
    assert!(mgr.owns("b", d, 32));
}

#[test]
fn other_codes_are_errors_and_change_nothing() {
    let d = Ipv4Addr::new(203, 0, 113, 10);
    let mut mgr = WindowsRouteManager::new();
    mgr.install_route("a", d, 32, 1, 7, 10).unwrap();
    let e: RouteError = mgr.install_route_native("b", d, 32, 2, 8, 20, 87).unwrap_err();
    assert_eq!(e.error_code, 87);
    assert_eq!(e.operation, "CreateIpForwardEntry2");
    assert_eq!(e.destination, "203.0.113.10/32");
    assert_eq!(e.path_id, "b");
    assert_eq!(e.interface_luid, Some(2));
    let e = mgr.update_route_metric_native("a", d, 32, 1, 20, 2).unwrap_err();
    assert_eq!(e.operation, "SetIpForwardEntry2");
    let e = mgr.remove_route_os_native(d, 32, 1, 87).unwrap_err();
    assert_eq!(e.operation, "DeleteIpForwardEntry2");
    let e = mgr.remove_route_native("a", d, 32, 1, 87).unwrap_err();
    assert!(e.text().len() > 0);
    assert_eq!(mgr.all_routes().len(), 1);
    assert_eq!(mgr.all_routes()[0].metric, 10);
}

#[test]
fn removing_undoes_installing() {
    let d = Ipv4Addr::new(10, 1, 0, 0);
    let mut mgr = WindowsRouteManager::new();
    mgr.install_route("x", d, 16, 4, 0, 20).unwrap();
    let before = mgr.all_routes().len();
    mgr.install_route("y", d, 16, 5, 0, 10).unwrap();
    mgr.remove_route("y", d, 16, 5).unwrap();
    assert_eq!(mgr.all_routes().len(), before);
    assert!(mgr.owns("x", d, 16));
}

#[test]
fn rows_read_back_as_routes() {
    let d = Ipv4Addr::new(198, 51, 100, 0);
    let rows = vec![build_row(d, 24, 0xAB, 10)];
    let routes = recover_routes(&rows);
    assert_eq!(routes.len(), 1);
    assert_eq!(routes[0].destination, d);
    assert_eq!(routes[0].prefix_length, 24);
    assert_eq!(routes[0].interface_luid, 0xAB);
    assert_eq!(routes[0].metric, 10);
}
