use marstart_link::address::Ipv4Addr;
use marstart_link::path_manager::reconcile::ReconcileStep;
use marstart_link::path_manager::{
    failover_moves, Path, PathHealth, PathId, PathManager, TunnelState,
};
use marstart_link::windows_route_manager::{
    ManagedRoute, WindowsRouteManager, ACTIVE_METRIC, STANDBY_METRIC,
};
use std::sync::atomic::{AtomicBool, Ordering};

#[test]
fn new_pathmanager_has_no_paths() {
    let mut pm = PathManager::new();
    assert_eq!(pm.get_paths().len(), 0);
}

#[test]
fn add_path_registers_new_path() {
    let mut pm = PathManager::new();
    assert!(pm.add_path("path-a", "wg0").is_ok());
    assert_eq!(pm.get_paths().len(), 1);
    assert!(pm.has_path("path-a"));
}

#[test]
fn add_duplicate_path_fails() {
    let mut pm = PathManager::new();
    pm.add_path("path-a", "wg0").unwrap();
    assert!(pm.add_path("path-a", "wg1").is_err());
}

#[test]
fn connect_path_sets_luid_and_state() {
    let mut pm = PathManager::new();
    pm.add_path("path-a", "wg0").unwrap();
    assert!(pm.connect_path("path-a", 0x1234, 42).is_ok());

    let path = pm.get_path("path-a").unwrap();
    assert_eq!(path.interface_luid, 0x1234);
    assert_eq!(path.interface_index, 42);
    assert_eq!(path.tunnel_state, TunnelState::Up);
}

#[test]
fn activate_path_sets_active_and_standby() {
    let mut pm = PathManager::new();
    pm.add_path("path-a", "wg0").unwrap();
    pm.add_path("path-b", "wg1").unwrap();
    pm.set_destination("path-a", Ipv4Addr::new(203, 0, 113, 10), 32).unwrap();
    pm.set_destination("path-b", Ipv4Addr::new(203, 0, 113, 10), 32).unwrap();
    pm.connect_path("path-a", 1, 1).unwrap();
    pm.connect_path("path-b", 2, 2).unwrap();
    pm.activate_path("path-a").unwrap();

    let paths = pm.get_paths();
    let a = paths.iter().find(|p| p.id.as_str() == "path-a").unwrap();
    let b = paths.iter().find(|p| p.id.as_str() == "path-b").unwrap();
    assert!(a.active);
    assert!(!b.active);
}

#[test]
fn deactivate_path_clears_active_flag() {
    let mut pm = PathManager::new();
    pm.add_path("path-a", "wg0").unwrap();
    pm.connect_path("path-a", 1, 1).unwrap();
    pm.activate_path("path-a").unwrap();

    assert!(pm.get_path("path-a").unwrap().active);
    pm.deactivate_path("path-a").unwrap();
    assert!(!pm.get_path("path-a").unwrap().active);
}

#[test]
fn disconnect_path_sets_tunnel_down() {
    let mut pm = PathManager::new();
    pm.add_path("path-a", "wg0").unwrap();
    pm.connect_path("path-a", 1, 1).unwrap();
    assert_eq!(pm.get_path("path-a").unwrap().tunnel_state, TunnelState::Up);
    pm.disconnect_path("path-a").unwrap();
    assert_eq!(
        pm.get_path("path-a").unwrap().tunnel_state,
        TunnelState::Down
    );
}

#[test]
fn get_nonexistent_path_returns_none() {
    let mut pm = PathManager::new();
    assert!(pm.get_path("nonexistent").is_none());
}

#[test]
fn set_destination_updates_path() {
    let mut pm = PathManager::new();
    pm.add_path("path-a", "wg0").unwrap();
    pm.set_destination("path-a", Ipv4Addr::new(10, 0, 0, 1), 24)
        .unwrap();
    let path = pm.get_path("path-a").unwrap();
    assert_eq!(path.destination, Some(Ipv4Addr::new(10, 0, 0, 1)));
    assert_eq!(path.prefix_length, 24);
}

#[test]
fn set_destination_nonexistent_path_fails() {
    let mut pm = PathManager::new();
    assert!(pm
        .set_destination("nope", Ipv4Addr::new(10, 0, 0, 1), 24)
        .is_err());
}

#[test]
fn clear_paths_removes_all_paths_and_routes() {
    let mut pm = PathManager::new();
    pm.add_path("path-a", "wg0").unwrap();
    pm.add_path("path-b", "wg1").unwrap();
    assert_eq!(pm.get_paths().len(), 2);
    pm.clear_paths().unwrap();
    assert_eq!(pm.get_paths().len(), 0);
}

#[test]
fn has_path_returns_correct_bool() {
    let mut pm = PathManager::new();
    assert!(!pm.has_path("path-a"));
    pm.add_path("path-a", "wg0").unwrap();
    assert!(pm.has_path("path-a"));
}

#[test]
fn connect_path_nonexistent_fails() {
    let mut pm = PathManager::new();
    assert!(pm.connect_path("nonexistent", 1, 1).is_err());
}

#[test]
fn disconnect_path_nonexistent_fails() {
    let mut pm = PathManager::new();
    assert!(pm.disconnect_path("nonexistent").is_err());
}

#[test]
fn diagnostics_returns_all_paths() {
    let mut pm = PathManager::new();
    pm.add_path("path-a", "wg0").unwrap();
    pm.add_path("path-b", "wg1").unwrap();
    let diag = pm.diagnostics();
    assert_eq!(diag.len(), 2);
}
fn setup_two_paths() -> PathManager {
    let mut pm = PathManager::new();
    pm.add_path("path-a", "wg0").unwrap();
    pm.add_path("path-b", "wg1").unwrap();

    pm.set_destination("path-a", Ipv4Addr::new(203, 0, 113, 10), 32).unwrap();
    pm.set_destination("path-b", Ipv4Addr::new(203, 0, 113, 10), 32).unwrap();

    pm.connect_path("path-a", 0xAA, 10).unwrap();
    pm.connect_path("path-b", 0xBB, 20).unwrap();
    pm.activate_path("path-a").unwrap();
    pm
}

#[test]
fn failover_switches_active_to_new_path_on_verification_success() {
    let mut pm = setup_two_paths();

    let result = pm
        .failover("path-a", "path-b", |_: &Path| true)
        .unwrap();
    assert_eq!(result.from_path, Some("path-a".to_string()));
    assert_eq!(result.to_path, Some("path-b".to_string()));
    assert!(result.datapath_applied);
    assert!(result.error.is_none());
    let paths = pm.get_paths();
    let a = paths.iter().find(|p| p.id.as_str() == "path-a").unwrap();
    let b = paths.iter().find(|p| p.id.as_str() == "path-b").unwrap();
    assert!(!a.active, "old path should be inactive");
    assert!(b.active, "new path should be active");
}

#[test]
fn failover_rolls_back_on_verification_failure() {
    let mut pm = setup_two_paths();
    assert!(pm.get_path("path-a").unwrap().active);
    assert!(!pm.get_path("path-b").unwrap().active);

    let result = pm.failover("path-a", "path-b", |_: &Path| false);
    assert!(result.is_err());
    let err = result.unwrap_err();
    assert!(err.contains("rolled back"));
    let paths = pm.get_paths();
    let a = paths.iter().find(|p| p.id.as_str() == "path-a").unwrap();
    let b = paths.iter().find(|p| p.id.as_str() == "path-b").unwrap();
    assert!(a.active, "old path should remain active after rollback");
    assert!(!b.active, "new path should remain inactive after rollback");
}

#[test]
fn failover_nonexistent_old_path_returns_error() {
    let mut pm = setup_two_paths();
    let result = pm.failover("path-x", "path-b", |_: &Path| true);
    assert!(result.is_err());
    assert!(result.unwrap_err().contains("not found"));
}

#[test]
fn failover_nonexistent_new_path_returns_error() {
    let mut pm = setup_two_paths();
    let result = pm.failover("path-a", "path-x", |_: &Path| true);
    assert!(result.is_err());
    assert!(result.unwrap_err().contains("not found"));
}

#[test]
fn failover_same_path_is_noop() {
    let mut pm = setup_two_paths();
    let result = pm
        .failover("path-a", "path-a", |_: &Path| true)
        .unwrap();
    assert!(result.datapath_applied);
    assert_eq!(result.from_path, Some("path-a".to_string()));
    assert_eq!(result.to_path, Some("path-a".to_string()));
}

#[test]
fn failover_missing_destination_returns_error() {
    let mut pm = PathManager::new();
    pm.add_path("path-a", "wg0").unwrap();
    pm.add_path("path-b", "wg1").unwrap();
    pm.connect_path("path-a", 0xAA, 10).unwrap();
    pm.connect_path("path-b", 0xBB, 20).unwrap();
    let result = pm.failover("path-a", "path-b", |_: &Path| true);
    assert!(result.is_err());
    assert!(result.unwrap_err().contains("managed destination"));
}

#[test]
fn failover_unconnected_path_returns_error() {
    let mut pm = PathManager::new();
    pm.add_path("path-a", "wg0").unwrap();
    pm.add_path("path-b", "wg1").unwrap();
    pm.set_destination("path-a", Ipv4Addr::new(203, 0, 113, 10), 32).unwrap();
    pm.set_destination("path-b", Ipv4Addr::new(203, 0, 113, 10), 32).unwrap();

    let result = pm.failover("path-a", "path-b", |_: &Path| true);
    assert!(result.is_err());
    assert!(result.unwrap_err().contains("not connected"));
}

#[test]
fn failover_sets_correct_metrics_after_success() {
    let mut pm = setup_two_paths();
    pm.failover("path-a", "path-b", |_: &Path| true)
        .unwrap();
    let routes = pm.router().all_routes();
    let dest = Ipv4Addr::new(203, 0, 113, 10);

    let active_route = routes
        .iter()
        .find(|r| r.path_id == "path-b" && r.destination == dest);
    let standby_route = routes
        .iter()
        .find(|r| r.path_id == "path-a" && r.destination == dest);

    assert!(active_route.is_some(), "active route should exist");
    assert_eq!(active_route.unwrap().metric, ACTIVE_METRIC);

    assert!(standby_route.is_some(), "standby route should exist");
    assert_eq!(standby_route.unwrap().metric, STANDBY_METRIC);
}
#[test]
fn failover_invariant_success_metrics_and_active() {
    let mut pm = setup_two_paths();

    let result = pm
        .failover("path-a", "path-b", |_: &Path| true)
        .unwrap();
    assert!(result.datapath_applied);
    assert!(result.error.is_none());
    let routes = pm.router().all_routes();
    let dest = Ipv4Addr::new(203, 0, 113, 10);
    let b_route = routes
        .iter()
        .find(|r| r.path_id == "path-b" && r.destination == dest)
        .expect("path-b route should exist");
    assert_eq!(
        b_route.metric, ACTIVE_METRIC,
        "new active path route should have ACTIVE_METRIC"
    );
    let a_route = routes
        .iter()
        .find(|r| r.path_id == "path-a" && r.destination == dest)
        .expect("path-a route should exist");
    assert_eq!(
        a_route.metric, STANDBY_METRIC,
        "old path route should have STANDBY_METRIC"
    );
    assert!(!pm.get_path("path-a").unwrap().active);
    assert!(pm.get_path("path-b").unwrap().active);
}
#[test]
fn failover_invariant_rollback_preserves_original_state() {
    let mut pm = setup_two_paths();

    let result = pm.failover("path-a", "path-b", |_: &Path| false);
    assert!(result.is_err());
    let err = result.unwrap_err();
    assert!(err.contains("rolled back"));

    let routes = pm.router().all_routes();
    let dest = Ipv4Addr::new(203, 0, 113, 10);
    let a_route = routes
        .iter()
        .find(|r| r.path_id == "path-a" && r.destination == dest)
        .expect("path-a route should exist");
    assert_eq!(
        a_route.metric, ACTIVE_METRIC,
        "old path should be restored to ACTIVE"
    );
    let b_route = routes
        .iter()
        .find(|r| r.path_id == "path-b" && r.destination == dest)
        .expect("path-b route should exist");
    assert_eq!(
        b_route.metric, STANDBY_METRIC,
        "new path should be demoted to STANDBY"
    );
    assert!(pm.get_path("path-a").unwrap().active);
    assert!(!pm.get_path("path-b").unwrap().active);
}
#[test]
fn failover_invariant_same_path_noop() {
    let mut pm = setup_two_paths();
    pm.activate_path("path-a").unwrap();

    let routes_before = pm.router().all_routes();
    let metrics_before: Vec<(String, u32)> = routes_before
        .iter()
        .map(|r| (format!("{}/{:?}", r.path_id, r.destination), r.metric))
        .collect();

    let result = pm
        .failover("path-a", "path-a", |_: &Path| true)
        .unwrap();
    assert!(result.datapath_applied);
    assert_eq!(result.from_path, Some("path-a".to_string()));
    assert_eq!(result.to_path, Some("path-a".to_string()));
    assert!(result.error.is_none());
    let routes_after = pm.router().all_routes();
    let metrics_after: Vec<(String, u32)> = routes_after
        .iter()
        .map(|r| (format!("{}/{:?}", r.path_id, r.destination), r.metric))
        .collect();

    assert_eq!(metrics_before, metrics_after, "no routes should change");
    assert!(pm.get_path("path-a").unwrap().active);
    assert!(!pm.get_path("path-b").unwrap().active);
}
#[test]
fn failover_invariant_no_route_state_change_on_missing_path() {
    let mut pm = setup_two_paths();
    let routes_before = pm.router().all_routes();
    let metrics_before: Vec<(String, u32)> = routes_before
        .iter()
        .map(|r| (format!("{:?}", r.destination), r.metric))
        .collect();
    let result = pm
        .failover("path-a", "nonexistent", |_: &Path| true);
    assert!(result.is_err());
    let routes_after = pm.router().all_routes();
    let metrics_after: Vec<(String, u32)> = routes_after
        .iter()
        .map(|r| (format!("{:?}", r.destination), r.metric))
        .collect();
    assert_eq!(
        metrics_before, metrics_after,
        "no routes should change on error"
    );
    let result = pm
        .failover("nonexistent", "path-b", |_: &Path| true);
    assert!(result.is_err());
    let routes_after2 = pm.router().all_routes();
    let metrics_after2: Vec<(String, u32)> = routes_after2
        .iter()
        .map(|r| (format!("{:?}", r.destination), r.metric))
        .collect();
    assert_eq!(
        metrics_before, metrics_after2,
        "no routes should change on error"
    );
}
#[test]
fn failover_invariant_no_adapter_destroyed() {
    let mut pm = setup_two_paths();
    let luid_a_before = pm.get_path("path-a").unwrap().interface_luid;
    let luid_b_before = pm.get_path("path-b").unwrap().interface_luid;
    let idx_a_before = pm.get_path("path-a").unwrap().interface_index;
    let idx_b_before = pm.get_path("path-b").unwrap().interface_index;
    let state_a_before = pm.get_path("path-a").unwrap().tunnel_state;
    let state_b_before = pm.get_path("path-b").unwrap().tunnel_state;

    pm.failover("path-a", "path-b", |_: &Path| true)
        .unwrap();

    let luid_a_after = pm.get_path("path-a").unwrap().interface_luid;
    let luid_b_after = pm.get_path("path-b").unwrap().interface_luid;
    let idx_a_after = pm.get_path("path-a").unwrap().interface_index;
    let idx_b_after = pm.get_path("path-b").unwrap().interface_index;
    let state_a_after = pm.get_path("path-a").unwrap().tunnel_state;
    let state_b_after = pm.get_path("path-b").unwrap().tunnel_state;
    assert_eq!(luid_a_before, luid_a_after, "path-a LUID must not change");
    assert_eq!(luid_b_before, luid_b_after, "path-b LUID must not change");
    assert_eq!(idx_a_before, idx_a_after, "path-a index must not change");
    assert_eq!(idx_b_before, idx_b_after, "path-b index must not change");
    assert_eq!(
        state_a_before, state_a_after,
        "path-a tunnel state must not change"
    );
    assert_eq!(
        state_b_before, state_b_after,
        "path-b tunnel state must not change"
    );
}
#[test]
fn failover_invariant_unrelated_routes_not_removed() {
    let mut pm = setup_two_paths();
    pm.router_mut()
        .install_route(
            "unrelated",
            Ipv4Addr::new(10, 0, 0, 1),
            32,
            0x7777,
            77,
            ACTIVE_METRIC,
        )
        .unwrap();

    let unrelated_before = pm.router().all_routes();
    let before = unrelated_before.iter().find(|r| r.path_id == "unrelated");
    assert!(before.is_some());
    pm.failover("path-a", "path-b", |_: &Path| true)
        .unwrap();
    let unrelated_after = pm.router().all_routes();
    let after = unrelated_after.iter().find(|r| r.path_id == "unrelated");
    assert!(
        after.is_some(),
        "unrelated route must not be removed by failover"
    );
    assert_eq!(
        before.unwrap().metric,
        after.unwrap().metric,
        "unrelated route metric must not change"
    );
}

#[test]
fn reconcile_reinstalls_missing_routes_for_up_paths() {
    let mut pm = setup_two_paths();
    pm.router_mut().cleanup_owned_routes();
    assert_eq!(pm.router().all_routes().len(), 0);
    let actions = pm.enumerate_and_reconcile();
    assert!(
        actions
            .iter()
            .any(|a| a.contains("installed missing route")),
        "expected 'installed missing route' in actions: {:?}",
        actions
    );

    let routes = pm.router().all_routes();
    assert!(
        routes
            .iter()
            .any(|r| r.destination == Ipv4Addr::new(203, 0, 113, 10)),
        "expected route to be re-installed"
    );
}

#[test]
fn reconcile_no_action_when_consistent() {
    let mut pm = setup_two_paths();
    let actions = pm.enumerate_and_reconcile();
    assert!(
        !actions
            .iter()
            .any(|a| a.contains("installed missing route")),
        "no routes should need installation when consistent: {:?}",
        actions
    );
    assert!(
        !actions.iter().any(|a| a.contains("corrected metric")),
        "no metrics should need correction when consistent: {:?}",
        actions
    );

}
#[test]
fn reconcile_corrects_wrong_metric_on_existing_os_route() {
    let mut pm = setup_two_paths();
    let dest = Ipv4Addr::new(203, 0, 113, 10);
    pm.router_mut()
        .update_route_metric("path-a", dest, 32, 999)
        .unwrap();
    let routes = pm.router().all_routes();
    let route = routes
        .iter()
        .find(|r| r.path_id == "path-a" && r.destination == dest)
        .unwrap();
    assert_eq!(route.metric, 999, "metric should be corrupted");
    let actions = pm.enumerate_and_reconcile();
    let corrected = actions
        .iter()
        .find(|a| a.contains("corrected metric") && a.contains("path-a"));
    assert!(
        corrected.is_some(),
        "expected 'corrected metric' action for path-a: {:?}",
        actions
    );
    let routes = pm.router().all_routes();
    let route = routes
        .iter()
        .find(|r| r.path_id == "path-a" && r.destination == dest)
        .unwrap();
    assert_eq!(
        route.metric, ACTIVE_METRIC,
        "metric should be corrected to ACTIVE_METRIC after reconciliation"
    );
}
#[test]
fn reconcile_preserves_correct_metrics_after_failover() {
    let mut pm = setup_two_paths();
    let result = pm
        .failover("path-a", "path-b", |_: &Path| true)
        .unwrap();
    assert!(result.datapath_applied);
    let routes = pm.router().all_routes();
    let dest = Ipv4Addr::new(203, 0, 113, 10);
    let b_route = routes
        .iter()
        .find(|r| r.path_id == "path-b" && r.destination == dest)
        .expect("path-b route should exist");
    let a_route = routes
        .iter()
        .find(|r| r.path_id == "path-a" && r.destination == dest)
        .expect("path-a route should exist");
    assert_eq!(b_route.metric, ACTIVE_METRIC, "B should be active (10)");
    assert_eq!(a_route.metric, STANDBY_METRIC, "A should be standby (20)");
    let actions = pm.enumerate_and_reconcile();
    assert!(
        !actions.iter().any(|a| a.contains("corrected metric")),
        "reconciliation should NOT correct already-correct metrics: {:?}",
        actions
    );

    let routes = pm.router().all_routes();
    let b_route = routes
        .iter()
        .find(|r| r.path_id == "path-b" && r.destination == dest)
        .expect("path-b route should still exist");
    let a_route = routes
        .iter()
        .find(|r| r.path_id == "path-a" && r.destination == dest)
        .expect("path-a route should still exist");
    assert_eq!(
        b_route.metric, ACTIVE_METRIC,
        "B should remain active (10) after reconciliation"
    );
    assert_eq!(
        a_route.metric, STANDBY_METRIC,
        "A should remain standby (20) after reconciliation"
    );
}

#[test]
fn reconcile_returns_action_list() {
    let mut pm = setup_two_paths();
    let actions = pm.enumerate_and_reconcile();
    assert!(actions
        .iter()
        .all(|a| a.starts_with("enumerate_and_reconcile")));
}
#[test]
fn reconcile_reinstalls_route_missing_from_os_despite_registry() {
    let mut pm = setup_two_paths();
    pm.router_mut().cleanup_owned_routes();
    let actions = pm.enumerate_and_reconcile();
    let reinstall_actions: Vec<&String> = actions
        .iter()
        .filter(|a| a.contains("installed missing route"))
        .collect();

    assert!(
        !reinstall_actions.is_empty(),
        "routes should be detected as missing from OS and reinstalled: {:?}",
        actions
    );

}
#[test]
fn reconcile_removes_only_orphaned_managed_routes() {
    let mut pm = setup_two_paths();
    pm.router_mut()
        .install_route(
            "orphan",
            Ipv4Addr::new(198, 51, 100, 99),
            32,
            0x8888,
            88,
            ACTIVE_METRIC,
        )
        .unwrap();

    let registry_before = pm.router().all_routes();
    assert_eq!(registry_before.len(), 3);

    let actions = pm.enumerate_and_reconcile();
    let orphan_action = actions
        .iter()
        .find(|a| a.contains("removed orphan") && a.contains("198.51.100.99"));
    assert!(
        orphan_action.is_some(),
        "orphan route should be detected and removed: {:?}",
        actions
    );
    let registry_after = pm.router().all_routes();
    assert_eq!(registry_after.len(), 2);
    assert!(
        !registry_after.iter().any(|r| r.path_id == "orphan"),
        "orphan route should be removed from registry"
    );

}

#[test]
fn reconcile_cleans_unmatched_registry_routes() {
    let mut pm = setup_two_paths();
    pm.router_mut()
        .install_route(
            "foreign",
            Ipv4Addr::new(192, 0, 2, 1),
            32,
            0x9999,
            99,
            ACTIVE_METRIC,
        )
        .unwrap();

    let actions = pm.enumerate_and_reconcile();
    let orphan_action = actions
        .iter()
        .find(|a| a.contains("removed orphan") && a.contains("192.0.2.1"));
    assert!(
        orphan_action.is_some(),
        "orphan route should be removed: {:?}",
        actions
    );
    let routes = pm.router().all_routes();
    assert!(
        !routes.iter().any(|r| {
            r.path_id == "foreign" && r.destination == Ipv4Addr::new(192, 0, 2, 1)
        }),
        "foreign route should be removed from registry"
    );

}
#[test]
fn failover_async_verify_false_triggers_rollback() {
    let mut pm = setup_two_paths();
    let verify_called = AtomicBool::new(false);
    let result = pm.failover("path-a", "path-b", |_: &Path| {
        verify_called.store(true, Ordering::SeqCst);
        false
    });

    assert!(result.is_err());
    assert!(verify_called.load(Ordering::SeqCst), "verify closure must have been called");
    assert!(
        pm.get_path("path-a").unwrap().active,
        "old path should be active after rollback"
    );
    assert!(
        !pm.get_path("path-b").unwrap().active,
        "new path should be inactive after rollback"
    );
}

#[test]
fn failover_async_verify_true_succeeds() {
    let mut pm = setup_two_paths();
    let result = pm.failover("path-a", "path-b", |_: &Path| true).unwrap();
    assert!(result.datapath_applied);
    assert!(result.error.is_none());
    assert!(pm.get_path("path-b").unwrap().active);
    assert!(!pm.get_path("path-a").unwrap().active);
}

#[test]
fn failover_async_same_path_noop() {
    let mut pm = setup_two_paths();
    let verify_called = AtomicBool::new(false);
    let result = pm
        .failover("path-a", "path-a", |_: &Path| {
            verify_called.store(true, Ordering::SeqCst);
            true
        })
        .unwrap();
    assert!(
        !verify_called.load(Ordering::SeqCst),
        "verify should not be called for same-path failover (no-op)"
    );
    assert!(result.datapath_applied);
    assert!(pm.get_path("path-a").unwrap().active);
    assert!(!pm.get_path("path-b").unwrap().active);
}

#[test]
fn failover_async_missing_path_does_not_call_verify() {
    let mut pm = setup_two_paths();
    let verify_called = AtomicBool::new(false);
    let result = pm.failover("path-a", "nonexistent", |_: &Path| {
        verify_called.store(true, Ordering::SeqCst);
        true
    });
    assert!(result.is_err());
    assert!(
        !verify_called.load(Ordering::SeqCst),
        "verify should not be called when path is missing"
    );
}

#[test]
fn failover_concurrent_calls_are_serialized() {
    let mut pm = setup_two_paths();
    let result1 = pm.failover("path-a", "path-b", |_: &Path| true);
    let result2 = pm.failover("path-b", "path-a", |_: &Path| true);
    assert!(result1.is_ok(), "first failover should succeed");
    assert!(result2.is_ok(), "second failover should succeed");

    let paths = pm.get_paths();
    let active_count = paths.iter().filter(|p| p.active).count();
    assert_eq!(
        active_count, 1,
        "exactly one path should be active after both failovers"
    );

    let routes = pm.router().all_routes();
    for path in &paths {
        let route = routes.iter().find(|r| {
            r.path_id == path.id.as_str() && r.destination == path.destination.unwrap()
        });
        if let Some(r) = route {
            if path.active {
                assert_eq!(r.metric, ACTIVE_METRIC, "active path should have metric 10");
            } else {
                assert_eq!(
                    r.metric, STANDBY_METRIC,
                    "standby path should have metric 20"
                );
            }
        }
    }
}

#[test]
fn install_path_route_reinstalls_when_os_route_missing() {
    let mut pm = setup_two_paths();
    let dest = Ipv4Addr::new(203, 0, 113, 10);
    assert!(
        pm.router().route_exists(dest, 32, 0xAA),
        "route should exist in registry initially"
    );
    pm.router_mut().cleanup_owned_routes();
    let os_routes = pm.router().enumerate_windows_routes();
    assert!(
        !os_routes
            .iter()
            .any(|r| r.destination == dest && r.interface_luid == 0xAA),
        "OS route should be missing after cleanup"
    );
    let result = pm.install_path_route("path-a", ACTIVE_METRIC);
    assert!(
        result.is_ok(),
        "install_path_route must reinstall missing OS route, not call SetIpForwardEntry2: {:?}",
        result.err()
    );
    assert!(
        pm.router().route_exists(dest, 32, 0xAA),
        "route should be reinstalled in registry"
    );
    let routes = pm.router().all_routes();
    let route = routes
        .iter()
        .find(|r| r.path_id == "path-a" && r.destination == dest)
        .expect("installed route should exist");
    assert_eq!(route.metric, ACTIVE_METRIC);
}
#[test]
fn install_path_route_updates_metric_when_os_route_exists() {
    let mut pm = setup_two_paths();
    let dest = Ipv4Addr::new(203, 0, 113, 10);

    let gen_before = pm
        .router()
        .all_routes()
        .iter()
        .find(|r| r.path_id == "path-a" && r.destination == dest)
        .expect("route should exist")
        .generation;
    pm.install_path_route("path-a", STANDBY_METRIC)
        .expect("update should succeed");

    let routes = pm.router().all_routes();
    let route = routes
        .iter()
        .find(|r| r.path_id == "path-a" && r.destination == dest)
        .expect("route should still exist");
    assert_eq!(route.metric, STANDBY_METRIC);
    assert_eq!(
        route.generation,
        gen_before + 1,
        "generation should be incremented by update_route_metric_os (update path, not reinstall)"
    );
}
#[test]
fn install_path_route_does_not_update_missing_os_route() {
    let mut pm = setup_two_paths();
    let dest = Ipv4Addr::new(203, 0, 113, 10);
    assert!(pm.router().route_exists(dest, 32, 0xAA));
    pm.router_mut().cleanup_owned_routes();
    let result = pm.install_path_route("path-a", ACTIVE_METRIC);
    assert!(
        result.is_ok(),
        "install_path_route must reinstall missing OS route, not call SetIpForwardEntry2: {:?}",
        result.err()
    );
    assert!(
        pm.router().route_exists(dest, 32, 0xAA),
        "route should be present in registry after reinstall"
    );
    let routes = pm.router().all_routes();
    let route = routes
        .iter()
        .find(|r| r.path_id == "path-a" && r.destination == dest)
        .expect("reinstalled route should exist");
    assert_eq!(route.metric, ACTIVE_METRIC);
}

#[test]
fn failover_errors_name_their_path() {
    let mut pm = setup_two_paths();
    assert_eq!(
        pm.failover("x", "path-b", |_: &Path| true).unwrap_err(),
        "old path 'x' not found"
    );
    assert_eq!(
        pm.failover("path-a", "y", |_: &Path| true).unwrap_err(),
        "new path 'y' not found"
    );
    pm.add_path("bare", "wg2").unwrap();
    assert_eq!(
        pm.failover("path-a", "bare", |_: &Path| true).unwrap_err(),
        "new path 'bare' has no managed destination"
    );
    assert_eq!(
        pm.failover("bare", "path-a", |_: &Path| true).unwrap_err(),
        "old path 'bare' has no managed destination"
    );
    pm.set_destination("bare", Ipv4Addr::new(203, 0, 113, 10), 32).unwrap();
    assert_eq!(
        pm.failover("path-a", "bare", |_: &Path| true).unwrap_err(),
        "new path 'bare' is not connected (LUID is 0)"
    );
    assert_eq!(
        pm.failover("bare", "path-a", |_: &Path| true).unwrap_err(),
        "old path 'bare' is not connected (LUID is 0)"
    );
    assert_eq!(
        pm.failover("path-a", "path-b", |_: &Path| false).unwrap_err(),
        "failover verification failed for path 'path-b'; rolled back to 'path-a'"
    );
}

#[test]
fn failover_result_names_the_range() {
    let mut pm = setup_two_paths();
    let r = pm
        .failover("path-a", "path-b", |p: &Path| p.id.as_str() == "path-b" && p.interface_luid == 0xBB)
        .unwrap();
    assert_eq!(r.routes_added, vec!["203.0.113.10/32".to_string()]);
    assert_eq!(r.routes_removed, vec!["203.0.113.10/32".to_string()]);
}

#[test]
fn failover_moves_follow_the_trial() {
    assert_eq!(
        failover_moves("a", "b", true),
        vec![("a".to_string(), STANDBY_METRIC)]
    );
    assert_eq!(
        failover_moves("a", "b", false),
        vec![
            ("b".to_string(), STANDBY_METRIC),
            ("a".to_string(), ACTIVE_METRIC)
        ]
    );
}

#[test]
fn activation_lays_all_routes() {
    let pm = setup_two_paths();
    let routes = pm.router().all_routes();
    assert_eq!(routes.len(), 2);
    for r in &routes {
        let expected = if r.path_id == "path-a" { ACTIVE_METRIC } else { STANDBY_METRIC };
        assert_eq!(r.metric, expected);
        assert_eq!(r.generation, 1);
    }
}

#[test]
fn unknown_paths_are_errors() {
    let mut pm = PathManager::new();
    assert_eq!(pm.activate_path("p").unwrap_err(), "path 'p' not found");
    assert_eq!(pm.deactivate_path("p").unwrap_err(), "path not found");
    pm.add_path("p", "wg0").unwrap();
    assert_eq!(pm.add_path("p", "wg0").unwrap_err(), "path 'p' already exists");
    let e = pm.install_path_route("q", 10).unwrap_err();
    assert_eq!(e.stage, "lookup");
    let e = pm.install_path_route("p", 10).unwrap_err();
    assert_eq!(e.stage, "destination");
    assert_eq!(e.message, "path has no managed destination");
}

#[test]
fn a_path_installs_and_removes_its_route() {
    let mut router = WindowsRouteManager::new();
    let mut p = Path::new(PathId::new("p"), "wg0");
    assert_eq!(p.health, PathHealth::Unhealthy);
    assert_eq!(p.prefix_length, 32);
    assert_eq!(p.install_route(&mut router).unwrap_err(), "no destination set");
    assert_eq!(p.remove_route(&mut router).unwrap_err(), "no destination set");
    p.destination = Some(Ipv4Addr::new(10, 0, 0, 1));
    p.active = true;
    p.install_route(&mut router).unwrap();
    assert_eq!(router.all_routes()[0].metric, ACTIVE_METRIC);
    p.remove_route(&mut router).unwrap();
    assert!(router.all_routes().is_empty());
    assert!(p
        .remove_route(&mut router)
        .unwrap_err()
        .starts_with("remove_route error: "));
}

#[test]
fn the_system_table_decides_what_exists() {
    let mut pm = setup_two_paths();
    let none: Vec<ManagedRoute> = Vec::new();
    let step = pm.plan_route("path-a", STANDBY_METRIC, &none).unwrap();
    assert!(!step.exists);
    assert_eq!(step.interface_index, 10);
    let there = pm.router().all_routes();
    let step = pm.plan_route("path-a", STANDBY_METRIC, &there).unwrap();
    assert!(step.exists);
    pm.apply_route(&step, 0).unwrap();
    assert!(pm.plan_route("nobody", 10, &none).is_err());
    let e = pm.apply_route(&step, 87).unwrap_err();
    assert_eq!(e.operation, "SetIpForwardEntry2");
}

#[test]
fn reconcile_plan_lists_the_steps() {
    let mut pm = setup_two_paths();
    let mut os = pm.router().all_routes();
    os.retain(|r| r.path_id != "path-b");
    os[0].metric = 7;
    os.push(ManagedRoute {
        path_id: "stray".to_string(),
        destination: Ipv4Addr::new(192, 0, 2, 1),
        prefix_length: 24,
        interface_luid: 0xCC,
        interface_index: 0,
        next_hop: Ipv4Addr::new(0, 0, 0, 0),
        metric: 10,
        generation: 0,
    });
    let steps = pm.reconcile_plan(&os);
    assert_eq!(steps.len(), 3);
    assert!(matches!(steps[0], ReconcileStep::Remove { interface_luid: 0xCC, .. }));
    assert!(matches!(
        steps[1],
        ReconcileStep::Correct { old_metric: 7, new_metric: 10, .. }
    ));
    assert!(matches!(
        steps[2],
        ReconcileStep::Install { interface_luid: 0xBB, metric: 20, .. }
    ));
    assert_eq!(
        pm.apply_step(&steps[0], 0),
        "enumerate_and_reconcile: removed orphan route dest=192.0.2.1/24, luid=0xcc"
    );
    assert_eq!(
        pm.apply_step(&steps[1], 5),
        "enumerate_and_reconcile: corrected metric for path 'path-a' (dest=203.0.113.10, old_metric=7, new_metric=10)"
    );
    assert_eq!(
        pm.apply_step(&steps[2], 0),
        "enumerate_and_reconcile: installed missing route for path 'path-b' (dest=203.0.113.10, metric=20)"
    );
    assert!(pm
        .apply_step(&steps[2], 87)
        .starts_with("enumerate_and_reconcile: failed to install route for path 'path-b': "));
}

#[test]
fn reconciling_twice_does_nothing_more() {
    let mut pm = setup_two_paths();
    pm.router_mut().cleanup_owned_routes();
    assert_eq!(pm.enumerate_and_reconcile().len(), 2);
    assert!(pm.enumerate_and_reconcile().is_empty());
}

#[test]
fn reconciling_settles_the_table() {
    let dest = Ipv4Addr::new(203, 0, 113, 10);
    let mut pm = PathManager::new();
    for (id, luid) in [("path-a", 1u64), ("path-b", 2), ("path-c", 3)] {
        pm.add_path(id, "wg").unwrap();
        pm.set_destination(id, dest, 32).unwrap();
        pm.connect_path(id, luid, 0).unwrap();
    }
    pm.activate_path("path-a").unwrap();
    pm.router_mut().update_route_metric("path-b", dest, 32, 99).unwrap();
    pm.router_mut().update_route_metric("path-c", dest, 32, 77).unwrap();
    pm.disconnect_path("path-c").unwrap();
    pm.router_mut()
        .install_route("gone", Ipv4Addr::new(198, 51, 100, 0), 24, 9, 0, 10)
        .unwrap();
    assert_eq!(pm.enumerate_and_reconcile().len(), 2);
    let routes = pm.router().all_routes();
    assert_eq!(routes.len(), 3);
    let metric = |id: &str| routes.iter().find(|r| r.path_id == id).unwrap().metric;
    assert_eq!(metric("path-a"), ACTIVE_METRIC);
    assert_eq!(metric("path-b"), STANDBY_METRIC);
    assert_eq!(metric("path-c"), 77);
    assert!(pm.enumerate_and_reconcile().is_empty());
    assert_eq!(pm.router().all_routes().len(), 3);
}

#[test]
fn path_ids_compare_and_hash_by_their_text() {
    let a = PathId::new("path-a");
    assert_eq!(a, PathId::new("path-a"));
    assert_ne!(a, PathId::new("path-b"));
    let set: std::collections::HashSet<PathId> =
        [a.clone(), PathId::new("path-a"), PathId::new("path-b")].into_iter().collect();
    assert_eq!(set.len(), 2);
    assert!(set.contains(&a));
}
