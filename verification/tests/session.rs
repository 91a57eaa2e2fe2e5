use marstart_link::address::Ipv4Addr;
use marstart_link::path_manager::{PathManager, TunnelState};
use marstart_link::profiles::Profile;
use marstart_link::session::{
    check_idle, choose_profile, tunnel_profiles, ConnectRun, ProfileChoice, SessionAction,
    SessionEvent,
};
use marstart_link::wireguard::tunnel::TunnelStatus;

fn profile(configs: &[&str]) -> Profile {
    Profile {
        id: "p".to_string(),
        display_name: "P".to_string(),
        endpoints: Vec::new(),
        wg_config_path: None,
        wg_config_paths: configs.iter().map(|s| s.to_string()).collect(),
        managed_destination: Some("203.0.113.0/24".to_string()),
    }
}

#[test]
fn a_given_profile_goes_first() {
    assert!(matches!(
        choose_profile(Some(profile(&["a"])), Some("x".to_string())),
        ProfileChoice::Given(p) if p.id == "p"
    ));
    assert!(matches!(
        choose_profile(None, Some("x".to_string())),
        ProfileChoice::Load(id) if id == "x"
    ));
    assert!(matches!(
        choose_profile(None, None),
        ProfileChoice::Load(id) if id == "default"
    ));
}

#[test]
fn only_one_session_at_a_time() {
    assert!(check_idle(&None).is_ok());
    assert!(check_idle(&Some(TunnelStatus::Disconnected)).is_ok());
    assert!(check_idle(&Some(TunnelStatus::Error("x".to_string()))).is_ok());
    assert_eq!(
        check_idle(&Some(TunnelStatus::Connected)).unwrap_err(),
        "tunnel is already active"
    );
    assert!(check_idle(&Some(TunnelStatus::Connecting)).is_err());
}

#[test]
fn at_most_two_tunnels_are_used() {
    let list = tunnel_profiles(&profile(&["a", "b", "c"]));
    assert_eq!(list.len(), 2);
    assert_eq!(list[1].wg_config_path.as_deref(), Some("b"));
    assert_eq!(list[1].wg_config_paths, vec!["b".to_string()]);
    assert_eq!(list[0].id, "p");
    assert!(tunnel_profiles(&profile(&[])).is_empty());
}

#[test]
fn two_tunnels_connect() {
    let mut pm = PathManager::new();
    pm.add_path("stale", "old").unwrap();
    let mut run = ConnectRun::begin(&profile(&["a", "b"]), &mut pm);
    assert!(!pm.has_path("stale"));
    assert_eq!(run.path_id(0).as_deref(), Some("path-a"));
    assert_eq!(run.path_id(1).as_deref(), Some("path-b"));
    assert_eq!(run.path_id(2), None);
    assert!(matches!(
        run.next(&mut pm, SessionEvent::Opened(Ok(()))),
        SessionAction::Open(1)
    ));
    assert!(matches!(
        run.next(&mut pm, SessionEvent::Opened(Ok(()))),
        SessionAction::Connect(0)
    ));
    assert!(matches!(
        run.next(&mut pm, SessionEvent::Connected(Ok(Some(0xAA)))),
        SessionAction::Connect(1)
    ));
    assert!(matches!(
        run.next(&mut pm, SessionEvent::Connected(Ok(None))),
        SessionAction::Finish
    ));
    let a = pm.get_path("path-a").unwrap();
    let b = pm.get_path("path-b").unwrap();
    assert!(a.active && !b.active);
    assert_eq!(a.tunnel_state, TunnelState::Up);
    assert_eq!(b.tunnel_state, TunnelState::Up);
    assert_eq!((a.interface_luid, b.interface_luid), (0xAA, 0));
    assert_eq!(a.destination, Some(Ipv4Addr::new(203, 0, 113, 0)));
    assert_eq!(a.prefix_length, 24);
    assert_eq!(pm.router().all_routes().len(), 2);
    assert!(matches!(
        run.next(&mut pm, SessionEvent::Connected(Ok(None))),
        SessionAction::Nothing
    ));
}

#[test]
fn a_tunnel_that_cannot_be_made_ends_the_run() {
    let mut pm = PathManager::new();
    let mut run = ConnectRun::begin(&profile(&["a", "b"]), &mut pm);
    run.next(&mut pm, SessionEvent::Opened(Ok(())));
    match run.next(&mut pm, SessionEvent::Opened(Err("no file".to_string()))) {
        SessionAction::Abort { teardown, error } => {
            assert_eq!(teardown, 0);
            assert_eq!(error, "no file");
        }
        _ => panic!("given up"),
    }
}

#[test]
fn a_tunnel_that_does_not_connect_takes_all_down() {
    let mut pm = PathManager::new();
    let mut run = ConnectRun::begin(&profile(&["a", "b"]), &mut pm);
    run.next(&mut pm, SessionEvent::Opened(Ok(())));
    run.next(&mut pm, SessionEvent::Opened(Ok(())));
    run.next(&mut pm, SessionEvent::Connected(Ok(Some(1))));
    match run.next(&mut pm, SessionEvent::Connected(Err("denied".to_string()))) {
        SessionAction::Abort { teardown, error } => {
            assert_eq!(teardown, 2);
            assert_eq!(error, "denied");
        }
        _ => panic!("given up"),
    }
    assert!(pm.get_paths().is_empty());
}

#[test]
fn paths_that_others_took_are_errors() {
    let mut pm = PathManager::new();
    let mut run = ConnectRun::begin(&profile(&["a"]), &mut pm);
    pm.add_path("path-a", "someone").unwrap();
    match run.next(&mut pm, SessionEvent::Opened(Ok(()))) {
        SessionAction::Abort { teardown, error } => {
            assert_eq!(teardown, 1);
            assert_eq!(
                error,
                "connect: failed to register path 'path-a': path 'path-a' already exists"
            );
        }
        _ => panic!("given up"),
    }
    let mut run = ConnectRun::begin(&profile(&["a"]), &mut pm);
    run.next(&mut pm, SessionEvent::Opened(Ok(())));
    pm.clear_paths().unwrap();
    match run.next(&mut pm, SessionEvent::Connected(Ok(Some(1)))) {
        SessionAction::Abort { error, .. } => {
            assert_eq!(error, "connect: failed to connect path 'path-a': path not found")
        }
        _ => panic!("given up"),
    }
}
