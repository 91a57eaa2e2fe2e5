use base64::engine::general_purpose::STANDARD;
use base64::Engine;
use marstart_link::profiles::Profile;
use marstart_link::wireguard::tunnel::{
    check_functions, config_path, required_functions, unreadable, wide_str, TunnelAction,
    TunnelEvent, TunnelStatus, WireGuardTunnel,
};
use marstart_link::wireguard::{
    driver_status, is_running_as_admin, removal_result, report_state, run_diagnostics,
    wireguard_delete_driver, wireguard_driver_status, AdapterStateReport, ConnectionInfo,
    DiagnosticsReport, DriverProbe, DriverRemoval, TunnelCounters, WireGuardAdapterState,
};
use marstart_link::wireguard_parser::ParseError;

#[test]
fn driver_present_semantics() {
    let status = wireguard_driver_status();
    if status.driver_version == 0 {
        assert!(
            !status.driver_present,
            "driver_present must be false when driver_version is 0"
        );
    } else {
        assert!(
            status.driver_present,
            "driver_present must be true when driver_version > 0"
        );
    }
    println!(
        "[driver_semantics] version={}, present={}",
        status.driver_version, status.driver_present
    );
}

#[test]
fn admin_detection_does_not_panic() {
    let result = is_running_as_admin();
    println!("[admin_check] is_admin = {}", result);
    let _ = result == result;
}

#[test]
fn driver_status_error_code_semantics() {
    let status = wireguard_driver_status();
    if status.driver_version == 0 {
        if !status.human_readable_error.is_empty() {
            println!(
                "[error_code] code={}, msg={}",
                status.error_code, status.human_readable_error
            );
        }
    } else {
        assert_eq!(
            status.error_code, 0,
            "error_code should be 0 when driver is present"
        );
    }
}

fn plain_profile(path: Option<&str>) -> Profile {
    Profile {
        id: "self-test".to_string(),
        display_name: "Self Test".to_string(),
        endpoints: Vec::new(),
        wg_config_path: path.map(String::from),
        wg_config_paths: Vec::new(),
        managed_destination: None,
    }
}

#[test]
fn diagnostics_not_supported_on_non_windows() {
    let profile = plain_profile(None);
    let result = run_diagnostics(&profile);
    assert!(result.is_err());
    let err = result.unwrap_err();
    assert!(
        err.contains("Windows"),
        "expected Windows-only error, got: {err}"
    );
}

#[test]
fn adapter_state_wireguard_enum_values() {
    assert_eq!(WireGuardAdapterState::Down.code(), 0);
    assert_eq!(WireGuardAdapterState::Up.code(), 1);
    assert_eq!(AdapterStateReport::default(), AdapterStateReport::Unknown);
}

#[test]
fn adapter_state_is_reported_only_with_an_adapter() {
    assert_eq!(report_state(true, Some(WireGuardAdapterState::Up)), AdapterStateReport::Up);
    assert_eq!(report_state(true, Some(WireGuardAdapterState::Down)), AdapterStateReport::Down);
    assert_eq!(report_state(true, None), AdapterStateReport::Unknown);
    assert_eq!(
        report_state(false, Some(WireGuardAdapterState::Up)),
        AdapterStateReport::Unknown
    );
}

#[test]
fn driver_probes_are_explained() {
    let s = driver_status(
        &DriverProbe::NoLibrary {
            path: "C:/w.dll".to_string(),
            reason: "missing".to_string(),
            code: 126,
        },
        true,
    );
    assert!(!s.dll_loaded && !s.driver_present && s.is_admin);
    assert_eq!(s.error_code, 126);
    assert_eq!(
        s.human_readable_error,
        "Failed to load wireguard.dll from 'C:/w.dll': missing"
    );
    let s = driver_status(&DriverProbe::NoVersion, false);
    assert!(s.dll_loaded && !s.driver_present);
    let s = driver_status(&DriverProbe::Version { version: 0, code: 2 }, false);
    assert!(s.human_readable_error.contains("Run the application as Administrator"));
    assert_eq!(s.driver_version_string, "not loaded");
    let s = driver_status(&DriverProbe::Version { version: 0, code: 2 }, true);
    assert!(s.human_readable_error.contains("will attempt to install it"));
    let s = driver_status(&DriverProbe::Version { version: 0, code: 5 }, true);
    assert_eq!(
        s.human_readable_error,
        "WireGuardGetRunningDriverVersion returned 0 (error code: 5)"
    );
    let s = driver_status(&DriverProbe::Version { version: 0x0102_0aff, code: 9 }, false);
    assert!(s.driver_present);
    assert_eq!(s.driver_version_string, "1.2.10.255");
    assert_eq!(s.error_code, 0);
}

#[test]
fn driver_removal() {
    assert_eq!(
        wireguard_delete_driver().unwrap_err(),
        "WireGuard driver deletion is only supported on Windows"
    );
    assert!(removal_result(&DriverRemoval::Removed).is_ok());
    assert_eq!(
        removal_result(&DriverRemoval::Refused { reason: "busy".to_string(), code: -3 }).unwrap_err(),
        "WireGuardDeleteDriver failed: busy (error code: -3)"
    );
    assert_eq!(
        removal_result(&DriverRemoval::NoFunction).unwrap_err(),
        "WireGuardDeleteDriver not found in wireguard.dll"
    );
    assert_eq!(
        removal_result(&DriverRemoval::NoLibrary { reason: "gone".to_string() }).unwrap_err(),
        "failed to load wireguard.dll: gone"
    );
}

#[test]
fn counters() {
    let mut c = TunnelCounters::default();
    assert_eq!(c.snapshot(), (0, 0, 0));
    c.store((1, 2, 3));
    assert_eq!(c.snapshot(), (1, 2, 3));
    c.clear();
    assert_eq!(c.snapshot(), (0, 0, 0));
}

fn config_text() -> String {
    let mut private = [0u8; 32];
    private[0] = 0x42;
    let mut public = [0u8; 32];
    public[0] = 0x84;
    format!(
        "[Interface]\nPrivateKey = {}\nAddress = 10.99.0.1/24\nDNS = 1.1.1.1\n\n[Peer]\nPublicKey = {}\nEndpoint = 10.99.0.2:51820\nAllowedIPs = 0.0.0.0/0\nPersistentKeepalive = 25\n",
        STANDARD.encode(private),
        STANDARD.encode(public)
    )
}

fn tunnel() -> WireGuardTunnel {
    WireGuardTunnel::new(&plain_profile(Some("x.conf")), &config_text(), &vec![]).unwrap()
}

fn created(adapter: u64) -> TunnelEvent {
    TunnelEvent::Created {
        adapter,
        reason: "denied".to_string(),
        code: 5,
        driver_version: 0,
        driver_code: 2,
    }
}

fn state_set(ok: bool, now_ms: u64) -> TunnelEvent {
    TunnelEvent::StateSet { ok, reason: "no".to_string(), now_ms }
}

fn configured(ok: bool) -> TunnelEvent {
    TunnelEvent::Configured { ok, reason: "bad".to_string() }
}

fn connect(t: &mut WireGuardTunnel) {
    assert!(matches!(
        t.next(TunnelEvent::Connect),
        TunnelAction::Create { name } if name == "MARSTART-self-test"
    ));
    match t.next(created(77)) {
        TunnelAction::Configure { adapter, blob } => {
            assert_eq!(adapter, 77);
            assert_eq!(blob.len(), 80 + 136 + 24);
            assert_eq!(blob[6], 0x42);
        }
        _ => panic!("the configuration comes next"),
    }
    assert!(matches!(
        t.next(configured(true)),
        TunnelAction::SetState { adapter: 77, state: WireGuardAdapterState::Up }
    ));
    assert!(matches!(t.next(state_set(true, 1000)), TunnelAction::Done(Ok(()))));
}

#[test]
fn a_tunnel_connects_and_comes_down() {
    let mut t = tunnel();
    assert!(matches!(t.status(), TunnelStatus::Disconnected));
    assert_eq!(t.elapsed(5), None);
    connect(&mut t);
    assert!(matches!(t.status(), TunnelStatus::Connected));
    assert_eq!(t.adapter(), Ok(77));
    assert_eq!(t.elapsed(1500), Some(500));
    assert_eq!(t.elapsed(10), Some(0));
    assert!(matches!(
        t.next(TunnelEvent::Teardown),
        TunnelAction::SetState { adapter: 77, state: WireGuardAdapterState::Down }
    ));
    assert!(matches!(t.next(state_set(false, 0)), TunnelAction::Close { adapter: 77 }));
    assert!(t.is_adapter_closed());
    assert!(matches!(t.next(TunnelEvent::Closed), TunnelAction::Done(Ok(()))));
    assert!(matches!(t.status(), TunnelStatus::Disconnected));
    assert!(matches!(t.next(TunnelEvent::Teardown), TunnelAction::Done(Ok(()))));
}

#[test]
fn an_active_tunnel_is_not_connected_again() {
    let mut t = tunnel();
    connect(&mut t);
    match t.next(TunnelEvent::Connect) {
        TunnelAction::Done(Err(e)) => assert_eq!(e, "tunnel is already active"),
        _ => panic!("refused"),
    }
    assert!(matches!(t.status(), TunnelStatus::Connected));
    assert_eq!(t.adapter(), Ok(77));
}

#[test]
fn failures_leave_the_tunnel_down() {
    let mut t = tunnel();
    t.next(TunnelEvent::Connect);
    match t.next(created(0)) {
        TunnelAction::Done(Err(e)) => {
            assert!(e.starts_with("failed to create WireGuard adapter: WireGuard-NT kernel driver (wireguard.sys) is not installed."));
            assert!(e.ends_with(" (os error: denied, GetLastError: 5)"));
        }
        _ => panic!("no adapter"),
    }
    assert!(matches!(t.status(), TunnelStatus::Disconnected));

    t.next(TunnelEvent::Connect);
    t.next(created(5));
    assert!(matches!(t.next(configured(false)), TunnelAction::Close { adapter: 5 }));
    match t.next(TunnelEvent::Closed) {
        TunnelAction::Done(Err(e)) => assert_eq!(e, "WireGuardSetConfiguration failed: bad"),
        _ => panic!("not configured"),
    }
    assert!(t.is_adapter_closed());

    t.next(TunnelEvent::Connect);
    t.next(created(6));
    t.next(configured(true));
    assert!(matches!(t.next(state_set(false, 1)), TunnelAction::Close { adapter: 6 }));
    match t.next(TunnelEvent::Closed) {
        TunnelAction::Done(Err(e)) => assert_eq!(
            e,
            "WireGuardSetAdapterState(UP) failed: no. The adapter was created but could not be brought online."
        ),
        _ => panic!("not up"),
    }
    assert!(matches!(t.status(), TunnelStatus::Disconnected));
    assert_eq!(t.adapter(), Err("adapter not connected".to_string()));
}

#[test]
fn other_reasons_for_no_adapter() {
    let mut t = tunnel();
    for (version, code, words) in [
        (1, 0, "driver is loaded but create_adapter returned NULL"),
        (0, 5, "kernel driver not loaded"),
    ] {
        t.next(TunnelEvent::Connect);
        match t.next(TunnelEvent::Created {
            adapter: 0,
            reason: "r".to_string(),
            code: 0,
            driver_version: version,
            driver_code: code,
        }) {
            TunnelAction::Done(Err(e)) => assert!(e.contains(words), "{e}"),
            _ => panic!("no adapter"),
        }
    }
}

#[test]
fn events_out_of_turn_change_nothing() {
    let mut t = tunnel();
    assert!(matches!(t.next(created(9)), TunnelAction::Nothing));
    assert!(matches!(t.next(configured(true)), TunnelAction::Nothing));
    assert!(matches!(t.next(state_set(true, 1)), TunnelAction::Nothing));
    assert!(matches!(t.next(TunnelEvent::Closed), TunnelAction::Nothing));
    assert!(t.is_adapter_closed());
}

#[test]
fn counts_come_from_the_driver_while_connected() {
    let mut t = tunnel();
    assert_eq!(t.stats(Some(vec![1; 300])), (0, 0, 0));
    t.next(TunnelEvent::Connect);
    let mut blob = match t.next(created(3)) {
        TunnelAction::Configure { blob, .. } => blob,
        _ => panic!("the configuration comes next"),
    };
    blob[80 + 104] = 11;
    blob[80 + 112] = 22;
    assert_eq!(t.stats(Some(blob.clone())), (11, 22, 0));
    let info = t.connection_info(Some(blob));
    assert_eq!(info.tx_bytes, 11);
    assert_eq!(info.rx_bytes, 22);
    assert_eq!(info.endpoint.as_deref(), Some("10.99.0.2:51820"));
    assert_eq!(t.take_adapter(), Some(3));
    assert_eq!(t.stats(None), (11, 22, 0));
    t.open_adapter("MARSTART-x", 4, "", 0).unwrap();
    assert_eq!(t.stats(None), (0, 0, 0));
    assert_eq!(
        t.open_adapter("MARSTART-x", 0, "gone", 2).unwrap_err(),
        "WireGuardOpenAdapter failed for 'MARSTART-x': gone (raw_os_error: 2)"
    );
}

#[test]
fn what_a_tunnel_is_made_from() {
    assert_eq!(config_path(&plain_profile(Some("x.conf"))), Ok("x.conf".to_string()));
    assert_eq!(
        config_path(&plain_profile(None)).unwrap_err(),
        "profile 'self-test' has no WireGuard config path"
    );
    assert_eq!(
        unreadable("x.conf", "no such file"),
        "failed to read WireGuard config 'x.conf': no such file"
    );
    assert!(matches!(
        WireGuardTunnel::new(&plain_profile(None), "[Interface]\n", &vec![]),
        Err(ParseError::Invalid(m)) if m == "Missing [Interface] PrivateKey"
    ));
    let without_peer = config_text().split("[Peer]").next().unwrap().to_string();
    assert!(matches!(
        WireGuardTunnel::new(&plain_profile(None), &without_peer, &vec![]),
        Err(ParseError::Invalid(m)) if m.starts_with("Секция [Peer]")
    ));
    let mut found = required_functions();
    assert_eq!(found.len(), 9);
    assert!(check_functions(&found).is_ok());
    found.retain(|f| f != "WireGuardGetAdapterLUID" && f != "WireGuardOpenAdapter");
    assert_eq!(
        check_functions(&found).unwrap_err(),
        "WireGuardGetAdapterLUID not found"
    );
}

#[test]
fn wide_text_is_that_of_the_standard_library() {
    for s in ["", "MARSTART LINK", "дом", "a😀b"] {
        let mut expected: Vec<u16> = s.encode_utf16().collect();
        expected.push(0);
        assert_eq!(wide_str(s), expected);
    }
}

#[test]
fn a_trial_that_works_is_reported() {
    let mut r = DiagnosticsReport::begin(true);
    assert!(r.opened(Ok(0x0101_0000)));
    assert!(r.connected(Ok(())));
    r.inspected(
        AdapterStateReport::Up,
        Ok((1024, 2048, 1_700_000_000)),
        Ok(ConnectionInfo {
            handshake_timestamp_unix: 0,
            tx_bytes: 0,
            rx_bytes: 0,
            endpoint: Some("1.2.3.4:51820".to_string()),
        }),
    );
    r.closed(Ok(()), true);
    assert!(r.dll_loaded && r.driver_present && r.is_admin && r.adapter_created);
    assert!(r.config_applied && r.adapter_closed && r.no_orphan_adapter);
    assert_eq!(r.adapter_state, AdapterStateReport::Up);
    assert_eq!((r.tx_bytes, r.rx_bytes, r.handshake_timestamp_unix), (1024, 2048, 1_700_000_000));
    assert_eq!(r.endpoint.as_deref(), Some("1.2.3.4:51820"));
    assert!(r.errors.is_empty());
}

#[test]
fn a_trial_that_fails_says_where() {
    let mut r = DiagnosticsReport::begin(false);
    assert!(!r.opened(Err("no dll".to_string())));
    assert_eq!(r.errors, vec!["dll_load: no dll".to_string()]);
    assert!(r.no_orphan_adapter && !r.dll_loaded);

    let mut r = DiagnosticsReport::begin(false);
    assert!(r.opened(Ok(0)));
    assert!(!r.driver_present);
    assert!(!r.connected(Err("denied".to_string())));
    assert_eq!(r.errors, vec!["connect: denied".to_string()]);
    assert!(r.no_orphan_adapter && !r.adapter_created);

    let mut r = DiagnosticsReport::begin(false);
    r.inspected(
        AdapterStateReport::Unknown,
        Err("s".to_string()),
        Err("i".to_string()),
    );
    r.closed(Err("t".to_string()), false);
    assert_eq!(
        r.errors,
        vec![
            "stats: s".to_string(),
            "connection_info: i".to_string(),
            "teardown: t".to_string()
        ]
    );
    assert!(!r.adapter_closed && !r.no_orphan_adapter);
}

#[test]
fn a_failed_connect_closes_the_adapter_that_was_held() {
    let mut t = tunnel();
    t.open_adapter("MARSTART-x", 9, "", 0).unwrap();
    assert!(matches!(t.next(TunnelEvent::Connect), TunnelAction::Create { .. }));
    assert!(matches!(
        t.next(created(0)),
        TunnelAction::SetState { adapter: 9, state: WireGuardAdapterState::Down }
    ));
    assert!(matches!(t.status(), TunnelStatus::Error(m) if m.starts_with("failed to create")));
    assert!(matches!(t.next(TunnelEvent::Connect), TunnelAction::Nothing));
    assert!(matches!(t.next(state_set(false, 0)), TunnelAction::Close { adapter: 9 }));
    assert!(matches!(
        t.next(TunnelEvent::Closed),
        TunnelAction::Done(Err(m)) if m.starts_with("failed to create WireGuard adapter: ")
    ));
    assert!(matches!(t.status(), TunnelStatus::Disconnected));
    assert!(t.is_adapter_closed());
}

#[test]
fn an_adapter_that_was_taken_over_is_torn_down() {
    let mut t = tunnel();
    t.open_adapter("MARSTART-x", 9, "", 0).unwrap();
    assert!(matches!(
        t.next(TunnelEvent::Teardown),
        TunnelAction::SetState { adapter: 9, state: WireGuardAdapterState::Down }
    ));
    assert!(matches!(t.next(state_set(true, 0)), TunnelAction::Close { adapter: 9 }));
    assert!(matches!(t.next(TunnelEvent::Closed), TunnelAction::Done(Ok(()))));
    assert!(t.is_adapter_closed());
}
