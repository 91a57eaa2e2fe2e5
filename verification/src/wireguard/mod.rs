//! WireGuard tunnels: the driver they need, their lifecycle and their diagnosis.

use crate::profiles::Profile;
use crate::text::{decimal, opt_text, push_decimal, push_signed, signed_decimal, texts};
use vstd::prelude::*;

pub mod tunnel;
pub mod tunnel_laws;

verus! {

/// The state that an adapter is asked to be in.
#[derive(Debug, Clone, Copy, PartialEq, Eq, Structural)]
pub enum WireGuardAdapterState {
    Down,
    Up,
}

impl WireGuardAdapterState {
    /// The number by which the driver knows the state.
    pub fn code(&self) -> (r: u32)
        ensures
            r == match *self {
                WireGuardAdapterState::Down => 0u32,
                WireGuardAdapterState::Up => 1u32,
            },
    {
        match self {
            WireGuardAdapterState::Down => 0,
            WireGuardAdapterState::Up => 1,
        }
    }
}

/// The state that an adapter is in, as far as it is known.
#[derive(Debug, Clone, Copy, PartialEq, Eq, Structural)]
pub enum AdapterStateReport {
    Down,
    Up,
    Unknown,
}

impl Default for AdapterStateReport {
    fn default() -> (r: AdapterStateReport)
        ensures
            r == AdapterStateReport::Unknown,
    {
        AdapterStateReport::Unknown
    }
}

/// What is known of the state of an adapter: nothing without an adapter, or where
/// the driver did not answer.
pub fn report_state(has_adapter: bool, answer: Option<WireGuardAdapterState>) -> (r:
    AdapterStateReport)
    ensures
        r == match (has_adapter, answer) {
            (true, Some(WireGuardAdapterState::Down)) => AdapterStateReport::Down,
            (true, Some(WireGuardAdapterState::Up)) => AdapterStateReport::Up,
            _ => AdapterStateReport::Unknown,
        },
{
    if !has_adapter {
        return AdapterStateReport::Unknown;
    }
    match answer {
        Some(WireGuardAdapterState::Down) => AdapterStateReport::Down,
        Some(WireGuardAdapterState::Up) => AdapterStateReport::Up,
        None => AdapterStateReport::Unknown,
    }
}

/// What a tunnel has sent and received.
#[derive(Debug)]
pub struct TunnelCounters {
    pub tx_bytes: u64,
    pub rx_bytes: u64,
    pub last_handshake_unix: u64,
}

impl TunnelCounters {
    /// The counts: sent, received, and the time of the last handshake.
    pub open spec fn counts(self) -> (u64, u64, u64) {
        (self.tx_bytes, self.rx_bytes, self.last_handshake_unix)
    }

    /// The counts: sent, received, and the time of the last handshake.
    pub fn snapshot(&self) -> (r: (u64, u64, u64))
        ensures
            r == self.counts(),
    {
        (self.tx_bytes, self.rx_bytes, self.last_handshake_unix)
    }

    /// Sets all counts to zero.
    pub fn clear(&mut self)
        ensures
            final(self).counts() == (0u64, 0u64, 0u64),
    {
        self.tx_bytes = 0;
        self.rx_bytes = 0;
        self.last_handshake_unix = 0;
    }

    /// Takes in new counts.
    pub fn store(&mut self, counts: (u64, u64, u64))
        ensures
            final(self).counts() == counts,
    {
        self.tx_bytes = counts.0;
        self.rx_bytes = counts.1;
        self.last_handshake_unix = counts.2;
    }
}

impl Default for TunnelCounters {
    fn default() -> (r: TunnelCounters)
        ensures
            r.counts() == (0u64, 0u64, 0u64),
    {
        TunnelCounters { tx_bytes: 0, rx_bytes: 0, last_handshake_unix: 0 }
    }
}

/// What is known of a connection.
#[derive(Debug, Clone)]
pub struct ConnectionInfo {
    pub handshake_timestamp_unix: u64,
    pub tx_bytes: u64,
    pub rx_bytes: u64,
    pub endpoint: Option<String>,
}

/// What a `ConnectionInfo` holds.
#[verifier::ext_equal]
pub struct InfoView {
    pub handshake_timestamp_unix: u64,
    pub tx_bytes: u64,
    pub rx_bytes: u64,
    pub endpoint: Option<Seq<char>>,
}

impl View for ConnectionInfo {
    type V = InfoView;

    open spec fn view(&self) -> InfoView {
        InfoView {
            handshake_timestamp_unix: self.handshake_timestamp_unix,
            tx_bytes: self.tx_bytes,
            rx_bytes: self.rx_bytes,
            endpoint: opt_text(self.endpoint),
        }
    }
}

// ---------------------------------------------------------------------------
// The driver
// ---------------------------------------------------------------------------

/// Whether the driver can be used.
#[derive(Debug, Clone)]
pub struct DriverStatus {
    pub dll_loaded: bool,
    pub driver_present: bool,
    pub driver_version: u32,
    pub driver_version_string: String,
    pub is_admin: bool,
    pub error_code: u32,
    pub human_readable_error: String,
}

/// What a `DriverStatus` holds.
#[verifier::ext_equal]
pub struct DriverView {
    pub dll_loaded: bool,
    pub driver_present: bool,
    pub driver_version: u32,
    pub driver_version_string: Seq<char>,
    pub is_admin: bool,
    pub error_code: u32,
    pub human_readable_error: Seq<char>,
}

impl View for DriverStatus {
    type V = DriverView;

    open spec fn view(&self) -> DriverView {
        DriverView {
            dll_loaded: self.dll_loaded,
            driver_present: self.driver_present,
            driver_version: self.driver_version,
            driver_version_string: self.driver_version_string@,
            is_admin: self.is_admin,
            error_code: self.error_code,
            human_readable_error: self.human_readable_error@,
        }
    }
}

/// What asking the driver library for the version of the driver came to.
#[derive(Debug, Clone)]
pub enum DriverProbe {
    /// The library could not be loaded from a path.
    NoLibrary { path: String, reason: String, code: u32 },
    /// The library cannot tell the version.
    NoVersion,
    /// The version, 0 if the driver is not loaded, and the error code.
    Version { version: u32, code: u32 },
}

/// The text of a version.
pub open spec fn version_words(version: u32) -> Seq<char> {
    decimal((version / 0x100_0000) as nat) + "."@ + decimal((version / 0x1_0000 % 0x100) as nat)
        + "."@ + decimal((version / 0x100 % 0x100) as nat) + "."@ + decimal(
        (version % 0x100) as nat,
    )
}

/// The status of a driver that is not loaded.
pub open spec fn driver_missing(dll_loaded: bool, is_admin: bool, code: u32, words: Seq<char>) -> DriverView {
    DriverView {
        dll_loaded,
        driver_present: false,
        driver_version: 0,
        driver_version_string: "not loaded"@,
        is_admin,
        error_code: code,
        human_readable_error: words,
    }
}

/// Why the driver is not loaded.
pub open spec fn missing_words(is_admin: bool, code: u32) -> Seq<char> {
    if code != 2 {
        "WireGuardGetRunningDriverVersion returned 0 (error code: "@ + decimal(code as nat) + ")"@
    } else if is_admin {
        "WireGuard-NT kernel driver (wireguard.sys) is not installed. WireGuardCreateAdapter will attempt to install it, but the driver may fail to load."@
    } else {
        "WireGuard-NT kernel driver (wireguard.sys) is not loaded. Administrator privileges are required to install the WireGuardNT kernel driver on first use. Run the application as Administrator to install the driver, then reconnect."@
    }
}

/// What a probe says of the driver.
pub open spec fn probed(probe: DriverProbe, is_admin: bool) -> DriverView {
    match probe {
        DriverProbe::NoLibrary { path, reason, code } => driver_missing(
            false,
            is_admin,
            code,
            "Failed to load wireguard.dll from '"@ + path@ + "': "@ + reason@,
        ),
        DriverProbe::NoVersion => driver_missing(
            true,
            is_admin,
            0,
            "wireguard.dll loaded but WireGuardGetRunningDriverVersion not found"@,
        ),
        DriverProbe::Version { version, code } => if version == 0 {
            driver_missing(true, is_admin, code, missing_words(is_admin, code))
        } else {
            DriverView {
                dll_loaded: true,
                driver_present: true,
                driver_version: version,
                driver_version_string: version_words(version),
                is_admin,
                error_code: 0,
                human_readable_error: ""@,
            }
        },
    }
}

fn no_driver(dll_loaded: bool, is_admin: bool, code: u32, words: String) -> (r: DriverStatus)
    ensures
        r@ == driver_missing(dll_loaded, is_admin, code, words@),
{
    DriverStatus {
        dll_loaded,
        driver_present: false,
        driver_version: 0,
        driver_version_string: "not loaded".to_string(),
        is_admin,
        error_code: code,
        human_readable_error: words,
    }
}

fn version_text(version: u32) -> (r: String)
    ensures
        r@ == version_words(version),
{
    let mut out = String::new();
    push_decimal(&mut out, (version / 0x100_0000) as u64);
    out.append(".");
    push_decimal(&mut out, (version / 0x1_0000 % 0x100) as u64);
    out.append(".");
    push_decimal(&mut out, (version / 0x100 % 0x100) as u64);
    out.append(".");
    push_decimal(&mut out, (version % 0x100) as u64);
    assert(out@ =~= version_words(version));
    out
}

/// What a probe says of the driver.
pub fn driver_status(probe: &DriverProbe, is_admin: bool) -> (r: DriverStatus)
    ensures
        r@ == probed(*probe, is_admin),
{
    match probe {
        DriverProbe::NoLibrary { path, reason, code } => {
            let mut out = "Failed to load wireguard.dll from '".to_string();
            out.append(path.as_str());
            out.append("': ");
            out.append(reason.as_str());
            no_driver(false, is_admin, *code, out)
        },
        DriverProbe::NoVersion => no_driver(
            true,
            is_admin,
            0,
            "wireguard.dll loaded but WireGuardGetRunningDriverVersion not found".to_string(),
        ),
        DriverProbe::Version { version, code } => {
            if *version == 0 {
                let words = if *code != 2 {
                    let mut out = "WireGuardGetRunningDriverVersion returned 0 (error code: ".to_string();
                    push_decimal(&mut out, *code as u64);
                    out.append(")");
                    out
                } else if is_admin {
                    "WireGuard-NT kernel driver (wireguard.sys) is not installed. WireGuardCreateAdapter will attempt to install it, but the driver may fail to load.".to_string()
                } else {
                    "WireGuard-NT kernel driver (wireguard.sys) is not loaded. Administrator privileges are required to install the WireGuardNT kernel driver on first use. Run the application as Administrator to install the driver, then reconnect.".to_string()
                };
                no_driver(true, is_admin, *code, words)
            } else {
                DriverStatus {
                    dll_loaded: true,
                    driver_present: true,
                    driver_version: *version,
                    driver_version_string: version_text(*version),
                    is_admin,
                    error_code: 0,
                    human_readable_error: "".to_string(),
                }
            }
        },
    }
}

/// Whether the driver can be used on a system that has none.
pub fn wireguard_driver_status() -> (r: DriverStatus)
    ensures
        r@ == driver_missing(
            false,
            false,
            0,
            "WireGuard diagnostics are only supported on Windows"@,
        ),
{
    no_driver(
        false,
        false,
        0,
        "WireGuard diagnostics are only supported on Windows".to_string(),
    )
}

/// Whether the process may install the driver, on a system that has none.
pub fn is_running_as_admin() -> (r: bool)
    ensures
        !r,
{
    false
}

/// Removes the driver, which a system that has none refuses.
pub fn wireguard_delete_driver() -> (r: Result<(), String>)
    ensures
        r matches Err(e) && e@ == "WireGuard driver deletion is only supported on Windows"@,
{
    Err("WireGuard driver deletion is only supported on Windows".to_string())
}

/// How the removal of the driver can go.
#[derive(Debug, Clone)]
pub enum DriverRemoval {
    /// The library could not be loaded.
    NoLibrary { reason: String },
    /// The library cannot remove the driver.
    NoFunction,
    /// The driver is still there, for a reason with a code.
    Refused { reason: String, code: i32 },
    /// The driver is gone.
    Removed,
}

/// What comes of the removal of the driver.
pub fn removal_result(removal: &DriverRemoval) -> (r: Result<(), String>)
    ensures
        match *removal {
            DriverRemoval::Removed => r is Ok,
            DriverRemoval::NoLibrary { reason } => r matches Err(e) && e@
                == "failed to load wireguard.dll: "@ + reason@,
            DriverRemoval::NoFunction => r matches Err(e) && e@
                == "WireGuardDeleteDriver not found in wireguard.dll"@,
            DriverRemoval::Refused { reason, code } => r matches Err(e) && e@
                == "WireGuardDeleteDriver failed: "@ + reason@ + " (error code: "@
                + signed_decimal(code as int) + ")"@,
        },
{
    match removal {
        DriverRemoval::Removed => Ok(()),
        DriverRemoval::NoLibrary { reason } => {
            let mut out = "failed to load wireguard.dll: ".to_string();
            out.append(reason.as_str());
            Err(out)
        },
        DriverRemoval::NoFunction => Err(
            "WireGuardDeleteDriver not found in wireguard.dll".to_string(),
        ),
        DriverRemoval::Refused { reason, code } => {
            let mut out = "WireGuardDeleteDriver failed: ".to_string();
            out.append(reason.as_str());
            out.append(" (error code: ");
            push_signed(&mut out, *code);
            out.append(")");
            Err(out)
        },
    }
}

/// A driver counts as present exactly where it has a version.
pub proof fn law_present_means_versioned(probe: DriverProbe, is_admin: bool)
    ensures
        probed(probe, is_admin).driver_present <==> probed(probe, is_admin).driver_version != 0,
        probed(probe, is_admin).driver_present ==> probed(probe, is_admin).error_code == 0,
{
}

// ---------------------------------------------------------------------------
// Diagnosis
// ---------------------------------------------------------------------------

/// How far a trial run of a tunnel got.
#[derive(Debug, Clone)]
pub struct DiagnosticsReport {
    pub dll_loaded: bool,
    pub driver_present: bool,
    pub driver_version: u32,
    pub is_admin: bool,
    pub adapter_created: bool,
    pub config_applied: bool,
    pub adapter_state: AdapterStateReport,
    pub adapter_closed: bool,
    pub no_orphan_adapter: bool,
    pub handshake_timestamp_unix: u64,
    pub tx_bytes: u64,
    pub rx_bytes: u64,
    pub endpoint: Option<String>,
    pub errors: Vec<String>,
}

/// What a `DiagnosticsReport` holds.
#[verifier::ext_equal]
pub struct ReportView {
    pub dll_loaded: bool,
    pub driver_present: bool,
    pub driver_version: u32,
    pub is_admin: bool,
    pub adapter_created: bool,
    pub config_applied: bool,
    pub adapter_state: AdapterStateReport,
    pub adapter_closed: bool,
    pub no_orphan_adapter: bool,
    pub handshake_timestamp_unix: u64,
    pub tx_bytes: u64,
    pub rx_bytes: u64,
    pub endpoint: Option<Seq<char>>,
    pub errors: Seq<Seq<char>>,
}

impl View for DiagnosticsReport {
    type V = ReportView;

    open spec fn view(&self) -> ReportView {
        ReportView {
            dll_loaded: self.dll_loaded,
            driver_present: self.driver_present,
            driver_version: self.driver_version,
            is_admin: self.is_admin,
            adapter_created: self.adapter_created,
            config_applied: self.config_applied,
            adapter_state: self.adapter_state,
            adapter_closed: self.adapter_closed,
            no_orphan_adapter: self.no_orphan_adapter,
            handshake_timestamp_unix: self.handshake_timestamp_unix,
            tx_bytes: self.tx_bytes,
            rx_bytes: self.rx_bytes,
            endpoint: opt_text(self.endpoint),
            errors: texts(self.errors@),
        }
    }
}

/// A report with one more error.
pub open spec fn with_error(v: ReportView, step: Seq<char>, reason: Seq<char>) -> ReportView {
    ReportView { errors: v.errors.push(step + ": "@ + reason), ..v }
}

/// Diagnoses a profile, which a system without the driver refuses.
pub fn run_diagnostics(_profile: &Profile) -> (r: Result<DiagnosticsReport, String>)
    ensures
        r matches Err(e) && e@ == "WireGuard diagnostics are only supported on Windows"@,
{
    Err("WireGuard diagnostics are only supported on Windows".to_string())
}

impl DiagnosticsReport {
    /// A report of nothing yet.
    pub fn begin(is_admin: bool) -> (r: DiagnosticsReport)
        ensures
            r@ == (ReportView {
                dll_loaded: false,
                driver_present: false,
                driver_version: 0,
                is_admin,
                adapter_created: false,
                config_applied: false,
                adapter_state: AdapterStateReport::Unknown,
                adapter_closed: false,
                no_orphan_adapter: false,
                handshake_timestamp_unix: 0,
                tx_bytes: 0,
                rx_bytes: 0,
                endpoint: None,
                errors: seq![],
            }),
    {
        let errors: Vec<String> = Vec::new();
        assert(texts(errors@) =~= Seq::<Seq<char>>::empty());
        DiagnosticsReport {
            dll_loaded: false,
            driver_present: false,
            driver_version: 0,
            is_admin,
            adapter_created: false,
            config_applied: false,
            adapter_state: AdapterStateReport::Unknown,
            adapter_closed: false,
            no_orphan_adapter: false,
            handshake_timestamp_unix: 0,
            tx_bytes: 0,
            rx_bytes: 0,
            endpoint: None,
            errors,
        }
    }

    fn note(&mut self, step: &str, reason: &str)
        ensures
            final(self)@ == with_error(old(self)@, step@, reason@),
    {
        let mut line = step.to_string();
        line.append(": ");
        line.append(reason);
        let ghost before = self.errors@;
        let ghost words = line@;
        self.errors.push(line);
        assert(texts(self.errors@) =~= texts(before).push(words));
    }

    /// Takes in how making the tunnel went, with the version of the driver; says
    /// whether to go on.
    pub fn opened(&mut self, result: Result<u32, String>) -> (r: bool)
        ensures
            r == (result is Ok),
            final(self)@ == match result {
                Ok(version) => ReportView {
                    dll_loaded: true,
                    driver_version: version,
                    driver_present: version != 0,
                    ..old(self)@
                },
                Err(e) => ReportView {
                    no_orphan_adapter: true,
                    ..with_error(old(self)@, "dll_load"@, e@)
                },
            },
    {
        match result {
            Ok(version) => {
                self.dll_loaded = true;
                self.driver_version = version;
                self.driver_present = version != 0;
                true
            },
            Err(e) => {
                self.note("dll_load", e.as_str());
                self.no_orphan_adapter = true;
                false
            },
        }
    }

    /// Takes in how connecting went; says whether to go on.
    pub fn connected(&mut self, result: Result<(), String>) -> (r: bool)
        ensures
            r == (result is Ok),
            final(self)@ == match result {
                Ok(()) => ReportView { adapter_created: true, config_applied: true, ..old(self)@ },
                Err(e) => ReportView {
                    no_orphan_adapter: true,
                    ..with_error(old(self)@, "connect"@, e@)
                },
            },
    {
        match result {
            Ok(()) => {
                self.adapter_created = true;
                self.config_applied = true;
                true
            },
            Err(e) => {
                self.note("connect", e.as_str());
                self.no_orphan_adapter = true;
                false
            },
        }
    }

    /// Takes in what the running tunnel showed.
    pub fn inspected(
        &mut self,
        state: AdapterStateReport,
        stats: Result<(u64, u64, u64), String>,
        info: Result<ConnectionInfo, String>,
    )
        ensures
            ({
                let first = ReportView { adapter_state: state, ..old(self)@ };
                let second = match stats {
                    Ok((tx, rx, handshake)) => ReportView {
                        tx_bytes: tx,
                        rx_bytes: rx,
                        handshake_timestamp_unix: handshake,
                        ..first
                    },
                    Err(e) => with_error(first, "stats"@, e@),
                };
                final(self)@ == match info {
                    Ok(i) => ReportView { endpoint: i@.endpoint, ..second },
                    Err(e) => with_error(second, "connection_info"@, e@),
                }
            }),
    {
        self.adapter_state = state;
        match stats {
            Ok((tx, rx, handshake)) => {
                self.tx_bytes = tx;
                self.rx_bytes = rx;
                self.handshake_timestamp_unix = handshake;
            },
            Err(e) => {
                self.note("stats", e.as_str());
            },
        }
        match info {
            Ok(i) => {
                self.endpoint = i.endpoint;
            },
            Err(e) => {
                self.note("connection_info", e.as_str());
            },
        }
    }

    /// Takes in how closing the tunnel went, and whether the adapter is gone.
    pub fn closed(&mut self, result: Result<(), String>, adapter_gone: bool)
        ensures
            final(self)@ == (ReportView {
                adapter_closed: result is Ok,
                no_orphan_adapter: adapter_gone,
                errors: match result {
                    Ok(()) => old(self)@.errors,
                    Err(e) => with_error(old(self)@, "teardown"@, e@).errors,
                },
                ..old(self)@
            }),
    {
        self.adapter_closed = result.is_ok();
        match result {
            Ok(()) => {},
            Err(e) => {
                self.note("teardown", e.as_str());
            },
        }
        self.no_orphan_adapter = adapter_gone;
    }
}

} // verus!
