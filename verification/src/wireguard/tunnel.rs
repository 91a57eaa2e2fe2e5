//! The lifecycle of a tunnel.

use crate::address_text::{socket_to_text, socket_words};
use crate::profiles::Profile;
use crate::text::{
    chars_of, code_point, holds_text, opt_text, push_signed, signed_decimal, texts,
};
use crate::wireguard::{
    ConnectionInfo, InfoView, TunnelCounters, WireGuardAdapterState,
};
use crate::wireguard_config::{ConfigView, ParsedConfig};
use crate::wireguard_parser::{
    answer_views, config_fault, config_text, parse_wireguard_config, validate_config, Answer,
    AnswerView, ParseError, ParseFault,
};
use crate::wireguard_serializer::{config_bytes, peer_stats, read_peer_stats, serialize_config};
use vstd::prelude::*;

verus! {

/// Whether a tunnel is connected.
#[derive(Debug, Clone)]
pub enum TunnelStatus {
    Disconnected,
    Connecting,
    Connected,
    Error(String),
}

/// What a `TunnelStatus` holds.
pub enum StatusView {
    Disconnected,
    Connecting,
    Connected,
    Error(Seq<char>),
}

impl View for TunnelStatus {
    type V = StatusView;

    open spec fn view(&self) -> StatusView {
        match *self {
            TunnelStatus::Disconnected => StatusView::Disconnected,
            TunnelStatus::Connecting => StatusView::Connecting,
            TunnelStatus::Connected => StatusView::Connected,
            TunnelStatus::Error(e) => StatusView::Error(e@),
        }
    }
}

impl StatusView {
    /// Whether a tunnel must not be connected again.
    pub open spec fn active(self) -> bool {
        self is Connected || self is Connecting
    }
}

impl TunnelStatus {
    /// Whether a tunnel must not be connected again.
    pub fn is_active(&self) -> (r: bool)
        ensures
            r == self@.active(),
    {
        match self {
            TunnelStatus::Connected => true,
            TunnelStatus::Connecting => true,
            TunnelStatus::Disconnected => false,
            TunnelStatus::Error(_) => false,
        }
    }

    fn copy(&self) -> (r: TunnelStatus)
        ensures
            r@ == self@,
    {
        match self {
            TunnelStatus::Disconnected => TunnelStatus::Disconnected,
            TunnelStatus::Connecting => TunnelStatus::Connecting,
            TunnelStatus::Connected => TunnelStatus::Connected,
            TunnelStatus::Error(e) => TunnelStatus::Error(e.clone()),
        }
    }
}

/// What a tunnel is waiting for.
#[derive(Debug, Clone)]
pub enum Phase {
    /// For a request.
    Idle,
    /// For an adapter.
    Creating,
    /// For its adapter to take the configuration.
    Configuring,
    /// For its adapter to come up.
    Raising,
    /// For its adapter to go down, after an error or a request.
    Lowering(Option<String>),
    /// For its adapter to be closed, after an error or a request.
    Closing(Option<String>),
}

/// What a `Phase` holds.
pub enum PhaseView {
    Idle,
    Creating,
    Configuring,
    Raising,
    Lowering(Option<Seq<char>>),
    Closing(Option<Seq<char>>),
}

impl View for Phase {
    type V = PhaseView;

    open spec fn view(&self) -> PhaseView {
        match *self {
            Phase::Idle => PhaseView::Idle,
            Phase::Creating => PhaseView::Creating,
            Phase::Configuring => PhaseView::Configuring,
            Phase::Raising => PhaseView::Raising,
            Phase::Lowering(why) => PhaseView::Lowering(opt_text(why)),
            Phase::Closing(why) => PhaseView::Closing(opt_text(why)),
        }
    }
}

/// A tunnel through an adapter. What the driver has to do for it is asked for by
/// actions, and what came of that is told by events.
#[derive(Debug)]
pub struct WireGuardTunnel {
    adapter_name: String,
    config: ParsedConfig,
    status: TunnelStatus,
    counters: TunnelCounters,
    connect_time: Option<u64>,
    adapter: Option<u64>,
    phase: Phase,
}

/// What a `WireGuardTunnel` holds.
#[verifier::ext_equal]
pub struct TunnelView {
    pub adapter_name: Seq<char>,
    pub config: ConfigView,
    pub status: StatusView,
    pub counts: (u64, u64, u64),
    pub connect_time: Option<u64>,
    pub adapter: Option<u64>,
    pub phase: PhaseView,
}

impl View for WireGuardTunnel {
    type V = TunnelView;

    closed spec fn view(&self) -> TunnelView {
        TunnelView {
            adapter_name: self.adapter_name@,
            config: self.config@,
            status: self.status@,
            counts: self.counters.counts(),
            connect_time: self.connect_time,
            adapter: self.adapter,
            phase: self.phase@,
        }
    }
}

/// What happened, or is asked for.
#[derive(Debug, Clone)]
pub enum TunnelEvent {
    /// The tunnel is to be connected.
    Connect,
    /// An adapter was created, or 0 for none; then the reason with its code, the
    /// version of the driver and the code that came with the version.
    Created { adapter: u64, reason: String, code: i32, driver_version: u32, driver_code: i32 },
    /// The adapter took the configuration, or not for a reason.
    Configured { ok: bool, reason: String },
    /// The adapter changed its state, or not for a reason, at a time.
    StateSet { ok: bool, reason: String, now_ms: u64 },
    /// The adapter was closed.
    Closed,
    /// The tunnel is to be taken down.
    Teardown,
}

/// What a `TunnelEvent` holds.
pub enum EventView {
    Connect,
    Created { adapter: u64, reason: Seq<char>, code: i32, driver_version: u32, driver_code: i32 },
    Configured { ok: bool, reason: Seq<char> },
    StateSet { ok: bool, reason: Seq<char>, now_ms: u64 },
    Closed,
    Teardown,
}

impl View for TunnelEvent {
    type V = EventView;

    open spec fn view(&self) -> EventView {
        match *self {
            TunnelEvent::Connect => EventView::Connect,
            TunnelEvent::Created { adapter, reason, code, driver_version, driver_code } => {
                EventView::Created { adapter, reason: reason@, code, driver_version, driver_code }
            },
            TunnelEvent::Configured { ok, reason } => EventView::Configured { ok, reason: reason@ },
            TunnelEvent::StateSet { ok, reason, now_ms } => EventView::StateSet {
                ok,
                reason: reason@,
                now_ms,
            },
            TunnelEvent::Closed => EventView::Closed,
            TunnelEvent::Teardown => EventView::Teardown,
        }
    }
}

/// What the driver is to do.
#[derive(Debug)]
pub enum TunnelAction {
    /// Create an adapter.
    Create { name: String },
    /// Give an adapter a configuration.
    Configure { adapter: u64, blob: Vec<u8> },
    /// Bring an adapter up or down.
    SetState { adapter: u64, state: WireGuardAdapterState },
    /// Close an adapter.
    Close { adapter: u64 },
    /// Nothing more: this is what came of the request.
    Done(Result<(), String>),
    /// Nothing: the event came out of turn.
    Nothing,
}

/// What a `TunnelAction` holds.
pub enum ActionView {
    Create { name: Seq<char> },
    Configure { adapter: u64, blob: Seq<u8> },
    SetState { adapter: u64, state: WireGuardAdapterState },
    Close { adapter: u64 },
    Done(Result<(), Seq<char>>),
    Nothing,
}

impl View for TunnelAction {
    type V = ActionView;

    open spec fn view(&self) -> ActionView {
        match *self {
            TunnelAction::Create { name } => ActionView::Create { name: name@ },
            TunnelAction::Configure { adapter, blob } => ActionView::Configure {
                adapter,
                blob: blob@,
            },
            TunnelAction::SetState { adapter, state } => ActionView::SetState { adapter, state },
            TunnelAction::Close { adapter } => ActionView::Close { adapter },
            TunnelAction::Done(Ok(())) => ActionView::Done(Ok(())),
            TunnelAction::Done(Err(e)) => ActionView::Done(Err(e@)),
            TunnelAction::Nothing => ActionView::Nothing,
        }
    }
}

// ---------------------------------------------------------------------------
// Making a tunnel
// ---------------------------------------------------------------------------

/// The name that adapters of this program have as their kind.
pub const TUNNEL_TYPE: &'static str = "MARSTART LINK";

/// The file that holds the configuration of a profile.
pub fn config_path(profile: &Profile) -> (r: Result<String, String>)
    ensures
        match profile.wg_config_path {
            Some(p) => r matches Ok(s) && s@ == p@,
            None => r matches Err(e) && e@ == "profile '"@ + profile.id@
                + "' has no WireGuard config path"@,
        },
{
    match &profile.wg_config_path {
        Some(p) => Ok(p.clone()),
        None => {
            let mut out = "profile '".to_string();
            out.append(profile.id.as_str());
            out.append("' has no WireGuard config path");
            Err(out)
        },
    }
}

/// The error for a configuration that cannot be read.
pub fn unreadable(path: &str, reason: &str) -> (r: String)
    ensures
        r@ == "failed to read WireGuard config '"@ + path@ + "': "@ + reason@,
{
    let mut out = "failed to read WireGuard config '".to_string();
    out.append(path);
    out.append("': ");
    out.append(reason);
    out
}

/// The functions of the driver library that a tunnel needs, in the order in which
/// they are looked up.
pub open spec fn needed_functions() -> Seq<Seq<char>> {
    seq![
        "WireGuardCreateAdapter"@,
        "WireGuardCloseAdapter"@,
        "WireGuardSetConfiguration"@,
        "WireGuardGetConfiguration"@,
        "WireGuardSetAdapterState"@,
        "WireGuardGetAdapterState"@,
        "WireGuardGetRunningDriverVersion"@,
        "WireGuardGetAdapterLUID"@,
        "WireGuardOpenAdapter"@,
    ]
}

/// The functions of the driver library that a tunnel needs.
pub fn required_functions() -> (r: Vec<String>)
    ensures
        texts(r@) == needed_functions(),
{
    let mut out: Vec<String> = Vec::new();
    out.push("WireGuardCreateAdapter".to_string());
    out.push("WireGuardCloseAdapter".to_string());
    out.push("WireGuardSetConfiguration".to_string());
    out.push("WireGuardGetConfiguration".to_string());
    out.push("WireGuardSetAdapterState".to_string());
    out.push("WireGuardGetAdapterState".to_string());
    out.push("WireGuardGetRunningDriverVersion".to_string());
    out.push("WireGuardGetAdapterLUID".to_string());
    out.push("WireGuardOpenAdapter".to_string());
    assert(texts(out@) =~= needed_functions());
    out
}

/// The first of some names that a list lacks.
pub open spec fn first_lacking(names: Seq<Seq<char>>, found: Seq<Seq<char>>) -> Option<Seq<char>>
    decreases names.len(),
{
    if names.len() == 0 {
        None
    } else {
        match first_lacking(names.drop_last(), found) {
            Some(n) => Some(n),
            None => if found.contains(names.last()) {
                None
            } else {
                Some(names.last())
            },
        }
    }
}

proof fn lemma_first_lacking(names: Seq<Seq<char>>, found: Seq<Seq<char>>, i: int)
    requires
        0 <= i <= names.len(),
        first_lacking(names.take(i), found) is Some,
    ensures
        first_lacking(names, found) == first_lacking(names.take(i), found),
    decreases names.len() - i,
{
    if i < names.len() {
        assert(names.take(i + 1).drop_last() =~= names.take(i));
        lemma_first_lacking(names, found, i + 1);
    } else {
        assert(names.take(i) =~= names);
    }
}

/// Checks that the driver library has all functions that a tunnel needs.
pub fn check_functions(found: &Vec<String>) -> (r: Result<(), String>)
    ensures
        match first_lacking(needed_functions(), texts(found@)) {
            None => r is Ok,
            Some(n) => r matches Err(e) && e@ == n + " not found"@,
        },
{
    let names = required_functions();
    let ghost all = texts(names@);
    let mut i: usize = 0;
    assert(all.take(0) =~= Seq::<Seq<char>>::empty());
    while i < names.len()
        invariant
            i <= names@.len(),
            all == texts(names@),
            all == needed_functions(),
            first_lacking(all.take(i as int), texts(found@)) is None,
        decreases names@.len() - i,
    {
        assert(all.take(i as int + 1).drop_last() =~= all.take(i as int));
        assert(all.take(i as int + 1).last() == names@[i as int]@);
        if !holds_text(found, names[i].as_str()) {
            proof {
                lemma_first_lacking(all, texts(found@), i as int + 1);
            }
            let mut out = names[i].clone();
            out.append(" not found");
            return Err(out);
        }
        i = i + 1;
    }
    assert(all.take(i as int) =~= all);
    Ok(())
}

/// A tunnel that was never connected.
pub open spec fn fresh_tunnel(adapter_name: Seq<char>, config: ConfigView) -> TunnelView {
    TunnelView {
        adapter_name,
        config,
        status: StatusView::Disconnected,
        counts: (0, 0, 0),
        connect_time: None,
        adapter: None,
        phase: PhaseView::Idle,
    }
}

/// A tunnel that was taken down.
pub open spec fn down(v: TunnelView) -> TunnelView {
    fresh_tunnel(v.adapter_name, v.config)
}

/// A tunnel from the text of a configuration, or why there is none.
pub open spec fn prepared(id: Seq<char>, text: Seq<char>, answers: Seq<AnswerView>) -> Result<
    TunnelView,
    ParseFault,
> {
    match config_text(text, answers) {
        Err(e) => Err(e),
        Ok(c) => match config_fault(c) {
            Some(m) => Err(ParseFault::Invalid(m)),
            None => Ok(fresh_tunnel("MARSTART-"@ + id, c)),
        },
    }
}

/// What making a tunnel came to.
pub open spec fn made(r: Result<WireGuardTunnel, ParseError>) -> Result<TunnelView, ParseFault> {
    match r {
        Ok(t) => Ok(t@),
        Err(e) => Err(e@),
    }
}

// ---------------------------------------------------------------------------
// The lifecycle
// ---------------------------------------------------------------------------

/// Why no adapter could be created.
pub open spec fn create_words(version: u32, version_code: i32) -> Seq<char> {
    if version != 0 {
        "WireGuard adapter creation failed (driver is loaded but create_adapter returned NULL)"@
    } else if version_code == 2 {
        "WireGuard-NT kernel driver (wireguard.sys) is not installed. WireGuardCreateAdapter returned NULL вЂ” admin rights are required for first-time driver installation. Run the application as Administrator."@
    } else {
        "WireGuard-NT kernel driver not loaded. Run as Administrator or install WireGuard for Windows."@
    }
}

/// The error for an adapter that could not be created.
pub open spec fn create_fault(reason: Seq<char>, code: i32, version: u32, version_code: i32) -> Seq<char> {
    "failed to create WireGuard adapter: "@ + create_words(version, version_code) + " (os error: "@
        + reason + ", GetLastError: "@ + signed_decimal(code as int) + ")"@
}

/// The error for an adapter that does not take its configuration.
pub open spec fn configure_fault(reason: Seq<char>) -> Seq<char> {
    "WireGuardSetConfiguration failed: "@ + reason
}

/// The error for an adapter that does not come up.
pub open spec fn raise_fault(reason: Seq<char>) -> Seq<char> {
    "WireGuardSetAdapterState(UP) failed: "@ + reason
        + ". The adapter was created but could not be brought online."@
}

/// A tunnel whose adapter is to be closed, after an error or a request.
pub open spec fn closing(v: TunnelView, why: Option<Seq<char>>) -> TunnelView {
    TunnelView { adapter: None, phase: PhaseView::Closing(why), ..v }
}

/// A tunnel that took over an adapter.
pub open spec fn holding(v: TunnelView, adapter: u64) -> TunnelView {
    TunnelView { adapter: Some(adapter), ..v }
}

/// A tunnel that gave its adapter out of its hands.
pub open spec fn without_adapter(v: TunnelView) -> TunnelView {
    TunnelView { adapter: None, ..v }
}

/// The tunnel after an event, and what is to be done.
pub open spec fn stepped(v: TunnelView, e: EventView) -> (TunnelView, ActionView) {
    match (e, v.phase, v.adapter) {
        (EventView::Connect, phase, _) => if v.status.active() {
            (v, ActionView::Done(Err("tunnel is already active"@)))
        } else if phase is Idle {
            (
                TunnelView { status: StatusView::Connecting, phase: PhaseView::Creating, ..v },
                ActionView::Create { name: v.adapter_name },
            )
        } else {
            (v, ActionView::Nothing)
        },
        (
            EventView::Created { adapter, reason, code, driver_version, driver_code },
            PhaseView::Creating,
            held,
        ) => if adapter == 0 {
            let fault = create_fault(reason, code, driver_version, driver_code);
            match held {
                Some(adapter) => (
                    TunnelView {
                        status: StatusView::Error(fault),
                        phase: PhaseView::Lowering(Some(fault)),
                        ..v
                    },
                    ActionView::SetState { adapter, state: WireGuardAdapterState::Down },
                ),
                None => (down(v), ActionView::Done(Err(fault))),
            }
        } else {
            (
                TunnelView { adapter: Some(adapter), phase: PhaseView::Configuring, ..v },
                ActionView::Configure { adapter, blob: config_bytes(v.config) },
            )
        },
        (EventView::Configured { ok, reason }, PhaseView::Configuring, Some(adapter)) => if ok {
            (
                TunnelView { phase: PhaseView::Raising, ..v },
                ActionView::SetState { adapter, state: WireGuardAdapterState::Up },
            )
        } else {
            (closing(v, Some(configure_fault(reason))), ActionView::Close { adapter })
        },
        (EventView::StateSet { ok, reason, now_ms }, PhaseView::Raising, Some(adapter)) => if ok {
            (
                TunnelView {
                    status: StatusView::Connected,
                    connect_time: Some(now_ms),
                    phase: PhaseView::Idle,
                    ..v
                },
                ActionView::Done(Ok(())),
            )
        } else {
            (closing(v, Some(raise_fault(reason))), ActionView::Close { adapter })
        },
        (EventView::StateSet { .. }, PhaseView::Lowering(why), Some(adapter)) => (
            closing(v, why),
            ActionView::Close { adapter },
        ),
        (EventView::Closed, PhaseView::Closing(why), _) => (
            down(v),
            ActionView::Done(
                match why {
                    Some(m) => Err(m),
                    None => Ok(()),
                },
            ),
        ),
        (EventView::Teardown, PhaseView::Idle, Some(adapter)) => (
            TunnelView { phase: PhaseView::Lowering(None), ..v },
            ActionView::SetState { adapter, state: WireGuardAdapterState::Down },
        ),
        (EventView::Teardown, PhaseView::Idle, None) => (down(v), ActionView::Done(Ok(()))),
        _ => (v, ActionView::Nothing),
    }
}

fn say_created(reason: &str, code: i32, version: u32, version_code: i32) -> (r: String)
    ensures
        r@ == create_fault(reason@, code, version, version_code),
{
    let mut out = "failed to create WireGuard adapter: ".to_string();
    if version != 0 {
        out.append(
            "WireGuard adapter creation failed (driver is loaded but create_adapter returned NULL)",
        );
    } else if version_code == 2 {
        out.append(
            "WireGuard-NT kernel driver (wireguard.sys) is not installed. WireGuardCreateAdapter returned NULL вЂ” admin rights are required for first-time driver installation. Run the application as Administrator.",
        );
    } else {
        out.append(
            "WireGuard-NT kernel driver not loaded. Run as Administrator or install WireGuard for Windows.",
        );
    }
    out.append(" (os error: ");
    out.append(reason);
    out.append(", GetLastError: ");
    push_signed(&mut out, code);
    out.append(")");
    out
}

/// The counts of the first peer in what the driver reported, if there is one.
pub open spec fn first_stats(blob: Seq<u8>) -> (u64, u64, u64) {
    if peer_stats(blob).len() > 0 {
        peer_stats(blob)[0]
    } else {
        (0, 0, 0)
    }
}

/// The counts after asking the driver; without an adapter the last ones stand.
pub open spec fn counted(v: TunnelView, reply: Option<Seq<u8>>) -> (u64, u64, u64) {
    match (v.adapter, reply) {
        (None, _) => v.counts,
        (Some(_), Some(blob)) => first_stats(blob),
        (Some(_), None) => (0, 0, 0),
    }
}

/// The bytes of a reply.
pub open spec fn reply_view(reply: Option<Vec<u8>>) -> Option<Seq<u8>> {
    match reply {
        Some(b) => Some(b@),
        None => None,
    }
}

/// The text of the endpoint of the first peer.
pub open spec fn endpoint_words(c: ConfigView) -> Option<Seq<char>> {
    if c.peers.len() > 0 {
        match c.peers[0].endpoint {
            Some(a) => Some(socket_words(a)),
            None => None,
        }
    } else {
        None
    }
}

impl WireGuardTunnel {
    /// A tunnel for a profile from the text of its configuration. `answers` says
    /// what the lookups of host names came to.
    pub fn new(profile: &Profile, text: &str, answers: &Vec<Answer>) -> (r: Result<
        WireGuardTunnel,
        ParseError,
    >)
        ensures
            made(r) == prepared(profile.id@, text@, answer_views(answers@)),
    {
        let config = match parse_wireguard_config(text, answers) {
            Ok(c) => c,
            Err(e) => {
                return Err(e);
            },
        };
        match validate_config(&config) {
            Ok(()) => {},
            Err(m) => {
                return Err(ParseError::Invalid(m));
            },
        }
        let mut adapter_name = "MARSTART-".to_string();
        adapter_name.append(profile.id.as_str());
        Ok(
            WireGuardTunnel {
                adapter_name,
                config,
                status: TunnelStatus::Disconnected,
                counters: TunnelCounters::default(),
                connect_time: None,
                adapter: None,
                phase: Phase::Idle,
            },
        )
    }

    fn reset(&mut self)
        ensures
            final(self)@ == down(old(self)@),
    {
        self.counters.clear();
        self.connect_time = None;
        self.status = TunnelStatus::Disconnected;
        self.adapter = None;
        self.phase = Phase::Idle;
    }

    fn close(&mut self, adapter: u64, why: Option<String>) -> (r: TunnelAction)
        ensures
            final(self)@ == closing(
                old(self)@,
                opt_text(why),
            ),
            r@ == (ActionView::Close { adapter }),
    {
        self.adapter = None;
        self.phase = Phase::Closing(why);
        TunnelAction::Close { adapter }
    }

    fn created(&mut self, adapter: u64) -> (r: TunnelAction)
        requires
            adapter != 0,
        ensures
            final(self)@ == (TunnelView {
                adapter: Some(adapter),
                phase: PhaseView::Configuring,
                ..old(self)@
            }),
            r@ == (ActionView::Configure { adapter, blob: config_bytes(old(self)@.config) }),
    {
        self.adapter = Some(adapter);
        self.phase = Phase::Configuring;
        match serialize_config(&self.config) {
            Ok(blob) => TunnelAction::Configure { adapter, blob },
            Err(e) => TunnelAction::Done(Err(e)),
        }
    }

    /// Takes in an event, and says what the driver is to do.
    pub fn next(&mut self, event: TunnelEvent) -> (r: TunnelAction)
        ensures
            (final(self)@, r@) == stepped(old(self)@, event@),
    {
        match event {
            TunnelEvent::Connect => {
                if self.status.is_active() {
                    return TunnelAction::Done(Err("tunnel is already active".to_string()));
                }
                match self.phase {
                    Phase::Idle => {},
                    _ => {
                        return TunnelAction::Nothing;
                    },
                }
                self.status = TunnelStatus::Connecting;
                self.phase = Phase::Creating;
                TunnelAction::Create { name: self.adapter_name.clone() }
            },
            TunnelEvent::Created { adapter, reason, code, driver_version, driver_code } => {
                match self.phase {
                    Phase::Creating => {
                        if adapter != 0 {
                            return self.created(adapter);
                        }
                        let fault = say_created(
                            reason.as_str(),
                            code,
                            driver_version,
                            driver_code,
                        );
                        match self.adapter {
                            Some(held) => {
                                self.status = TunnelStatus::Error(fault.clone());
                                self.phase = Phase::Lowering(Some(fault));
                                TunnelAction::SetState {
                                    adapter: held,
                                    state: WireGuardAdapterState::Down,
                                }
                            },
                            None => {
                                self.reset();
                                TunnelAction::Done(Err(fault))
                            },
                        }
                    },
                    _ => TunnelAction::Nothing,
                }
            },
            TunnelEvent::Configured { ok, reason } => match (&self.phase, self.adapter) {
                (Phase::Configuring, Some(adapter)) => {
                    if ok {
                        self.phase = Phase::Raising;
                        TunnelAction::SetState { adapter, state: WireGuardAdapterState::Up }
                    } else {
                        let mut out = "WireGuardSetConfiguration failed: ".to_string();
                        out.append(reason.as_str());
                        self.close(adapter, Some(out))
                    }
                },
                _ => TunnelAction::Nothing,
            },
            TunnelEvent::StateSet { ok, reason, now_ms } => match (&self.phase, self.adapter) {
                (Phase::Raising, Some(adapter)) => {
                    if ok {
                        self.status = TunnelStatus::Connected;
                        self.connect_time = Some(now_ms);
                        self.phase = Phase::Idle;
                        TunnelAction::Done(Ok(()))
                    } else {
                        let mut out = "WireGuardSetAdapterState(UP) failed: ".to_string();
                        out.append(reason.as_str());
                        out.append(". The adapter was created but could not be brought online.");
                        self.close(adapter, Some(out))
                    }
                },
                (Phase::Lowering(None), Some(adapter)) => self.close(adapter, None),
                (Phase::Lowering(Some(m)), Some(adapter)) => {
                    let why = m.clone();
                    self.close(adapter, Some(why))
                },
                _ => TunnelAction::Nothing,
            },
            TunnelEvent::Closed => {
                let why = match &self.phase {
                    Phase::Closing(None) => Ok(()),
                    Phase::Closing(Some(m)) => Err(m.clone()),
                    _ => {
                        return TunnelAction::Nothing;
                    },
                };
                self.reset();
                TunnelAction::Done(why)
            },
            TunnelEvent::Teardown => match (&self.phase, self.adapter) {
                (Phase::Idle, Some(adapter)) => {
                    self.phase = Phase::Lowering(None);
                    TunnelAction::SetState { adapter, state: WireGuardAdapterState::Down }
                },
                (Phase::Idle, None) => {
                    self.reset();
                    TunnelAction::Done(Ok(()))
                },
                _ => TunnelAction::Nothing,
            },
        }
    }

    /// Whether the tunnel is connected.
    pub fn status(&self) -> (r: TunnelStatus)
        ensures
            r@ == self@.status,
    {
        self.status.copy()
    }

    /// The adapter of the tunnel.
    pub fn adapter(&self) -> (r: Result<u64, String>)
        ensures
            match self@.adapter {
                Some(a) => r == Ok::<u64, String>(a),
                None => r matches Err(e) && e@ == "adapter not connected"@,
            },
    {
        match self.adapter {
            Some(a) => Ok(a),
            None => Err("adapter not connected".to_string()),
        }
    }

    /// Whether no adapter is left open.
    pub fn is_adapter_closed(&self) -> (r: bool)
        ensures
            r == (self@.adapter is None),
    {
        self.adapter.is_none()
    }

    /// Gives up the adapter, which is then to be closed.
    pub fn take_adapter(&mut self) -> (r: Option<u64>)
        ensures
            r == old(self)@.adapter,
            final(self)@ == without_adapter(old(self)@),
    {
        let a = self.adapter;
        self.adapter = None;
        a
    }

    /// Takes over an adapter that was found by its name, or 0 for none with the
    /// reason and its code.
    pub fn open_adapter(&mut self, adapter_name: &str, adapter: u64, reason: &str, code: i32) -> (r:
        Result<(), String>)
        ensures
            if adapter == 0 {
                final(self)@ == old(self)@ && (r matches Err(e) && e@
                    == "WireGuardOpenAdapter failed for '"@ + adapter_name@ + "': "@ + reason@
                    + " (raw_os_error: "@ + signed_decimal(code as int) + ")"@)
            } else {
                r is Ok && final(self)@ == holding(old(self)@, adapter)
            },
    {
        if adapter == 0 {
            let mut out = "WireGuardOpenAdapter failed for '".to_string();
            out.append(adapter_name);
            out.append("': ");
            out.append(reason);
            out.append(" (raw_os_error: ");
            push_signed(&mut out, code);
            out.append(")");
            return Err(out);
        }
        self.adapter = Some(adapter);
        Ok(())
    }

    /// The counts of the tunnel: sent, received, and the time of the last
    /// handshake. `reply` is what the driver reported of the adapter, if anything.
    pub fn stats(&mut self, reply: Option<Vec<u8>>) -> (r: (u64, u64, u64))
        ensures
            r == counted(old(self)@, reply_view(reply)),
            final(self)@ == (TunnelView { counts: r, ..old(self)@ }),
    {
        if self.adapter.is_none() {
            return self.counters.snapshot();
        }
        let counts = match &reply {
            None => (0, 0, 0),
            Some(blob) => {
                let all = read_peer_stats(blob.as_slice());
                if all.len() > 0 {
                    all[0]
                } else {
                    (0, 0, 0)
                }
            },
        };
        self.counters.store(counts);
        counts
    }

    /// What is known of the connection.
    pub fn connection_info(&mut self, reply: Option<Vec<u8>>) -> (r: ConnectionInfo)
        ensures
            final(self)@ == (TunnelView {
                counts: counted(old(self)@, reply_view(reply)),
                ..old(self)@
            }),
            ({
                let (tx_bytes, rx_bytes, handshake_timestamp_unix) = counted(
                    old(self)@,
                    reply_view(reply),
                );
                r@ == (InfoView {
                    handshake_timestamp_unix,
                    tx_bytes,
                    rx_bytes,
                    endpoint: endpoint_words(old(self)@.config),
                })
            }),
    {
        let (tx_bytes, rx_bytes, handshake_timestamp_unix) = self.stats(reply);
        let endpoint = if self.config.peers.len() > 0 {
            assert(self.config@.peers[0] == self.config.peers@[0]@);
            match self.config.peers[0].endpoint {
                Some(a) => Some(socket_to_text(a)),
                None => None,
            }
        } else {
            None
        };
        ConnectionInfo { handshake_timestamp_unix, tx_bytes, rx_bytes, endpoint }
    }

    /// How long the tunnel has been connected.
    pub fn elapsed(&self, now_ms: u64) -> (r: Option<u64>)
        ensures
            r == match self@.connect_time {
                Some(t) => Some(if now_ms >= t {
                    (now_ms - t) as u64
                } else {
                    0
                }),
                None => None,
            },
    {
        match self.connect_time {
            Some(t) => Some(
                if now_ms >= t {
                    now_ms - t
                } else {
                    0
                },
            ),
            None => None,
        }
    }
}

// ---------------------------------------------------------------------------
// Wide text
// ---------------------------------------------------------------------------

/// The sixteen-bit units of a character.
pub open spec fn units_of(c: char) -> Seq<u16> {
    let n = c as u32;
    if n < 0x1_0000 {
        seq![n as u16]
    } else {
        seq![(0xd800 + (n - 0x1_0000) / 0x400) as u16, (0xdc00 + (n - 0x1_0000) % 0x400) as u16]
    }
}

/// The sixteen-bit units of a text.
pub open spec fn units(s: Seq<char>) -> Seq<u16>
    decreases s.len(),
{
    if s.len() == 0 {
        seq![]
    } else {
        units(s.drop_last()) + units_of(s.last())
    }
}

/// A text in the form in which the system takes it: sixteen-bit units with a zero
/// behind them.
pub fn wide_str(value: &str) -> (r: Vec<u16>)
    ensures
        r@ == units(value@).push(0),
{
    let chars = chars_of(value);
    let mut out: Vec<u16> = Vec::new();
    let mut i: usize = 0;
    assert(chars@.take(0) =~= Seq::<char>::empty());
    while i < chars.len()
        invariant
            i <= chars@.len(),
            out@ == units(chars@.take(i as int)),
        decreases chars@.len() - i,
    {
        let ghost before = out@;
        assert(chars@.take(i as int + 1).drop_last() =~= chars@.take(i as int));
        let n: u32 = code_point(chars[i]);
        if n < 0x1_0000 {
            out.push(n as u16);
        } else {
            out.push((0xd800 + (n - 0x1_0000) / 0x400) as u16);
            out.push((0xdc00 + (n - 0x1_0000) % 0x400) as u16);
        }
        assert(out@ =~= before + units_of(chars@[i as int]));
        i = i + 1;
    }
    assert(chars@.take(i as int) =~= chars@);
    out.push(0);
    out
}

// ---------------------------------------------------------------------------
// Laws
// ---------------------------------------------------------------------------

/// A tunnel whose parts fit together: an adapter is there while it is worked on,
/// none is there while one is closed, a connected tunnel has one, and an idle one
/// that is not connected may hold one that it took over.
pub open spec fn sound(v: TunnelView) -> bool {
    &&& v.phase is Creating ==> v.status is Connecting
    &&& v.phase is Configuring || v.phase is Raising ==> v.adapter is Some && v.status is Connecting
    &&& v.phase is Lowering ==> v.adapter is Some
    &&& v.phase is Closing ==> v.adapter is None
    &&& v.phase is Idle && v.status is Connected ==> v.adapter is Some && v.connect_time is Some
    &&& v.phase is Idle ==> v.status is Connected || v.status is Disconnected
    &&& v.status is Error ==> v.phase is Lowering || v.phase is Closing
}

/// A tunnel starts sound and stays so whatever the driver answers and whatever is
/// asked of it.
pub proof fn law_tunnel_stays_sound(v: TunnelView, e: EventView)
    requires
        sound(v),
    ensures
        sound(stepped(v, e).0),
        sound(down(v)),
{
}

/// An idle tunnel stays sound when it takes over an adapter; the adapter that it
/// then has is that one. A tunnel that is not connected stays sound when it gives
/// its adapter up; one that is connected is then down after the next teardown,
/// without a call to the driver.
pub proof fn law_adapters_change_hands(v: TunnelView, adapter: u64)
    requires
        sound(v),
        v.phase is Idle,
    ensures
        sound(holding(v, adapter)),
        holding(v, adapter).adapter == Some(adapter),
        without_adapter(v).adapter is None,
        v.status is Disconnected ==> sound(without_adapter(v)),
        without_adapter(holding(v, adapter)) == without_adapter(v),
        stepped(without_adapter(v), EventView::Teardown) == (down(v), ActionView::Done(Ok(()))),
{
}

/// Whether an adapter that a tunnel holds gives way to one that was created.
pub open spec fn replaced(v: TunnelView, e: EventView) -> bool {
    &&& v.phase is Creating
    &&& v.adapter is Some
    &&& e matches EventView::Created { adapter, .. } && adapter != 0 && v.adapter != Some(adapter)
}

/// An adapter is given up only by closing it, and what is closed is the adapter of
/// the tunnel. This holds of an adapter that was taken over too, unless the tunnel
/// is connected on top of it and gets another.
pub proof fn law_no_adapter_is_lost(v: TunnelView, e: EventView, adapter: u64)
    requires
        sound(v),
        !replaced(v, e),
    ensures
        v.adapter == Some(adapter) && stepped(v, e).0.adapter != Some(adapter) <==> v.adapter
            == Some(adapter) && stepped(v, e).1 == (ActionView::Close { adapter }),
        stepped(v, e).1 == (ActionView::Close { adapter }) ==> v.adapter == Some(adapter)
            && stepped(v, e).0.adapter is None,
{
}

/// A tunnel that holds an adapter and cannot get one of its own lowers and closes
/// the one it holds, and then reports why it got none.
pub proof fn law_failed_connect_lets_go(
    v: TunnelView,
    adapter: u64,
    reason: Seq<char>,
    code: i32,
    driver_version: u32,
    driver_code: i32,
    lowered: EventView,
)
    requires
        sound(v),
        v.phase is Idle,
        v.status is Disconnected,
        v.adapter == Some(adapter),
        lowered is StateSet,
    ensures
        ({
            let failed = EventView::Created {
                adapter: 0,
                reason,
                code,
                driver_version,
                driver_code,
            };
            let fault = create_fault(reason, code, driver_version, driver_code);
            let (a, first) = stepped(v, EventView::Connect);
            let (b, second) = stepped(a, failed);
            let (c, third) = stepped(b, lowered);
            let (d, last) = stepped(c, EventView::Closed);
            &&& first == (ActionView::Create { name: v.adapter_name })
            &&& second == (ActionView::SetState { adapter, state: WireGuardAdapterState::Down })
            &&& third == (ActionView::Close { adapter })
            &&& last == ActionView::Done(Err(fault))
            &&& d == down(v)
        }),
{
}

/// A request that is over leaves the tunnel either connected with its adapter, or
/// down without one; where it failed, down, unless it was refused.
pub proof fn law_requests_end_cleanly(v: TunnelView, e: EventView)
    requires
        sound(v),
        stepped(v, e).1 is Done,
    ensures
        ({
            let (after, action) = stepped(v, e);
            match action {
                ActionView::Done(Ok(())) => after == down(v) || (after.status is Connected
                    && after.adapter is Some && after.phase is Idle),
                ActionView::Done(Err(_)) => if e is Connect {
                    after == v && v.status.active()
                } else {
                    after == down(v)
                },
                _ => true,
            }
        }),
{
}

/// An adapter is brought up only after it took its configuration.
pub proof fn law_configured_before_up(v: TunnelView, e: EventView, adapter: u64)
    requires
        stepped(v, e).1 == (ActionView::SetState { adapter, state: WireGuardAdapterState::Up }),
    ensures
        v.phase is Configuring,
        e matches EventView::Configured { ok, .. } && ok,
        v.adapter == Some(adapter),
{
}

/// Taking a tunnel down twice is the same as taking it down once.
pub proof fn law_teardown_is_idempotent(v: TunnelView)
    ensures
        stepped(down(v), EventView::Teardown) == (down(v), ActionView::Done(Ok(()))),
{
}

} // verus!
