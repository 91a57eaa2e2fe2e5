//! How a tunnel is connected and taken down, and what it tells.

use crate::address_text::socket_words;
use crate::text::{decimal, signed_decimal};
use crate::wireguard::tunnel::{
    counted, create_words, endpoint_words, first_lacking, fresh_tunnel, prepared, stepped, units,
    units_of, ActionView, EventView, PhaseView, StatusView, TunnelView,
};
use crate::wireguard::{missing_words, probed, DriverProbe, WireGuardAdapterState};
use crate::wireguard_config::ConfigView;
use crate::wireguard_layout_laws::{gives_counters, law_counters_are_read, reported_place, word_at};
use crate::wireguard_parser::{
    config_fit, config_text, law_valid_config_is_fit, AnswerView,
};
use crate::wireguard_serializer::{config_bytes, peer_stats};
use vstd::prelude::*;

verus! {

/// Whether a tunnel waits for a request and has no adapter.
pub open spec fn at_rest(v: TunnelView) -> bool {
    v.phase is Idle && v.adapter is None && !(v.status is Connected) && !(v.status is Connecting)
}

// ---------------------------------------------------------------------------
// Connecting
// ---------------------------------------------------------------------------

/// A tunnel is connected in four steps: an adapter of its name is created, takes
/// the binary form of the configuration, and is brought up; then the tunnel is
/// connected since that moment.
pub proof fn law_connecting(
    v: TunnelView,
    adapter: u64,
    reason: Seq<char>,
    code: i32,
    driver_version: u32,
    driver_code: i32,
    now_ms: u64,
)
    requires
        at_rest(v),
        adapter != 0,
    ensures
        ({
            let created = EventView::Created {
                adapter,
                reason,
                code,
                driver_version,
                driver_code,
            };
            let (a, first) = stepped(v, EventView::Connect);
            let (b, second) = stepped(a, created);
            let (c, third) = stepped(b, EventView::Configured { ok: true, reason });
            let (d, last) = stepped(c, EventView::StateSet { ok: true, reason, now_ms });
            &&& first == (ActionView::Create { name: v.adapter_name })
            &&& a.status is Connecting
            &&& second == (ActionView::Configure { adapter, blob: config_bytes(v.config) })
            &&& third == (ActionView::SetState { adapter, state: WireGuardAdapterState::Up })
            &&& last == ActionView::Done(Ok(()))
            &&& d == (TunnelView {
                status: StatusView::Connected,
                connect_time: Some(now_ms),
                adapter: Some(adapter),
                ..v
            })
        }),
{
}

/// A tunnel that gets no adapter is down, and tells why in the words of the
/// system.
pub proof fn law_no_adapter_created(
    v: TunnelView,
    reason: Seq<char>,
    code: i32,
    driver_version: u32,
    driver_code: i32,
)
    requires
        at_rest(v),
    ensures
        ({
            let failed = EventView::Created {
                adapter: 0,
                reason,
                code,
                driver_version,
                driver_code,
            };
            let (a, first) = stepped(v, EventView::Connect);
            let (b, last) = stepped(a, failed);
            &&& b == fresh_tunnel(v.adapter_name, v.config)
            &&& last == ActionView::Done(
                Err(
                    "failed to create WireGuard adapter: "@ + create_words(
                        driver_version,
                        driver_code,
                    ) + " (os error: "@ + reason + ", GetLastError: "@ + signed_decimal(
                        code as int,
                    ) + ")"@,
                ),
            )
        }),
{
}

/// A tunnel whose adapter does not take the configuration, or does not come up,
/// closes it, is down, and tells why.
pub proof fn law_connecting_given_up(v: TunnelView, adapter: u64, reason: Seq<char>, now_ms: u64)
    requires
        v.adapter == Some(adapter),
    ensures
        v.phase is Configuring ==> {
            let (a, first) = stepped(v, EventView::Configured { ok: false, reason });
            let (b, last) = stepped(a, EventView::Closed);
            &&& first == (ActionView::Close { adapter })
            &&& last == ActionView::Done(Err("WireGuardSetConfiguration failed: "@ + reason))
            &&& b == fresh_tunnel(v.adapter_name, v.config)
        },
        v.phase is Raising ==> {
            let (a, first) = stepped(v, EventView::StateSet { ok: false, reason, now_ms });
            let (b, last) = stepped(a, EventView::Closed);
            &&& first == (ActionView::Close { adapter })
            &&& last == ActionView::Done(
                Err(
                    "WireGuardSetAdapterState(UP) failed: "@ + reason
                        + ". The adapter was created but could not be brought online."@,
                ),
            )
            &&& b == fresh_tunnel(v.adapter_name, v.config)
        },
{
}

/// A connected tunnel is taken down in three steps, whether or not its adapter
/// goes down at once: lower it, close it, done. The tunnel is then as it was before
/// it was ever connected.
pub proof fn law_taking_down(v: TunnelView, adapter: u64, ok: bool, reason: Seq<char>, now_ms: u64)
    requires
        v.phase is Idle,
        v.adapter == Some(adapter),
    ensures
        ({
            let (a, first) = stepped(v, EventView::Teardown);
            let (b, second) = stepped(a, EventView::StateSet { ok, reason, now_ms });
            let (c, last) = stepped(b, EventView::Closed);
            &&& first == (ActionView::SetState { adapter, state: WireGuardAdapterState::Down })
            &&& second == (ActionView::Close { adapter })
            &&& last == ActionView::Done(Ok(()))
            &&& c == (TunnelView {
                adapter_name: v.adapter_name,
                config: v.config,
                status: StatusView::Disconnected,
                counts: (0, 0, 0),
                connect_time: None,
                adapter: None,
                phase: PhaseView::Idle,
            })
        }),
{
}

/// A tunnel that is connected or connecting refuses to be connected, and stays as
/// it is.
pub proof fn law_active_tunnel_refuses(v: TunnelView)
    requires
        v.status is Connected || v.status is Connecting,
    ensures
        stepped(v, EventView::Connect) == (
            v,
            ActionView::Done(Err("tunnel is already active"@)),
        ),
{
}

/// What comes out of turn changes nothing.
pub proof fn law_out_of_turn(v: TunnelView, e: EventView)
    requires
        e is Created ==> !(v.phase is Creating),
        e is Configured ==> !(v.phase is Configuring),
        e is StateSet ==> !(v.phase is Raising) && !(v.phase is Lowering),
        e is Closed ==> !(v.phase is Closing),
        e is Teardown ==> !(v.phase is Idle),
        e is Connect ==> !(v.phase is Idle) && !(v.status is Connected) && !(v.status
            is Connecting),
    ensures
        stepped(v, e) == (v, ActionView::Nothing),
{
}

// ---------------------------------------------------------------------------
// Making a tunnel
// ---------------------------------------------------------------------------

/// A tunnel is made from a text exactly where it is read and fit for a client; it
/// is named after its profile, and was never connected.
pub proof fn law_tunnel_from_text(id: Seq<char>, text: Seq<char>, answers: Seq<AnswerView>)
    ensures
        prepared(id, text, answers) is Ok <==> config_text(text, answers) is Ok && config_fit(
            config_text(text, answers)->Ok_0,
        ),
        prepared(id, text, answers) matches Ok(v) ==> v == (TunnelView {
            adapter_name: "MARSTART-"@ + id,
            config: config_text(text, answers)->Ok_0,
            status: StatusView::Disconnected,
            counts: (0, 0, 0),
            connect_time: None,
            adapter: None,
            phase: PhaseView::Idle,
        }),
{
    if let Ok(c) = config_text(text, answers) {
        law_valid_config_is_fit(c);
    }
}

/// A driver library will do exactly where it has each of the functions; of those
/// that it lacks the first is named.
pub proof fn law_functions_are_needed(names: Seq<Seq<char>>, found: Seq<Seq<char>>)
    ensures
        match first_lacking(names, found) {
            None => forall|i: int| 0 <= i < names.len() ==> found.contains(#[trigger] names[i]),
            Some(n) => exists|i: int|
                0 <= i < names.len() && #[trigger] names[i] == n && !found.contains(n) && forall|
                    j: int,
                |
                    0 <= j < i ==> found.contains(#[trigger] names[j]),
        },
    decreases names.len(),
{
    if names.len() > 0 {
        let rest = names.drop_last();
        let n = names.len() - 1;
        assert(forall|i: int| 0 <= i < rest.len() ==> #[trigger] rest[i] == names[i]);
        assert(names[n] == names.last());
        law_functions_are_needed(rest, found);
        match first_lacking(rest, found) {
            Some(m) => {
                let i = choose|i: int|
                    0 <= i < rest.len() && #[trigger] rest[i] == m && !found.contains(m)
                        && forall|j: int| 0 <= j < i ==> found.contains(#[trigger] rest[j]);
                assert(names[i] == m);
                assert forall|j: int| 0 <= j < i implies found.contains(#[trigger] names[j]) by {
                    assert(rest[j] == names[j]);
                }
            },
            None => {
                assert forall|j: int| 0 <= j < n implies found.contains(#[trigger] names[j]) by {
                    assert(rest[j] == names[j]);
                }
            },
        }
    }
}

// ---------------------------------------------------------------------------
// What a tunnel tells
// ---------------------------------------------------------------------------

/// The counts of a tunnel with an adapter are those that the driver reports for
/// its first peer, and zero where it reports none or nothing; without an adapter
/// the last ones stand.
pub proof fn law_counts(v: TunnelView, reply: Option<Seq<u8>>)
    ensures
        v.adapter is None ==> counted(v, reply) == v.counts,
        v.adapter is Some && reply is None ==> counted(v, reply) == (0u64, 0u64, 0u64),
        v.adapter is Some && reply is Some ==> {
            let b = reply->0;
            if b.len() >= 216 && word_at(b, 72) > 0 {
                gives_counters(b, 80, counted(v, reply))
            } else {
                counted(v, reply) == (0u64, 0u64, 0u64)
            }
        },
{
    if reply is Some {
        let b = reply->0;
        law_counters_are_read(b);
        assert(reported_place(b, 0) == 80);
        if peer_stats(b).len() > 0 {
            assert(gives_counters(b, reported_place(b, 0), peer_stats(b)[0]));
        }
    }
}

/// The endpoint that a tunnel tells is that of its first peer.
pub proof fn law_endpoint_told(c: ConfigView)
    ensures
        endpoint_words(c) == if c.peers.len() > 0 && c.peers[0].endpoint is Some {
            Some(socket_words(c.peers[0].endpoint->0))
        } else {
            None
        },
{
}

/// A text in units of sixteen bits: one for each character below 2^16, and for any
/// other two, which give its ten higher and ten lower bits; texts are put together
/// by putting their units together.
pub proof fn law_wide_text(a: Seq<char>, c: char)
    ensures
        units(a.push(c)) == units(a) + units_of(c),
        units(Seq::empty()) == Seq::<u16>::empty(),
        (c as u32) < 0x1_0000 ==> units_of(c).len() == 1 && units_of(c)[0] == c as u32,
        (c as u32) >= 0x1_0000 ==> {
            let u = units_of(c);
            &&& u.len() == 2
            &&& 0xd800 <= u[0] < 0xdc00
            &&& 0xdc00 <= u[1] < 0xe000
            &&& c as u32 == 0x1_0000 + (u[0] - 0xd800) * 0x400 + (u[1] - 0xdc00)
        },
{
    assert(a.push(c).drop_last() =~= a);
    assert((c as u32) <= 0x10_ffff);
}

// ---------------------------------------------------------------------------
// The driver
// ---------------------------------------------------------------------------

/// What is told of the driver: the library is there unless it could not be loaded,
/// and the driver is there where it has a version, which is told in four numbers,
/// one for each byte. What is not there is explained.
pub proof fn law_driver_is_told(probe: DriverProbe, is_admin: bool)
    ensures
        ({
            let d = probed(probe, is_admin);
            &&& d.is_admin == is_admin
            &&& d.dll_loaded <==> !(probe is NoLibrary)
            &&& d.driver_present <==> (probe matches DriverProbe::Version { version, .. }
                && version != 0)
            &&& !d.driver_present ==> d.driver_version == 0 && d.driver_version_string
                == "not loaded"@
            &&& probe matches DriverProbe::Version { version, code } ==> {
                &&& d.driver_version == version
                &&& version != 0 ==> d.error_code == 0 && d.human_readable_error == ""@
                    && d.driver_version_string == decimal((version as int / 0x100_0000) as nat)
                    + "."@ + decimal((version as int / 0x1_0000 % 0x100) as nat) + "."@ + decimal(
                    (version as int / 0x100 % 0x100) as nat,
                ) + "."@ + decimal((version as int % 0x100) as nat)
                &&& version == 0 ==> d.error_code == code && d.human_readable_error
                    == missing_words(is_admin, code)
            }
            &&& probe matches DriverProbe::NoLibrary { path, reason, code } ==> d.error_code == code
                && d.human_readable_error == "Failed to load wireguard.dll from '"@ + path@
                + "': "@ + reason@
            &&& probe is NoVersion ==> d.error_code == 0 && d.human_readable_error
                == "wireguard.dll loaded but WireGuardGetRunningDriverVersion not found"@
        }),
{
}

/// Why a driver is not there depends on the code that came with its version: 2
/// stands for one that is not installed, and the advice then depends on whether
/// the program may install it.
pub proof fn law_advice_depends_on_code(code: u32)
    ensures
        code != 2 ==> missing_words(true, code) == missing_words(false, code),
        code != 2 ==> missing_words(true, code)
            == "WireGuardGetRunningDriverVersion returned 0 (error code: "@ + decimal(code as nat)
            + ")"@,
        missing_words(true, 2)
            == "WireGuard-NT kernel driver (wireguard.sys) is not installed. WireGuardCreateAdapter will attempt to install it, but the driver may fail to load."@,
        missing_words(false, 2)
            == "WireGuard-NT kernel driver (wireguard.sys) is not loaded. Administrator privileges are required to install the WireGuardNT kernel driver on first use. Run the application as Administrator to install the driver, then reconnect."@,
{
}

/// Why no adapter could be created: where a driver tells its version it is not the
/// driver; else it is not installed where the version was not found, and not loaded
/// where there was another error.
pub proof fn law_why_no_adapter(version: u32, code: i32)
    ensures
        version > 0 ==> create_words(version, code)
            == "WireGuard adapter creation failed (driver is loaded but create_adapter returned NULL)"@,
        version == 0 && code == 2 ==> create_words(version, code)
            == "WireGuard-NT kernel driver (wireguard.sys) is not installed. WireGuardCreateAdapter returned NULL вЂ” admin rights are required for first-time driver installation. Run the application as Administrator."@,
        version == 0 && code != 2 ==> create_words(version, code)
            == "WireGuard-NT kernel driver not loaded. Run as Administrator or install WireGuard for Windows."@,
{
}

} // verus!
