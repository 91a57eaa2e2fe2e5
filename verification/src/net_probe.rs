//! What a probe of a target found out, and which probe to use.

use crate::address::{IpAddr, Ipv4Addr, SocketAddr, SocketAddrV4, SocketAddrV6};
use vstd::prelude::*;

verus! {

/// How to find out whether a target can be reached.
#[derive(Debug, Clone, Copy, PartialEq, Eq, Structural)]
pub enum Probe {
    /// Send an echo request.
    Echo(Ipv4Addr),
    /// Open a connection.
    Connect(SocketAddr),
}

/// The time that a probe took; none if it was lost.
#[derive(Debug, Clone, Copy)]
pub struct ProbeResult {
    pub rtt: Option<std::time::Duration>,
}

impl ProbeResult {
    /// A probe that was answered after a time.
    pub fn ok(rtt: std::time::Duration) -> (r: ProbeResult)
        ensures
            r.rtt == Some(rtt),
    {
        ProbeResult { rtt: Some(rtt) }
    }

    /// A probe that was not answered.
    pub fn lost() -> (r: ProbeResult)
        ensures
            r.rtt is None,
    {
        ProbeResult { rtt: None }
    }

    /// Whether the probe was answered.
    pub fn is_ok(&self) -> (r: bool)
        ensures
            r == (self.rtt is Some),
    {
        self.rtt.is_some()
    }
}

/// An address with a port, and nothing more where it has room for more.
pub open spec fn plain_socket(target: IpAddr, port: u16) -> SocketAddr {
    match target {
        IpAddr::V4(ip) => SocketAddr::V4(SocketAddrV4 { ip, port }),
        IpAddr::V6(ip) => SocketAddr::V6(SocketAddrV6 { ip, port, flowinfo: 0, scope_id: 0 }),
    }
}

/// The probe for a target: an echo request where the system can send one, to an
/// address of the older kind, else a connection to the fallback port.
pub fn probe_for(target: IpAddr, fallback_port: u16, can_echo: bool) -> (r: Probe)
    ensures
        r == match target {
            IpAddr::V4(ip) => if can_echo {
                Probe::Echo(ip)
            } else {
                Probe::Connect(plain_socket(target, fallback_port))
            },
            IpAddr::V6(_) => Probe::Connect(plain_socket(target, fallback_port)),
        },
{
    match target {
        IpAddr::V4(ip) => {
            if can_echo {
                Probe::Echo(ip)
            } else {
                Probe::Connect(SocketAddr::V4(SocketAddrV4 { ip, port: fallback_port }))
            }
        },
        IpAddr::V6(ip) => Probe::Connect(
            SocketAddr::V6(SocketAddrV6 { ip, port: fallback_port, flowinfo: 0, scope_id: 0 }),
        ),
    }
}

/// The timeout of an echo request, which the system takes as a number of
/// milliseconds.
pub fn echo_timeout(millis: u128) -> (r: u32)
    ensures
        r == if millis <= u32::MAX {
            millis as int
        } else {
            u32::MAX as int
        },
{
    if millis <= u32::MAX as u128 {
        millis as u32
    } else {
        u32::MAX
    }
}

/// The time that an echo took, in milliseconds, where replies came in.
pub fn echo_millis(replies: u32, round_trip: u32) -> (r: Option<u64>)
    ensures
        r == if replies > 0 {
            Some(round_trip as u64)
        } else {
            None::<u64>
        },
{
    if replies > 0 {
        Some(round_trip as u64)
    } else {
        None
    }
}

/// What came of a connection that was tried.
pub fn connect_result(connected: bool, elapsed: std::time::Duration) -> (r: ProbeResult)
    ensures
        r.rtt == if connected {
            Some(elapsed)
        } else {
            None::<std::time::Duration>
        },
{
    if connected {
        ProbeResult::ok(elapsed)
    } else {
        ProbeResult::lost()
    }
}

} // verus!
