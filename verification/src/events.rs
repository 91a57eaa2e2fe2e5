//! The names of the events that the user interface is told of.

use vstd::prelude::*;

verus! {

pub const EV_MONITOR_TICK: &'static str = "monitor:tick";

pub const EV_MONITOR_STATE: &'static str = "monitor:state";

pub const EV_ROUTE_CHANGED: &'static str = "routes:changed";

pub const EV_ROUTE_STATE: &'static str = "routes:state";

pub const EV_QOS_STATE: &'static str = "qos:state";

pub const EV_GAME_DETECTED: &'static str = "game:detected";

pub const EV_GAME_STATE: &'static str = "game:state";

pub const EV_LB_STATE: &'static str = "lb:state";

pub const EV_MULTIHOP_STATE: &'static str = "multihop:state";

pub const EV_AUTOPILOT_STATE: &'static str = "autopilot:state";

pub const EV_AUTOPILOT_ACTION: &'static str = "autopilot:action";

/// A line of the log, as the user interface shows it.
#[derive(Debug, Clone)]
pub struct LogEvent<'a> {
    pub level: &'a str,
    pub source: &'a str,
    pub message: String,
}

} // verus!
