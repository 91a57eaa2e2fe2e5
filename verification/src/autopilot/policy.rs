//! Whether a switch is allowed: the pause since the last one, the gain it
//! brings, and how long it has been recommended.

use crate::scalar::Scalar;
use crate::snapshot::Health;
use vstd::prelude::*;

verus! {

/// The encoding of 0.08.
pub const GAME_MODE_MARGIN_BITS: u32 = 0x3da3_d70a;

/// The encoding of 0.20.
pub const STABLE_MARGIN_BITS: u32 = 0x3e4c_cccd;

/// The encoding of 0.12.
pub const OTHER_MARGIN_BITS: u32 = 0x3df5_c28f;

/// The encoding of 0.08.
pub const DEGRADED_MARGIN_BITS: u32 = 0x3da3_d70a;

/// The state of the autopilot.
#[derive(Debug, Clone, Copy, PartialEq, Eq, Structural)]
pub enum FsmState {
    Init,
    Stable,
    GameMode,
    Degraded,
    Recovery,
}

/// The limits that a switch has to meet.
#[derive(Debug, Clone, Copy, PartialEq, Eq, Structural)]
pub struct PolicyConfig {
    pub game_mode_cooldown_ms: u64,
    pub recovery_cooldown_ms: u64,
    pub stable_cooldown_ms: u64,
    pub degraded_cooldown_ms: u64,
    pub game_mode_margin: Scalar,
    pub stable_margin: Scalar,
    pub other_margin: Scalar,
    pub degraded_margin: Scalar,
    pub hysteresis_streak: u32,
}

impl PolicyConfig {
    /// The usual limits.
    pub open spec fn usual() -> PolicyConfig {
        PolicyConfig {
            game_mode_cooldown_ms: 2500,
            recovery_cooldown_ms: 100,
            stable_cooldown_ms: 1500,
            degraded_cooldown_ms: 800,
            game_mode_margin: Scalar { bits: GAME_MODE_MARGIN_BITS },
            stable_margin: Scalar { bits: STABLE_MARGIN_BITS },
            other_margin: Scalar { bits: OTHER_MARGIN_BITS },
            degraded_margin: Scalar { bits: DEGRADED_MARGIN_BITS },
            hysteresis_streak: 3,
        }
    }
}

impl Default for PolicyConfig {
    fn default() -> (r: PolicyConfig)
        ensures
            r == PolicyConfig::usual(),
    {
        PolicyConfig {
            game_mode_cooldown_ms: 2500,
            recovery_cooldown_ms: 100,
            stable_cooldown_ms: 1500,
            degraded_cooldown_ms: 800,
            game_mode_margin: Scalar { bits: GAME_MODE_MARGIN_BITS },
            stable_margin: Scalar { bits: STABLE_MARGIN_BITS },
            other_margin: Scalar { bits: OTHER_MARGIN_BITS },
            degraded_margin: Scalar { bits: DEGRADED_MARGIN_BITS },
            hysteresis_streak: 3,
        }
    }
}

/// Which pause between switches applies.
#[derive(Debug, Clone, Copy, PartialEq, Eq, Structural)]
pub enum CooldownClass {
    GameMode,
    Recovery,
    Stable,
    Degraded,
}

impl CooldownClass {
    /// The pause of a class.
    pub open spec fn pause(self, cfg: PolicyConfig) -> u64 {
        match self {
            CooldownClass::GameMode => cfg.game_mode_cooldown_ms,
            CooldownClass::Recovery => cfg.recovery_cooldown_ms,
            CooldownClass::Stable => cfg.stable_cooldown_ms,
            CooldownClass::Degraded => cfg.degraded_cooldown_ms,
        }
    }

    /// The pause of a class.
    pub fn duration_ms(&self, cfg: &PolicyConfig) -> (r: u64)
        ensures
            r == self.pause(*cfg),
    {
        match self {
            CooldownClass::GameMode => cfg.game_mode_cooldown_ms,
            CooldownClass::Recovery => cfg.recovery_cooldown_ms,
            CooldownClass::Stable => cfg.stable_cooldown_ms,
            CooldownClass::Degraded => cfg.degraded_cooldown_ms,
        }
    }
}

/// Whether a switch may happen.
#[derive(Debug, Clone, Copy, PartialEq, Eq, Structural)]
pub enum Verdict {
    Allow,
    Block,
}

/// A verdict with what it rests on.
#[derive(Debug, Clone, Copy, PartialEq, Eq, Structural)]
pub struct PolicyVerdict {
    pub verdict: Verdict,
    pub class: CooldownClass,
    pub improvement: Scalar,
    pub margin: Scalar,
    pub streak: u32,
    pub streak_needed: u32,
    pub elapsed_since_switch_ms: u64,
    pub cooldown_ms: u64,
}

/// The circumstances of a switch.
#[derive(Debug, Clone, Copy, PartialEq, Eq, Structural)]
pub struct PolicyContext {
    pub in_game: bool,
    pub current_health: Health,
    pub fsm_state: FsmState,
    pub improvement: Scalar,
    pub streak: u32,
    pub elapsed_since_switch_ms: u64,
}

/// The class of pause that applies.
pub open spec fn class_for(in_game: bool, health: Health, state: FsmState) -> CooldownClass {
    if in_game {
        CooldownClass::GameMode
    } else if state == FsmState::Recovery {
        CooldownClass::Recovery
    } else if health == Health::Degraded {
        CooldownClass::Degraded
    } else {
        CooldownClass::Stable
    }
}

/// The gain that a switch has to bring.
pub open spec fn margin_for(in_game: bool, health: Health, cfg: PolicyConfig) -> Scalar {
    if in_game {
        cfg.game_mode_margin
    } else {
        match health {
            Health::Good => cfg.stable_margin,
            Health::Degraded => cfg.degraded_margin,
            _ => cfg.other_margin,
        }
    }
}

/// The verdict on a switch: it is allowed where it has been recommended long
/// enough, the pause is over and the gain is reached.
pub open spec fn verdict_on(cfg: PolicyConfig, ctx: PolicyContext) -> PolicyVerdict {
    let class = class_for(ctx.in_game, ctx.current_health, ctx.fsm_state);
    let margin = margin_for(ctx.in_game, ctx.current_health, cfg);
    let allow = ctx.streak >= cfg.hysteresis_streak && ctx.elapsed_since_switch_ms >= class.pause(
        cfg,
    ) && ctx.improvement.at_least(margin);
    PolicyVerdict {
        verdict: if allow {
            Verdict::Allow
        } else {
            Verdict::Block
        },
        class,
        improvement: ctx.improvement,
        margin,
        streak: ctx.streak,
        streak_needed: cfg.hysteresis_streak,
        elapsed_since_switch_ms: ctx.elapsed_since_switch_ms,
        cooldown_ms: class.pause(cfg),
    }
}

/// Judges switches by its limits.
#[derive(Debug)]
pub struct PolicyGate {
    config: PolicyConfig,
}

impl View for PolicyGate {
    type V = PolicyConfig;

    closed spec fn view(&self) -> PolicyConfig {
        self.config
    }
}

impl PolicyGate {
    /// A gate with the usual limits.
    pub fn new() -> (r: PolicyGate)
        ensures
            r@ == PolicyConfig::usual(),
    {
        PolicyGate { config: PolicyConfig::default() }
    }

    /// A gate with given limits.
    pub fn with_config(cfg: PolicyConfig) -> (r: PolicyGate)
        ensures
            r@ == cfg,
    {
        PolicyGate { config: cfg }
    }

    /// The limits.
    pub fn config(&self) -> (r: PolicyConfig)
        ensures
            r == self@,
    {
        self.config
    }

    /// Sets the limits.
    pub fn set_config(&mut self, cfg: PolicyConfig)
        ensures
            final(self)@ == cfg,
    {
        self.config = cfg;
    }

    /// The class of pause that applies.
    pub fn cooldown_class(&self, in_game: bool, current_health: Health, fsm_state: FsmState) -> (r:
        CooldownClass)
        ensures
            r == class_for(in_game, current_health, fsm_state),
    {
        if in_game {
            return CooldownClass::GameMode;
        }
        if fsm_state == FsmState::Recovery {
            return CooldownClass::Recovery;
        }
        match current_health {
            Health::Degraded => CooldownClass::Degraded,
            _ => CooldownClass::Stable,
        }
    }

    /// The gain that a switch has to bring.
    pub fn margin(&self, in_game: bool, current_health: Health, cfg: &PolicyConfig) -> (r: Scalar)
        ensures
            r == margin_for(in_game, current_health, *cfg),
    {
        if in_game {
            return cfg.game_mode_margin;
        }
        match current_health {
            Health::Good => cfg.stable_margin,
            Health::Degraded => cfg.degraded_margin,
            _ => cfg.other_margin,
        }
    }

    /// The verdict on a switch.
    pub fn evaluate(&self, ctx: &PolicyContext) -> (r: PolicyVerdict)
        ensures
            r == verdict_on(self@, *ctx),
    {
        let cfg = self.config;
        let class = self.cooldown_class(ctx.in_game, ctx.current_health, ctx.fsm_state);
        let cooldown: u64 = class.duration_ms(&cfg);
        let margin = self.margin(ctx.in_game, ctx.current_health, &cfg);
        let streak_ok = ctx.streak >= cfg.hysteresis_streak;
        let cooldown_ok = ctx.elapsed_since_switch_ms >= cooldown;
        let margin_ok = ctx.improvement.ge(&margin);
        PolicyVerdict {
            verdict: if streak_ok && cooldown_ok && margin_ok {
                Verdict::Allow
            } else {
                Verdict::Block
            },
            class,
            improvement: ctx.improvement,
            margin,
            streak: ctx.streak,
            streak_needed: cfg.hysteresis_streak,
            elapsed_since_switch_ms: ctx.elapsed_since_switch_ms,
            cooldown_ms: cooldown,
        }
    }
}

/// Patience never hurts: what is allowed stays allowed with a longer streak and
/// more time since the last switch.
pub proof fn law_verdict_is_monotonic(cfg: PolicyConfig, a: PolicyContext, b: PolicyContext)
    requires
        verdict_on(cfg, a).verdict == Verdict::Allow,
        b.in_game == a.in_game,
        b.current_health == a.current_health,
        b.fsm_state == a.fsm_state,
        b.improvement == a.improvement,
        b.streak >= a.streak,
        b.elapsed_since_switch_ms >= a.elapsed_since_switch_ms,
    ensures
        verdict_on(cfg, b).verdict == Verdict::Allow,
{
}

/// What a switch has to meet: in a game the limits of the game, whatever else
/// holds; else the pause of the recovery while that lasts, and otherwise the limits
/// that go with the state of the route in use. It is allowed exactly where it was
/// recommended often enough in a row, the pause is over, and the gain is no less
/// than the margin.
pub proof fn law_limits_of_a_switch(cfg: PolicyConfig, ctx: PolicyContext)
    ensures
        ({
            let v = verdict_on(cfg, ctx);
            let pause = if ctx.in_game {
                cfg.game_mode_cooldown_ms
            } else if ctx.fsm_state == FsmState::Recovery {
                cfg.recovery_cooldown_ms
            } else if ctx.current_health == Health::Degraded {
                cfg.degraded_cooldown_ms
            } else {
                cfg.stable_cooldown_ms
            };
            let margin = if ctx.in_game {
                cfg.game_mode_margin
            } else if ctx.current_health == Health::Good {
                cfg.stable_margin
            } else if ctx.current_health == Health::Degraded {
                cfg.degraded_margin
            } else {
                cfg.other_margin
            };
            &&& v.verdict == Verdict::Allow <==> {
                &&& ctx.streak >= cfg.hysteresis_streak
                &&& ctx.elapsed_since_switch_ms >= pause
                &&& !ctx.improvement.nan() && !margin.nan()
                &&& ctx.improvement.value() >= margin.value()
            }
            &&& v.margin == margin
            &&& v.cooldown_ms == pause
            &&& v.improvement == ctx.improvement
            &&& v.streak == ctx.streak
            &&& v.streak_needed == cfg.hysteresis_streak
            &&& v.elapsed_since_switch_ms == ctx.elapsed_since_switch_ms
            &&& v.class == CooldownClass::GameMode <==> ctx.in_game
            &&& v.class == CooldownClass::Recovery <==> !ctx.in_game && ctx.fsm_state
                == FsmState::Recovery
            &&& v.class == CooldownClass::Degraded <==> !ctx.in_game && ctx.fsm_state
                != FsmState::Recovery && ctx.current_health == Health::Degraded
        }),
{
}

/// With the usual limits a route in a game is left after 2.5 s at the earliest and
/// for a gain of 0.08; a good one after 1.5 s and for 0.2, a degraded one after
/// 0.8 s and for 0.08, any other after 1.5 s and for 0.12; and always after three
/// recommendations in a row.
pub proof fn law_usual_limits(ctx: PolicyContext)
    ensures
        ({
            let v = verdict_on(PolicyConfig::usual(), ctx);
            let calm = !ctx.in_game && ctx.fsm_state != FsmState::Recovery;
            &&& v.streak_needed == 3
            &&& ctx.in_game ==> v.cooldown_ms == 2500 && v.margin.bits == 0x3da3_d70a
            &&& !ctx.in_game && ctx.fsm_state == FsmState::Recovery ==> v.cooldown_ms == 100
            &&& calm && ctx.current_health == Health::Degraded ==> v.cooldown_ms == 800
            &&& calm && ctx.current_health != Health::Degraded ==> v.cooldown_ms == 1500
            &&& !ctx.in_game ==> v.margin.bits == match ctx.current_health {
                Health::Good => 0x3e4c_cccdu32,
                Health::Degraded => 0x3da3_d70au32,
                _ => 0x3df5_c28fu32,
            }
        }),
{
}

} // verus!
