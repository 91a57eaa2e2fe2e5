//! The health of every route at one moment.
//!
//! The engine reads the figures of its targets, scores them and sorts them into
//! health classes. A class changes only after several readings in a row, so that
//! a single bad reading does not show. A target without a class takes the first
//! one it is given.

use crate::arith::{dependable, product, product_of, sum, sum_of, Op};
use crate::metrics::{AggregatedMetrics, AggregatedView, MetricsStore, StoreView};
use crate::name_map::{lists, NameMap};
use crate::scalar::{Scalar, INFINITY_BITS, ZERO_BITS};
use crate::text::{
    lemma_text_less_irreflexive, opt_text, same_opt_text, same_text, text_less, texts,
};
use vstd::prelude::*;

verus! {

/// How many readings in a row it takes to change a health class.
pub const HEALTH_HYSTERESIS_STREAK: u32 = 3;

/// The encoding of 0.10.
pub const LOSS_BAD_BITS: u32 = 0x3dcc_cccd;

/// The encoding of 0.03.
pub const LOSS_DEGRADED_BITS: u32 = 0x3cf5_c28f;

/// The encoding of 200.0.
pub const RTT_BAD_MS_BITS: u32 = 0x4348_0000;

/// The encoding of 120.0.
pub const RTT_DEGRADED_MS_BITS: u32 = 0x42f0_0000;

/// The encoding of 30.0.
pub const JITTER_DEGRADED_MS_BITS: u32 = 0x41f0_0000;

/// The encoding of 2.0, by which jitter counts in a score.
pub const JITTER_FACTOR_BITS: u32 = 0x4000_0000;

/// The encoding of 1000.0, by which loss counts in a score.
pub const LOSS_FACTOR_BITS: u32 = 0x447a_0000;

/// The shortest interval between two readings.
pub const MIN_INTERVAL_MS: u64 = 100;

/// The longest interval between two readings.
pub const MAX_INTERVAL_MS: u64 = 250;

/// The interval between two readings unless told otherwise.
pub const DEFAULT_INTERVAL_MS: u64 = 150;

/// The health class of a route.
#[derive(Debug, Clone, Copy, PartialEq, Eq, Structural)]
pub enum Health {
    Unknown,
    Good,
    Degraded,
    Bad,
}

/// One route at one moment.
#[derive(Debug, Clone)]
pub struct RouteSnapshot {
    pub route_id: String,
    pub score: Scalar,
    pub health: Health,
    pub latest_rtt_ms: Option<Scalar>,
    pub avg_rtt_ms: Option<Scalar>,
    pub jitter_ms: Scalar,
    pub loss_ratio: Scalar,
    pub stability: Scalar,
    pub samples: usize,
}

/// What a `RouteSnapshot` holds.
#[verifier::ext_equal]
pub struct RouteView {
    pub route_id: Seq<char>,
    pub score: Scalar,
    pub health: Health,
    pub latest_rtt_ms: Option<Scalar>,
    pub avg_rtt_ms: Option<Scalar>,
    pub jitter_ms: Scalar,
    pub loss_ratio: Scalar,
    pub stability: Scalar,
    pub samples: int,
}

impl View for RouteSnapshot {
    type V = RouteView;

    open spec fn view(&self) -> RouteView {
        RouteView {
            route_id: self.route_id@,
            score: self.score,
            health: self.health,
            latest_rtt_ms: self.latest_rtt_ms,
            avg_rtt_ms: self.avg_rtt_ms,
            jitter_ms: self.jitter_ms,
            loss_ratio: self.loss_ratio,
            stability: self.stability,
            samples: self.samples as int,
        }
    }
}

impl RouteSnapshot {
    fn copy(&self) -> (r: RouteSnapshot)
        ensures
            r@ == self@,
    {
        RouteSnapshot {
            route_id: self.route_id.clone(),
            score: self.score,
            health: self.health,
            latest_rtt_ms: self.latest_rtt_ms,
            avg_rtt_ms: self.avg_rtt_ms,
            jitter_ms: self.jitter_ms,
            loss_ratio: self.loss_ratio,
            stability: self.stability,
            samples: self.samples,
        }
    }
}

/// All routes at one moment.
#[derive(Debug, Clone)]
pub struct Snapshot {
    pub routes: Vec<RouteSnapshot>,
    pub selected: Option<String>,
    pub timestamp_ms: i64,
}

/// What a `Snapshot` holds.
#[verifier::ext_equal]
pub struct SnapshotView {
    pub routes: Seq<RouteView>,
    pub selected: Option<Seq<char>>,
    pub timestamp_ms: i64,
}

/// What a list of routes holds.
pub open spec fn route_views(routes: Seq<RouteSnapshot>) -> Seq<RouteView> {
    Seq::new(routes.len(), |i: int| routes[i]@)
}

impl View for Snapshot {
    type V = SnapshotView;

    open spec fn view(&self) -> SnapshotView {
        SnapshotView {
            routes: route_views(self.routes@),
            selected: opt_text(self.selected),
            timestamp_ms: self.timestamp_ms,
        }
    }
}

/// The first route with an id.
pub open spec fn first_route(routes: Seq<RouteView>, id: Seq<char>) -> Option<RouteView>
    decreases routes.len(),
{
    if routes.len() == 0 {
        None
    } else {
        match first_route(routes.drop_last(), id) {
            Some(r) => Some(r),
            None => if routes.last().route_id == id {
                Some(routes.last())
            } else {
                None
            },
        }
    }
}

/// The routes that can carry traffic, with their scores.
pub open spec fn healthy_routes(routes: Seq<RouteView>) -> Seq<(Seq<char>, Scalar)>
    decreases routes.len(),
{
    if routes.len() == 0 {
        seq![]
    } else {
        let r = routes.last();
        if r.health == Health::Good || r.health == Health::Degraded {
            healthy_routes(routes.drop_last()).push((r.route_id, r.score))
        } else {
            healthy_routes(routes.drop_last())
        }
    }
}

impl SnapshotView {
    /// The health of a route; unknown for one that is not there.
    pub open spec fn health_of(self, id: Seq<char>) -> Health {
        match first_route(self.routes, id) {
            Some(r) => r.health,
            None => Health::Unknown,
        }
    }

    /// The ids of the routes.
    pub open spec fn ids(self) -> Seq<Seq<char>> {
        Seq::new(self.routes.len(), |i: int| self.routes[i].route_id)
    }
}

/// Where the first route with an id is found, if anywhere.
pub proof fn lemma_first_route(routes: Seq<RouteView>, id: Seq<char>, i: int)
    requires
        0 <= i <= routes.len(),
        forall|j: int| 0 <= j < i ==> (#[trigger] routes[j]).route_id != id,
        i < routes.len() ==> routes[i].route_id == id,
    ensures
        first_route(routes, id) == if i < routes.len() {
            Some(routes[i])
        } else {
            None
        },
    decreases routes.len(),
{
    if routes.len() > 0 {
        let rest = routes.drop_last();
        if i < routes.len() {
            if i < rest.len() {
                lemma_first_route(rest, id, i);
            } else {
                lemma_first_route(rest, id, rest.len() as int);
            }
        } else {
            lemma_first_route(rest, id, rest.len() as int);
            assert(routes[routes.len() - 1].route_id != id);
        }
    }
}

/// What a list of pairs holds.
pub open spec fn pair_views(list: Seq<(String, Scalar)>) -> Seq<(Seq<char>, Scalar)> {
    Seq::new(list.len(), |i: int| (list[i].0@, list[i].1))
}

/// What an optional route holds.
pub open spec fn opt_route(r: Option<&RouteSnapshot>) -> Option<RouteView> {
    match r {
        Some(x) => Some(x@),
        None => None,
    }
}

impl Snapshot {
    /// The first route with an id.
    pub fn route(&self, id: &str) -> (r: Option<&RouteSnapshot>)
        ensures
            opt_route(r) == first_route(self@.routes, id@),
    {
        let ghost v = self@.routes;
        let mut i: usize = 0;
        while i < self.routes.len()
            invariant
                i <= self.routes@.len() == v.len(),
                v == self@.routes,
                forall|j: int| 0 <= j < i ==> (#[trigger] v[j]).route_id != id@,
            decreases self.routes@.len() - i,
        {
            assert(v[i as int] == self.routes@[i as int]@);
            if same_text(self.routes[i].route_id.as_str(), id) {
                proof {
                    lemma_first_route(v, id@, i as int);
                }
                return Some(&self.routes[i]);
            }
            i = i + 1;
        }
        proof {
            lemma_first_route(v, id@, i as int);
        }
        None
    }

    /// The health of a route; unknown for one that is not there.
    pub fn health_of(&self, id: &str) -> (r: Health)
        ensures
            r == self@.health_of(id@),
    {
        match self.route(id) {
            Some(x) => x.health,
            None => Health::Unknown,
        }
    }

    /// The routes that can carry traffic, with their scores.
    pub fn healthy(&self) -> (r: Vec<(String, Scalar)>)
        ensures
            pair_views(r@) == healthy_routes(self@.routes),
    {
        let ghost v = self@.routes;
        let mut out: Vec<(String, Scalar)> = Vec::new();
        let mut i: usize = 0;
        assert(v.take(0) =~= Seq::<RouteView>::empty());
        assert(pair_views(out@) =~= healthy_routes(v.take(0)));
        while i < self.routes.len()
            invariant
                i <= self.routes@.len() == v.len(),
                v == self@.routes,
                pair_views(out@) == healthy_routes(v.take(i as int)),
            decreases self.routes@.len() - i,
        {
            let r = &self.routes[i];
            assert(v.take(i as int + 1).drop_last() =~= v.take(i as int));
            assert(v.take(i as int + 1).last() == r@);
            if r.health == Health::Good || r.health == Health::Degraded {
                let ghost before = out@;
                out.push((r.route_id.clone(), r.score));
                assert(pair_views(out@) =~= pair_views(before).push((r@.route_id, r@.score)));
            }
            i = i + 1;
        }
        assert(v.take(i as int) =~= v);
        out
    }

    fn copy(&self) -> (r: Snapshot)
        ensures
            r@ == self@,
    {
        let mut routes: Vec<RouteSnapshot> = Vec::new();
        let mut i: usize = 0;
        while i < self.routes.len()
            invariant
                i <= self.routes@.len(),
                routes@.len() == i,
                forall|j: int| 0 <= j < i ==> (#[trigger] routes@[j])@ == self.routes@[j]@,
            decreases self.routes@.len() - i,
        {
            routes.push(self.routes[i].copy());
            i = i + 1;
        }
        let r = Snapshot {
            routes,
            selected: self.selected.clone(),
            timestamp_ms: self.timestamp_ms,
        };
        assert(r@.routes =~= self@.routes);
        r
    }
}

/// The score of a target by a round-trip time, the lower the better: that time,
/// twice the jitter and a thousandfold the loss. Without a time it is infinite.
pub open spec fn score_by<F: Fn(Op) -> Scalar>(
    unit: F,
    rtt: Option<Scalar>,
    agg: AggregatedView,
) -> Scalar {
    let rtt = match rtt {
        Some(t) => t,
        None => Scalar { bits: INFINITY_BITS },
    };
    sum_of(
        unit,
        sum_of(unit, rtt, product_of(unit, agg.jitter_ms, Scalar { bits: JITTER_FACTOR_BITS })),
        product_of(unit, agg.loss_ratio, Scalar { bits: LOSS_FACTOR_BITS }),
    )
}

/// The score of a target over its window: by its mean round-trip time.
pub open spec fn score_of<F: Fn(Op) -> Scalar>(unit: F, agg: AggregatedView) -> Scalar {
    score_by(unit, agg.avg_rtt_ms, agg)
}

/// The round-trip time that counts at this moment: the mean or, for a target that
/// has become faster, the latest one.
pub open spec fn counting_rtt(agg: AggregatedView) -> Option<Scalar> {
    match (agg.avg_rtt_ms, agg.latest_rtt_ms) {
        (Some(mean), Some(latest)) => if latest.less(mean) {
            Some(latest)
        } else {
            Some(mean)
        },
        _ => agg.avg_rtt_ms,
    }
}

fn rate<F: Fn(Op) -> Scalar>(unit: &F, rtt: Option<Scalar>, agg: &AggregatedMetrics) -> (r: Scalar)
    requires
        dependable(*unit),
    ensures
        r == score_by(*unit, rtt, agg@),
{
    let rtt = match rtt {
        Some(t) => t,
        None => Scalar { bits: INFINITY_BITS },
    };
    let with_jitter = sum(
        unit,
        rtt,
        product(unit, agg.jitter_ms, Scalar { bits: JITTER_FACTOR_BITS }),
    );
    sum(
        unit,
        with_jitter,
        product(unit, agg.loss_ratio, Scalar { bits: LOSS_FACTOR_BITS }),
    )
}

/// The score of a target over its window, the lower the better.
pub fn compute_score<F: Fn(Op) -> Scalar>(unit: &F, agg: &AggregatedMetrics) -> (r: Scalar)
    requires
        dependable(*unit),
    ensures
        r == score_of(*unit, agg@),
{
    rate(unit, agg.avg_rtt_ms, agg)
}

fn counting(agg: &AggregatedMetrics) -> (r: Option<Scalar>)
    ensures
        r == counting_rtt(agg@),
{
    match (agg.avg_rtt_ms, agg.latest_rtt_ms) {
        (Some(mean), Some(latest)) => if latest.lt(&mean) {
            Some(latest)
        } else {
            Some(mean)
        },
        _ => agg.avg_rtt_ms,
    }
}

/// The health class that the figures of a target give.
pub open spec fn health_from(agg: AggregatedView) -> Health {
    let slow = |limit: u32|
        agg.avg_rtt_ms is Some && (Scalar { bits: limit }).less(agg.avg_rtt_ms->0);
    if agg.samples == 0 {
        Health::Unknown
    } else if (Scalar { bits: LOSS_BAD_BITS }).less(agg.loss_ratio) || agg.avg_rtt_ms is None
        || slow(RTT_BAD_MS_BITS) {
        Health::Bad
    } else if (Scalar { bits: LOSS_DEGRADED_BITS }).less(agg.loss_ratio) || slow(
        RTT_DEGRADED_MS_BITS,
    ) || (Scalar { bits: JITTER_DEGRADED_MS_BITS }).less(agg.jitter_ms) {
        Health::Degraded
    } else {
        Health::Good
    }
}

fn above(x: Scalar, limit: u32) -> (r: bool)
    ensures
        r == (Scalar { bits: limit }).less(x),
{
    x.gt(&Scalar { bits: limit })
}

/// The health class that the figures of a target give.
pub fn derive_health(agg: &AggregatedMetrics) -> (r: Health)
    ensures
        r == health_from(agg@),
{
    if agg.samples == 0 {
        return Health::Unknown;
    }
    let rtt_bad = match agg.avg_rtt_ms {
        Some(t) => above(t, RTT_BAD_MS_BITS),
        None => true,
    };
    if above(agg.loss_ratio, LOSS_BAD_BITS) || rtt_bad {
        return Health::Bad;
    }
    let rtt_degraded = match agg.avg_rtt_ms {
        Some(t) => above(t, RTT_DEGRADED_MS_BITS),
        None => false,
    };
    if above(agg.loss_ratio, LOSS_DEGRADED_BITS) || rtt_degraded || above(
        agg.jitter_ms,
        JITTER_DEGRADED_MS_BITS,
    ) {
        return Health::Degraded;
    }
    Health::Good
}

/// The class of a target, and how many readings in a row have disagreed with it.
#[derive(Debug, Clone, Copy, PartialEq, Eq, Structural)]
pub struct TrackedTarget {
    pub health: Health,
    pub streak: u32,
}

impl View for TrackedTarget {
    type V = TrackedTarget;

    open spec fn view(&self) -> TrackedTarget {
        *self
    }
}

/// A target before its first reading.
pub open spec fn untracked() -> TrackedTarget {
    TrackedTarget { health: Health::Unknown, streak: 0 }
}

/// The class of a target after one more reading: an unknown class gives way at
/// once, any other only to the last of enough readings in a row.
pub open spec fn settled(prev: TrackedTarget, now: Health) -> TrackedTarget {
    if prev.health == now || prev.health == Health::Unknown {
        TrackedTarget { health: now, streak: 0 }
    } else if prev.streak + 1 >= HEALTH_HYSTERESIS_STREAK {
        TrackedTarget { health: now, streak: 0 }
    } else {
        TrackedTarget { health: prev.health, streak: (prev.streak + 1) as u32 }
    }
}

/// The class of a target after one more reading.
pub fn settle(prev: TrackedTarget, now: Health) -> (r: TrackedTarget)
    ensures
        r == settled(prev, now),
{
    if prev.health == now || prev.health == Health::Unknown {
        TrackedTarget { health: now, streak: 0 }
    } else if prev.streak >= HEALTH_HYSTERESIS_STREAK - 1 {
        TrackedTarget { health: now, streak: 0 }
    } else {
        TrackedTarget { health: prev.health, streak: prev.streak + 1 }
    }
}

/// What the figures of a target say at this moment, apart from its past.
pub open spec fn reading<F: Fn(Op) -> Scalar>(unit: F, store: StoreView, id: Seq<char>) -> Health {
    match store.figures(unit, id) {
        Some(a) => health_from(a),
        None => Health::Unknown,
    }
}

/// A route with its settled class.
pub open spec fn route_now<F: Fn(Op) -> Scalar>(
    unit: F,
    store: StoreView,
    id: Seq<char>,
    health: Health,
) -> RouteView {
    match store.figures(unit, id) {
        Some(a) => RouteView {
            route_id: id,
            score: score_by(unit, counting_rtt(a), a),
            health,
            latest_rtt_ms: a.latest_rtt_ms,
            avg_rtt_ms: a.avg_rtt_ms,
            jitter_ms: a.jitter_ms,
            loss_ratio: a.loss_ratio,
            stability: a.stability,
            samples: a.samples,
        },
        None => RouteView {
            route_id: id,
            score: Scalar { bits: INFINITY_BITS },
            health,
            latest_rtt_ms: None,
            avg_rtt_ms: None,
            jitter_ms: Scalar::zero_value(),
            loss_ratio: Scalar::zero_value(),
            stability: Scalar::zero_value(),
            samples: 0,
        },
    }
}

/// The classes of all targets after one more reading.
pub open spec fn classes_now<F: Fn(Op) -> Scalar>(
    unit: F,
    store: StoreView,
    targets: Map<Seq<char>, TrackedTarget>,
) -> Map<Seq<char>, TrackedTarget> {
    Map::new(
        |id: Seq<char>| targets.dom().contains(id),
        |id: Seq<char>| settled(targets[id], reading(unit, store, id)),
    )
}

/// Whether routes are those of a set of targets, in dictionary order, each with
/// its settled class.
pub open spec fn routes_now<F: Fn(Op) -> Scalar>(
    unit: F,
    store: StoreView,
    classes: Map<Seq<char>, TrackedTarget>,
    snap: SnapshotView,
) -> bool {
    &&& lists(snap.ids(), classes.dom())
    &&& forall|i: int|
        0 <= i < snap.routes.len() ==> (#[trigger] snap.routes[i]) == route_now(
            unit,
            store,
            snap.routes[i].route_id,
            classes[snap.routes[i].route_id].health,
        )
}

/// Reads the figures of its targets and keeps the latest snapshot.
#[derive(Debug)]
pub struct RouteSnapshotEngine {
    targets: NameMap<TrackedTarget>,
    selected: Option<String>,
    last_emitted_selected: Option<String>,
    current: Snapshot,
    interval_ms: u64,
}

/// What an engine holds.
#[verifier::ext_equal]
pub struct EngineView {
    pub targets: Map<Seq<char>, TrackedTarget>,
    pub selected: Option<Seq<char>>,
    pub last_emitted_selected: Option<Seq<char>>,
    pub current: SnapshotView,
    pub interval_ms: u64,
}

impl View for RouteSnapshotEngine {
    type V = EngineView;

    closed spec fn view(&self) -> EngineView {
        EngineView {
            targets: self.targets@,
            selected: opt_text(self.selected),
            last_emitted_selected: opt_text(self.last_emitted_selected),
            current: self.current@,
            interval_ms: self.interval_ms,
        }
    }
}

/// The targets after a new list of them: those that stay keep their class, new
/// ones have none.
pub open spec fn retargeted(
    targets: Map<Seq<char>, TrackedTarget>,
    ids: Seq<Seq<char>>,
) -> Map<Seq<char>, TrackedTarget> {
    Map::new(
        |id: Seq<char>| ids.contains(id),
        |id: Seq<char>|
            if targets.dom().contains(id) {
                targets[id]
            } else {
                untracked()
            },
    )
}

/// An interval in milliseconds, held to what lies between the bounds.
pub open spec fn held_interval(ms: u64) -> u64 {
    if ms < MIN_INTERVAL_MS {
        MIN_INTERVAL_MS
    } else if ms > MAX_INTERVAL_MS {
        MAX_INTERVAL_MS
    } else {
        ms
    }
}

impl RouteSnapshotEngine {
    /// An engine without targets.
    pub fn new(timestamp_ms: i64) -> (r: RouteSnapshotEngine)
        ensures
            r@ == (EngineView {
                targets: Map::empty(),
                selected: None,
                last_emitted_selected: None,
                current: SnapshotView { routes: seq![], selected: None, timestamp_ms },
                interval_ms: DEFAULT_INTERVAL_MS,
            }),
    {
        let r = RouteSnapshotEngine {
            targets: NameMap::new(),
            selected: None,
            last_emitted_selected: None,
            current: Snapshot { routes: Vec::new(), selected: None, timestamp_ms },
            interval_ms: DEFAULT_INTERVAL_MS,
        };
        assert(r@.current.routes =~= Seq::<RouteView>::empty());
        r
    }

    /// Sets the interval between two readings, held to what is allowed.
    pub fn set_interval_ms(&mut self, ms: u64)
        ensures
            final(self)@ == (EngineView {
                interval_ms: held_interval(ms),
                ..old(self)@
            }),
    {
        self.interval_ms = if ms < MIN_INTERVAL_MS {
            MIN_INTERVAL_MS
        } else if ms > MAX_INTERVAL_MS {
            MAX_INTERVAL_MS
        } else {
            ms
        };
    }

    /// The interval between two readings.
    pub fn interval_ms(&self) -> (r: u64)
        ensures
            r == self@.interval_ms,
    {
        self.interval_ms
    }

    /// Sets the targets: those that stay keep their class, new ones have none.
    pub fn set_targets(&mut self, ids: Vec<String>)
        ensures
            final(self)@ == (EngineView {
                targets: retargeted(old(self)@.targets, texts(ids@)),
                ..old(self)@
            }),
    {
        let ghost all = texts(ids@);
        let ghost before = self@.targets;
        self.targets.retain(&ids);
        let mut i: usize = 0;
        while i < ids.len()
            invariant
                i <= ids@.len(),
                all == texts(ids@),
                before == old(self)@.targets,
                self@ == (EngineView { targets: self@.targets, ..old(self)@ }),
                forall|id: Seq<char>|
                    #![trigger self@.targets.dom().contains(id)]
                    self@.targets.dom().contains(id) ==> all.contains(id) && self@.targets[id]
                        == retargeted(before, all)[id],
                forall|id: Seq<char>|
                    #![trigger self@.targets.dom().contains(id)]
                    before.dom().contains(id) && all.contains(id)
                        ==> self@.targets.dom().contains(id),
                forall|j: int| 0 <= j < i ==> self@.targets.dom().contains(#[trigger] all[j]),
            decreases ids@.len() - i,
        {
            assert(all[i as int] == ids@[i as int]@);
            if !self.targets.contains(ids[i].as_str()) {
                let fresh = TrackedTarget { health: Health::Unknown, streak: 0 };
                self.targets.insert(ids[i].clone(), fresh);
            }
            i = i + 1;
        }
        assert(self@.targets =~= retargeted(before, all));
    }

    /// Marks a route as the one in use, in the latest snapshot and in those to
    /// come.
    pub fn set_selected(&mut self, id: Option<String>)
        ensures
            final(self)@ == (EngineView {
                selected: opt_text(id),
                current: SnapshotView { selected: opt_text(id), ..old(self)@.current },
                ..old(self)@
            }),
    {
        self.current.selected = id.clone();
        self.selected = id;
    }

    /// The latest snapshot.
    pub fn current(&self) -> (r: &Snapshot)
        ensures
            r@ == self@.current,
    {
        &self.current
    }

    fn compute_snapshot<F: Fn(Op) -> Scalar>(
        &mut self,
        unit: &F,
        metrics: &MetricsStore,
        timestamp_ms: i64,
    ) -> (r: Snapshot)
        requires
            dependable(*unit),
        ensures
            final(self)@ == (EngineView {
                targets: classes_now(*unit, metrics@, old(self)@.targets),
                ..old(self)@
            }),
            routes_now(*unit, metrics@, final(self)@.targets, r@),
            r@.selected == old(self)@.selected,
            r@.timestamp_ms == timestamp_ms,
    {
        let ghost before = self@.targets;
        let n = self.targets.len();
        let mut ids: Vec<String> = Vec::new();
        let mut k: usize = 0;
        while k < n
            invariant
                k <= n == self.targets.names().len(),
                ids@.len() == k,
                forall|j: int| 0 <= j < k ==> (#[trigger] ids@[j])@ == self.targets.names()[j],
            decreases n - k,
        {
            ids.push(self.targets.name_at(k).clone());
            k = k + 1;
        }
        let ghost all = texts(ids@);
        assert(all =~= self.targets.names());
        let ghost target = classes_now(*unit, metrics@, before);
        let mut routes: Vec<RouteSnapshot> = Vec::new();
        let mut i: usize = 0;
        while i < ids.len()
            invariant
                dependable(*unit),
                i <= ids@.len(),
                all == texts(ids@),
                lists(all, before.dom()),
                before == old(self)@.targets,
                target == classes_now(*unit, metrics@, before),
                self@ == (EngineView { targets: self@.targets, ..old(self)@ }),
                self@.targets.dom() == before.dom(),
                forall|j: int| 0 <= j < i ==> self@.targets[#[trigger] all[j]] == target[all[j]],
                forall|j: int|
                    i <= j < all.len() ==> self@.targets[#[trigger] all[j]] == before[all[j]],
                routes@.len() == i,
                forall|j: int|
                    0 <= j < i ==> (#[trigger] routes@[j])@ == route_now(
                        *unit,
                        metrics@,
                        all[j],
                        target[all[j]].health,
                    ),
            decreases ids@.len() - i,
        {
            let ghost id = ids@[i as int]@;
            assert(all[i as int] == id);
            assert(all.contains(id));
            let agg = metrics.aggregated(unit, ids[i].as_str());
            let now = match &agg {
                Some(a) => derive_health(a),
                None => Health::Unknown,
            };
            let prev = match self.targets.get(ids[i].as_str()) {
                Some(t) => *t,
                None => TrackedTarget { health: Health::Unknown, streak: 0 },
            };
            let class = settle(prev, now);
            self.targets.insert(ids[i].clone(), class);
            assert(self@.targets.dom() =~= before.dom());
            assert forall|j: int| 0 <= j < all.len() && j != i implies #[trigger] all[j]
                != id by {
                lemma_text_less_irreflexive(id);
                if j < i {
                    assert(text_less(all[j], all[i as int]));
                } else {
                    assert(text_less(all[i as int], all[j]));
                }
            }
            let route = match agg {
                Some(a) => RouteSnapshot {
                    route_id: ids[i].clone(),
                    score: rate(unit, counting(&a), &a),
                    health: class.health,
                    latest_rtt_ms: a.latest_rtt_ms,
                    avg_rtt_ms: a.avg_rtt_ms,
                    jitter_ms: a.jitter_ms,
                    loss_ratio: a.loss_ratio,
                    stability: a.stability,
                    samples: a.samples,
                },
                None => RouteSnapshot {
                    route_id: ids[i].clone(),
                    score: Scalar { bits: INFINITY_BITS },
                    health: class.health,
                    latest_rtt_ms: None,
                    avg_rtt_ms: None,
                    jitter_ms: Scalar { bits: ZERO_BITS },
                    loss_ratio: Scalar { bits: ZERO_BITS },
                    stability: Scalar { bits: ZERO_BITS },
                    samples: 0,
                },
            };
            routes.push(route);
            i = i + 1;
        }
        let r = Snapshot { routes, selected: self.selected.clone(), timestamp_ms };
        proof {
            assert(r@.ids() =~= all);
            assert forall|id: Seq<char>| self@.targets.dom().contains(id) implies
                #[trigger] self@.targets[id] == target[id] by {
                assert(all.contains(id));
                let j = all.index_of(id);
                assert(all[j] == id);
            }
            assert(self@.targets =~= target);
        }
        r
    }

    /// Takes one more reading and publishes the snapshot.
    pub fn refresh_now<F: Fn(Op) -> Scalar>(
        &mut self,
        unit: &F,
        metrics: &MetricsStore,
        timestamp_ms: i64,
    ) -> (r: Snapshot)
        requires
            dependable(*unit),
        ensures
            final(self)@ == (EngineView {
                targets: classes_now(*unit, metrics@, old(self)@.targets),
                current: r@,
                ..old(self)@
            }),
            routes_now(*unit, metrics@, final(self)@.targets, r@),
            r@.selected == old(self)@.selected,
            r@.timestamp_ms == timestamp_ms,
    {
        let snap = self.compute_snapshot(unit, metrics, timestamp_ms);
        self.current = snap.copy();
        snap
    }

    /// Whether the route in use differs from the one last announced; if so, it
    /// counts as announced from now on.
    pub fn announce(&mut self, snap: &Snapshot) -> (r: bool)
        ensures
            r == (snap@.selected != old(self)@.last_emitted_selected),
            final(self)@ == (EngineView { last_emitted_selected: snap@.selected, ..old(self)@ }),
    {
        if same_opt_text(&self.last_emitted_selected, &snap.selected) {
            false
        } else {
            self.last_emitted_selected = snap.selected.clone();
            true
        }
    }
}

// ---------------------------------------------------------------------------
// Laws
// ---------------------------------------------------------------------------

/// The class of a target after readings that all give the same.
pub open spec fn settled_after(prev: TrackedTarget, now: Health, readings: nat) -> TrackedTarget
    decreases readings,
{
    if readings == 0 {
        prev
    } else {
        settled(settled_after(prev, now, (readings - 1) as nat), now)
    }
}

/// A flicker does not show: a settled class outlives fewer readings in a row than
/// it takes to change it, and gives way to that many.
pub proof fn law_hysteresis(prev: TrackedTarget, now: Health)
    requires
        prev.health != Health::Unknown,
        prev.health != now,
        prev.streak == 0,
    ensures
        settled_after(prev, now, 1).health == prev.health,
        settled_after(prev, now, 2).health == prev.health,
        settled_after(prev, now, HEALTH_HYSTERESIS_STREAK as nat).health == now,
{
    reveal_with_fuel(settled_after, 4);
}

/// A target without a class takes the first one it is given.
pub proof fn law_first_reading_counts(now: Health)
    ensures
        settled(untracked(), now).health == now,
{
}

/// A reading that agrees with the class sets the count back.
pub proof fn law_agreement_resets(prev: TrackedTarget)
    ensures
        settled(prev, prev.health) == (TrackedTarget { health: prev.health, streak: 0 }),
{
}

} // verus!
