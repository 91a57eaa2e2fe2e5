//! One place to change the endpoints for all that depends on them.

use crate::address::{IpAddr, SocketAddr, SocketAddrV4, SocketAddrV6};
use crate::arith::{dependable, Op};
use crate::monitor::{
    law_windows_follow_targets, retargeted_store, target_ids, target_views, MonitorService,
    MonitorTarget, ServiceView, TargetView,
};
use crate::name_map::lists;
use crate::net_probe::plain_socket;
use crate::profiles::{default_weight, endpoint_views, EndpointSpec, EndpointView};
use crate::routes::{
    candidates_of, evaluates, lists_candidates, ManagerView, RouteEvaluation, RouteManager,
    RouteState,
};
use crate::scalar::{Scalar, ONE_BITS};
use crate::snapshot::{
    classes_now, retargeted, routes_now, EngineView, RouteSnapshotEngine, Snapshot, SnapshotView,
};
use crate::text::{opt_text, texts};
use vstd::prelude::*;

verus! {

/// The size and the rules of the registry.
#[derive(Debug, Clone)]
pub struct RegistryState {
    pub endpoint_count: usize,
    pub cooldown_ms: u64,
    pub switch_margin: Scalar,
}

/// Holds what depends on the endpoints: the watch over them, the picture of them
/// and the choice among them.
#[derive(Debug)]
pub struct RouteRegistry {
    monitor: MonitorService,
    snapshot: RouteSnapshotEngine,
    routes: RouteManager,
    initialized: bool,
}

/// What a `RouteRegistry` holds.
#[verifier::ext_equal]
pub struct RegistryView {
    pub monitor: ServiceView,
    pub engine: EngineView,
    pub routes: ManagerView,
    pub initialized: bool,
}

impl View for RouteRegistry {
    type V = RegistryView;

    closed spec fn view(&self) -> RegistryView {
        RegistryView {
            monitor: self.monitor@,
            engine: self.snapshot@,
            routes: self.routes@,
            initialized: self.initialized,
        }
    }
}

/// The address and the port of an endpoint.
pub open spec fn address_of(a: SocketAddr) -> (IpAddr, u16) {
    match a {
        SocketAddr::V4(a) => (IpAddr::V4(a.ip), a.port),
        SocketAddr::V6(a) => (IpAddr::V6(a.ip), a.port),
    }
}

/// The target that watches an endpoint.
pub open spec fn target_of(e: EndpointView) -> TargetView {
    TargetView { id: e.id, addr: address_of(e.addr).0, fallback_port: address_of(e.addr).1 }
}

/// The targets that watch some endpoints.
pub open spec fn targets_of(list: Seq<EndpointView>) -> Seq<TargetView> {
    Seq::new(list.len(), |i: int| target_of(list[i]))
}

/// The endpoint that a target stands for.
pub open spec fn endpoint_of(t: TargetView) -> EndpointView {
    EndpointView {
        id: t.id,
        addr: plain_socket(t.addr, t.fallback_port),
        label: ""@,
        weight: Scalar { bits: ONE_BITS },
    }
}

/// The endpoints that some targets stand for.
pub open spec fn endpoints_of(list: Seq<TargetView>) -> Seq<EndpointView> {
    Seq::new(list.len(), |i: int| endpoint_of(list[i]))
}

fn watch(specs: &Vec<EndpointSpec>) -> (r: Vec<MonitorTarget>)
    ensures
        target_views(r@) == targets_of(endpoint_views(specs@)),
{
    let mut out: Vec<MonitorTarget> = Vec::new();
    let mut i: usize = 0;
    while i < specs.len()
        invariant
            i <= specs@.len(),
            out@.len() == i,
            forall|j: int| 0 <= j < i ==> (#[trigger] out@[j])@ == target_of(specs@[j]@),
        decreases specs@.len() - i,
    {
        let (addr, fallback_port) = match specs[i].addr {
            SocketAddr::V4(a) => (IpAddr::V4(a.ip), a.port),
            SocketAddr::V6(a) => (IpAddr::V6(a.ip), a.port),
        };
        out.push(MonitorTarget { id: specs[i].id.clone(), addr, fallback_port });
        i = i + 1;
    }
    assert(target_views(out@) =~= targets_of(endpoint_views(specs@)));
    out
}

/// The endpoints that some targets stand for.
pub fn endpoints_from_targets(targets: &Vec<MonitorTarget>) -> (r: Vec<EndpointSpec>)
    ensures
        endpoint_views(r@) == endpoints_of(target_views(targets@)),
{
    let mut out: Vec<EndpointSpec> = Vec::new();
    let mut i: usize = 0;
    while i < targets.len()
        invariant
            i <= targets@.len(),
            out@.len() == i,
            forall|j: int| 0 <= j < i ==> (#[trigger] out@[j])@ == endpoint_of(targets@[j]@),
        decreases targets@.len() - i,
    {
        let port: u16 = targets[i].fallback_port;
        let addr = match targets[i].addr {
            IpAddr::V4(ip) => SocketAddr::V4(SocketAddrV4 { ip, port }),
            IpAddr::V6(ip) => SocketAddr::V6(
                SocketAddrV6 { ip, port, flowinfo: 0, scope_id: 0 },
            ),
        };
        out.push(
            EndpointSpec {
                id: targets[i].id.clone(),
                addr,
                label: "".to_string(),
                weight: default_weight(),
            },
        );
        i = i + 1;
    }
    assert(endpoint_views(out@) =~= endpoints_of(target_views(targets@)));
    out
}

fn ids_of(list: &Vec<MonitorTarget>) -> (r: Vec<String>)
    ensures
        texts(r@) == target_ids(target_views(list@)),
{
    let mut out: Vec<String> = Vec::new();
    let mut i: usize = 0;
    while i < list.len()
        invariant
            i <= list@.len(),
            out@.len() == i,
            forall|j: int| 0 <= j < i ==> (#[trigger] out@[j])@ == list@[j].id@,
        decreases list@.len() - i,
    {
        out.push(list[i].id.clone());
        i = i + 1;
    }
    assert(texts(out@) =~= target_ids(target_views(list@)));
    out
}

/// The registry with new endpoints.
pub open spec fn with_endpoints(v: RegistryView, specs: Seq<EndpointView>) -> RegistryView {
    let targets = targets_of(specs);
    RegistryView {
        routes: v.routes.with_candidates(specs),
        engine: EngineView {
            targets: retargeted(v.engine.targets, target_ids(targets)),
            ..v.engine
        },
        monitor: ServiceView {
            targets,
            store: retargeted_store(v.monitor.store, v.monitor.targets, targets),
            ..v.monitor
        },
        initialized: true,
    }
}

/// The registry with another route in use; nothing happens if it is in use
/// already.
pub open spec fn committed(v: RegistryView, id: Option<Seq<char>>, now_ms: u64) -> RegistryView {
    if id == v.engine.current.selected {
        v
    } else {
        RegistryView {
            routes: ManagerView { last_switch_ms: now_ms, ..v.routes },
            engine: EngineView {
                selected: id,
                current: SnapshotView { selected: id, ..v.engine.current },
                ..v.engine
            },
            ..v
        }
    }
}

/// Whether a state is that of a registry.
pub open spec fn shows(r: RouteState, v: RegistryView) -> bool {
    &&& lists_candidates(r.candidates@, v.routes.candidates)
    &&& opt_text(r.current) == v.engine.current.selected
    &&& opt_text(r.manual_override) == v.routes.manual_override
    &&& r.last_switch_ms == v.routes.last_switch_ms
    &&& r.cooldown_ms == v.routes.cooldown_ms
    &&& r.switch_margin == v.routes.switch_margin
}

impl RouteRegistry {
    /// A registry of the given parts.
    pub fn new(monitor: MonitorService, snapshot: RouteSnapshotEngine, routes: RouteManager) -> (r:
        RouteRegistry)
        ensures
            r@ == (RegistryView {
                monitor: monitor@,
                engine: snapshot@,
                routes: routes@,
                initialized: false,
            }),
    {
        RouteRegistry { monitor, snapshot, routes, initialized: false }
    }

    /// Sets the endpoints, everywhere.
    pub fn set_endpoints(&mut self, specs: Vec<EndpointSpec>) -> (r: Result<(), String>)
        requires
            specs@.len() > 0 ==> old(self)@.monitor.store.window > 0,
        ensures
            r is Ok,
            final(self)@ == with_endpoints(old(self)@, endpoint_views(specs@)),
    {
        let targets = watch(&specs);
        let ids = ids_of(&targets);
        assert(target_views(targets@).len() == endpoint_views(specs@).len());
        self.routes.set_candidates(specs);
        self.snapshot.set_targets(ids);
        self.monitor.set_targets(targets);
        self.initialized = true;
        Ok(())
    }

    /// The candidates and the choice among them.
    pub fn route_state(&self) -> (r: RouteState)
        ensures
            shows(r, self@),
    {
        self.routes.state(&self.snapshot)
    }

    /// Which route to use at a given moment, and why.
    pub fn route_eval<F: Fn(Op) -> Scalar>(&self, unit: &F, now_ms: u64) -> (r: RouteEvaluation)
        requires
            dependable(*unit),
        ensures
            evaluates(*unit, self@.routes, self@.engine.current, now_ms as int, r@),
    {
        self.routes.evaluate(unit, &self.snapshot, now_ms)
    }

    /// The size and the rules of the registry.
    pub fn state(&self) -> (r: RegistryState)
        ensures
            exists|names: Seq<Seq<char>>| #[trigger]
                lists(names, self@.routes.candidates.dom()) && names.len() == r.endpoint_count,
            r.cooldown_ms == self@.routes.cooldown_ms,
            r.switch_margin == self@.routes.switch_margin,
    {
        let all = self.routes.candidates();
        RegistryState {
            endpoint_count: all.len(),
            cooldown_ms: self.routes.cooldown_ms(),
            switch_margin: self.routes.switch_margin(),
        }
    }

    /// Takes a route into use.
    pub fn commit(&mut self, id: Option<String>, now_ms: u64)
        ensures
            final(self)@ == committed(old(self)@, opt_text(id), now_ms),
    {
        self.routes.commit(&mut self.snapshot, id, now_ms);
    }

    /// Chooses a route by hand and takes it into use, or leaves the choice to the
    /// registry again.
    pub fn select(&mut self, id: Option<String>, now_ms: u64) -> (r: Result<RouteState, String>)
        ensures
            match opt_text(id) {
                None => {
                    &&& final(self)@ == (RegistryView {
                        routes: ManagerView { manual_override: None, ..old(self)@.routes },
                        ..old(self)@
                    })
                    &&& r matches Ok(s) && shows(s, final(self)@)
                },
                Some(id) => if old(self)@.routes.candidates.dom().contains(id) {
                    &&& final(self)@ == committed(
                        RegistryView {
                            routes: ManagerView {
                                manual_override: Some(id),
                                ..old(self)@.routes
                            },
                            ..old(self)@
                        },
                        Some(id),
                        now_ms,
                    )
                    &&& r matches Ok(s) && shows(s, final(self)@)
                } else {
                    final(self)@ == old(self)@ && (r matches Err(e) && e@ == "unknown route id: "@
                        + id)
                },
            },
    {
        match id {
            None => {
                self.routes.clear_manual();
            },
            Some(id) => {
                match self.routes.select_manual(id.as_str()) {
                    Ok(()) => {},
                    Err(e) => {
                        return Err(e);
                    },
                }
                self.commit(Some(id), now_ms);
            },
        }
        Ok(self.route_state())
    }

    /// Takes a new picture of the endpoints; says whether the route in use is
    /// another one than when that was last told.
    pub fn refresh<F: Fn(Op) -> Scalar>(&mut self, unit: &F, timestamp_ms: i64) -> (r: (
        Snapshot,
        bool,
    ))
        requires
            dependable(*unit),
        ensures
            r.0@.selected == old(self)@.engine.selected,
            r.0@.timestamp_ms == timestamp_ms,
            r.1 == (r.0@.selected != old(self)@.engine.last_emitted_selected),
            routes_now(*unit, old(self)@.monitor.store, final(self)@.engine.targets, r.0@),
            final(self)@ == (RegistryView {
                engine: EngineView {
                    targets: classes_now(
                        *unit,
                        old(self)@.monitor.store,
                        old(self)@.engine.targets,
                    ),
                    current: r.0@,
                    last_emitted_selected: r.0@.selected,
                    ..old(self)@.engine
                },
                ..old(self)@
            }),
    {
        let snap = self.snapshot.refresh_now(unit, self.monitor.metrics(), timestamp_ms);
        let news = self.snapshot.announce(&snap);
        (snap, news)
    }

    /// The watch over the endpoints.
    pub fn monitor(&self) -> (r: &MonitorService)
        ensures
            r@ == self@.monitor,
    {
        &self.monitor
    }

    /// The watch over the endpoints, to change it.
    pub fn monitor_mut(&mut self) -> (r: &mut MonitorService)
        ensures
            r@ == old(self)@.monitor,
            final(self)@ == (RegistryView { monitor: final(r)@, ..old(self)@ }),
    {
        &mut self.monitor
    }

    /// The picture of the endpoints.
    pub fn snapshot(&self) -> (r: &RouteSnapshotEngine)
        ensures
            r@ == self@.engine,
    {
        &self.snapshot
    }

    /// The choice among the endpoints.
    pub fn routes(&self) -> (r: &RouteManager)
        ensures
            r@ == self@.routes,
    {
        &self.routes
    }

    /// The choice among the endpoints, to change it.
    pub fn routes_mut(&mut self) -> (r: &mut RouteManager)
        ensures
            r@ == old(self)@.routes,
            final(self)@ == (RegistryView { routes: final(r)@, ..old(self)@ }),
    {
        &mut self.routes
    }
}

proof fn lemma_candidates(specs: Seq<EndpointView>, id: Seq<char>)
    ensures
        candidates_of(specs).dom().contains(id) <==> target_ids(targets_of(specs)).contains(id),
    decreases specs.len(),
{
    let ids = target_ids(targets_of(specs));
    if specs.len() > 0 {
        let rest = specs.drop_last();
        let before = target_ids(targets_of(rest));
        lemma_candidates(rest, id);
        if ids.contains(id) {
            let i = ids.index_of(id);
            if i < rest.len() {
                assert(before[i] == id);
            }
        }
        if before.contains(id) {
            let i = before.index_of(id);
            assert(ids[i] == id);
        }
        if specs.last().id == id {
            assert(ids[specs.len() - 1] == id);
        }
    }
}

/// After the endpoints were set, the candidates, the targets of the picture and
/// the watched targets have the same names, and each has a window for samples.
pub proof fn law_endpoints_agree(v: RegistryView, specs: Seq<EndpointView>, id: Seq<char>)
    ensures
        ({
            let w = with_endpoints(v, specs);
            &&& w.routes.candidates.dom().contains(id) <==> w.engine.targets.dom().contains(id)
            &&& w.routes.candidates.dom().contains(id) <==> target_ids(
                w.monitor.targets,
            ).contains(id)
            &&& w.routes.candidates.dom().contains(id)
                ==> w.monitor.store.targets.dom().contains(id)
        }),
{
    lemma_candidates(specs, id);
    law_windows_follow_targets(v.monitor.store, v.monitor.targets, targets_of(specs), id);
}

/// Each endpoint is watched under its own name, at its own address and port.
pub proof fn law_endpoints_are_watched(v: RegistryView, specs: Seq<EndpointView>, i: int)
    requires
        0 <= i < specs.len(),
    ensures
        ({
            let w = with_endpoints(v, specs);
            let t = w.monitor.targets[i];
            &&& w.initialized
            &&& w.monitor.targets.len() == specs.len()
            &&& t.id == specs[i].id
            &&& specs[i].addr matches SocketAddr::V4(a) ==> t.addr == IpAddr::V4(a.ip)
                && t.fallback_port == a.port
            &&& specs[i].addr matches SocketAddr::V6(a) ==> t.addr == IpAddr::V6(a.ip)
                && t.fallback_port == a.port
            &&& w.monitor.running == v.monitor.running
            &&& w.monitor.interval_ms == v.monitor.interval_ms
            &&& w.monitor.probe_timeout_ms == v.monitor.probe_timeout_ms
            &&& w.engine.selected == v.engine.selected
            &&& w.engine.current == v.engine.current
        }),
{
}

/// The endpoint that a target stands for is watched by that very target; it has no
/// label and counts as much as any other.
pub proof fn law_targets_come_back(list: Seq<TargetView>, i: int)
    requires
        0 <= i < list.len(),
    ensures
        targets_of(endpoints_of(list)) == list,
        endpoints_of(list).len() == list.len(),
        endpoints_of(list)[i].label.len() == 0,
        endpoints_of(list)[i].weight.bits == 0x3f80_0000,
        endpoints_of(list)[i].addr matches SocketAddr::V6(a) ==> a.flowinfo == 0 && a.scope_id == 0,
{
    reveal_strlit("");
    assert(targets_of(endpoints_of(list)) =~= list);
}

/// A route that is taken into use is the one in use, from that moment on. Taking
/// the one in use once more changes nothing, not even the moment of the switch.
pub proof fn law_route_in_use(v: RegistryView, id: Option<Seq<char>>, now_ms: u64, later_ms: u64)
    ensures
        ({
            let w = committed(v, id, now_ms);
            &&& w.engine.current.selected == id
            &&& v.engine.current.selected != id ==> w.engine.selected == id
                && w.routes.last_switch_ms == now_ms
            &&& v.engine.current.selected == id ==> w == v
            &&& committed(w, id, later_ms) == w
            &&& w.monitor == v.monitor
            &&& w.routes.candidates == v.routes.candidates
            &&& w.routes.manual_override == v.routes.manual_override
            &&& w.routes.cooldown_ms == v.routes.cooldown_ms
            &&& w.routes.switch_margin == v.routes.switch_margin
            &&& w.engine.targets == v.engine.targets
            &&& w.engine.current.routes == v.engine.current.routes
        }),
{
}

/// The state that is told of a registry is that of its routes: which one is in use,
/// which was chosen by hand, when the last switch was, and what a switch has to meet.
pub proof fn law_state_is_told(r: RouteState, v: RegistryView)
    requires
        shows(r, v),
    ensures
        lists_candidates(r.candidates@, v.routes.candidates),
        r.current is Some <==> v.engine.current.selected is Some,
        r.current matches Some(id) ==> Some(id@) == v.engine.current.selected,
        r.manual_override is Some <==> v.routes.manual_override is Some,
        r.manual_override matches Some(id) ==> Some(id@) == v.routes.manual_override,
        r.last_switch_ms == v.routes.last_switch_ms,
        r.cooldown_ms == v.routes.cooldown_ms,
        r.switch_margin == v.routes.switch_margin,
{
}

} // verus!
