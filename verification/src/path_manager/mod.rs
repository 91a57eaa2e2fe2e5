//! The tunnel paths and the routes that lead into them.

use crate::address::Ipv4Addr;
use crate::name_map::{lists, NameMap};
use crate::text::{same_text, texts};
use crate::windows_route_manager::{
    entries, installed, leads_somewhere, outcome, range_text, range_words,
    refused, remetered, unregistered, ErrorView, ManagedRoute, Registry, RouteEntry,
    RouteError, RouteKey, SwitchResult, SwitchView, WindowsRouteManager, ACTIVE_METRIC,
    ERROR_ACCESS_DENIED, ERROR_OBJECT_ALREADY_EXISTS,
    STANDBY_METRIC,
};
use vstd::prelude::*;

pub mod failover_laws;
pub mod plan_laws;
pub mod reconcile;
pub mod reconcile_laws;
pub mod route_laws;

verus! {

/// The name of a path.
#[derive(Debug, Clone, PartialEq, Eq, Hash)]
pub struct PathId {
    id: String,
}

impl View for PathId {
    type V = Seq<char>;

    closed spec fn view(&self) -> Seq<char> {
        self.id@
    }
}

impl PathId {
    /// The name of a path.
    pub fn new(id: &str) -> (r: PathId)
        ensures
            r@ == id@,
    {
        PathId { id: id.to_string() }
    }

    /// The name as text.
    pub fn as_str(&self) -> (r: &str)
        ensures
            r@ == self@,
    {
        self.id.as_str()
    }

    fn copy(&self) -> (r: PathId)
        ensures
            r@ == self@,
    {
        PathId { id: self.id.clone() }
    }
}

/// How well a path does.
#[derive(Debug, Clone, Copy, PartialEq, Eq, Structural)]
pub enum PathHealth {
    Healthy,
    Degraded,
    Unhealthy,
}

/// Whether the tunnel of a path is up.
#[derive(Debug, Clone, Copy, PartialEq, Eq, Structural)]
pub enum TunnelState {
    Down,
    Up,
}

/// A tunnel with the range that is routed into it.
#[derive(Debug, Clone)]
pub struct Path {
    pub id: PathId,
    pub profile_name: String,
    pub tunnel_state: TunnelState,
    pub interface_luid: u64,
    pub interface_index: u32,
    pub active: bool,
    pub health: PathHealth,
    pub destination: Option<Ipv4Addr>,
    pub prefix_length: u8,
    pub generation: u64,
}

/// What a `Path` holds.
#[verifier::ext_equal]
pub struct PathView {
    pub id: Seq<char>,
    pub profile_name: Seq<char>,
    pub tunnel_state: TunnelState,
    pub interface_luid: u64,
    pub interface_index: u32,
    pub active: bool,
    pub health: PathHealth,
    pub destination: Option<Ipv4Addr>,
    pub prefix_length: u8,
    pub generation: u64,
}

impl View for Path {
    type V = PathView;

    open spec fn view(&self) -> PathView {
        PathView {
            id: self.id@,
            profile_name: self.profile_name@,
            tunnel_state: self.tunnel_state,
            interface_luid: self.interface_luid,
            interface_index: self.interface_index,
            active: self.active,
            health: self.health,
            destination: self.destination,
            prefix_length: self.prefix_length,
            generation: self.generation,
        }
    }
}

/// A path that was never connected.
pub open spec fn fresh_path(id: Seq<char>, profile_name: Seq<char>) -> PathView {
    PathView {
        id,
        profile_name,
        tunnel_state: TunnelState::Down,
        interface_luid: 0,
        interface_index: 0,
        active: false,
        health: PathHealth::Unhealthy,
        destination: None,
        prefix_length: 32,
        generation: 0,
    }
}

impl PathView {
    /// The metric that the route of this path should have.
    pub open spec fn metric(self) -> u32 {
        if self.active {
            ACTIVE_METRIC
        } else {
            STANDBY_METRIC
        }
    }

    /// The key of the route of a path with a destination, under the given id.
    pub open spec fn route_key(self, id: Seq<char>) -> RouteKey {
        RouteKey {
            destination: self.destination->0,
            prefix_length: self.prefix_length,
            path_id: id,
        }
    }
}

impl Path {
    /// A path that was never connected.
    pub fn new(id: PathId, profile_name: &str) -> (r: Path)
        ensures
            r@ == fresh_path(id@, profile_name@),
    {
        Path {
            id,
            profile_name: profile_name.to_string(),
            tunnel_state: TunnelState::Down,
            interface_luid: 0,
            interface_index: 0,
            active: false,
            health: PathHealth::Unhealthy,
            destination: None,
            prefix_length: 32,
            generation: 0,
        }
    }

    fn copy(&self) -> (r: Path)
        ensures
            r@ == self@,
    {
        Path {
            id: self.id.copy(),
            profile_name: self.profile_name.clone(),
            tunnel_state: self.tunnel_state,
            interface_luid: self.interface_luid,
            interface_index: self.interface_index,
            active: self.active,
            health: self.health,
            destination: self.destination,
            prefix_length: self.prefix_length,
            generation: self.generation,
        }
    }

    /// Installs the route of this path.
    pub fn install_route(&mut self, router: &mut WindowsRouteManager) -> (r: Result<(), String>)
        ensures
            final(self)@ == old(self)@,
            match old(self)@.destination {
                None => r matches Err(e) && e@ == "no destination set"@ && final(router)@ == old(
                    router,
                )@,
                Some(dest) => r is Ok && final(router)@ == installed(
                    old(router)@,
                    old(self)@.id,
                    dest,
                    old(self)@.prefix_length,
                    old(self)@.interface_luid,
                    0,
                    old(self)@.metric(),
                ),
            },
    {
        let metric: u32 = if self.active {
            ACTIVE_METRIC
        } else {
            STANDBY_METRIC
        };
        match self.destination {
            None => Err("no destination set".to_string()),
            Some(dest) => {
                let done = router.install_route(
                    self.id.as_str(),
                    dest,
                    self.prefix_length,
                    self.interface_luid,
                    self.interface_index,
                    metric,
                );
                match done {
                    Ok(()) => Ok(()),
                    Err(e) => {
                        let mut out = "install_route error: ".to_string();
                        out.append(e.text().as_str());
                        Err(out)
                    },
                }
            },
        }
    }

    /// Removes the route of this path.
    pub fn remove_route(&self, router: &mut WindowsRouteManager) -> (r: Result<(), String>)
        ensures
            match self@.destination {
                None => r matches Err(e) && e@ == "no destination set"@ && final(router)@ == old(
                    router,
                )@,
                Some(dest) => if old(router)@.dom().contains(self@.route_key(self@.id)) {
                    r is Ok && final(router)@ == old(router)@.remove(self@.route_key(self@.id))
                } else {
                    r matches Err(e) && final(router)@ == old(router)@ && e@
                        == "remove_route error: "@ + unregistered(
                        "remove_route"@,
                        dest,
                        self@.prefix_length,
                        self@.id,
                        Some(self@.interface_luid),
                        "ownership_check"@,
                        "route not found in MARSTART registry"@,
                    ).words()
                },
            },
    {
        match self.destination {
            None => Err("no destination set".to_string()),
            Some(dest) => {
                let done = router.remove_route(
                    self.id.as_str(),
                    dest,
                    self.prefix_length,
                    self.interface_luid,
                );
                match done {
                    Ok(()) => Ok(()),
                    Err(e) => {
                        let mut out = "remove_route error: ".to_string();
                        out.append(e.text().as_str());
                        Err(out)
                    },
                }
            },
        }
    }
}

// ---------------------------------------------------------------------------
// The manager
// ---------------------------------------------------------------------------

/// The paths by their names.
pub type Paths = Map<Seq<char>, PathView>;

/// Holds the paths and the registry of their routes.
#[derive(Debug)]
pub struct PathManager {
    inner: NameMap<Path>,
    router: WindowsRouteManager,
}

/// What a `PathManager` holds.
#[verifier::ext_equal]
pub struct ManagerView {
    pub paths: Paths,
    pub registry: Registry,
}

impl View for PathManager {
    type V = ManagerView;

    closed spec fn view(&self) -> ManagerView {
        ManagerView { paths: self.inner@, registry: self.router@ }
    }
}

/// The paths with one of them active and all others not.
pub open spec fn active_only(paths: Paths, active: Seq<char>) -> Paths {
    Map::new(
        |id: Seq<char>| paths.dom().contains(id),
        |id: Seq<char>| PathView { active: id == active, ..paths[id] },
    )
}

/// Whether a key is that of the route of one of the paths.
pub open spec fn is_path_key(paths: Paths, k: RouteKey) -> bool {
    &&& paths.dom().contains(k.path_id)
    &&& paths[k.path_id].destination == Some(k.destination)
    &&& paths[k.path_id].prefix_length == k.prefix_length
}

/// A registry in which every path with a destination has its route, laid anew
/// with the metric it should have.
pub open spec fn relaid(m: Registry, paths: Paths) -> Registry {
    Map::new(
        |k: RouteKey| m.dom().contains(k) || is_path_key(paths, k),
        |k: RouteKey|
            if is_path_key(paths, k) {
                RouteEntry {
                    path_id: k.path_id,
                    destination: k.destination,
                    prefix_length: k.prefix_length,
                    interface_luid: paths[k.path_id].interface_luid,
                    interface_index: 0,
                    next_hop: Ipv4Addr { bits: 0 },
                    metric: paths[k.path_id].metric(),
                    generation: 1,
                }
            } else {
                m[k]
            },
    )
}

/// A registry without the routes of the paths.
pub open spec fn unlaid(m: Registry, paths: Paths) -> Registry {
    Map::new(|k: RouteKey| m.dom().contains(k) && !is_path_key(paths, k), |k: RouteKey| m[k])
}

/// What a list of paths holds.
pub open spec fn path_views(list: Seq<Path>) -> Seq<PathView> {
    Seq::new(list.len(), |i: int| list[i]@)
}

/// Whether a list holds all paths, in dictionary order of their names.
pub open spec fn lists_paths(list: Seq<PathView>, names: Seq<Seq<char>>, paths: Paths) -> bool {
    &&& lists(names, paths.dom())
    &&& names.len() == list.len()
    &&& forall|i: int| 0 <= i < list.len() ==> #[trigger] list[i] == paths[names[i]]
}

// ---------------------------------------------------------------------------
// Routes of a path
// ---------------------------------------------------------------------------

/// Why the route of a path cannot be installed, if so.
pub open spec fn route_fault(paths: Paths, id: Seq<char>) -> Option<ErrorView> {
    let base = ErrorView {
        error_code: 0,
        operation: "install_path_route"@,
        destination: ""@,
        path_id: id,
        interface_luid: None,
        stage: "lookup"@,
        message: "path not found"@,
    };
    if !paths.dom().contains(id) {
        Some(base)
    } else if paths[id].destination is None {
        Some(
            ErrorView {
                interface_luid: Some(paths[id].interface_luid),
                stage: "destination"@,
                message: "path has no managed destination"@,
                ..base
            },
        )
    } else {
        None
    }
}

/// The registry after giving the route of a path a metric, and how that went: a
/// route that the table holds is updated, one that it lacks is installed.
pub open spec fn path_routed(v: ManagerView, id: Seq<char>, metric: u32) -> (Registry, Result<
    (),
    ErrorView,
>) {
    let p = v.paths[id];
    let dest = p.destination->0;
    match route_fault(v.paths, id) {
        Some(e) => (v.registry, Err(e)),
        None => if leads_somewhere(v.registry, dest, p.prefix_length, p.interface_luid) {
            if v.registry.dom().contains(p.route_key(id)) {
                (remetered(v.registry, p.route_key(id), metric), Ok(()))
            } else {
                (
                    v.registry,
                    Err(
                        unregistered(
                            "update_route_metric"@,
                            dest,
                            p.prefix_length,
                            id,
                            None,
                            "update"@,
                            "route not found in registry"@,
                        ),
                    ),
                )
            }
        } else {
            (
                installed(
                    v.registry,
                    id,
                    dest,
                    p.prefix_length,
                    p.interface_luid,
                    0,
                    metric,
                ),
                Ok(()),
            )
        },
    }
}

/// What to ask of the system for the route of a path: to update it or, where the
/// system lacks it, to create it.
#[derive(Debug, Clone)]
pub struct RouteStep {
    pub path_id: String,
    pub destination: Ipv4Addr,
    pub prefix_length: u8,
    pub interface_luid: u64,
    pub interface_index: u32,
    pub metric: u32,
    pub exists: bool,
}

/// Whether one of some routes leads to a range through an interface.
pub open spec fn among(
    os: Seq<RouteEntry>,
    destination: Ipv4Addr,
    prefix_length: u8,
    luid: u64,
) -> bool {
    exists|i: int| 0 <= i < os.len() && (#[trigger] os[i]).leads(destination, prefix_length, luid)
}

/// The first of some routes that leads to a range through an interface; their
/// number where none does.
pub open spec fn first_leading(
    os: Seq<RouteEntry>,
    destination: Ipv4Addr,
    prefix_length: u8,
    luid: u64,
) -> int
    decreases os.len(),
{
    if os.len() == 0 || os[0].leads(destination, prefix_length, luid) {
        0
    } else {
        1 + first_leading(os.drop_first(), destination, prefix_length, luid)
    }
}

proof fn lemma_first_leading(os: Seq<RouteEntry>, d: Ipv4Addr, p: u8, l: u64, i: int)
    requires
        0 <= i <= os.len(),
        forall|j: int| 0 <= j < i ==> !(#[trigger] os[j]).leads(d, p, l),
        i < os.len() ==> os[i].leads(d, p, l),
    ensures
        first_leading(os, d, p, l) == i,
    decreases os.len(),
{
    if i > 0 {
        let rest = os.drop_first();
        assert(!os[0].leads(d, p, l));
        assert forall|j: int| 0 <= j < i - 1 implies !(#[trigger] rest[j]).leads(d, p, l) by {
            assert(rest[j] == os[j + 1]);
        }
        lemma_first_leading(rest, d, p, l, i - 1);
    }
}

pub(crate) fn find_leading(os: &Vec<ManagedRoute>, d: Ipv4Addr, p: u8, l: u64) -> (r: usize)
    ensures
        r == first_leading(entries(os@), d, p, l),
        r <= os@.len(),
        r < os@.len() ==> os@[r as int]@.leads(d, p, l),
        (r < os@.len()) == among(entries(os@), d, p, l),
{
    let ghost e = entries(os@);
    let mut i: usize = 0;
    while i < os.len()
        invariant
            i <= os@.len() == e.len(),
            e == entries(os@),
            forall|j: int| 0 <= j < i ==> !(#[trigger] e[j]).leads(d, p, l),
        decreases os@.len() - i,
    {
        let route = &os[i];
        assert(e[i as int] == route@);
        if route.destination == d && route.prefix_length == p && route.interface_luid == l {
            proof {
                lemma_first_leading(e, d, p, l, i as int);
            }
            return i;
        }
        i = i + 1;
    }
    proof {
        lemma_first_leading(e, d, p, l, i as int);
    }
    i
}

// ---------------------------------------------------------------------------
// Failover
// ---------------------------------------------------------------------------

/// The text `before 'id' after`.
pub open spec fn about(before: Seq<char>, id: Seq<char>, after: Seq<char>) -> Seq<char> {
    before + " '"@ + id + "'"@ + after
}

pub(crate) fn say_about(before: &str, id: &str, after: &str) -> (r: String)
    ensures
        r@ == about(before@, id@, after@),
{
    let mut out = before.to_string();
    out.append(" '");
    out.append(id);
    out.append("'");
    out.append(after);
    out
}

/// Why a failover cannot begin, if so: both paths have to exist, to have a
/// destination and to be connected.
pub open spec fn failover_fault(paths: Paths, old_id: Seq<char>, new_id: Seq<char>) -> Option<
    Seq<char>,
> {
    if !paths.dom().contains(old_id) {
        Some(about("old path"@, old_id, " not found"@))
    } else if !paths.dom().contains(new_id) {
        Some(about("new path"@, new_id, " not found"@))
    } else if paths[new_id].destination is None {
        Some(about("new path"@, new_id, " has no managed destination"@))
    } else if paths[old_id].destination is None {
        Some(about("old path"@, old_id, " has no managed destination"@))
    } else if paths[new_id].interface_luid == 0 {
        Some(about("new path"@, new_id, " is not connected (LUID is 0)"@))
    } else if paths[old_id].interface_luid == 0 {
        Some(about("old path"@, old_id, " is not connected (LUID is 0)"@))
    } else {
        None
    }
}

/// The result of a switch; the routes are named where there was one.
pub open spec fn switch_view(old_id: Seq<char>, new_id: Seq<char>, routes: Seq<Seq<char>>) -> SwitchView {
    SwitchView {
        from_path: Some(old_id),
        to_path: Some(new_id),
        datapath_applied: true,
        routes_added: routes,
        routes_removed: routes,
        error: None,
    }
}

/// Whether a failover gets as far as asking whether the new path works.
pub open spec fn reaches_verification(v: ManagerView, old_id: Seq<char>, new_id: Seq<char>) -> bool {
    failover_fault(v.paths, old_id, new_id) is None && old_id != new_id && path_routed(
        v,
        new_id,
        ACTIVE_METRIC,
    ).1 is Ok
}

/// The metrics to set after the new path was tried: if it works the old one is
/// put on standby, else the new one is and the old one is preferred again.
pub open spec fn moves_after(old_id: Seq<char>, new_id: Seq<char>, passed: bool) -> Seq<
    (Seq<char>, u32),
> {
    if passed {
        seq![(old_id, STANDBY_METRIC)]
    } else {
        seq![(new_id, STANDBY_METRIC), (old_id, ACTIVE_METRIC)]
    }
}

/// The registry after setting metrics one after another, whatever each comes to.
pub open spec fn moved(v: ManagerView, moves: Seq<(Seq<char>, u32)>) -> Registry
    decreases moves.len(),
{
    if moves.len() == 0 {
        v.registry
    } else {
        path_routed(
            ManagerView { registry: moved(v, moves.drop_last()), ..v },
            moves.last().0,
            moves.last().1,
        ).0
    }
}

/// The outcome of a failover that was tried.
pub open spec fn settled_result(
    paths: Paths,
    old_id: Seq<char>,
    new_id: Seq<char>,
    passed: bool,
) -> Result<SwitchView, Seq<char>> {
    if passed {
        let p = paths[new_id];
        Ok(switch_view(old_id, new_id, seq![range_words(p.destination->0, p.prefix_length)]))
    } else {
        Err(
            about(
                about("failover verification failed for path"@, new_id, "; rolled back to"@),
                old_id,
                ""@,
            ),
        )
    }
}

/// The manager after a failover, and its result; `passed` says whether the new
/// path works, where that is asked.
pub open spec fn failed_over(
    v: ManagerView,
    old_id: Seq<char>,
    new_id: Seq<char>,
    passed: bool,
) -> (ManagerView, Result<SwitchView, Seq<char>>) {
    match failover_fault(v.paths, old_id, new_id) {
        Some(e) => (v, Err(e)),
        None => if old_id == new_id {
            (v, Ok(switch_view(old_id, new_id, seq![])))
        } else {
            let first = path_routed(v, new_id, ACTIVE_METRIC);
            match first.1 {
                Err(e) => (
                    v,
                    Err("failover: failed to install new path route: "@ + e.words()),
                ),
                Ok(()) => (
                    ManagerView {
                        paths: active_only(
                            v.paths,
                            if passed {
                                new_id
                            } else {
                                old_id
                            },
                        ),
                        registry: moved(
                            ManagerView { registry: first.0, ..v },
                            moves_after(old_id, new_id, passed),
                        ),
                    },
                    settled_result(v.paths, old_id, new_id, passed),
                ),
            }
        },
    }
}

/// What a failover came to.
pub open spec fn switched(r: Result<SwitchResult, String>) -> Result<SwitchView, Seq<char>> {
    match r {
        Ok(s) => Ok(s@),
        Err(e) => Err(e@),
    }
}

/// What a list of moves holds.
pub open spec fn move_views(list: Seq<(String, u32)>) -> Seq<(Seq<char>, u32)> {
    Seq::new(list.len(), |i: int| (list[i].0@, list[i].1))
}

/// The metrics to set after the new path was tried.
pub fn failover_moves(old_path_id: &str, new_path_id: &str, passed: bool) -> (r: Vec<(String, u32)>)
    ensures
        move_views(r@) == moves_after(old_path_id@, new_path_id@, passed),
{
    let mut out: Vec<(String, u32)> = Vec::new();
    if passed {
        out.push((old_path_id.to_string(), STANDBY_METRIC));
    } else {
        out.push((new_path_id.to_string(), STANDBY_METRIC));
        out.push((old_path_id.to_string(), ACTIVE_METRIC));
    }
    assert(move_views(out@) =~= moves_after(old_path_id@, new_path_id@, passed));
    out
}

fn switch_result(old_id: &str, new_id: &str, route: Option<String>) -> (r: SwitchResult)
    ensures
        r@ == switch_view(
            old_id@,
            new_id@,
            match route {
                Some(t) => seq![t@],
                None => seq![],
            },
        ),
{
    let mut added: Vec<String> = Vec::new();
    let mut removed: Vec<String> = Vec::new();
    match &route {
        Some(t) => {
            added.push(t.clone());
            removed.push(t.clone());
            assert(texts(added@) =~= seq![t@]);
            assert(texts(removed@) =~= seq![t@]);
        },
        None => {
            assert(texts(added@) =~= Seq::<Seq<char>>::empty());
            assert(texts(removed@) =~= Seq::<Seq<char>>::empty());
        },
    }
    SwitchResult {
        from_path: Some(old_id.to_string()),
        to_path: Some(new_id.to_string()),
        datapath_applied: true,
        routes_added: added,
        routes_removed: removed,
        error: None,
    }
}

/// The outcome of a simple operation on a path.
pub open spec fn plain(r: Result<(), String>) -> Result<(), Seq<char>> {
    match r {
        Ok(()) => Ok(()),
        Err(e) => Err(e@),
    }
}

/// What happens to a path that exists, and else the error.
pub open spec fn on_path(v: ManagerView, id: Seq<char>, next: PathView) -> (ManagerView, Result<
    (),
    Seq<char>,
>) {
    if v.paths.dom().contains(id) {
        (ManagerView { paths: v.paths.insert(id, next), ..v }, Ok(()))
    } else {
        (v, Err("path not found"@))
    }
}

impl PathManager {
    /// A manager without paths.
    pub fn new() -> (r: PathManager)
        ensures
            r@ == (ManagerView { paths: Map::empty(), registry: Map::empty() }),
    {
        PathManager { inner: NameMap::new(), router: WindowsRouteManager::new() }
    }

    /// Adds a path.
    pub fn add_path(&mut self, id: &str, profile_name: &str) -> (r: Result<(), String>)
        ensures
            if old(self)@.paths.dom().contains(id@) {
                final(self)@ == old(self)@ && plain(r) == Err::<(), Seq<char>>(
                    about("path"@, id@, " already exists"@),
                )
            } else {
                r is Ok && final(self)@ == (ManagerView {
                    paths: old(self)@.paths.insert(id@, fresh_path(id@, profile_name@)),
                    ..old(self)@
                })
            },
    {
        if self.inner.contains(id) {
            return Err(say_about("path", id, " already exists"));
        }
        self.inner.insert(id.to_string(), Path::new(PathId::new(id), profile_name));
        Ok(())
    }

    fn names(&self) -> (r: Vec<String>)
        ensures
            lists(texts(r@), self@.paths.dom()),
    {
        let n = self.inner.len();
        let mut out: Vec<String> = Vec::new();
        let mut i: usize = 0;
        while i < n
            invariant
                i <= n == self.inner.names().len(),
                out@.len() == i,
                forall|j: int| 0 <= j < i ==> (#[trigger] out@[j])@ == self.inner.names()[j],
            decreases n - i,
        {
            out.push(self.inner.name_at(i).clone());
            i = i + 1;
        }
        assert(texts(out@) =~= self.inner.names());
        out
    }

    fn set_path_active(&mut self, active_id: &str)
        ensures
            final(self)@ == (ManagerView {
                paths: active_only(old(self)@.paths, active_id@),
                ..old(self)@
            }),
    {
        let ghost before = self@;
        let ids = self.names();
        let ghost all = texts(ids@);
        let mut i: usize = 0;
        while i < ids.len()
            invariant
                i <= ids@.len(),
                all == texts(ids@),
                lists(all, before.paths.dom()),
                self@.registry == before.registry,
                self@.paths.dom() == before.paths.dom(),
                forall|j: int|
                    0 <= j < i ==> self@.paths[#[trigger] all[j]] == active_only(
                        before.paths,
                        active_id@,
                    )[all[j]],
                forall|id: Seq<char>| #[trigger]
                    before.paths.dom().contains(id) ==> self@.paths[id] == before.paths[id]
                        || self@.paths[id] == active_only(before.paths, active_id@)[id],
            decreases ids@.len() - i,
        {
            let ghost id = ids@[i as int]@;
            assert(all[i as int] == id);
            assert(all.contains(id));
            let active = same_text(ids[i].as_str(), active_id);
            match self.inner.take(ids[i].as_str()) {
                Some(mut path) => {
                    path.active = active;
                    self.inner.insert(ids[i].clone(), path);
                },
                None => {},
            }
            assert(self@.paths.dom() =~= before.paths.dom());
            i = i + 1;
        }
        proof {
            assert forall|id: Seq<char>| self@.paths.dom().contains(id) implies
                #[trigger] self@.paths[id] == active_only(before.paths, active_id@)[id] by {
                assert(all.contains(id));
                let j = all.index_of(id);
                assert(all[j] == id);
            }
            assert(self@.paths =~= active_only(before.paths, active_id@));
        }
    }

    fn lay_route(&mut self, id: &str, metric: u32, Ghost(paths): Ghost<Paths>)
        requires
            old(self)@.paths == paths,
            paths.dom().contains(id@),
        ensures
            final(self)@.paths == paths,
            final(self)@.registry == match paths[id@].destination {
                None => old(self)@.registry,
                Some(dest) => {
                    let p = paths[id@];
                    let k = p.route_key(id@);
                    remetered(
                        installed(
                            old(self)@.registry.remove(k),
                            id@,
                            dest,
                            p.prefix_length,
                            p.interface_luid,
                            0,
                            metric,
                        ),
                        k,
                        metric,
                    )
                },
            },
    {
        let (dest, prefix_length, luid, index) = match self.inner.get(id) {
            Some(p) => (p.destination, p.prefix_length, p.interface_luid, p.interface_index),
            None => (None, 0, 0, 0),
        };
        match dest {
            None => {},
            Some(dest) => {
                let ghost k = RouteKey { destination: dest, prefix_length, path_id: id@ };
                let ghost before = self.router@;
                let _ = self.router.remove_route(id, dest, prefix_length, luid);
                assert(self.router@ =~= before.remove(k));
                let _ = self.router.install_route(id, dest, prefix_length, luid, index, metric);
                let _ = self.router.update_route_metric(id, dest, prefix_length, metric);
            },
        }
    }

    /// Makes a path the active one: its route is preferred, those of all others
    /// are on standby.
    pub fn activate_path(&mut self, path_id: &str) -> (r: Result<(), String>)
        ensures
            if old(self)@.paths.dom().contains(path_id@) {
                let paths = active_only(old(self)@.paths, path_id@);
                r is Ok && final(self)@ == (ManagerView {
                    paths,
                    registry: relaid(old(self)@.registry, paths),
                })
            } else {
                final(self)@ == old(self)@ && plain(r) == Err::<(), Seq<char>>(
                    about("path"@, path_id@, " not found"@),
                )
            },
    {
        if !self.inner.contains(path_id) {
            return Err(say_about("path", path_id, " not found"));
        }
        self.set_path_active(path_id);
        let ghost paths = self@.paths;
        let ghost m = self@.registry;
        let ghost target = relaid(m, paths);
        let ids = self.names();
        let ghost all = texts(ids@);
        let mut i: usize = 0;
        while i < ids.len()
            invariant
                i <= ids@.len(),
                all == texts(ids@),
                lists(all, paths.dom()),
                paths == active_only(old(self)@.paths, path_id@),
                self@.paths == paths,
                target == relaid(m, paths),
                forall|k: RouteKey|
                    #![trigger self@.registry.dom().contains(k)]
                    self@.registry.dom().contains(k) ==> target.dom().contains(k)
                        && (self@.registry[k] == target[k] || (m.dom().contains(k)
                        && self@.registry[k] == m[k])),
                forall|k: RouteKey|
                    #![trigger self@.registry.dom().contains(k)]
                    m.dom().contains(k) ==> self@.registry.dom().contains(k),
                forall|k: RouteKey, j: int|
                    #![trigger is_path_key(paths, k), all[j]]
                    0 <= j < i && is_path_key(paths, k) && k.path_id == all[j]
                        ==> self@.registry.dom().contains(k) && self@.registry[k] == target[k],
                forall|k: RouteKey|
                    #![trigger self@.registry[k]]
                    m.dom().contains(k) && !is_path_key(paths, k) ==> self@.registry[k] == m[k],
            decreases ids@.len() - i,
        {
            let ghost id = ids@[i as int]@;
            assert(all[i as int] == id);
            assert(all.contains(id));
            let ghost now = self@.registry;
            let metric: u32 = if same_text(ids[i].as_str(), path_id) {
                ACTIVE_METRIC
            } else {
                STANDBY_METRIC
            };
            self.lay_route(ids[i].as_str(), metric, Ghost(paths));
            proof {
                let p = paths[id];
                if p.destination is Some {
                    let key = p.route_key(id);
                    assert(is_path_key(paths, key));
                    assert(self@.registry[key] == target[key]);
                    assert forall|k: RouteKey| k != key implies self@.registry.dom().contains(k)
                        == now.dom().contains(k) && self@.registry[k] == now[k] by {}
                    assert forall|k: RouteKey|
                        is_path_key(paths, k) && k.path_id == id implies k == key by {
                        assert(k =~= key);
                    }
                } else {
                    assert forall|k: RouteKey|
                        is_path_key(paths, k) && k.path_id == id implies false by {}
                }
            }
            i = i + 1;
        }
        proof {
            assert forall|k: RouteKey| #[trigger] target.dom().contains(k) implies
                self@.registry.dom().contains(k) && self@.registry[k] == target[k] by {
                if is_path_key(paths, k) {
                    assert(all.contains(k.path_id));
                    let j = all.index_of(k.path_id);
                    assert(all[j] == k.path_id);
                }
            }
            assert forall|k: RouteKey| #[trigger] self@.registry.dom().contains(k) implies
                target.dom().contains(k) by {}
            assert(self@.registry.dom() =~= target.dom());
            assert(self@.registry =~= target);
        }
        Ok(())
    }

    /// Puts a path on standby.
    pub fn deactivate_path(&mut self, path_id: &str) -> (r: Result<(), String>)
        ensures
            ({
                let v = old(self)@;
                let p = v.paths[path_id@];
                if !v.paths.dom().contains(path_id@) {
                    final(self)@ == v && plain(r) == Err::<(), Seq<char>>("path not found"@)
                } else {
                    let k = p.route_key(path_id@);
                    r is Ok && final(self)@ == (ManagerView {
                        paths: v.paths.insert(path_id@, PathView { active: false, ..p }),
                        registry: if p.destination is Some && v.registry.dom().contains(k) {
                            remetered(v.registry, k, STANDBY_METRIC)
                        } else {
                            v.registry
                        },
                    })
                }
            }),
    {
        let ghost v = self@;
        match self.inner.take(path_id) {
            None => {
                assert(self@.paths =~= v.paths);
                Err("path not found".to_string())
            },
            Some(mut path) => {
                path.active = false;
                let dest = path.destination;
                let prefix_length: u8 = path.prefix_length;
                self.inner.insert(path_id.to_string(), path);
                assert(self@.paths =~= v.paths.insert(
                    path_id@,
                    PathView { active: false, ..v.paths[path_id@] },
                ));
                match dest {
                    Some(dest) => {
                        let _ = self.router.update_route_metric(
                            path_id,
                            dest,
                            prefix_length,
                            STANDBY_METRIC,
                        );
                    },
                    None => {},
                }
                Ok(())
            },
        }
    }

    /// Brings the tunnel of a path up on an interface.
    pub fn connect_path(&mut self, path_id: &str, luid: u64, index: u32) -> (r: Result<(), String>)
        ensures
            (final(self)@, plain(r)) == on_path(
                old(self)@,
                path_id@,
                PathView {
                    interface_luid: luid,
                    interface_index: index,
                    tunnel_state: TunnelState::Up,
                    generation: if old(self)@.paths[path_id@].generation == u64::MAX {
                        0
                    } else {
                        (old(self)@.paths[path_id@].generation + 1) as u64
                    },
                    ..old(self)@.paths[path_id@]
                },
            ),
    {
        let ghost v = self@;
        match self.inner.take(path_id) {
            None => {
                assert(self@.paths =~= v.paths);
                Err("path not found".to_string())
            },
            Some(mut path) => {
                path.interface_luid = luid;
                path.interface_index = index;
                path.tunnel_state = TunnelState::Up;
                path.generation = if path.generation == u64::MAX {
                    0
                } else {
                    path.generation + 1
                };
                let ghost next = path@;
                self.inner.insert(path_id.to_string(), path);
                assert(self@.paths =~= v.paths.insert(path_id@, next));
                Ok(())
            },
        }
    }

    /// Takes the tunnel of a path down.
    pub fn disconnect_path(&mut self, path_id: &str) -> (r: Result<(), String>)
        ensures
            (final(self)@, plain(r)) == on_path(
                old(self)@,
                path_id@,
                PathView { tunnel_state: TunnelState::Down, ..old(self)@.paths[path_id@] },
            ),
    {
        let ghost v = self@;
        match self.inner.take(path_id) {
            None => {
                assert(self@.paths =~= v.paths);
                Err("path not found".to_string())
            },
            Some(mut path) => {
                path.tunnel_state = TunnelState::Down;
                let ghost next = path@;
                self.inner.insert(path_id.to_string(), path);
                assert(self@.paths =~= v.paths.insert(path_id@, next));
                Ok(())
            },
        }
    }

    /// Sets the range that is routed into a path.
    pub fn set_destination(&mut self, path_id: &str, destination: Ipv4Addr, prefix_length: u8) -> (r:
        Result<(), String>)
        ensures
            (final(self)@, plain(r)) == on_path(
                old(self)@,
                path_id@,
                PathView {
                    destination: Some(destination),
                    prefix_length,
                    ..old(self)@.paths[path_id@]
                },
            ),
    {
        let ghost v = self@;
        match self.inner.take(path_id) {
            None => {
                assert(self@.paths =~= v.paths);
                Err("path not found".to_string())
            },
            Some(mut path) => {
                path.destination = Some(destination);
                path.prefix_length = prefix_length;
                let ghost next = path@;
                self.inner.insert(path_id.to_string(), path);
                assert(self@.paths =~= v.paths.insert(path_id@, next));
                Ok(())
            },
        }
    }

    /// All paths, in the order of their names.
    pub fn get_paths(&self) -> (r: Vec<Path>)
        ensures
            exists|names: Seq<Seq<char>>| #[trigger]
                lists_paths(path_views(r@), names, self@.paths),
    {
        let n = self.inner.len();
        let mut out: Vec<Path> = Vec::new();
        let mut i: usize = 0;
        while i < n
            invariant
                i <= n == self.inner.names().len(),
                out@.len() == i,
                forall|j: int|
                    0 <= j < i ==> (#[trigger] out@[j])@ == self@.paths[self.inner.names()[j]],
            decreases n - i,
        {
            out.push(self.inner.value_at(i).copy());
            i = i + 1;
        }
        assert(lists_paths(path_views(out@), self.inner.names(), self@.paths));
        out
    }

    /// A path by its name.
    pub fn get_path(&self, path_id: &str) -> (r: Option<Path>)
        ensures
            match r {
                Some(p) => self@.paths.dom().contains(path_id@) && p@ == self@.paths[path_id@],
                None => !self@.paths.dom().contains(path_id@),
            },
    {
        match self.inner.get(path_id) {
            Some(p) => Some(p.copy()),
            None => None,
        }
    }

    /// Whether there is a path with a name.
    pub fn has_path(&self, path_id: &str) -> (r: bool)
        ensures
            r == self@.paths.dom().contains(path_id@),
    {
        self.inner.contains(path_id)
    }

    /// All paths, for diagnosis.
    pub fn diagnostics(&self) -> (r: Vec<Path>)
        ensures
            exists|names: Seq<Seq<char>>| #[trigger]
                lists_paths(path_views(r@), names, self@.paths),
    {
        self.get_paths()
    }

    /// The registry of routes.
    pub fn router(&self) -> (r: &WindowsRouteManager)
        ensures
            r@ == self@.registry,
    {
        &self.router
    }

    /// The registry of routes, to change it.
    pub fn router_mut(&mut self) -> (r: &mut WindowsRouteManager)
        ensures
            r@ == old(self)@.registry,
            final(self)@ == (ManagerView { registry: final(r)@, ..old(self)@ }),
    {
        &mut self.router
    }

    /// Removes all paths and their routes.
    pub fn clear_paths(&mut self) -> (r: Result<(), String>)
        ensures
            r is Ok,
            final(self)@ == (ManagerView {
                paths: Map::empty(),
                registry: unlaid(old(self)@.registry, old(self)@.paths),
            }),
    {
        let ghost paths = self@.paths;
        let ghost m = self@.registry;
        let n = self.inner.len();
        let ghost all = self.inner.names();
        let mut i: usize = 0;
        while i < n
            invariant
                i <= n == self.inner.names().len(),
                all == self.inner.names(),
                lists(all, paths.dom()),
                self@.paths == paths,
                forall|k: RouteKey|
                    #![trigger self@.registry.dom().contains(k)]
                    self@.registry.dom().contains(k) ==> m.dom().contains(k) && self@.registry[k]
                        == m[k],
                forall|k: RouteKey|
                    #![trigger self@.registry.dom().contains(k)]
                    m.dom().contains(k) && !is_path_key(paths, k) ==> self@.registry.dom().contains(
                        k,
                    ),
                forall|k: RouteKey, j: int|
                    #![trigger is_path_key(paths, k), all[j]]
                    0 <= j < i && is_path_key(paths, k) && k.path_id == all[j]
                        ==> !self@.registry.dom().contains(k),
            decreases n - i,
        {
            let id = self.inner.name_at(i).clone();
            let (dest, prefix_length, luid) = {
                let p = self.inner.value_at(i);
                (p.destination, p.prefix_length, p.interface_luid)
            };
            let ghost now = self@.registry;
            match dest {
                Some(dest) => {
                    let ghost key = RouteKey { destination: dest, prefix_length, path_id: id@ };
                    let _ = self.router.remove_route(id.as_str(), dest, prefix_length, luid);
                    assert(self.router@ =~= now.remove(key));
                    assert forall|k: RouteKey|
                        is_path_key(paths, k) && k.path_id == id@ implies k == key by {
                        assert(k =~= key);
                    }
                    assert(is_path_key(paths, key));
                },
                None => {},
            }
            proof {
                assert forall|k: RouteKey| #[trigger] self@.registry.dom().contains(k) implies
                    now.dom().contains(k) && self@.registry[k] == now[k] by {}
                assert forall|k: RouteKey|
                    now.dom().contains(k) && !is_path_key(paths, k) implies
                    #[trigger] self@.registry.dom().contains(k) by {}
            }
            i = i + 1;
        }
        proof {
            assert forall|k: RouteKey| is_path_key(paths, k) implies
                !self@.registry.dom().contains(k) by {
                assert(all.contains(k.path_id));
                let j = all.index_of(k.path_id);
                assert(all[j] == k.path_id);
            }
            assert(self@.registry =~= unlaid(m, paths));
        }
        self.inner = NameMap::new();
        Ok(())
    }

    fn lookup_route(&self, path_id: &str) -> (r: Result<(Ipv4Addr, u8, u64, u32), RouteError>)
        ensures
            match r {
                Ok((dest, prefix, luid, index)) => {
                    let p = self@.paths[path_id@];
                    &&& route_fault(self@.paths, path_id@) is None
                    &&& p.destination == Some(dest)
                    &&& p.prefix_length == prefix
                    &&& p.interface_luid == luid
                    &&& p.interface_index == index
                },
                Err(e) => route_fault(self@.paths, path_id@) == Some(e@),
            },
    {
        match self.inner.get(path_id) {
            None => Err(
                RouteError {
                    error_code: 0,
                    operation: "install_path_route".to_string(),
                    destination: "".to_string(),
                    path_id: path_id.to_string(),
                    interface_luid: None,
                    stage: "lookup".to_string(),
                    message: "path not found".to_string(),
                },
            ),
            Some(p) => match p.destination {
                None => Err(
                    RouteError {
                        error_code: 0,
                        operation: "install_path_route".to_string(),
                        destination: "".to_string(),
                        path_id: path_id.to_string(),
                        interface_luid: Some(p.interface_luid),
                        stage: "destination".to_string(),
                        message: "path has no managed destination".to_string(),
                    },
                ),
                Some(dest) => Ok(
                    (dest, p.prefix_length, p.interface_luid, p.interface_index),
                ),
            },
        }
    }

    /// Gives the route of a path a metric: a route that the table holds is
    /// updated, one that it lacks is installed.
    pub fn install_path_route(&mut self, path_id: &str, metric: u32) -> (r: Result<(), RouteError>)
        ensures
            final(self)@.paths == old(self)@.paths,
            (final(self)@.registry, outcome(r)) == path_routed(old(self)@, path_id@, metric),
    {
        match self.lookup_route(path_id) {
            Err(e) => Err(e),
            Ok((dest, prefix_length, luid, index)) => {
                if self.router.route_exists(dest, prefix_length, luid) {
                    self.router.update_route_metric_os(path_id, dest, prefix_length, luid, metric)
                } else {
                    self.router.install_route(path_id, dest, prefix_length, luid, index, metric)
                }
            },
        }
    }

    /// What to ask of the system to give the route of a path a metric; `os_routes`
    /// are the routes in the system's table, which alone says what exists.
    pub fn plan_route(&self, path_id: &str, metric: u32, os_routes: &Vec<ManagedRoute>) -> (r: Result<
        RouteStep,
        RouteError,
    >)
        ensures
            match r {
                Ok(s) => {
                    let p = self@.paths[path_id@];
                    &&& route_fault(self@.paths, path_id@) is None
                    &&& s.path_id@ == path_id@
                    &&& Some(s.destination) == p.destination
                    &&& s.prefix_length == p.prefix_length
                    &&& s.interface_luid == p.interface_luid
                    &&& s.interface_index == p.interface_index
                    &&& s.metric == metric
                    &&& s.exists == among(
                        entries(os_routes@),
                        s.destination,
                        s.prefix_length,
                        s.interface_luid,
                    )
                },
                Err(e) => route_fault(self@.paths, path_id@) == Some(e@),
            },
    {
        match self.lookup_route(path_id) {
            Err(e) => Err(e),
            Ok((destination, prefix_length, interface_luid, interface_index)) => {
                let at = find_leading(os_routes, destination, prefix_length, interface_luid);
                Ok(
                    RouteStep {
                        path_id: path_id.to_string(),
                        destination,
                        prefix_length,
                        interface_luid,
                        interface_index,
                        metric,
                        exists: at < os_routes.len(),
                    },
                )
            },
        }
    }

    /// Takes in what the system answered to a step.
    pub fn apply_route(&mut self, step: &RouteStep, code: u32) -> (r: Result<(), RouteError>)
        ensures
            final(self)@ == (ManagerView {
                registry: final(self)@.registry,
                ..old(self)@
            }),
            (final(self)@.registry, outcome(r)) == route_applied(
                old(self)@.registry,
                step.path_id@,
                *step,
                code,
            ),
    {
        if step.exists {
            self.router.update_route_metric_native(
                step.path_id.as_str(),
                step.destination,
                step.prefix_length,
                step.interface_luid,
                step.metric,
                code,
            )
        } else {
            self.router.install_route_native(
                step.path_id.as_str(),
                step.destination,
                step.prefix_length,
                step.interface_luid,
                step.interface_index,
                step.metric,
                code,
            )
        }
    }

    /// Checks whether a failover can begin. With a result there is nothing to do;
    /// without one the new path is to be preferred and then tried.
    pub fn failover_begin(&self, old_path_id: &str, new_path_id: &str) -> (r: Result<
        Option<SwitchResult>,
        String,
    >)
        ensures
            match r {
                Err(e) => failover_fault(self@.paths, old_path_id@, new_path_id@) == Some(e@),
                Ok(Some(s)) => failover_fault(self@.paths, old_path_id@, new_path_id@) is None
                    && old_path_id@ == new_path_id@ && s@ == switch_view(
                    old_path_id@,
                    new_path_id@,
                    seq![],
                ),
                Ok(None) => failover_fault(self@.paths, old_path_id@, new_path_id@) is None
                    && old_path_id@ != new_path_id@,
            },
    {
        let old_path = match self.inner.get(old_path_id) {
            Some(p) => p,
            None => {
                return Err(say_about("old path", old_path_id, " not found"));
            },
        };
        let new_path = match self.inner.get(new_path_id) {
            Some(p) => p,
            None => {
                return Err(say_about("new path", new_path_id, " not found"));
            },
        };
        if new_path.destination.is_none() {
            return Err(say_about("new path", new_path_id, " has no managed destination"));
        }
        if old_path.destination.is_none() {
            return Err(say_about("old path", old_path_id, " has no managed destination"));
        }
        if new_path.interface_luid == 0 {
            return Err(say_about("new path", new_path_id, " is not connected (LUID is 0)"));
        }
        if old_path.interface_luid == 0 {
            return Err(say_about("old path", old_path_id, " is not connected (LUID is 0)"));
        }
        if same_text(old_path_id, new_path_id) {
            let s = switch_result(old_path_id, new_path_id, None);
            return Ok(Some(s));
        }
        Ok(None)
    }

    /// What follows once the route of the new path was to be preferred: the path
    /// to try, or the error.
    pub fn failover_promoted(&self, new_path_id: &str, routed: Result<(), RouteError>) -> (r: Result<
        Path,
        String,
    >)
        ensures
            match routed {
                Err(e) => r matches Err(m) && m@ == "failover: failed to install new path route: "@
                    + e@.words(),
                Ok(()) => if self@.paths.dom().contains(new_path_id@) {
                    r matches Ok(p) && p@ == self@.paths[new_path_id@]
                } else {
                    r matches Err(m) && m@ == "path not found after route install"@
                },
            },
    {
        match routed {
            Err(e) => {
                let mut out = "failover: failed to install new path route: ".to_string();
                out.append(e.text().as_str());
                Err(out)
            },
            Ok(()) => match self.get_path(new_path_id) {
                Some(p) => Ok(p),
                None => Err("path not found after route install".to_string()),
            },
        }
    }

    /// Ends a failover after the new path was tried and the metrics were set.
    pub fn failover_settle(&mut self, old_path_id: &str, new_path_id: &str, passed: bool) -> (r:
        Result<SwitchResult, String>)
        requires
            old(self)@.paths.dom().contains(new_path_id@),
            old(self)@.paths[new_path_id@].destination is Some,
        ensures
            final(self)@ == (ManagerView {
                paths: active_only(
                    old(self)@.paths,
                    if passed {
                        new_path_id@
                    } else {
                        old_path_id@
                    },
                ),
                ..old(self)@
            }),
            switched(r) == settled_result(old(self)@.paths, old_path_id@, new_path_id@, passed),
    {
        if passed {
            let route = match self.inner.get(new_path_id) {
                Some(p) => match p.destination {
                    Some(dest) => Some(range_text(dest, p.prefix_length)),
                    None => None,
                },
                None => None,
            };
            self.set_path_active(new_path_id);
            Ok(switch_result(old_path_id, new_path_id, route))
        } else {
            self.set_path_active(old_path_id);
            let first = say_about(
                "failover verification failed for path",
                new_path_id,
                "; rolled back to",
            );
            Err(say_about(first.as_str(), old_path_id, ""))
        }
    }

    /// Moves from one path to another: the new one is preferred first, then
    /// `verify` tells whether it works. If it does the old one is put on standby,
    /// else all is set back.
    pub fn failover<V: Fn(&Path) -> bool>(
        &mut self,
        old_path_id: &str,
        new_path_id: &str,
        verify: V,
    ) -> (r: Result<SwitchResult, String>)
        requires
            forall|p: &Path| #[trigger] call_requires(verify, (p,)),
        ensures
            if reaches_verification(old(self)@, old_path_id@, new_path_id@) {
                exists|p: &Path, passed: bool| #[trigger]
                    call_ensures(verify, (p,), passed) && p@ == old(self)@.paths[new_path_id@] && (
                    final(self)@,
                    switched(r),
                ) == failed_over(old(self)@, old_path_id@, new_path_id@, passed)
            } else {
                forall|passed: bool|
                    (final(self)@, switched(r)) == #[trigger] failed_over(
                        old(self)@,
                        old_path_id@,
                        new_path_id@,
                        passed,
                    )
            },
    {
        let ghost v = self@;
        match self.failover_begin(old_path_id, new_path_id) {
            Err(e) => {
                return Err(e);
            },
            Ok(Some(s)) => {
                return Ok(s);
            },
            Ok(None) => {},
        }
        let routed = self.install_path_route(new_path_id, ACTIVE_METRIC);
        let ghost first = self@;
        let path = match self.failover_promoted(new_path_id, routed) {
            Ok(p) => p,
            Err(e) => {
                return Err(e);
            },
        };
        let passed = verify(&path);
        let moves = failover_moves(old_path_id, new_path_id, passed);
        let ghost list = move_views(moves@);
        let mut i: usize = 0;
        assert(list.take(0) =~= Seq::<(Seq<char>, u32)>::empty());
        while i < moves.len()
            invariant
                i <= moves@.len(),
                list == move_views(moves@),
                self@.paths == first.paths,
                self@.registry == moved(first, list.take(i as int)),
            decreases moves@.len() - i,
        {
            assert(list.take(i as int + 1).drop_last() =~= list.take(i as int));
            assert(list.take(i as int + 1).last() == (moves@[i as int].0@, moves@[i as int].1));
            let _ = self.install_path_route(moves[i].0.as_str(), moves[i].1);
            i = i + 1;
        }
        assert(list.take(i as int) =~= list);
        let r = self.failover_settle(old_path_id, new_path_id, passed);
        assert(call_ensures(verify, (&path,), passed));
        assert((self@, switched(r)) == failed_over(v, old_path_id@, new_path_id@, passed));
        r
    }
}

/// The registry after the system's answer to a step, and the outcome.
pub open spec fn route_applied(m: Registry, id: Seq<char>, s: RouteStep, code: u32) -> (
    Registry,
    Result<(), ErrorView>,
) {
    let k = RouteKey { destination: s.destination, prefix_length: s.prefix_length, path_id: id };
    if s.exists {
        if code != 0 && code != ERROR_ACCESS_DENIED {
            (
                m,
                Err(
                    refused(
                        code,
                        "SetIpForwardEntry2"@,
                        s.destination,
                        s.prefix_length,
                        id,
                        s.interface_luid,
                        "update_os"@,
                    ),
                ),
            )
        } else if m.dom().contains(k) {
            (remetered(m, k, s.metric), Ok(()))
        } else {
            (
                m,
                Err(
                    unregistered(
                        "update_route_metric"@,
                        s.destination,
                        s.prefix_length,
                        id,
                        None,
                        "update"@,
                        "route not found in registry"@,
                    ),
                ),
            )
        }
    } else if code == 0 || code == ERROR_OBJECT_ALREADY_EXISTS || code == ERROR_ACCESS_DENIED {
        (
            installed(
                m,
                id,
                s.destination,
                s.prefix_length,
                s.interface_luid,
                s.interface_index,
                s.metric,
            ),
            Ok(()),
        )
    } else {
        (
            m,
            Err(
                refused(
                    code,
                    "CreateIpForwardEntry2"@,
                    s.destination,
                    s.prefix_length,
                    id,
                    s.interface_luid,
                    "install"@,
                ),
            ),
        )
    }
}

/// After a path was made the active one, it alone is active, and every path with
/// a destination has its route: preferred for that path, on standby for the
/// others.
pub proof fn law_activation_prefers_one_path(v: ManagerView, active: Seq<char>, id: Seq<char>)
    requires
        v.paths.dom().contains(active),
        v.paths.dom().contains(id),
    ensures
        ({
            let paths = active_only(v.paths, active);
            let p = paths[id];
            let m = relaid(v.registry, paths);
            &&& p.active == (id == active)
            &&& p.destination is Some ==> m.dom().contains(p.route_key(id)) && m[p.route_key(
                id,
            )].metric == (if id == active {
                ACTIVE_METRIC
            } else {
                STANDBY_METRIC
            }) && m[p.route_key(id)].interface_luid == p.interface_luid
        }),
{
    let paths = active_only(v.paths, active);
    if paths[id].destination is Some {
        assert(is_path_key(paths, paths[id].route_key(id)));
    }
}

} // verus!
