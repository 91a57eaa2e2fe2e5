//! Bringing the routes in the system's table in line with the paths.

use crate::address::Ipv4Addr;
use crate::path_manager::{
    about, among, find_leading, first_leading, lists_paths, path_views, say_about, ManagerView,
    Path, PathManager, PathView, TunnelState,
};
use crate::text::{decimal, hex_padded, push_decimal, push_hex, texts};
use crate::windows_route_manager::{
    entries, installed, lists_registry, refused, remetered, unregistered, without, ErrorView,
    ManagedRoute, Registry, RouteEntry, RouteError, RouteKey, ACTIVE_METRIC,
    ERROR_ACCESS_DENIED, ERROR_FILE_NOT_FOUND, ERROR_OBJECT_ALREADY_EXISTS, STANDBY_METRIC,
};
use vstd::prelude::*;

verus! {

/// A change to the system's table.
#[derive(Debug, Clone)]
pub enum ReconcileStep {
    /// Remove a route that belongs to no path.
    Remove { destination: Ipv4Addr, prefix_length: u8, interface_luid: u64 },
    /// Correct the metric of the route of a path.
    Correct {
        path_id: String,
        destination: Ipv4Addr,
        prefix_length: u8,
        interface_luid: u64,
        old_metric: u32,
        new_metric: u32,
    },
    /// Install the route of a path.
    Install {
        path_id: String,
        destination: Ipv4Addr,
        prefix_length: u8,
        interface_luid: u64,
        interface_index: u32,
        metric: u32,
    },
}

/// What a `ReconcileStep` holds.
#[verifier::ext_equal]
pub enum StepView {
    Remove { destination: Ipv4Addr, prefix_length: u8, luid: u64 },
    Correct {
        path_id: Seq<char>,
        destination: Ipv4Addr,
        prefix_length: u8,
        luid: u64,
        old_metric: u32,
        new_metric: u32,
    },
    Install {
        path_id: Seq<char>,
        destination: Ipv4Addr,
        prefix_length: u8,
        luid: u64,
        index: u32,
        metric: u32,
    },
}

impl View for ReconcileStep {
    type V = StepView;

    open spec fn view(&self) -> StepView {
        match *self {
            ReconcileStep::Remove { destination, prefix_length, interface_luid } => {
                StepView::Remove { destination, prefix_length, luid: interface_luid }
            },
            ReconcileStep::Correct {
                path_id,
                destination,
                prefix_length,
                interface_luid,
                old_metric,
                new_metric,
            } => StepView::Correct {
                path_id: path_id@,
                destination,
                prefix_length,
                luid: interface_luid,
                old_metric,
                new_metric,
            },
            ReconcileStep::Install {
                path_id,
                destination,
                prefix_length,
                interface_luid,
                interface_index,
                metric,
            } => StepView::Install {
                path_id: path_id@,
                destination,
                prefix_length,
                luid: interface_luid,
                index: interface_index,
                metric,
            },
        }
    }
}

/// What a list of steps holds.
pub open spec fn step_views(list: Seq<ReconcileStep>) -> Seq<StepView> {
    Seq::new(list.len(), |i: int| list[i]@)
}

/// Whether a route is the one that a path asks for.
pub open spec fn serves(route: RouteEntry, p: PathView) -> bool {
    &&& p.interface_luid == route.interface_luid
    &&& p.destination == Some(route.destination)
    &&& p.prefix_length == route.prefix_length
}

/// Whether a route is the one that some path asks for.
pub open spec fn belongs(route: RouteEntry, paths: Seq<PathView>) -> bool {
    exists|i: int| 0 <= i < paths.len() && serves(route, #[trigger] paths[i])
}

/// The removals of the routes that belong to no path, in their order.
pub open spec fn removals(os: Seq<RouteEntry>, paths: Seq<PathView>) -> Seq<StepView>
    decreases os.len(),
{
    if os.len() == 0 {
        seq![]
    } else {
        let rest = removals(os.drop_last(), paths);
        let route = os.last();
        if belongs(route, paths) {
            rest
        } else {
            rest.push(
                StepView::Remove {
                    destination: route.destination,
                    prefix_length: route.prefix_length,
                    luid: route.interface_luid,
                },
            )
        }
    }
}

/// The step that a path needs, if any: only a path that is up and has a
/// destination needs one.
pub open spec fn path_step(os: Seq<RouteEntry>, p: PathView) -> Option<StepView> {
    match p.destination {
        None => None,
        Some(destination) => if p.tunnel_state != TunnelState::Up {
            None
        } else if among(os, destination, p.prefix_length, p.interface_luid) {
            let found = os[first_leading(os, destination, p.prefix_length, p.interface_luid)];
            if found.metric == p.metric() {
                None
            } else {
                Some(
                    StepView::Correct {
                        path_id: p.id,
                        destination,
                        prefix_length: p.prefix_length,
                        luid: p.interface_luid,
                        old_metric: found.metric,
                        new_metric: p.metric(),
                    },
                )
            }
        } else {
            Some(
                StepView::Install {
                    path_id: p.id,
                    destination,
                    prefix_length: p.prefix_length,
                    luid: p.interface_luid,
                    index: p.interface_index,
                    metric: p.metric(),
                },
            )
        },
    }
}

/// The steps that the paths need, in their order.
pub open spec fn path_steps(os: Seq<RouteEntry>, paths: Seq<PathView>) -> Seq<StepView>
    decreases paths.len(),
{
    if paths.len() == 0 {
        seq![]
    } else {
        let rest = path_steps(os, paths.drop_last());
        match path_step(os, paths.last()) {
            Some(s) => rest.push(s),
            None => rest,
        }
    }
}

/// All steps that bring the table in line with the paths.
pub open spec fn plan(os: Seq<RouteEntry>, paths: Seq<PathView>) -> Seq<StepView> {
    removals(os, paths) + path_steps(os, paths)
}

/// The beginning of every report.
pub open spec fn heading() -> Seq<char> {
    "enumerate_and_reconcile: "@
}

/// The report of a step that worked.
pub open spec fn success_words(s: StepView) -> Seq<char> {
    match s {
        StepView::Remove { destination, prefix_length, luid } => heading()
            + "removed orphan route dest="@ + destination.dotted() + "/"@ + decimal(
            prefix_length as nat,
        ) + ", luid=0x"@ + hex_padded(luid as nat, 1),
        StepView::Correct { path_id, destination, old_metric, new_metric, .. } => about(
            heading() + "corrected metric for path"@,
            path_id,
            " (dest="@,
        ) + destination.dotted() + ", old_metric="@ + decimal(old_metric as nat)
            + ", new_metric="@ + decimal(new_metric as nat) + ")"@,
        StepView::Install { path_id, destination, metric, .. } => about(
            heading() + "installed missing route for path"@,
            path_id,
            " (dest="@,
        ) + destination.dotted() + ", metric="@ + decimal(metric as nat) + ")"@,
    }
}

/// The report of a step that failed.
pub open spec fn failure_words(s: StepView, e: ErrorView) -> Seq<char> {
    match s {
        StepView::Remove { .. } => heading() + "failed to remove orphan: "@ + e.words(),
        StepView::Correct { path_id, .. } => about(
            heading() + "failed to correct metric for path"@,
            path_id,
            ": "@,
        ) + e.words(),
        StepView::Install { path_id, .. } => about(
            heading() + "failed to install route for path"@,
            path_id,
            ": "@,
        ) + e.words(),
    }
}

/// The error for a route that should be in the registry.
pub open spec fn not_registered(destination: Ipv4Addr, prefix_length: u8, path_id: Seq<char>) -> ErrorView {
    unregistered(
        "update_route_metric"@,
        destination,
        prefix_length,
        path_id,
        None,
        "update"@,
        "route not found in registry"@,
    )
}

/// The registry after a step, and the report.
pub open spec fn carried_out(m: Registry, s: StepView) -> (Registry, Seq<char>) {
    match s {
        StepView::Remove { destination, prefix_length, luid } => (
            without(m, destination, prefix_length, luid),
            success_words(s),
        ),
        StepView::Correct { path_id, destination, prefix_length, new_metric, .. } => {
            let k = RouteKey { destination, prefix_length, path_id };
            if m.dom().contains(k) {
                (remetered(m, k, new_metric), success_words(s))
            } else {
                (m, failure_words(s, not_registered(destination, prefix_length, path_id)))
            }
        },
        StepView::Install { path_id, destination, prefix_length, luid, metric, .. } => (
            installed(m, path_id, destination, prefix_length, luid, 0, metric),
            success_words(s),
        ),
    }
}

/// The registry after some steps, and the reports.
pub open spec fn all_carried_out(m: Registry, steps: Seq<StepView>) -> (Registry, Seq<Seq<char>>)
    decreases steps.len(),
{
    if steps.len() == 0 {
        (m, seq![])
    } else {
        let before = all_carried_out(m, steps.drop_last());
        let last = carried_out(before.0, steps.last());
        (last.0, before.1.push(last.1))
    }
}

/// Whether one state follows from another by bringing the registry, as the table,
/// in line with the paths, and what is reported of it.
pub open spec fn reconciles(v: ManagerView, w: ManagerView, reports: Seq<Seq<char>>) -> bool {
    &&& w.paths == v.paths
    &&& exists|os: Seq<RouteEntry>, list: Seq<PathView>, names: Seq<Seq<char>>|
        #![trigger lists_registry(os, v.registry), lists_paths(list, names, v.paths)]
        lists_registry(os, v.registry) && lists_paths(list, names, v.paths) && (w.registry, reports)
            == all_carried_out(v.registry, plan(os, list))
}

fn belongs_to(route: &ManagedRoute, paths: &Vec<Path>) -> (r: bool)
    ensures
        r == belongs(route@, path_views(paths@)),
{
    let ghost list = path_views(paths@);
    let mut i: usize = 0;
    while i < paths.len()
        invariant
            i <= paths@.len(),
            list == path_views(paths@),
            forall|j: int| 0 <= j < i ==> !serves(route@, #[trigger] list[j]),
        decreases paths@.len() - i,
    {
        let p = &paths[i];
        assert(list[i as int] == p@);
        let same_range = match p.destination {
            Some(d) => d == route.destination,
            None => false,
        };
        if p.interface_luid == route.interface_luid && same_range && p.prefix_length
            == route.prefix_length {
            return true;
        }
        i = i + 1;
    }
    false
}

fn step_for(os: &Vec<ManagedRoute>, p: &Path) -> (r: Option<ReconcileStep>)
    ensures
        match r {
            Some(s) => path_step(entries(os@), p@) == Some(s@),
            None => path_step(entries(os@), p@) is None,
        },
{
    let destination = match p.destination {
        None => {
            return None;
        },
        Some(d) => d,
    };
    if p.tunnel_state != TunnelState::Up {
        return None;
    }
    let expected: u32 = if p.active {
        ACTIVE_METRIC
    } else {
        STANDBY_METRIC
    };
    let at = find_leading(os, destination, p.prefix_length, p.interface_luid);
    if at < os.len() {
        assert(entries(os@)[at as int] == os@[at as int]@);
        if os[at].metric == expected {
            None
        } else {
            Some(
                ReconcileStep::Correct {
                    path_id: p.id.as_str().to_string(),
                    destination,
                    prefix_length: p.prefix_length,
                    interface_luid: p.interface_luid,
                    old_metric: os[at].metric,
                    new_metric: expected,
                },
            )
        }
    } else {
        Some(
            ReconcileStep::Install {
                path_id: p.id.as_str().to_string(),
                destination,
                prefix_length: p.prefix_length,
                interface_luid: p.interface_luid,
                interface_index: p.interface_index,
                metric: expected,
            },
        )
    }
}

/// The steps that bring the table in line with the paths: the routes that belong
/// to no path go, wrong metrics are corrected, missing routes are installed.
pub fn plan_steps(os_routes: &Vec<ManagedRoute>, paths: &Vec<Path>) -> (r: Vec<ReconcileStep>)
    ensures
        step_views(r@) == plan(entries(os_routes@), path_views(paths@)),
{
    let ghost os = entries(os_routes@);
    let ghost list = path_views(paths@);
    let mut out: Vec<ReconcileStep> = Vec::new();
    let mut i: usize = 0;
    assert(os.take(0) =~= Seq::<RouteEntry>::empty());
    assert(step_views(out@) =~= removals(os.take(0), list));
    while i < os_routes.len()
        invariant
            i <= os_routes@.len(),
            os == entries(os_routes@),
            list == path_views(paths@),
            step_views(out@) == removals(os.take(i as int), list),
        decreases os_routes@.len() - i,
    {
        let route = &os_routes[i];
        let ghost before = out@;
        assert(os.take(i as int + 1).drop_last() =~= os.take(i as int));
        assert(os.take(i as int + 1).last() == route@);
        if !belongs_to(route, paths) {
            out.push(
                ReconcileStep::Remove {
                    destination: route.destination,
                    prefix_length: route.prefix_length,
                    interface_luid: route.interface_luid,
                },
            );
            assert(step_views(out@) =~= step_views(before).push(out@.last()@));
        }
        i = i + 1;
    }
    assert(os.take(i as int) =~= os);
    let ghost first = removals(os, list);
    let mut j: usize = 0;
    assert(list.take(0) =~= Seq::<PathView>::empty());
    assert(first + path_steps(os, list.take(0)) =~= first);
    while j < paths.len()
        invariant
            j <= paths@.len(),
            os == entries(os_routes@),
            list == path_views(paths@),
            step_views(out@) == first + path_steps(os, list.take(j as int)),
        decreases paths@.len() - j,
    {
        let ghost before = out@;
        let ghost rest = path_steps(os, list.take(j as int));
        assert(list.take(j as int + 1).drop_last() =~= list.take(j as int));
        assert(list.take(j as int + 1).last() == paths@[j as int]@);
        match step_for(os_routes, &paths[j]) {
            Some(s) => {
                let ghost v = s@;
                out.push(s);
                assert(step_views(out@) =~= step_views(before).push(v));
                assert((first + rest).push(v) =~= first + rest.push(v));
            },
            None => {},
        }
        j = j + 1;
    }
    assert(list.take(j as int) =~= list);
    out
}

fn report_success(s: &ReconcileStep) -> (r: String)
    ensures
        r@ == success_words(s@),
{
    let mut out = "enumerate_and_reconcile: ".to_string();
    match s {
        ReconcileStep::Remove { destination, prefix_length, interface_luid } => {
            out.append("removed orphan route dest=");
            destination.push_dotted(&mut out);
            out.append("/");
            push_decimal(&mut out, *prefix_length as u64);
            out.append(", luid=0x");
            push_hex(&mut out, *interface_luid, 1);
        },
        ReconcileStep::Correct { path_id, destination, old_metric, new_metric, .. } => {
            out.append("corrected metric for path");
            out = say_about(out.as_str(), path_id.as_str(), " (dest=");
            destination.push_dotted(&mut out);
            out.append(", old_metric=");
            push_decimal(&mut out, *old_metric as u64);
            out.append(", new_metric=");
            push_decimal(&mut out, *new_metric as u64);
            out.append(")");
        },
        ReconcileStep::Install { path_id, destination, metric, .. } => {
            out.append("installed missing route for path");
            out = say_about(out.as_str(), path_id.as_str(), " (dest=");
            destination.push_dotted(&mut out);
            out.append(", metric=");
            push_decimal(&mut out, *metric as u64);
            out.append(")");
        },
    }
    out
}

fn report_failure(s: &ReconcileStep, e: &RouteError) -> (r: String)
    ensures
        r@ == failure_words(s@, e@),
{
    let mut out = "enumerate_and_reconcile: ".to_string();
    match s {
        ReconcileStep::Remove { .. } => {
            out.append("failed to remove orphan: ");
        },
        ReconcileStep::Correct { path_id, .. } => {
            out.append("failed to correct metric for path");
            out = say_about(out.as_str(), path_id.as_str(), ": ");
        },
        ReconcileStep::Install { path_id, .. } => {
            out.append("failed to install route for path");
            out = say_about(out.as_str(), path_id.as_str(), ": ");
        },
    }
    out.append(e.text().as_str());
    out
}

fn report(s: &ReconcileStep, done: Result<(), RouteError>) -> (r: String)
    ensures
        r@ == match done {
            Ok(()) => success_words(s@),
            Err(e) => failure_words(s@, e@),
        },
{
    match done {
        Ok(()) => report_success(s),
        Err(e) => report_failure(s, &e),
    }
}

/// The registry after the system answered a step with a code, and the report.
pub open spec fn answered(m: Registry, s: StepView, code: u32) -> (Registry, Seq<char>) {
    match s {
        StepView::Remove { destination, prefix_length, luid } => if code == 0 || code == ERROR_FILE_NOT_FOUND || code
            == ERROR_ACCESS_DENIED {
            (without(m, destination, prefix_length, luid), success_words(s))
        } else {
            (
                m,
                failure_words(
                    s,
                    refused(
                        code,
                        "DeleteIpForwardEntry2"@,
                        destination,
                        prefix_length,
                        "orphan"@,
                        luid,
                        "remove_os"@,
                    ),
                ),
            )
        },
        StepView::Correct { path_id, destination, prefix_length, luid, new_metric, .. } => {
            let k = RouteKey { destination, prefix_length, path_id };
            if code != 0 && code != ERROR_ACCESS_DENIED {
                (
                    m,
                    failure_words(
                        s,
                        refused(
                            code,
                            "SetIpForwardEntry2"@,
                            destination,
                            prefix_length,
                            path_id,
                            luid,
                            "update_os"@,
                        ),
                    ),
                )
            } else if m.dom().contains(k) {
                (remetered(m, k, new_metric), success_words(s))
            } else {
                (m, failure_words(s, not_registered(destination, prefix_length, path_id)))
            }
        },
        StepView::Install { path_id, destination, prefix_length, luid, index, metric } => if code
            == 0 || code == ERROR_OBJECT_ALREADY_EXISTS || code == ERROR_ACCESS_DENIED {
            (
                installed(m, path_id, destination, prefix_length, luid, index, metric),
                success_words(s),
            )
        } else {
            (
                m,
                failure_words(
                    s,
                    refused(
                        code,
                        "CreateIpForwardEntry2"@,
                        destination,
                        prefix_length,
                        path_id,
                        luid,
                        "install"@,
                    ),
                ),
            )
        },
    }
}

impl PathManager {
    fn carry_out(&mut self, s: &ReconcileStep) -> (r: String)
        ensures
            final(self)@.paths == old(self)@.paths,
            (final(self)@.registry, r@) == carried_out(old(self)@.registry, s@),
    {
        let done = match s {
            ReconcileStep::Remove { destination, prefix_length, interface_luid } => {
                self.router_mut().remove_route_os(*destination, *prefix_length, *interface_luid)
            },
            ReconcileStep::Correct {
                path_id,
                destination,
                prefix_length,
                interface_luid,
                new_metric,
                ..
            } => self.router_mut().update_route_metric_os(
                path_id.as_str(),
                *destination,
                *prefix_length,
                *interface_luid,
                *new_metric,
            ),
            ReconcileStep::Install {
                path_id,
                destination,
                prefix_length,
                interface_luid,
                interface_index,
                metric,
            } => self.router_mut().install_route(
                path_id.as_str(),
                *destination,
                *prefix_length,
                *interface_luid,
                *interface_index,
                *metric,
            ),
        };
        report(s, done)
    }

    /// Takes in what the system answered to a step, and reports it.
    pub fn apply_step(&mut self, s: &ReconcileStep, code: u32) -> (r: String)
        ensures
            final(self)@.paths == old(self)@.paths,
            (final(self)@.registry, r@) == answered(old(self)@.registry, s@, code),
    {
        let done = match s {
            ReconcileStep::Remove { destination, prefix_length, interface_luid } => {
                self.router_mut().remove_route_os_native(
                    *destination,
                    *prefix_length,
                    *interface_luid,
                    code,
                )
            },
            ReconcileStep::Correct {
                path_id,
                destination,
                prefix_length,
                interface_luid,
                new_metric,
                ..
            } => self.router_mut().update_route_metric_native(
                path_id.as_str(),
                *destination,
                *prefix_length,
                *interface_luid,
                *new_metric,
                code,
            ),
            ReconcileStep::Install {
                path_id,
                destination,
                prefix_length,
                interface_luid,
                interface_index,
                metric,
            } => self.router_mut().install_route_native(
                path_id.as_str(),
                *destination,
                *prefix_length,
                *interface_luid,
                *interface_index,
                *metric,
                code,
            ),
        };
        report(s, done)
    }

    /// The steps that bring the system's routes in line with the paths.
    pub fn reconcile_plan(&self, os_routes: &Vec<ManagedRoute>) -> (r: Vec<ReconcileStep>)
        ensures
            exists|list: Seq<PathView>, names: Seq<Seq<char>>| #[trigger]
                lists_paths(list, names, self@.paths) && step_views(r@) == plan(
                    entries(os_routes@),
                    list,
                ),
    {
        let paths = self.get_paths();
        plan_steps(os_routes, &paths)
    }

    /// Brings the routes in line with the paths, and reports each step.
    pub fn enumerate_and_reconcile(&mut self) -> (r: Vec<String>)
        ensures
            reconciles(old(self)@, final(self)@, texts(r@)),
    {
        let ghost v = self@;
        let os_routes = self.router().enumerate_windows_routes();
        let paths = self.get_paths();
        let steps = plan_steps(&os_routes, &paths);
        let ghost all = step_views(steps@);
        let mut out: Vec<String> = Vec::new();
        let mut i: usize = 0;
        assert(all.take(0) =~= Seq::<StepView>::empty());
        assert(texts(out@) =~= Seq::<Seq<char>>::empty());
        while i < steps.len()
            invariant
                i <= steps@.len(),
                all == step_views(steps@),
                self@.paths == v.paths,
                (self@.registry, texts(out@)) == all_carried_out(v.registry, all.take(i as int)),
            decreases steps@.len() - i,
        {
            let ghost before = out@;
            assert(all.take(i as int + 1).drop_last() =~= all.take(i as int));
            assert(all.take(i as int + 1).last() == steps@[i as int]@);
            let line = self.carry_out(&steps[i]);
            let ghost words = line@;
            out.push(line);
            assert(texts(out@) =~= texts(before).push(words));
            i = i + 1;
        }
        assert(all.take(i as int) =~= all);
        out
    }
}

} // verus!
