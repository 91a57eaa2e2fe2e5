//! Which steps bring the table in line with the paths, and what each of them does.

use crate::address::Ipv4Addr;
use crate::path_manager::reconcile::{
    answered, belongs, carried_out, failure_words, path_step, path_steps, plan, removals, serves,
    StepView,
};
use crate::path_manager::reconcile_laws::{lemma_path_steps, lemma_removals};
use crate::path_manager::{among, first_leading, PathView, TunnelState};
use crate::text::{decimal, hex_padded, signed_decimal};
use crate::windows_route_manager::{ErrorView, Registry, RouteEntry, RouteKey};
use vstd::prelude::*;

verus! {

/// Whether a route of the table goes where a path with a destination does: to the
/// same range, through the same interface.
pub open spec fn goes_along(route: RouteEntry, p: PathView) -> bool {
    &&& Some(route.destination) == p.destination
    &&& route.prefix_length == p.prefix_length
    &&& route.interface_luid == p.interface_luid
}

/// Whether no path goes where a route does.
pub open spec fn astray(route: RouteEntry, paths: Seq<PathView>) -> bool {
    forall|j: int| 0 <= j < paths.len() ==> !goes_along(route, #[trigger] paths[j])
}

/// The metric of the route of a path: that of the active one is the lower.
pub open spec fn due(p: PathView) -> u32 {
    if p.active {
        10
    } else {
        20
    }
}

/// Whether a route is the first of the table that goes along with a path.
pub open spec fn first_along(os: Seq<RouteEntry>, i: int, p: PathView) -> bool {
    &&& 0 <= i < os.len()
    &&& goes_along(os[i], p)
    &&& forall|k: int| 0 <= k < i ==> !goes_along(#[trigger] os[k], p)
}

/// Whether a path that is up calls for a step: for its route where the table has
/// none, and for another metric where the first one that it has shows a wrong one.
pub open spec fn called_for(os: Seq<RouteEntry>, p: PathView, s: StepView) -> bool {
    &&& p.tunnel_state == TunnelState::Up
    &&& p.destination matches Some(to)
    &&& match s {
        StepView::Remove { .. } => false,
        StepView::Install { path_id, destination, prefix_length, luid, index, metric } => {
            &&& forall|k: int| 0 <= k < os.len() ==> !goes_along(#[trigger] os[k], p)
            &&& path_id == p.id
            &&& destination == to
            &&& prefix_length == p.prefix_length
            &&& luid == p.interface_luid
            &&& index == p.interface_index
            &&& metric == due(p)
        },
        StepView::Correct { path_id, destination, prefix_length, luid, old_metric, new_metric } => {
            &&& exists|i: int| #[trigger] first_along(os, i, p) && os[i].metric == old_metric
            &&& old_metric != new_metric
            &&& path_id == p.id
            &&& destination == to
            &&& prefix_length == p.prefix_length
            &&& luid == p.interface_luid
            &&& new_metric == due(p)
        },
    }
}

proof fn lemma_first_along(os: Seq<RouteEntry>, p: PathView)
    requires
        p.destination is Some,
    ensures
        ({
            let to = p.destination->0;
            let i = first_leading(os, to, p.prefix_length, p.interface_luid);
            &&& among(os, to, p.prefix_length, p.interface_luid) <==> i < os.len()
            &&& i < os.len() ==> first_along(os, i, p)
            &&& i >= os.len() ==> forall|k: int|
                0 <= k < os.len() ==> !goes_along(#[trigger] os[k], p)
            &&& 0 <= i <= os.len()
        }),
    decreases os.len(),
{
    let to = p.destination->0;
    let (l, u) = (p.prefix_length, p.interface_luid);
    if os.len() > 0 && !os[0].leads(to, l, u) {
        let rest = os.drop_first();
        lemma_first_along(rest, p);
        let i = first_leading(rest, to, l, u);
        assert forall|k: int| 0 <= k < 1 + i && k < os.len() implies !goes_along(
            #[trigger] os[k],
            p,
        ) by {
            if k > 0 {
                assert(rest[k - 1] == os[k]);
            }
        }
        if i < rest.len() {
            assert(os[i + 1] == rest[i]);
        }
    } else if os.len() > 0 {
        assert(os[0].leads(to, l, u));
    }
}

proof fn lemma_called_for(os: Seq<RouteEntry>, p: PathView, s: StepView)
    ensures
        path_step(os, p) == Some(s) <==> called_for(os, p, s),
{
    if p.destination is Some {
        let to = p.destination->0;
        let i = first_leading(os, to, p.prefix_length, p.interface_luid);
        lemma_first_along(os, p);
        if i < os.len() {
            assert(first_along(os, i, p));
        }
        if let StepView::Correct { old_metric, .. } = s {
            if called_for(os, p, s) {
                let k = choose|k: int| #[trigger] first_along(os, k, p) && os[k].metric == old_metric;
                if k < i {
                    assert(!goes_along(os[k], p));
                } else if i < k {
                    assert(!goes_along(os[i], p));
                }
            }
        }
    }
}

/// The steps that are planned: a removal of each route that goes where no path
/// does, and what each path that is up calls for. The removals come first.
pub proof fn law_planned_steps(os: Seq<RouteEntry>, paths: Seq<PathView>, s: StepView)
    ensures
        plan(os, paths).contains(s) <==> {
            ||| exists|i: int|
                0 <= i < os.len() && astray(#[trigger] os[i], paths) && s == (StepView::Remove {
                    destination: os[i].destination,
                    prefix_length: os[i].prefix_length,
                    luid: os[i].interface_luid,
                })
            ||| exists|j: int| 0 <= j < paths.len() && called_for(os, #[trigger] paths[j], s)
        },
        forall|a: int, b: int|
            0 <= a < b < plan(os, paths).len() && #[trigger] plan(os, paths)[b] is Remove
                ==> #[trigger] plan(os, paths)[a] is Remove,
{
    let first = removals(os, paths);
    let second = path_steps(os, paths);
    let all = plan(os, paths);
    lemma_removals(os, paths);
    lemma_path_steps(os, paths);
    assert forall|i: int| 0 <= i < os.len() implies belongs(#[trigger] os[i], paths) == !astray(
        os[i],
        paths,
    ) by {
        if belongs(os[i], paths) {
            let j = choose|j: int|
                0 <= j < paths.len() && serves(
                    os[i],
                    #[trigger] paths[j],
                );
            assert(goes_along(os[i], paths[j]));
        } else {
            assert forall|j: int| 0 <= j < paths.len() implies !goes_along(
                os[i],
                #[trigger] paths[j],
            ) by {
                assert(!serves(os[i], paths[j]));
            }
        }
    }
    assert forall|k: int| 0 <= k < second.len() implies exists|j: int|
        0 <= j < paths.len() && called_for(os, #[trigger] paths[j], #[trigger] second[k]) by {
        let j = choose|j: int|
            0 <= j < paths.len() && path_step(os, #[trigger] paths[j]) == Some(second[k]);
        lemma_called_for(os, paths[j], second[k]);
        assert(called_for(os, paths[j], second[k]));
    }
    assert forall|a: int, b: int|
        0 <= a < b < all.len() && #[trigger] all[b] is Remove implies #[trigger] all[a] is Remove by {
        if b >= first.len() {
            assert(all[b] == second[b - first.len()]);
        } else {
            assert(all[a] == first[a]);
        }
    }
    if all.contains(s) {
        let k = all.index_of(s);
        if k < first.len() {
            assert(first[k] == s);
        } else {
            assert(second[k - first.len()] == s);
        }
    }
    if exists|i: int|
        0 <= i < os.len() && astray(#[trigger] os[i], paths) && s == (StepView::Remove {
            destination: os[i].destination,
            prefix_length: os[i].prefix_length,
            luid: os[i].interface_luid,
        }) {
        let i = choose|i: int|
            0 <= i < os.len() && astray(#[trigger] os[i], paths) && s == (StepView::Remove {
                destination: os[i].destination,
                prefix_length: os[i].prefix_length,
                luid: os[i].interface_luid,
            });
        assert(!belongs(os[i], paths));
        let k = first.index_of(s);
        assert(all[k] == s);
    }
    if exists|j: int| 0 <= j < paths.len() && called_for(os, #[trigger] paths[j], s) {
        let j = choose|j: int| 0 <= j < paths.len() && called_for(os, #[trigger] paths[j], s);
        lemma_called_for(os, paths[j], s);
        let k = second.index_of(s);
        assert(all[first.len() + k] == s);
    }
}

/// Whether one registry is another without the routes to a range through an
/// interface.
pub open spec fn cleared_of(
    m: Registry,
    n: Registry,
    destination: Ipv4Addr,
    prefix_length: u8,
    luid: u64,
) -> bool {
    forall|k: RouteKey|
        (#[trigger] n.dom().contains(k) <==> m.dom().contains(k) && !(m[k].destination
            == destination && m[k].prefix_length == prefix_length && m[k].interface_luid == luid))
            && (n.dom().contains(k) ==> n[k] == m[k])
}

/// Whether a registry has, under a key, a route of a path that leads straight into
/// an interface.
pub open spec fn holds_straight(
    n: Registry,
    k: RouteKey,
    luid: u64,
    index: u32,
    metric: u32,
) -> bool {
    &&& n.dom().contains(k)
    &&& n[k].path_id == k.path_id
    &&& n[k].destination == k.destination
    &&& n[k].prefix_length == k.prefix_length
    &&& n[k].interface_luid == luid
    &&& n[k].interface_index == index
    &&& n[k].next_hop.bits == 0
    &&& n[k].metric == metric
    &&& n[k].generation == 0
}

/// Whether two registries agree on all keys but one.
pub open spec fn alike_but(m: Registry, n: Registry, k: RouteKey) -> bool {
    forall|l: RouteKey|
        l != k ==> (#[trigger] n.dom().contains(l) <==> m.dom().contains(l)) && (m.dom().contains(l)
            ==> n[l] == m[l])
}

/// Whether a registry has a route with another metric, and nothing else changed.
pub open spec fn has_new_metric(m: Registry, n: Registry, k: RouteKey, metric: u32) -> bool {
    &&& n.dom().contains(k)
    &&& n[k].metric == metric
    &&& n[k].path_id == m[k].path_id
    &&& n[k].destination == m[k].destination
    &&& n[k].prefix_length == m[k].prefix_length
    &&& n[k].interface_luid == m[k].interface_luid
    &&& n[k].interface_index == m[k].interface_index
    &&& n[k].next_hop == m[k].next_hop
    &&& n[k].generation != m[k].generation
    &&& alike_but(m, n, k)
}

/// What a step does to the registry: a removal takes out every route to the range
/// through the interface, a correction changes the metric of a route that is
/// registered, and an installation registers the route.
pub proof fn law_step_is_carried_out(m: Registry, s: StepView)
    ensures
        ({
            let n = carried_out(m, s).0;
            match s {
                StepView::Remove { destination, prefix_length, luid } => cleared_of(
                    m,
                    n,
                    destination,
                    prefix_length,
                    luid,
                ),
                StepView::Correct { path_id, destination, prefix_length, new_metric, .. } => {
                    let k = RouteKey { destination, prefix_length, path_id };
                    if m.dom().contains(k) {
                        has_new_metric(m, n, k, new_metric)
                    } else {
                        n == m
                    }
                },
                StepView::Install { path_id, destination, prefix_length, luid, metric, .. } => {
                    let k = RouteKey { destination, prefix_length, path_id };
                    holds_straight(n, k, luid, 0, metric) && alike_but(m, n, k)
                },
            }
        }),
{
}

/// What a step does once the system has answered: a removal counts where the route
/// was taken out, was not there, or may not be touched; a correction where it was
/// made or may not be made, and the route is registered; an installation where the
/// route was made, was there, or may not be made. Any other answer changes nothing.
pub proof fn law_answered_step(m: Registry, s: StepView, code: u32)
    ensures
        ({
            let n = answered(m, s, code).0;
            match s {
                StepView::Remove { destination, prefix_length, luid } => if code == 0 || code == 2
                    || code == 5 {
                    cleared_of(m, n, destination, prefix_length, luid)
                } else {
                    n == m
                },
                StepView::Correct { path_id, destination, prefix_length, new_metric, .. } => {
                    let k = RouteKey { destination, prefix_length, path_id };
                    if (code == 0 || code == 5) && m.dom().contains(k) {
                        has_new_metric(m, n, k, new_metric)
                    } else {
                        n == m
                    }
                },
                StepView::Install { path_id, destination, prefix_length, luid, index, metric } => {
                    let k = RouteKey { destination, prefix_length, path_id };
                    if code == 0 || code == 5 || code == 1117 {
                        holds_straight(n, k, luid, index, metric) && alike_but(m, n, k)
                    } else {
                        n == m
                    }
                },
            }
        }),
{
}

/// What is reported of a step that was carried out: which route was removed, which
/// path has another metric and which one, or which path has its route again.
pub proof fn law_reports_of_success(m: Registry, s: StepView)
    requires
        s matches StepView::Correct { path_id, destination, prefix_length, .. } ==> m.dom().contains(
            RouteKey { destination, prefix_length, path_id },
        ),
    ensures
        ({
            let r = carried_out(m, s).1;
            match s {
                StepView::Remove { destination, prefix_length, luid } => r
                    == "enumerate_and_reconcile: "@ + "removed orphan route dest="@
                    + destination.dotted() + "/"@ + decimal(prefix_length as nat) + ", luid=0x"@
                    + hex_padded(luid as nat, 1),
                StepView::Correct { path_id, destination, old_metric, new_metric, .. } => r
                    == "enumerate_and_reconcile: "@ + "corrected metric for path"@ + " '"@ + path_id
                    + "'"@ + " (dest="@ + destination.dotted() + ", old_metric="@ + decimal(
                    old_metric as nat,
                ) + ", new_metric="@ + decimal(new_metric as nat) + ")"@,
                StepView::Install { path_id, destination, metric, .. } => r
                    == "enumerate_and_reconcile: "@ + "installed missing route for path"@ + " '"@
                    + path_id + "'"@ + " (dest="@ + destination.dotted() + ", metric="@ + decimal(
                    metric as nat,
                ) + ")"@,
            }
        }),
{
}

/// What is reported of a step that failed: which step of which path, and the error
/// in words.
pub proof fn law_reports_of_failure(s: StepView, e: ErrorView)
    ensures
        ({
            let words = e.operation + " failed: "@ + e.message + " (code="@ + signed_decimal(
                e.error_code as int,
            ) + ", path="@ + e.path_id + ", dest="@ + e.destination + ", stage="@ + e.stage + ")"@;
            failure_words(s, e) == match s {
                StepView::Remove { .. } => "enumerate_and_reconcile: "@
                    + "failed to remove orphan: "@ + words,
                StepView::Correct { path_id, .. } => "enumerate_and_reconcile: "@
                    + "failed to correct metric for path"@ + " '"@ + path_id + "'"@ + ": "@ + words,
                StepView::Install { path_id, .. } => "enumerate_and_reconcile: "@
                    + "failed to install route for path"@ + " '"@ + path_id + "'"@ + ": "@ + words,
            }
        }),
{
}

} // verus!
