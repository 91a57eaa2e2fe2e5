//! The routes of the paths, and when a failover begins.

use crate::address::Ipv4Addr;
use crate::path_manager::{
    active_only, failed_over, failover_fault, is_path_key, moves_after, path_routed,
    reaches_verification, relaid, route_applied, unlaid, ManagerView, Paths, RouteStep,
};
use crate::text::decimal;
use crate::windows_route_manager::{
    installed, leads_somewhere, range_words, recovered, refused, remetered, unregistered, without,
    ForwardRow, Registry, RouteEntry, RouteKey, SwitchView,
};
use vstd::prelude::*;

verus! {

// ---------------------------------------------------------------------------
// The registry
// ---------------------------------------------------------------------------

/// The route that a program lays: straight into an interface, with a metric.
pub open spec fn straight_route(
    k: RouteKey,
    luid: u64,
    index: u32,
    metric: u32,
    generation: u64,
) -> RouteEntry {
    RouteEntry {
        path_id: k.path_id,
        destination: k.destination,
        prefix_length: k.prefix_length,
        interface_luid: luid,
        interface_index: index,
        next_hop: Ipv4Addr { bits: 0 },
        metric,
        generation,
    }
}

/// A route that is installed is found under its range and path, as it was given,
/// and all other routes stay.
pub proof fn law_installed_route_is_found(
    m: Registry,
    k: RouteKey,
    luid: u64,
    index: u32,
    metric: u32,
    other: RouteKey,
)
    ensures
        ({
            let n = installed(m, k.path_id, k.destination, k.prefix_length, luid, index, metric);
            &&& n.dom().contains(k)
            &&& n[k] == straight_route(k, luid, index, metric, 0)
            &&& leads_somewhere(n, k.destination, k.prefix_length, luid)
            &&& other != k ==> n.dom().contains(other) == m.dom().contains(other)
            &&& other != k && m.dom().contains(other) ==> n[other] == m[other]
        }),
{
    let n = installed(m, k.path_id, k.destination, k.prefix_length, luid, index, metric);
    let l = RouteKey {
        destination: k.destination,
        prefix_length: k.prefix_length,
        path_id: k.path_id,
    };
    assert(l == k);
    assert(n.dom().contains(k) && n[k].leads(k.destination, k.prefix_length, luid));
}

/// A new metric makes a new generation of a route, and changes nothing else of it.
pub proof fn law_metric_makes_generation(m: Registry, k: RouteKey, metric: u32)
    requires
        m.dom().contains(k),
        m[k].generation < u64::MAX,
    ensures
        remetered(m, k, metric)[k] == (RouteEntry {
            metric,
            generation: (m[k].generation + 1) as u64,
            ..m[k]
        }),
{
}

/// A route leads to a range through an interface exactly where it has that range
/// and that interface; removing by these leaves nothing else out.
pub proof fn law_removed_by_range(
    m: Registry,
    destination: Ipv4Addr,
    prefix_length: u8,
    luid: u64,
    k: RouteKey,
)
    ensures
        ({
            let n = without(m, destination, prefix_length, luid);
            &&& n.dom().contains(k) <==> m.dom().contains(k) && !(m[k].destination == destination
                && m[k].prefix_length == prefix_length && m[k].interface_luid == luid)
            &&& n.dom().contains(k) ==> n[k] == m[k]
        }),
{
}

/// The routes that the system's table gives back are those with the tag of network
/// management, in order, each as the table has it.
pub proof fn law_recovered_routes(rows: Seq<ForwardRow>)
    ensures
        recovered(rows) == rows.filter(|r: ForwardRow| r.protocol == 3).map_values(
            |r: ForwardRow|
                RouteEntry {
                    path_id: "recovered"@,
                    destination: r.destination,
                    prefix_length: r.prefix_length,
                    interface_luid: r.interface_luid,
                    interface_index: r.interface_index,
                    next_hop: Ipv4Addr { bits: 0 },
                    metric: r.metric,
                    generation: 0,
                },
        ),
    decreases rows.len(),
{
    reveal(Seq::filter);
    let f = |r: ForwardRow| r.protocol == 3;
    let g = |r: ForwardRow|
        RouteEntry {
            path_id: "recovered"@,
            destination: r.destination,
            prefix_length: r.prefix_length,
            interface_luid: r.interface_luid,
            interface_index: r.interface_index,
            next_hop: Ipv4Addr { bits: 0 },
            metric: r.metric,
            generation: 0,
        };
    if rows.len() > 0 {
        let rest = rows.drop_last();
        law_recovered_routes(rest);
        if f(rows.last()) {
            assert(rows.filter(f) == rest.filter(f).push(rows.last()));
            assert(rows.filter(f).map_values(g) =~= rest.filter(f).map_values(g).push(
                g(rows.last()),
            ));
        } else {
            assert(rows.filter(f) == rest.filter(f));
        }
    } else {
        assert(recovered(rows) =~= rows.filter(f).map_values(g));
    }
}

/// A range in words is its address, a slash and its length.
pub proof fn law_range_in_words(destination: Ipv4Addr, prefix_length: u8)
    ensures
        range_words(destination, prefix_length) == destination.dotted() + "/"@ + decimal(
            prefix_length as nat,
        ),
{
}

// ---------------------------------------------------------------------------
// The route of a path
// ---------------------------------------------------------------------------

/// Giving the route of a path a metric. It takes a path with a destination. Where
/// no route leads there through the path's interface yet, it is installed; where
/// one does, it has to be the path's own, and gets the metric. Otherwise nothing
/// changes and it is an error.
pub proof fn law_route_of_a_path(v: ManagerView, id: Seq<char>, metric: u32)
    ensures
        ({
            let p = v.paths[id];
            let k = RouteKey {
                destination: p.destination->0,
                prefix_length: p.prefix_length,
                path_id: id,
            };
            let there = exists|l: RouteKey| #[trigger]
                v.registry.dom().contains(l) && v.registry[l].destination == k.destination
                    && v.registry[l].prefix_length == k.prefix_length
                    && v.registry[l].interface_luid == p.interface_luid;
            let (m, r) = path_routed(v, id, metric);
            if !v.paths.dom().contains(id) || p.destination is None || (there
                && !v.registry.dom().contains(k)) {
                m == v.registry && r is Err
            } else {
                &&& r is Ok
                &&& m.dom().contains(k)
                &&& m[k].metric == metric
                &&& !there ==> m[k] == straight_route(k, p.interface_luid, 0, metric, 0)
                &&& there ==> m[k].interface_luid == v.registry[k].interface_luid
                &&& forall|l: RouteKey|
                    l != k ==> (#[trigger] m.dom().contains(l) <==> v.registry.dom().contains(l))
                        && (v.registry.dom().contains(l) ==> m[l] == v.registry[l])
            }
        }),
{
    let p = v.paths[id];
    let k = RouteKey {
        destination: p.destination->0,
        prefix_length: p.prefix_length,
        path_id: id,
    };
    assert(p.route_key(id) == k);
    if leads_somewhere(v.registry, k.destination, k.prefix_length, p.interface_luid) {
        let l = choose|l: RouteKey| #[trigger]
            v.registry.dom().contains(l) && v.registry[l].leads(
                k.destination,
                k.prefix_length,
                p.interface_luid,
            );
        assert(v.registry.dom().contains(l));
    } else {
        assert forall|l: RouteKey| #[trigger] v.registry.dom().contains(l) implies !(
        v.registry[l].destination == k.destination && v.registry[l].prefix_length
            == k.prefix_length && v.registry[l].interface_luid == p.interface_luid) by {
            assert(!v.registry[l].leads(k.destination, k.prefix_length, p.interface_luid));
        }
    }
}

/// The system's answer to a request for the route of a path. A new metric counts
/// where the system took it, or would not let the program change it, and the route
/// is registered; a new route counts where the system made it, had it, or would
/// not let the program make it. Any other answer changes nothing.
pub proof fn law_answer_counts(m: Registry, id: Seq<char>, s: RouteStep, code: u32)
    ensures
        ({
            let k = RouteKey {
                destination: s.destination,
                prefix_length: s.prefix_length,
                path_id: id,
            };
            let (n, r) = route_applied(m, id, s, code);
            let counts = if s.exists {
                (code == 0 || code == 5) && m.dom().contains(k)
            } else {
                code == 0 || code == 5 || code == 1117
            };
            &&& r is Ok <==> counts
            &&& !counts ==> n == m
            &&& counts ==> n.dom().contains(k) && n[k].metric == s.metric
            &&& counts && !s.exists ==> n[k] == straight_route(
                k,
                s.interface_luid,
                s.interface_index,
                s.metric,
                0,
            )
            &&& forall|l: RouteKey|
                l != k ==> (#[trigger] n.dom().contains(l) <==> m.dom().contains(l)) && (
                m.dom().contains(l) ==> n[l] == m[l])
        }),
{
}

/// Whether a key is that of the route of a path with a destination.
pub open spec fn of_a_path(paths: Paths, k: RouteKey) -> bool {
    exists|id: Seq<char>| #[trigger]
        paths.dom().contains(id) && paths[id].destination is Some && k == RouteKey {
            destination: paths[id].destination->0,
            prefix_length: paths[id].prefix_length,
            path_id: id,
        }
}

proof fn lemma_of_a_path(paths: Paths, k: RouteKey)
    ensures
        is_path_key(paths, k) == of_a_path(paths, k),
{
    if is_path_key(paths, k) {
        assert(paths.dom().contains(k.path_id));
    }
}

/// Laying the routes of all paths anew: each path with a destination has its route
/// through its interface, with metric 10 for the active path and 20 for any other;
/// all other routes stay. Taking them up leaves only those others.
pub proof fn law_routes_are_laid(m: Registry, paths: Paths, k: RouteKey)
    ensures
        ({
            let n = relaid(m, paths);
            let u = unlaid(m, paths);
            if of_a_path(paths, k) {
                let p = paths[k.path_id];
                &&& n.dom().contains(k)
                &&& n[k] == straight_route(
                    k,
                    p.interface_luid,
                    0,
                    if p.active {
                        10
                    } else {
                        20
                    },
                    1,
                )
                &&& !u.dom().contains(k)
            } else {
                &&& n.dom().contains(k) <==> m.dom().contains(k)
                &&& u.dom().contains(k) <==> m.dom().contains(k)
                &&& m.dom().contains(k) ==> n[k] == m[k] && u[k] == m[k]
            }
        }),
{
    lemma_of_a_path(paths, k);
}

// ---------------------------------------------------------------------------
// Failover
// ---------------------------------------------------------------------------

/// A failover can begin exactly where both paths exist, have a destination and are
/// connected; otherwise the message names the path that it fails for.
pub proof fn law_when_failover_begins(paths: Paths, old_id: Seq<char>, new_id: Seq<char>)
    ensures
        failover_fault(paths, old_id, new_id) is None <==> {
            &&& paths.dom().contains(old_id)
            &&& paths.dom().contains(new_id)
            &&& paths[old_id].destination is Some
            &&& paths[new_id].destination is Some
            &&& paths[old_id].interface_luid != 0
            &&& paths[new_id].interface_luid != 0
        },
        !paths.dom().contains(old_id) ==> failover_fault(paths, old_id, new_id) == Some(
            "old path"@ + " '"@ + old_id + "'"@ + " not found"@,
        ),
        paths.dom().contains(old_id) && !paths.dom().contains(new_id) ==> failover_fault(
            paths,
            old_id,
            new_id,
        ) == Some("new path"@ + " '"@ + new_id + "'"@ + " not found"@),
{
}

/// A failover that can begin is tried where the route of the new path can be given
/// the better metric and the paths differ. It is between routes: the new path gets
/// metric 10 first; if it works the old one gets 20, else the new one gets 20 and
/// the old one 10 again.
pub proof fn law_failover_metrics(v: ManagerView, old_id: Seq<char>, new_id: Seq<char>)
    ensures
        reaches_verification(v, old_id, new_id) <==> {
            &&& failover_fault(v.paths, old_id, new_id) is None
            &&& old_id != new_id
            &&& path_routed(v, new_id, 10).1 is Ok
        },
        moves_after(old_id, new_id, true) == seq![(old_id, 20u32)],
        moves_after(old_id, new_id, false) == seq![(new_id, 20u32), (old_id, 10u32)],
{
}

/// A failover from a path to itself needs nothing, and one that works tells from
/// where to where it went and which range moved.
pub proof fn law_failover_result(v: ManagerView, old_id: Seq<char>, new_id: Seq<char>)
    requires
        failover_fault(v.paths, old_id, new_id) is None,
    ensures
        ({
            let p = v.paths[new_id];
            let range = p.destination->0.dotted() + "/"@ + decimal(p.prefix_length as nat);
            let moved = if old_id == new_id {
                seq![]
            } else {
                seq![range]
            };
            let (after, r) = failed_over(v, old_id, new_id, true);
            &&& r matches Ok(s) ==> s == SwitchView {
                from_path: Some(old_id),
                to_path: Some(new_id),
                datapath_applied: true,
                routes_added: moved,
                routes_removed: moved,
                error: None,
            }
            &&& r is Ok <==> old_id == new_id || path_routed(v, new_id, 10).1 is Ok
            &&& old_id == new_id ==> after == v
        }),
{
}

/// Making one path active makes every other one not, and changes nothing else.
pub proof fn law_one_active_path(paths: Paths, active: Seq<char>, id: Seq<char>)
    ensures
        ({
            let n = active_only(paths, active);
            &&& n.dom().contains(id) <==> paths.dom().contains(id)
            &&& paths.dom().contains(id) ==> n[id] == (crate::path_manager::PathView {
                active: id == active,
                ..paths[id]
            })
        }),
{
}

/// What is told of a request that the system refused: its code, which is negative
/// where its highest bit is set, the range, the path and the interface.
pub proof fn law_refusal_is_told(
    code: u32,
    operation: Seq<char>,
    destination: Ipv4Addr,
    prefix_length: u8,
    path_id: Seq<char>,
    luid: u64,
    stage: Seq<char>,
)
    ensures
        ({
            let e = refused(code, operation, destination, prefix_length, path_id, luid, stage);
            &&& code <= i32::MAX ==> e.error_code == code
            &&& code > i32::MAX ==> e.error_code == code - 0x1_0000_0000
            &&& e.operation == operation
            &&& e.destination == destination.dotted() + "/"@ + decimal(prefix_length as nat)
            &&& e.path_id == path_id
            &&& e.interface_luid == Some(luid)
            &&& e.stage == stage
            &&& e.message == "Win32 error "@ + decimal(code as nat)
        }),
{
}

/// What is told of a route that should be registered and is not: no code, and why.
pub proof fn law_missing_route_is_told(
    operation: Seq<char>,
    destination: Ipv4Addr,
    prefix_length: u8,
    path_id: Seq<char>,
    luid: Option<u64>,
    stage: Seq<char>,
    message: Seq<char>,
)
    ensures
        ({
            let e = unregistered(
                operation,
                destination,
                prefix_length,
                path_id,
                luid,
                stage,
                message,
            );
            &&& e.error_code == 0
            &&& e.operation == operation
            &&& e.destination == destination.dotted() + "/"@ + decimal(prefix_length as nat)
            &&& e.path_id == path_id
            &&& e.interface_luid == luid
            &&& e.stage == stage
            &&& e.message == message
        }),
{
}

} // verus!
