//! What a failover changes and what it keeps.

use crate::path_manager::{
    failed_over, moved, moves_after, path_routed, reaches_verification, switch_view,
    ManagerView, PathView,
};
use crate::windows_route_manager::{
    leads_somewhere, range_words, RouteKey, ACTIVE_METRIC, STANDBY_METRIC,
};
use vstd::prelude::*;

verus! {

/// Whether a route that leads where a path leads is registered for that path, if
/// there is one.
pub open spec fn route_is_own(v: ManagerView, id: Seq<char>) -> bool {
    let p = v.paths[id];
    leads_somewhere(v.registry, p.destination->0, p.prefix_length, p.interface_luid)
        ==> v.registry.dom().contains(p.route_key(id))
}

/// Setting the metric of the route of a path leaves all other routes as they are.
proof fn lemma_routed_elsewhere(v: ManagerView, id: Seq<char>, metric: u32, k: RouteKey)
    requires
        k != v.paths[id].route_key(id),
    ensures
        ({
            let m = path_routed(v, id, metric).0;
            m.dom().contains(k) == v.registry.dom().contains(k) && (v.registry.dom().contains(k)
                ==> m[k] == v.registry[k])
        }),
{
}

/// Setting the metric of the route of a path that is its own works.
proof fn lemma_routed(v: ManagerView, id: Seq<char>, metric: u32)
    requires
        v.paths.dom().contains(id),
        v.paths[id].destination is Some,
        route_is_own(v, id),
    ensures
        ({
            let k = v.paths[id].route_key(id);
            let r = path_routed(v, id, metric);
            r.1 is Ok && r.0.dom().contains(k) && r.0[k].metric == metric
        }),
{
}

/// Setting the metric of the route of one path keeps the route of another its
/// own, where the two go through different interfaces.
proof fn lemma_stays_own(v: ManagerView, id: Seq<char>, other: Seq<char>, metric: u32)
    requires
        id != other,
        v.paths.dom().contains(id),
        v.paths[id].destination is Some,
        route_is_own(v, id),
        v.registry.dom().contains(v.paths[id].route_key(id))
            ==> v.registry[v.paths[id].route_key(id)].interface_luid
            != v.paths[other].interface_luid,
        v.paths[id].interface_luid != v.paths[other].interface_luid,
        route_is_own(v, other),
    ensures
        route_is_own(
            ManagerView { registry: path_routed(v, id, metric).0, ..v },
            other,
        ),
        ({
            let m = path_routed(v, id, metric).0;
            m[v.paths[id].route_key(id)].interface_luid != v.paths[other].interface_luid
        }),
{
    let p = v.paths[other];
    let after = path_routed(v, id, metric).0;
    let k1 = v.paths[id].route_key(id);
    let w = ManagerView { registry: after, ..v };
    if leads_somewhere(after, p.destination->0, p.prefix_length, p.interface_luid) {
        let k = choose|k: RouteKey| #[trigger]
            after.dom().contains(k) && after[k].leads(
                p.destination->0,
                p.prefix_length,
                p.interface_luid,
            );
        assert(k != k1);
        lemma_routed_elsewhere(v, id, metric, k);
        assert(v.registry.dom().contains(k));
        let ko = p.route_key(other);
        assert(ko.path_id != k1.path_id);
        lemma_routed_elsewhere(v, id, metric, ko);
    }
}

/// A state in which a failover can bring its metrics about: each of the two paths
/// has a route of its own or none, and each goes through an interface that the
/// other does not use.
pub open spec fn apart(v: ManagerView, old_id: Seq<char>, new_id: Seq<char>) -> bool {
    let p = v.paths[old_id];
    let q = v.paths[new_id];
    let k = p.route_key(old_id);
    let l = q.route_key(new_id);
    &&& route_is_own(v, old_id)
    &&& p.interface_luid != q.interface_luid
    &&& v.registry.dom().contains(k) ==> v.registry[k].interface_luid != q.interface_luid
    &&& v.registry.dom().contains(l) ==> v.registry[l].interface_luid != p.interface_luid
}

proof fn lemma_reached(v: ManagerView, old_id: Seq<char>, new_id: Seq<char>)
    requires
        reaches_verification(v, old_id, new_id),
        apart(v, old_id, new_id),
    ensures
        route_is_own(v, new_id),
        ({
            let w = ManagerView { registry: path_routed(v, new_id, ACTIVE_METRIC).0, ..v };
            &&& apart(w, old_id, new_id)
            &&& route_is_own(w, new_id)
            &&& w.registry.dom().contains(v.paths[new_id].route_key(new_id))
            &&& w.registry[v.paths[new_id].route_key(new_id)].metric == ACTIVE_METRIC
        }),
{
    let k = v.paths[old_id].route_key(old_id);
    assert(route_is_own(v, new_id));
    lemma_routed(v, new_id, ACTIVE_METRIC);
    lemma_stays_own(v, new_id, old_id, ACTIVE_METRIC);
    assert(k.path_id != v.paths[new_id].route_key(new_id).path_id);
    lemma_routed_elsewhere(v, new_id, ACTIVE_METRIC, k);
}

/// A failover whose new path works succeeds: the route of the new path is
/// preferred, that of the old one is on standby, and the result names the range
/// that moved.
pub proof fn law_failover_moves_traffic(v: ManagerView, old_id: Seq<char>, new_id: Seq<char>)
    requires
        reaches_verification(v, old_id, new_id),
        apart(v, old_id, new_id),
    ensures
        ({
            let (after, result) = failed_over(v, old_id, new_id, true);
            let p = v.paths[new_id];
            let k = v.paths[old_id].route_key(old_id);
            let l = p.route_key(new_id);
            &&& result == Ok::<_, Seq<char>>(
                switch_view(
                    old_id,
                    new_id,
                    seq![range_words(p.destination->0, p.prefix_length)],
                ),
            )
            &&& after.registry.dom().contains(l) && after.registry[l].metric == ACTIVE_METRIC
            &&& after.registry.dom().contains(k) && after.registry[k].metric == STANDBY_METRIC
        }),
{
    let w = ManagerView { registry: path_routed(v, new_id, ACTIVE_METRIC).0, ..v };
    let moves = moves_after(old_id, new_id, true);
    lemma_reached(v, old_id, new_id);
    lemma_routed(w, old_id, STANDBY_METRIC);
    lemma_routed_elsewhere(w, old_id, STANDBY_METRIC, v.paths[new_id].route_key(new_id));
    reveal_with_fuel(moved, 2);
    assert(moves.drop_last() =~= Seq::<(Seq<char>, u32)>::empty());
    assert(ManagerView { registry: moved(w, moves.drop_last()), ..w } == w);
}

/// A failover whose new path does not work is taken back: the route of the old
/// path is preferred, that of the new one is on standby, and an error is
/// returned.
pub proof fn law_failover_rolls_back(v: ManagerView, old_id: Seq<char>, new_id: Seq<char>)
    requires
        reaches_verification(v, old_id, new_id),
        apart(v, old_id, new_id),
    ensures
        ({
            let (after, result) = failed_over(v, old_id, new_id, false);
            let k = v.paths[old_id].route_key(old_id);
            let l = v.paths[new_id].route_key(new_id);
            &&& result is Err
            &&& after.registry.dom().contains(k) && after.registry[k].metric == ACTIVE_METRIC
            &&& after.registry.dom().contains(l) && after.registry[l].metric == STANDBY_METRIC
        }),
{
    let w = ManagerView { registry: path_routed(v, new_id, ACTIVE_METRIC).0, ..v };
    let x = ManagerView { registry: path_routed(w, new_id, STANDBY_METRIC).0, ..w };
    let moves = moves_after(old_id, new_id, false);
    lemma_reached(v, old_id, new_id);
    lemma_routed(w, new_id, STANDBY_METRIC);
    lemma_stays_own(w, new_id, old_id, STANDBY_METRIC);
    lemma_routed(x, old_id, ACTIVE_METRIC);
    lemma_routed_elsewhere(x, old_id, ACTIVE_METRIC, v.paths[new_id].route_key(new_id));
    reveal_with_fuel(moved, 3);
    let first = moves.drop_last();
    assert(first =~= seq![(new_id, STANDBY_METRIC)]);
    assert(first.drop_last() =~= Seq::<(Seq<char>, u32)>::empty());
    assert(ManagerView { registry: moved(w, first.drop_last()), ..w } == w);
    assert(moved(w, first) == x.registry);
}

/// After a failover that was tried, exactly one path is active: the new one if it
/// works, else the old one.
pub proof fn law_one_path_is_active(
    v: ManagerView,
    old_id: Seq<char>,
    new_id: Seq<char>,
    passed: bool,
    id: Seq<char>,
)
    requires
        reaches_verification(v, old_id, new_id),
        v.paths.dom().contains(id),
    ensures
        failed_over(v, old_id, new_id, passed).0.paths[id].active == (id == if passed {
            new_id
        } else {
            old_id
        }),
{
}

/// A failover never touches a tunnel: of every path only the mark that tells
/// whether it is active can change, and no path comes or goes.
pub proof fn law_failover_keeps_tunnels(
    v: ManagerView,
    old_id: Seq<char>,
    new_id: Seq<char>,
    passed: bool,
)
    ensures
        ({
            let after = failed_over(v, old_id, new_id, passed).0.paths;
            &&& after.dom() == v.paths.dom()
            &&& forall|id: Seq<char>|
                v.paths.dom().contains(id) ==> #[trigger] after[id] == (PathView {
                    active: after[id].active,
                    ..v.paths[id]
                })
        }),
{
    assert(failed_over(v, old_id, new_id, passed).0.paths.dom() =~= v.paths.dom());
}

/// A failover leaves the routes of all other paths and ranges as they are.
pub proof fn law_failover_keeps_other_routes(
    v: ManagerView,
    old_id: Seq<char>,
    new_id: Seq<char>,
    passed: bool,
    k: RouteKey,
)
    requires
        k != v.paths[old_id].route_key(old_id),
        k != v.paths[new_id].route_key(new_id),
    ensures
        ({
            let after = failed_over(v, old_id, new_id, passed).0.registry;
            after.dom().contains(k) == v.registry.dom().contains(k) && (v.registry.dom().contains(k)
                ==> after[k] == v.registry[k])
        }),
{
    let w = ManagerView { registry: path_routed(v, new_id, ACTIVE_METRIC).0, ..v };
    let moves = moves_after(old_id, new_id, passed);
    lemma_routed_elsewhere(v, new_id, ACTIVE_METRIC, k);
    reveal_with_fuel(moved, 3);
    let first = moves.drop_last();
    assert(ManagerView { registry: w.registry, ..w } == w);
    if passed {
        assert(first =~= Seq::<(Seq<char>, u32)>::empty());
        lemma_routed_elsewhere(w, old_id, STANDBY_METRIC, k);
    } else {
        let x = ManagerView { registry: path_routed(w, new_id, STANDBY_METRIC).0, ..w };
        assert(first =~= seq![(new_id, STANDBY_METRIC)]);
        assert(first.drop_last() =~= Seq::<(Seq<char>, u32)>::empty());
        assert(moved(w, first) == x.registry);
        lemma_routed_elsewhere(w, new_id, STANDBY_METRIC, k);
        lemma_routed_elsewhere(x, old_id, ACTIVE_METRIC, k);
    }
}

/// A failover that is not tried changes nothing at all.
pub proof fn law_refused_failover_changes_nothing(
    v: ManagerView,
    old_id: Seq<char>,
    new_id: Seq<char>,
    passed: bool,
)
    requires
        !reaches_verification(v, old_id, new_id),
    ensures
        failed_over(v, old_id, new_id, passed).0 == v,
        failed_over(v, old_id, new_id, passed).1 is Ok ==> old_id == new_id,
{
}

} // verus!
