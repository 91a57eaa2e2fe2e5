//! What reconciling the routes with the paths brings about.

use crate::address::Ipv4Addr;
use crate::name_map::law_listing_is_unique;
use crate::path_manager::reconcile::{
    all_carried_out, belongs, carried_out, path_step, path_steps, plan, reconciles, removals, serves,
    StepView,
};
use crate::path_manager::{among, first_leading, lists_paths, ManagerView, PathView, TunnelState};
use crate::text::{lemma_text_less_irreflexive, text_less};
use crate::windows_route_manager::{lists_registry, without, Registry, RouteEntry, RouteKey};
use vstd::prelude::*;

verus! {

/// The step that removes a route.
pub open spec fn removal(route: RouteEntry) -> StepView {
    StepView::Remove {
        destination: route.destination,
        prefix_length: route.prefix_length,
        luid: route.interface_luid,
    }
}

/// The removals are those of the routes that belong to no path.
pub proof fn lemma_removals(os: Seq<RouteEntry>, paths: Seq<PathView>)
    ensures
        forall|j: int|
            0 <= j < removals(os, paths).len() ==> exists|i: int|
                0 <= i < os.len() && !belongs(#[trigger] os[i], paths)
                    && #[trigger] removals(os, paths)[j] == removal(os[i]),
        forall|i: int|
            0 <= i < os.len() && !belongs(#[trigger] os[i], paths) ==> removals(os, paths).contains(
                removal(os[i]),
            ),
    decreases os.len(),
{
    if os.len() > 0 {
        let rest = os.drop_last();
        let before = removals(rest, paths);
        let all = removals(os, paths);
        lemma_removals(rest, paths);
        assert forall|j: int| 0 <= j < all.len() implies exists|i: int|
            0 <= i < os.len() && !belongs(#[trigger] os[i], paths) && #[trigger] all[j] == removal(
                os[i],
            ) by {
            if j < before.len() {
                assert(before[j] == all[j]);
                let i = choose|i: int|
                    0 <= i < rest.len() && !belongs(#[trigger] rest[i], paths) && before[j]
                        == removal(rest[i]);
                assert(os[i] == rest[i]);
            } else {
                assert(os[os.len() - 1] == os.last());
            }
        }
        assert forall|i: int| 0 <= i < os.len() && !belongs(#[trigger] os[i], paths) implies
            all.contains(removal(os[i])) by {
            if i < rest.len() {
                assert(rest[i] == os[i]);
                let j = before.index_of(removal(rest[i]));
                assert(all[j] == before[j]);
            } else {
                assert(all[all.len() - 1] == removal(os[i]));
            }
        }
    }
}

/// Exactly the routes that belong to no path are removed.
pub proof fn law_strays_are_removed(os: Seq<RouteEntry>, paths: Seq<PathView>, s: StepView)
    requires
        s is Remove,
    ensures
        plan(os, paths).contains(s) <==> exists|i: int|
            0 <= i < os.len() && !belongs(#[trigger] os[i], paths) && s == removal(os[i]),
{
    let first = removals(os, paths);
    let second = path_steps(os, paths);
    lemma_removals(os, paths);
    lemma_path_steps(os, paths);
    if plan(os, paths).contains(s) {
        let j = plan(os, paths).index_of(s);
        if j < first.len() {
            assert(first[j] == s);
        } else {
            assert(second[j - first.len()] == s);
        }
    }
    if exists|i: int| 0 <= i < os.len() && !belongs(#[trigger] os[i], paths) && s == removal(os[i]) {
        let j = first.index_of(s);
        assert(plan(os, paths)[j] == s);
    }
}

/// The other steps are those that the paths need.
pub proof fn lemma_path_steps(os: Seq<RouteEntry>, paths: Seq<PathView>)
    ensures
        forall|j: int|
            0 <= j < path_steps(os, paths).len() ==> exists|i: int|
                0 <= i < paths.len() && path_step(os, #[trigger] paths[i]) == Some(
                    #[trigger] path_steps(os, paths)[j],
                ),
        forall|i: int|
            0 <= i < paths.len() && path_step(os, #[trigger] paths[i]) is Some ==> path_steps(
                os,
                paths,
            ).contains(path_step(os, paths[i])->0),
    decreases paths.len(),
{
    if paths.len() > 0 {
        let rest = paths.drop_last();
        let before = path_steps(os, rest);
        let all = path_steps(os, paths);
        lemma_path_steps(os, rest);
        assert forall|j: int| 0 <= j < all.len() implies exists|i: int|
            0 <= i < paths.len() && path_step(os, #[trigger] paths[i]) == Some(
                #[trigger] all[j],
            ) by {
            if j < before.len() {
                assert(before[j] == all[j]);
                let i = choose|i: int|
                    0 <= i < rest.len() && path_step(os, #[trigger] rest[i]) == Some(before[j]);
                assert(paths[i] == rest[i]);
            } else {
                assert(paths[paths.len() - 1] == paths.last());
            }
        }
        assert forall|i: int|
            0 <= i < paths.len() && path_step(os, #[trigger] paths[i]) is Some implies
            all.contains(path_step(os, paths[i])->0) by {
            if i < rest.len() {
                assert(rest[i] == paths[i]);
                let j = before.index_of(path_step(os, rest[i])->0);
                assert(all[j] == before[j]);
            } else {
                assert(all[all.len() - 1] == path_step(os, paths[i])->0);
            }
        }
    }
}

/// Whether the table is in line with the paths: every route belongs to a path,
/// and every path that is up has its route with the right metric.
pub open spec fn in_line(os: Seq<RouteEntry>, paths: Seq<PathView>) -> bool {
    &&& forall|i: int| 0 <= i < os.len() ==> belongs(#[trigger] os[i], paths)
    &&& forall|i: int|
        0 <= i < paths.len() && (#[trigger] paths[i]).destination is Some && paths[i].tunnel_state
            == TunnelState::Up ==> among(
            os,
            paths[i].destination->0,
            paths[i].prefix_length,
            paths[i].interface_luid,
        ) && os[first_leading(
            os,
            paths[i].destination->0,
            paths[i].prefix_length,
            paths[i].interface_luid,
        )].metric == paths[i].metric()
}

/// Nothing is done where the table is in line with the paths, and only there.
pub proof fn law_only_what_is_needed(os: Seq<RouteEntry>, paths: Seq<PathView>)
    ensures
        plan(os, paths).len() == 0 <==> in_line(os, paths),
{
    let first = removals(os, paths);
    let second = path_steps(os, paths);
    lemma_removals(os, paths);
    lemma_path_steps(os, paths);
    if plan(os, paths).len() == 0 {
        assert forall|i: int| 0 <= i < os.len() implies belongs(#[trigger] os[i], paths) by {
            if !belongs(os[i], paths) {
                assert(first.contains(removal(os[i])));
            }
        }
        assert forall|i: int| 0 <= i < paths.len() implies path_step(os, #[trigger] paths[i]) is None
            by {
            if path_step(os, paths[i]) is Some {
                assert(second.contains(path_step(os, paths[i])->0));
            }
        }
    }
    if in_line(os, paths) {
        if first.len() > 0 {
            assert(first[0] == first[0]);
        }
        if second.len() > 0 {
            assert(second[0] == second[0]);
        }
    }
}

// ---------------------------------------------------------------------------
// The registry afterwards
// ---------------------------------------------------------------------------

/// Whether no two paths have the same name.
pub open spec fn distinct(paths: Seq<PathView>) -> bool {
    forall|i: int, j: int|
        0 <= i < j < paths.len() ==> (#[trigger] paths[i]).id != (#[trigger] paths[j]).id
}

/// Whether each route is registered for the path that it belongs to.
pub open spec fn registered_rightly(m: Registry, paths: Seq<PathView>) -> bool {
    &&& forall|k: RouteKey| #[trigger] m.dom().contains(k) ==> m[k].key() == k
    &&& forall|k: RouteKey, i: int|
        #![trigger m.dom().contains(k), paths[i]]
        m.dom().contains(k) && 0 <= i < paths.len() && serves(m[k], paths[i]) ==> k.path_id
            == paths[i].id
}

/// Whether a registry holds the route that a path asks for.
pub open spec fn holds_route(m: Registry, p: PathView) -> bool {
    let k = p.route_key(p.id);
    m.dom().contains(k) && serves(m[k], p) && m[k].metric == p.metric()
}

proof fn lemma_removed(m: Registry, os: Seq<RouteEntry>, paths: Seq<PathView>)
    ensures
        ({
            let r = all_carried_out(m, removals(os, paths)).0;
            &&& forall|k: RouteKey| #[trigger]
                r.dom().contains(k) ==> m.dom().contains(k) && r[k] == m[k]
            &&& forall|k: RouteKey| #[trigger]
                m.dom().contains(k) && belongs(m[k], paths) ==> r.dom().contains(k)
            &&& forall|k: RouteKey, i: int|
                #![trigger r.dom().contains(k), os[i]]
                r.dom().contains(k) && 0 <= i < os.len() && os[i] == m[k] ==> belongs(m[k], paths)
        }),
    decreases os.len(),
{
    if os.len() > 0 {
        let rest = os.drop_last();
        let route = os.last();
        let steps = removals(os, paths);
        lemma_removed(m, rest, paths);
        let before = all_carried_out(m, removals(rest, paths)).0;
        let r = all_carried_out(m, steps).0;
        if !belongs(route, paths) {
            assert(steps.drop_last() =~= removals(rest, paths));
            assert(r == without(
                before,
                route.destination,
                route.prefix_length,
                route.interface_luid,
            ));
            assert forall|k: RouteKey| #[trigger]
                m.dom().contains(k) && belongs(m[k], paths) implies r.dom().contains(k) by {
                if m[k].leads(route.destination, route.prefix_length, route.interface_luid) {
                    let i = choose|i: int|
                        0 <= i < paths.len() && serves(m[k], #[trigger] paths[i]);
                    assert(serves(route, paths[i]));
                }
            }
        }
        assert forall|k: RouteKey, i: int|
            #![trigger r.dom().contains(k), os[i]]
            r.dom().contains(k) && 0 <= i < os.len() && os[i] == m[k] implies belongs(m[k], paths) by {
            if i < rest.len() {
                assert(rest[i] == os[i]);
                assert(before.dom().contains(k));
            }
        }
    }
}

proof fn lemma_parts(m: Registry, a: Seq<StepView>, b: Seq<StepView>)
    ensures
        all_carried_out(m, a + b).0 == all_carried_out(all_carried_out(m, a).0, b).0,
    decreases b.len(),
{
    if b.len() == 0 {
        assert(a + b =~= a);
    } else {
        assert((a + b).drop_last() =~= a + b.drop_last());
        lemma_parts(m, a, b.drop_last());
    }
}

/// A step for a path changes only the route of that path.
proof fn lemma_step_is_local(m: Registry, os: Seq<RouteEntry>, p: PathView, k: RouteKey)
    requires
        path_step(os, p) is Some,
        k.path_id != p.id,
    ensures
        ({
            let r = carried_out(m, path_step(os, p)->0).0;
            r.dom().contains(k) == m.dom().contains(k) && (m.dom().contains(k) ==> r[k] == m[k])
        }),
{
}

proof fn lemma_leading(os: Seq<RouteEntry>, d: Ipv4Addr, p: u8, l: u64)
    requires
        among(os, d, p, l),
    ensures
        0 <= first_leading(os, d, p, l) < os.len(),
        os[first_leading(os, d, p, l)].leads(d, p, l),
    decreases os.len(),
{
    if os.len() > 0 && !os[0].leads(d, p, l) {
        let rest = os.drop_first();
        let i = choose|i: int| 0 <= i < os.len() && (#[trigger] os[i]).leads(d, p, l);
        assert(rest[i - 1] == os[i]);
        lemma_leading(rest, d, p, l);
    }
}

proof fn lemma_step_serves(
    m: Registry,
    now: Registry,
    os: Seq<RouteEntry>,
    paths: Seq<PathView>,
    i: int,
)
    requires
        lists_registry(os, m),
        registered_rightly(m, paths),
        0 <= i < paths.len(),
        paths[i].tunnel_state == TunnelState::Up,
        paths[i].destination is Some,
        ({
            let k = paths[i].route_key(paths[i].id);
            m.dom().contains(k) && belongs(m[k], paths) ==> now.dom().contains(k) && now[k] == m[k]
        }),
    ensures
        match path_step(os, paths[i]) {
            Some(s) => holds_route(carried_out(now, s).0, paths[i]),
            None => holds_route(now, paths[i]),
        },
{
    let p = paths[i];
    let d = p.destination->0;
    let k = p.route_key(p.id);
    if among(os, d, p.prefix_length, p.interface_luid) {
        lemma_leading(os, d, p.prefix_length, p.interface_luid);
        let found = os[first_leading(os, d, p.prefix_length, p.interface_luid)];
        assert(m.dom().contains(found.key()) && m[found.key()] == found);
        assert(serves(found, paths[i]));
        assert(found.key().path_id == p.id);
        assert(found.key() =~= k);
        assert(belongs(m[k], paths));
    }
}

/// Whether no path has a name.
spec fn nobody(paths: Seq<PathView>, id: Seq<char>) -> bool {
    forall|i: int| 0 <= i < paths.len() ==> (#[trigger] paths[i]).id != id
}

proof fn lemma_paths_served(
    m: Registry,
    start: Registry,
    os: Seq<RouteEntry>,
    all: Seq<PathView>,
    n: int,
)
    requires
        lists_registry(os, m),
        registered_rightly(m, all),
        distinct(all),
        0 <= n <= all.len(),
        forall|k: RouteKey| #[trigger]
            m.dom().contains(k) && belongs(m[k], all) ==> start.dom().contains(k) && start[k]
                == m[k],
    ensures
        ({
            let r = all_carried_out(start, path_steps(os, all.take(n))).0;
            &&& forall|i: int|
                0 <= i < n && (#[trigger] all[i]).tunnel_state == TunnelState::Up
                    && all[i].destination is Some ==> holds_route(r, all[i])
            &&& forall|k: RouteKey| #[trigger]
                nobody(all.take(n), k.path_id) ==> r.dom().contains(k) == start.dom().contains(k)
                    && (start.dom().contains(k) ==> r[k] == start[k])
        }),
    decreases n,
{
    let list = all.take(n);
    if n == 0 {
        assert(path_steps(os, list) =~= Seq::<StepView>::empty());
    } else {
        let p = all[n - 1];
        let rest = all.take(n - 1);
        assert(list.drop_last() =~= rest);
        assert(list.last() == p);
        lemma_paths_served(m, start, os, all, n - 1);
        let before = all_carried_out(start, path_steps(os, rest)).0;
        let r = all_carried_out(start, path_steps(os, list)).0;
        let k = p.route_key(p.id);
        assert(nobody(rest, k.path_id));
        assert(before.dom().contains(k) == start.dom().contains(k) && (start.dom().contains(k)
            ==> before[k] == start[k]));
        if path_step(os, p) is Some {
            let s = path_step(os, p)->0;
            assert(path_steps(os, list).drop_last() =~= path_steps(os, rest));
            assert(r == carried_out(before, s).0);
        } else {
            assert(r == before);
        }
        if p.tunnel_state == TunnelState::Up && p.destination is Some {
            lemma_step_serves(m, before, os, all, n - 1);
        }
        assert forall|i: int|
            0 <= i < n && (#[trigger] all[i]).tunnel_state == TunnelState::Up
                && all[i].destination is Some implies holds_route(r, all[i]) by {
            if i < n - 1 {
                let q = all[i];
                assert(q.id != p.id);
                if path_step(os, p) is Some {
                    lemma_step_is_local(before, os, p, q.route_key(q.id));
                }
            }
        }
        assert forall|x: RouteKey| #[trigger] nobody(list, x.path_id) implies r.dom().contains(x)
            == start.dom().contains(x) && (start.dom().contains(x) ==> r[x] == start[x]) by {
            assert(list[n - 1].id != x.path_id);
            assert forall|i: int| 0 <= i < rest.len() implies (#[trigger] rest[i]).id
                != x.path_id by {
                assert(list[i] == rest[i]);
            }
            assert(nobody(rest, x.path_id));
            if path_step(os, p) is Some {
                lemma_step_is_local(before, os, p, x);
            }
        }
    }
}

/// After reconciling, every path that is up and has a destination has its route,
/// through its interface and with the metric it should have.
pub proof fn law_every_path_gets_its_route(
    m: Registry,
    os: Seq<RouteEntry>,
    paths: Seq<PathView>,
    i: int,
)
    requires
        lists_registry(os, m),
        registered_rightly(m, paths),
        distinct(paths),
        0 <= i < paths.len(),
        paths[i].tunnel_state == TunnelState::Up,
        paths[i].destination is Some,
    ensures
        holds_route(all_carried_out(m, plan(os, paths)).0, paths[i]),
{
    let first = all_carried_out(m, removals(os, paths)).0;
    lemma_removed(m, os, paths);
    lemma_parts(m, removals(os, paths), path_steps(os, paths));
    lemma_paths_served(m, first, os, paths, paths.len() as int);
    assert(paths.take(paths.len() as int) =~= paths);
}

proof fn lemma_steps_bring_no_strays(
    start: Registry,
    os: Seq<RouteEntry>,
    all: Seq<PathView>,
    n: int,
)
    requires
        0 <= n <= all.len(),
        forall|k: RouteKey| #[trigger] start.dom().contains(k) ==> belongs(start[k], all),
    ensures
        ({
            let r = all_carried_out(start, path_steps(os, all.take(n))).0;
            forall|k: RouteKey| #[trigger] r.dom().contains(k) ==> belongs(r[k], all)
        }),
    decreases n,
{
    let list = all.take(n);
    if n == 0 {
        assert(path_steps(os, list) =~= Seq::<StepView>::empty());
    } else {
        let p = all[n - 1];
        let rest = all.take(n - 1);
        assert(list.drop_last() =~= rest);
        assert(list.last() == p);
        lemma_steps_bring_no_strays(start, os, all, n - 1);
        let before = all_carried_out(start, path_steps(os, rest)).0;
        let r = all_carried_out(start, path_steps(os, list)).0;
        if path_step(os, p) is Some {
            let s = path_step(os, p)->0;
            assert(path_steps(os, list).drop_last() =~= path_steps(os, rest));
            assert(r == carried_out(before, s).0);
            assert forall|k: RouteKey| #[trigger] r.dom().contains(k) implies belongs(r[k], all) by {
                if before.dom().contains(k) {
                    let i = choose|i: int|
                        0 <= i < all.len() && serves(before[k], #[trigger] all[i]);
                    if !serves(r[k], all[i]) {
                        assert(serves(r[k], all[n - 1]));
                    }
                } else {
                    assert(serves(r[k], all[n - 1]));
                }
            }
        } else {
            assert(r == before);
        }
    }
}

/// After reconciling, every route belongs to a path.
pub proof fn law_no_stray_is_left(m: Registry, os: Seq<RouteEntry>, paths: Seq<PathView>, k: RouteKey)
    requires
        lists_registry(os, m),
        all_carried_out(m, plan(os, paths)).0.dom().contains(k),
    ensures
        belongs(all_carried_out(m, plan(os, paths)).0[k], paths),
{
    let first = all_carried_out(m, removals(os, paths)).0;
    lemma_removed(m, os, paths);
    lemma_parts(m, removals(os, paths), path_steps(os, paths));
    assert forall|x: RouteKey| #[trigger] first.dom().contains(x) implies belongs(first[x], paths) by {
        assert(m.dom().contains(x));
        let i = choose|i: int| 0 <= i < os.len() && #[trigger] os[i] == m[x];
        assert(os[i] == m[x]);
    }
    lemma_steps_bring_no_strays(first, os, paths, paths.len() as int);
    assert(paths.take(paths.len() as int) =~= paths);
}

// ---------------------------------------------------------------------------
// A second time
// ---------------------------------------------------------------------------

/// Whether no two paths ask for the same route.
pub open spec fn apart(paths: Seq<PathView>) -> bool {
    forall|i: int, j: int|
        0 <= i < j < paths.len() ==> !same_route(#[trigger] paths[i], #[trigger] paths[j])
}

/// Whether two paths ask for the same route.
pub open spec fn same_route(p: PathView, q: PathView) -> bool {
    &&& p.destination is Some
    &&& p.destination == q.destination
    &&& p.prefix_length == q.prefix_length
    &&& p.interface_luid == q.interface_luid
}

proof fn lemma_served_one(route: RouteEntry, paths: Seq<PathView>, i: int, j: int)
    requires
        apart(paths),
        0 <= i < paths.len(),
        0 <= j < paths.len(),
        serves(route, paths[i]),
        serves(route, paths[j]),
    ensures
        i == j,
{
    if i < j {
        assert(!same_route(paths[i], paths[j]));
    } else if j < i {
        assert(!same_route(paths[j], paths[i]));
    }
}

proof fn lemma_steps_register_rightly(
    start: Registry,
    os: Seq<RouteEntry>,
    all: Seq<PathView>,
    n: int,
)
    requires
        0 <= n <= all.len(),
        apart(all),
        registered_rightly(start, all),
    ensures
        registered_rightly(all_carried_out(start, path_steps(os, all.take(n))).0, all),
    decreases n,
{
    let list = all.take(n);
    if n == 0 {
        assert(path_steps(os, list) =~= Seq::<StepView>::empty());
    } else {
        let p = all[n - 1];
        let rest = all.take(n - 1);
        assert(list.drop_last() =~= rest);
        assert(list.last() == p);
        lemma_steps_register_rightly(start, os, all, n - 1);
        let before = all_carried_out(start, path_steps(os, rest)).0;
        let r = all_carried_out(start, path_steps(os, list)).0;
        if path_step(os, p) is Some {
            let s = path_step(os, p)->0;
            assert(path_steps(os, list).drop_last() =~= path_steps(os, rest));
            assert(r == carried_out(before, s).0);
            let key = p.route_key(p.id);
            assert forall|k: RouteKey| #[trigger] r.dom().contains(k) implies r[k].key() == k by {
                if k != key {
                    assert(before.dom().contains(k));
                }
            }
            assert forall|k: RouteKey, i: int|
                #![trigger r.dom().contains(k), all[i]]
                r.dom().contains(k) && 0 <= i < all.len() && serves(r[k], all[i]) implies k.path_id
                == all[i].id by {
                if k == key && s is Install {
                    assert(serves(r[k], all[n - 1]));
                    lemma_served_one(r[k], all, i, n - 1);
                } else {
                    assert(before.dom().contains(k));
                    assert(serves(before[k], all[i]));
                }
            }
        } else {
            assert(r == before);
        }
    }
}

proof fn lemma_registered_rightly_after(m: Registry, os: Seq<RouteEntry>, paths: Seq<PathView>)
    requires
        registered_rightly(m, paths),
        apart(paths),
    ensures
        registered_rightly(all_carried_out(m, plan(os, paths)).0, paths),
{
    let first = all_carried_out(m, removals(os, paths)).0;
    lemma_removed(m, os, paths);
    lemma_parts(m, removals(os, paths), path_steps(os, paths));
    assert forall|k: RouteKey, i: int|
        #![trigger first.dom().contains(k), paths[i]]
        first.dom().contains(k) && 0 <= i < paths.len() && serves(first[k], paths[i]) implies
        k.path_id == paths[i].id by {
        assert(m.dom().contains(k));
    }
    lemma_steps_register_rightly(first, os, paths, paths.len() as int);
    assert(paths.take(paths.len() as int) =~= paths);
}

/// After the table was brought in line with the paths it is in line with them, in
/// whatever order it is then read.
proof fn lemma_in_line_after(
    m: Registry,
    os: Seq<RouteEntry>,
    again: Seq<RouteEntry>,
    paths: Seq<PathView>,
)
    requires
        lists_registry(os, m),
        registered_rightly(m, paths),
        distinct(paths),
        apart(paths),
        lists_registry(again, all_carried_out(m, plan(os, paths)).0),
    ensures
        in_line(again, paths),
{
    let r = all_carried_out(m, plan(os, paths)).0;
    lemma_registered_rightly_after(m, os, paths);
    assert forall|i: int| 0 <= i < again.len() implies belongs(#[trigger] again[i], paths) by {
        law_no_stray_is_left(m, os, paths, again[i].key());
    }
    assert forall|i: int|
        0 <= i < paths.len() && (#[trigger] paths[i]).destination is Some && paths[i].tunnel_state
            == TunnelState::Up implies among(
        again,
        paths[i].destination->0,
        paths[i].prefix_length,
        paths[i].interface_luid,
    ) && again[first_leading(
        again,
        paths[i].destination->0,
        paths[i].prefix_length,
        paths[i].interface_luid,
    )].metric == paths[i].metric() by {
        let p = paths[i];
        let d = p.destination->0;
        let k = p.route_key(p.id);
        law_every_path_gets_its_route(m, os, paths, i);
        let j = choose|j: int| 0 <= j < again.len() && #[trigger] again[j] == r[k];
        assert(again[j].leads(d, p.prefix_length, p.interface_luid));
        lemma_leading(again, d, p.prefix_length, p.interface_luid);
        let found = again[first_leading(again, d, p.prefix_length, p.interface_luid)];
        assert(r.dom().contains(found.key()) && r[found.key()] == found);
        assert(serves(found, paths[i]));
        assert(found.key().path_id == p.id);
        assert(found.key() =~= k);
    }
}

/// A key under the name of a path that needs no step is left alone by the steps of
/// the paths.
proof fn lemma_idle_path_stays(
    start: Registry,
    os: Seq<RouteEntry>,
    all: Seq<PathView>,
    n: int,
    at: int,
    k: RouteKey,
)
    requires
        0 <= n <= all.len(),
        0 <= at < all.len(),
        distinct(all),
        path_step(os, all[at]) is None,
        k.path_id == all[at].id,
        start.dom().contains(k),
    ensures
        ({
            let r = all_carried_out(start, path_steps(os, all.take(n))).0;
            r.dom().contains(k) && r[k] == start[k]
        }),
    decreases n,
{
    let list = all.take(n);
    if n == 0 {
        assert(path_steps(os, list) =~= Seq::<StepView>::empty());
    } else {
        let p = all[n - 1];
        let rest = all.take(n - 1);
        assert(list.drop_last() =~= rest);
        assert(list.last() == p);
        lemma_idle_path_stays(start, os, all, n - 1, at, k);
        let before = all_carried_out(start, path_steps(os, rest)).0;
        if path_step(os, p) is Some {
            assert(path_steps(os, list).drop_last() =~= path_steps(os, rest));
            assert(p.id != all[at].id);
            lemma_step_is_local(before, os, p, k);
        }
    }
}

/// Reconciling leaves the route of a path that is down as it was.
pub proof fn law_down_route_stays(
    m: Registry,
    os: Seq<RouteEntry>,
    paths: Seq<PathView>,
    i: int,
    k: RouteKey,
)
    requires
        registered_rightly(m, paths),
        distinct(paths),
        0 <= i < paths.len(),
        paths[i].tunnel_state == TunnelState::Down,
        m.dom().contains(k),
        serves(m[k], paths[i]),
    ensures
        all_carried_out(m, plan(os, paths)).0.dom().contains(k),
        all_carried_out(m, plan(os, paths)).0[k] == m[k],
{
    let first = all_carried_out(m, removals(os, paths)).0;
    lemma_removed(m, os, paths);
    lemma_parts(m, removals(os, paths), path_steps(os, paths));
    assert(belongs(m[k], paths));
    assert(first.dom().contains(k));
    lemma_idle_path_stays(first, os, paths, paths.len() as int, i, k);
    assert(paths.take(paths.len() as int) =~= paths);
}

/// Whether every path goes by its own name, no two paths ask for the same route,
/// and a route that a path asks for is registered under the name of that path.
pub open spec fn orderly(v: ManagerView) -> bool {
    &&& forall|n: Seq<char>| #[trigger] v.paths.dom().contains(n) ==> v.paths[n].id == n
    &&& forall|a: Seq<char>, b: Seq<char>|
        #![trigger v.paths.dom().contains(a), v.paths.dom().contains(b)]
        v.paths.dom().contains(a) && v.paths.dom().contains(b) && a != b ==> !same_route(
            v.paths[a],
            v.paths[b],
        )
    &&& forall|k: RouteKey| #[trigger] v.registry.dom().contains(k) ==> v.registry[k].key() == k
    &&& forall|k: RouteKey, n: Seq<char>|
        #![trigger v.registry.dom().contains(k), v.paths.dom().contains(n)]
        v.registry.dom().contains(k) && v.paths.dom().contains(n) && serves(
            v.registry[k],
            v.paths[n],
        ) ==> k.path_id == n
}

proof fn lemma_orderly_list(v: ManagerView, list: Seq<PathView>, names: Seq<Seq<char>>)
    requires
        orderly(v),
        lists_paths(list, names, v.paths),
    ensures
        distinct(list),
        apart(list),
        registered_rightly(v.registry, list),
        forall|i: int| 0 <= i < list.len() ==> v.paths.dom().contains(#[trigger] names[i]),
{
    assert forall|i: int| 0 <= i < list.len() implies v.paths.dom().contains(
        #[trigger] names[i],
    ) by {
        assert(names.contains(names[i]));
    }
    assert forall|i: int, j: int| 0 <= i < j < list.len() implies (#[trigger] list[i]).id != (
    #[trigger] list[j]).id && !same_route(list[i], list[j]) by {
        assert(text_less(names[i], names[j]));
        lemma_text_less_irreflexive(names[i]);
        assert(v.paths.dom().contains(names[i]));
        assert(v.paths.dom().contains(names[j]));
    }
    assert forall|k: RouteKey, i: int|
        #![trigger v.registry.dom().contains(k), list[i]]
        v.registry.dom().contains(k) && 0 <= i < list.len() && serves(
            v.registry[k],
            list[i],
        ) implies k.path_id == list[i].id by {
        assert(v.paths.dom().contains(names[i]));
    }
}

/// Reconciling settles the table: every route then belongs to a path, every path
/// that is up and has a destination has its route with the metric it should have,
/// the route of a path that is down is as it was, and reconciling again does
/// nothing.
pub proof fn law_reconciling_settles(
    v: ManagerView,
    w: ManagerView,
    x: ManagerView,
    reports: Seq<Seq<char>>,
    again: Seq<Seq<char>>,
)
    requires
        orderly(v),
        reconciles(v, w, reports),
        reconciles(w, x, again),
    ensures
        forall|k: RouteKey| #[trigger]
            w.registry.dom().contains(k) ==> exists|n: Seq<char>| #[trigger]
                v.paths.dom().contains(n) && serves(w.registry[k], v.paths[n]),
        forall|n: Seq<char>| #[trigger]
            v.paths.dom().contains(n) && v.paths[n].tunnel_state == TunnelState::Up
                && v.paths[n].destination is Some ==> holds_route(w.registry, v.paths[n]),
        forall|n: Seq<char>, k: RouteKey|
            #![trigger v.paths.dom().contains(n), v.registry.dom().contains(k)]
            v.paths.dom().contains(n) && v.paths[n].tunnel_state == TunnelState::Down
                && v.registry.dom().contains(k) && serves(v.registry[k], v.paths[n])
                ==> w.registry.dom().contains(k) && w.registry[k] == v.registry[k],
        x == w,
        again.len() == 0,
{
    let m = v.registry;
    let (os, list, names) = choose|os: Seq<RouteEntry>, list: Seq<PathView>, names: Seq<Seq<char>>|
        #![trigger lists_registry(os, v.registry), lists_paths(list, names, v.paths)]
        lists_registry(os, v.registry) && lists_paths(list, names, v.paths) && (w.registry, reports)
            == all_carried_out(v.registry, plan(os, list));
    let (os2, list2, names2) = choose|
        os: Seq<RouteEntry>,
        list: Seq<PathView>,
        names: Seq<Seq<char>>,
    |
        #![trigger lists_registry(os, w.registry), lists_paths(list, names, w.paths)]
        lists_registry(os, w.registry) && lists_paths(list, names, w.paths) && (x.registry, again)
            == all_carried_out(w.registry, plan(os, list));
    law_listing_is_unique(names, names2, v.paths.dom());
    assert(list2 =~= list);
    lemma_orderly_list(v, list, names);
    lemma_in_line_after(m, os, os2, list);
    law_only_what_is_needed(os2, list);
    assert(plan(os2, list) =~= Seq::<StepView>::empty());
    assert(x.registry == w.registry);
    assert(x == w);
    assert forall|k: RouteKey| #[trigger] w.registry.dom().contains(k) implies exists|n: Seq<char>|
        #[trigger] v.paths.dom().contains(n) && serves(w.registry[k], v.paths[n]) by {
        law_no_stray_is_left(m, os, list, k);
        let i = choose|i: int| 0 <= i < list.len() && serves(w.registry[k], #[trigger] list[i]);
        assert(v.paths.dom().contains(names[i]));
    }
    assert forall|n: Seq<char>| #[trigger]
        v.paths.dom().contains(n) && v.paths[n].tunnel_state == TunnelState::Up
            && v.paths[n].destination is Some implies holds_route(w.registry, v.paths[n]) by {
        let i = names.index_of(n);
        assert(names.contains(n));
        assert(list[i] == v.paths[n]);
        law_every_path_gets_its_route(m, os, list, i);
    }
    assert forall|n: Seq<char>, k: RouteKey|
        #![trigger v.paths.dom().contains(n), v.registry.dom().contains(k)]
        v.paths.dom().contains(n) && v.paths[n].tunnel_state == TunnelState::Down
            && v.registry.dom().contains(k) && serves(v.registry[k], v.paths[n]) implies
        w.registry.dom().contains(k) && w.registry[k] == v.registry[k] by {
        let i = names.index_of(n);
        assert(names.contains(n));
        assert(list[i] == v.paths[n]);
        law_down_route_stays(m, os, list, i, k);
    }
}

} // verus!
