//! Which route a flow comes to.

use crate::arith::{result, Op};
use crate::loadbalance::{
    all_parts, bad_ids, binding_place, fastest, lemma_picked_place, parts_of, place_of, pool,
    rebinding, shares, usable, weighted_place, BalancerView, BindingView, FlowKey, LbStrategy,
    WEIGHT_PARTS_BITS,
};
use crate::scalar::{lemma_whole_part, Scalar};
use crate::snapshot::{Health, RouteView};
use vstd::arithmetic::div_mod::{lemma_add_mod_noop, lemma_mod_bound, lemma_mod_self_0, lemma_small_mod};
use vstd::prelude::*;

verus! {

/// Whether a new flow may come to the route at a place: it is not bad, or all
/// routes are.
pub open spec fn eligible(routes: Seq<RouteView>, i: int) -> bool {
    &&& 0 <= i < routes.len()
    &&& routes[i].health != Health::Bad || forall|j: int|
        0 <= j < routes.len() ==> (#[trigger] routes[j]).health == Health::Bad
}

/// Whether a balancer has not seen a flow yet.
pub open spec fn unseen(b: BalancerView, flow: FlowKey) -> bool {
    forall|j: int| 0 <= j < b.bindings.len() ==> (#[trigger] b.bindings[j]).flow != flow
}

// ---------------------------------------------------------------------------
// Places in the pool
// ---------------------------------------------------------------------------

/// How many of the routes in the pool stand before a place.
spec fn ahead(routes: Seq<RouteView>, k: int) -> int {
    if usable(routes).len() == 0 {
        k
    } else {
        usable(routes.take(k)).len() as int
    }
}

proof fn lemma_usable_grows(routes: Seq<RouteView>, a: int, b: int)
    requires
        0 <= a <= b <= routes.len(),
    ensures
        usable(routes.take(a)).len() <= usable(routes.take(b)).len(),
        a < b && routes[a].health != Health::Bad ==> usable(routes.take(a)).len() < usable(
            routes.take(b),
        ).len(),
    decreases b,
{
    if a < b {
        lemma_usable_grows(routes, a, b - 1);
        assert(routes.take(b).drop_last() =~= routes.take(b - 1));
        assert(routes.take(b).last() == routes[b - 1]);
    }
}

/// Where a usable route stands in the pool.
proof fn lemma_usable_holds(routes: Seq<RouteView>, i: int)
    requires
        0 <= i < routes.len(),
        routes[i].health != Health::Bad,
    ensures
        usable(routes.take(i)).len() < usable(routes).len(),
        usable(routes)[usable(routes.take(i)).len() as int] == routes[i],
    decreases routes.len(),
{
    let rest = routes.drop_last();
    if i == rest.len() {
        assert(routes.take(i) =~= rest);
    } else {
        assert(rest.take(i) =~= routes.take(i));
        assert(rest[i] == routes[i]);
        lemma_usable_holds(rest, i);
    }
}

/// Where a route of the pool stands among all.
proof fn lemma_usable_seat(routes: Seq<RouteView>, p: int) -> (k: int)
    requires
        0 <= p < usable(routes).len(),
    ensures
        0 <= k < routes.len(),
        routes[k].health != Health::Bad,
        routes[k] == usable(routes)[p],
        usable(routes.take(k)).len() == p,
    decreases routes.len(),
{
    let rest = routes.drop_last();
    if p < usable(rest).len() {
        let k = lemma_usable_seat(rest, p);
        assert(rest.take(k) =~= routes.take(k));
        assert(rest[k] == routes[k]);
        k
    } else {
        assert(routes.take(routes.len() - 1) =~= rest);
        routes.len() - 1
    }
}

proof fn lemma_all_bad(routes: Seq<RouteView>)
    ensures
        usable(routes).len() == 0 <==> forall|j: int|
            0 <= j < routes.len() ==> (#[trigger] routes[j]).health == Health::Bad,
{
    if usable(routes).len() > 0 {
        let k = lemma_usable_seat(routes, 0);
        assert(routes[k].health != Health::Bad);
    } else {
        assert forall|j: int| 0 <= j < routes.len() implies (#[trigger] routes[j]).health
            == Health::Bad by {
            if routes[j].health != Health::Bad {
                lemma_usable_holds(routes, j);
            }
        }
    }
}

proof fn lemma_seat(routes: Seq<RouteView>, p: int) -> (k: int)
    requires
        0 <= p < pool(routes, false).len(),
    ensures
        eligible(routes, k),
        routes[k] == pool(routes, false)[p],
        ahead(routes, k) == p,
{
    lemma_all_bad(routes);
    if usable(routes).len() == 0 {
        p
    } else {
        lemma_usable_seat(routes, p)
    }
}

proof fn lemma_place_in_pool(routes: Seq<RouteView>, i: int)
    requires
        eligible(routes, i),
    ensures
        0 <= ahead(routes, i) < pool(routes, false).len(),
        pool(routes, false)[ahead(routes, i)] == routes[i],
{
    lemma_all_bad(routes);
    if usable(routes).len() > 0 {
        lemma_usable_holds(routes, i);
    }
}

proof fn lemma_ahead_grows(routes: Seq<RouteView>, a: int, b: int)
    requires
        0 <= a <= b <= routes.len(),
    ensures
        ahead(routes, a) <= ahead(routes, b),
        a < b && eligible(routes, a) ==> ahead(routes, a) < ahead(routes, b),
{
    lemma_all_bad(routes);
    lemma_usable_grows(routes, a, b);
}

proof fn lemma_unseen(list: Seq<BindingView>, flow: FlowKey)
    requires
        forall|j: int| 0 <= j < list.len() ==> (#[trigger] list[j]).flow != flow,
    ensures
        binding_place(list, flow) == list.len(),
    decreases list.len(),
{
    if list.len() > 0 {
        let rest = list.drop_first();
        assert(list[0].flow != flow);
        assert forall|j: int| 0 <= j < rest.len() implies (#[trigger] rest[j]).flow != flow by {
            assert(rest[j] == list[j + 1]);
        }
        lemma_unseen(rest, flow);
    }
}

// ---------------------------------------------------------------------------
// Laws
// ---------------------------------------------------------------------------

proof fn lemma_fastest(c: Seq<RouteView>)
    requires
        c.len() > 0,
        forall|i: int| 0 <= i < c.len() ==> !(#[trigger] c[i]).score.nan(),
    ensures
        0 <= fastest(c) < c.len(),
        forall|i: int| 0 <= i < c.len() ==> !(#[trigger] c[i]).score.less(c[fastest(c)].score),
        forall|i: int| 0 <= i < fastest(c) ==> c[fastest(c)].score.less((#[trigger] c[i]).score),
    decreases c.len(),
{
    if c.len() > 1 {
        let rest = c.drop_last();
        assert(forall|i: int| 0 <= i < rest.len() ==> #[trigger] rest[i] == c[i]);
        lemma_fastest(rest);
        assert(c[c.len() - 1] == c.last());
        assert forall|i: int| 0 <= i < c.len() implies !(#[trigger] c[i]).score.less(
            c[fastest(c)].score,
        ) by {
            if i < rest.len() {
                assert(!rest[i].score.less(rest[fastest(rest)].score));
            }
        }
        assert forall|i: int| 0 <= i < fastest(c) implies c[fastest(c)].score.less(
            (#[trigger] c[i]).score,
        ) by {
            assert(!rest[i].score.less(rest[fastest(rest)].score));
            if fastest(c) < rest.len() {
                assert(rest[fastest(rest)].score.less(rest[i].score));
            }
        }
    }
}

/// By latency a new flow comes to the route with the lowest score of those that
/// are not bad (of all, where each is bad): none of them scores lower, and none
/// that stands before it scores the same. Every score is to be a number.
pub proof fn law_lowest_latency_wins<F: Fn(Op) -> Scalar>(
    unit: F,
    b: BalancerView,
    flow: FlowKey,
    routes: Seq<RouteView>,
    hash: u64,
    now_ms: i64,
) -> (k: int)
    requires
        b.strategy == LbStrategy::LeastLatency,
        unseen(b, flow),
        routes.len() > 0,
        forall|i: int| 0 <= i < routes.len() ==> !(#[trigger] routes[i]).score.nan(),
    ensures
        eligible(routes, k),
        b.registered(unit, flow, routes, hash, now_ms).1 == Some(
            BindingView { flow, route_id: routes[k].route_id, created_at_ms: now_ms },
        ),
        forall|i: int| #[trigger]
            eligible(routes, i) ==> !routes[i].score.less(routes[k].score),
        forall|i: int| #[trigger]
            eligible(routes, i) && i < k ==> routes[k].score.less(routes[i].score),
{
    let c = pool(routes, false);
    lemma_unseen(b.bindings, flow);
    lemma_all_bad(routes);
    assert(c.len() > 0);
    assert forall|p: int| 0 <= p < c.len() implies !(#[trigger] c[p]).score.nan() by {
        let j = lemma_seat(routes, p);
    }
    lemma_fastest(c);
    let k = lemma_seat(routes, fastest(c));
    assert forall|i: int| #[trigger] eligible(routes, i) implies !routes[i].score.less(
        routes[k].score,
    ) && (i < k ==> routes[k].score.less(routes[i].score)) by {
        lemma_place_in_pool(routes, i);
        assert(c[ahead(routes, i)] == routes[i]);
        if i < k {
            lemma_ahead_grows(routes, i, k);
        }
    }
    k
}

/// Whether the turn passes from one route to the next that a flow may come to,
/// and from the last to the first.
pub open spec fn next_in_turn(routes: Seq<RouteView>, k: int, n: int) -> bool {
    if k < n {
        forall|i: int| #[trigger] eligible(routes, i) ==> i <= k || n <= i
    } else {
        forall|i: int| #[trigger] eligible(routes, i) ==> n <= i <= k
    }
}

proof fn lemma_turn<F: Fn(Op) -> Scalar>(
    unit: F,
    b: BalancerView,
    flow: FlowKey,
    routes: Seq<RouteView>,
    hash: u64,
    now_ms: i64,
) -> (k: int)
    requires
        b.strategy == LbStrategy::RoundRobin,
        unseen(b, flow),
        routes.len() > 0,
    ensures
        pool(routes, false).len() > 0,
        eligible(routes, k),
        ahead(routes, k) == b.rr_counter as int % pool(routes, false).len() as int,
        b.registered(unit, flow, routes, hash, now_ms).1 == Some(
            BindingView { flow, route_id: routes[k].route_id, created_at_ms: now_ms },
        ),
{
    lemma_unseen(b.bindings, flow);
    let c = pool(routes, false);
    lemma_mod_bound(b.rr_counter as int, c.len() as int);
    lemma_seat(routes, b.rr_counter as int % c.len() as int)
}

/// Flows take turns: of two new flows registered one after the other, the second
/// comes to the route after that of the first, among those that are not bad (all,
/// where each is bad); after the last comes the first again. The very first flow
/// comes to the first of them. The count of turns is to stay within its range.
pub proof fn law_turns_pass_on<F: Fn(Op) -> Scalar>(
    unit: F,
    b: BalancerView,
    one: FlowKey,
    two: FlowKey,
    routes: Seq<RouteView>,
    hash_one: u64,
    hash_two: u64,
    now_ms: i64,
    later_ms: i64,
) -> (turn: (int, int))
    requires
        b.strategy == LbStrategy::RoundRobin,
        b.rr_counter < usize::MAX,
        unseen(b, one),
        unseen(b, two),
        one != two,
        routes.len() > 0,
    ensures
        ({
            let first = b.registered(unit, one, routes, hash_one, now_ms);
            let second = first.0.registered(unit, two, routes, hash_two, later_ms);
            &&& eligible(routes, turn.0)
            &&& eligible(routes, turn.1)
            &&& first.1 == Some(
                BindingView {
                    flow: one,
                    route_id: routes[turn.0].route_id,
                    created_at_ms: now_ms,
                },
            )
            &&& second.1 == Some(
                BindingView {
                    flow: two,
                    route_id: routes[turn.1].route_id,
                    created_at_ms: later_ms,
                },
            )
            &&& next_in_turn(routes, turn.0, turn.1)
            &&& b.rr_counter == 0 ==> forall|i: int| #[trigger]
                eligible(routes, i) ==> turn.0 <= i
        }),
{
    let c = pool(routes, false);
    let n = c.len() as int;
    let first = b.registered(unit, one, routes, hash_one, now_ms);
    let k = lemma_turn(unit, b, one, routes, hash_one, now_ms);
    lemma_unseen(b.bindings, one);
    assert(first.0.rr_counter == b.rr_counter + 1);
    assert(unseen(first.0, two)) by {
        assert forall|j: int| 0 <= j < first.0.bindings.len() implies (
        #[trigger] first.0.bindings[j]).flow != two by {
            if j < b.bindings.len() {
                assert(first.0.bindings[j] == b.bindings[j]);
            }
        }
    }
    let m = lemma_turn(unit, first.0, two, routes, hash_two, later_ms);
    let p = b.rr_counter as int % n;
    lemma_mod_bound(b.rr_counter as int, n);
    lemma_add_mod_noop(b.rr_counter as int, 1, n);
    lemma_add_mod_noop(p, 1, n);
    if p + 1 < n {
        lemma_small_mod((p + 1) as nat, n as nat);
        lemma_small_mod(p as nat, n as nat);
    } else {
        lemma_small_mod(p as nat, n as nat);
        lemma_mod_self_0(n);
    }
    assert forall|i: int| #[trigger] eligible(routes, i) implies (if k < m {
        i <= k || m <= i
    } else {
        m <= i <= k
    }) && (b.rr_counter == 0 ==> k <= i) by {
        lemma_place_in_pool(routes, i);
        if k < i {
            lemma_ahead_grows(routes, k, i);
        } else {
            lemma_ahead_grows(routes, i, k);
        }
        if i < m {
            lemma_ahead_grows(routes, i, m);
        } else {
            lemma_ahead_grows(routes, m, i);
        }
        if k < m {
            lemma_ahead_grows(routes, k, m);
        } else {
            lemma_ahead_grows(routes, m, k);
        }
        if b.rr_counter == 0 {
            lemma_small_mod(0, n as nat);
        }
    }
    (k, m)
}

/// The share of the route at a place: one thousand times its weight, cut off to a
/// whole number, where a flow may come to it. A route without a weight weighs 1.
pub open spec fn portion<F: Fn(Op) -> Scalar>(
    unit: F,
    weights: Map<Seq<char>, Scalar>,
    routes: Seq<RouteView>,
    i: int,
) -> int {
    let weight = if weights.dom().contains(routes[i].route_id) {
        weights[routes[i].route_id]
    } else {
        Scalar { bits: 0x3f80_0000 }
    };
    if eligible(routes, i) {
        result(unit, Op::Times(weight, Scalar { bits: 0x447a_0000 })).whole_part()
    } else {
        0
    }
}

/// The shares of the first `n` routes.
pub open spec fn portions<F: Fn(Op) -> Scalar>(
    unit: F,
    weights: Map<Seq<char>, Scalar>,
    routes: Seq<RouteView>,
    n: int,
) -> int
    decreases n,
{
    if n <= 0 {
        0
    } else {
        portions(unit, weights, routes, n - 1) + portion(unit, weights, routes, n - 1)
    }
}

spec fn plain_sum(s: Seq<int>) -> int
    decreases s.len(),
{
    if s.len() == 0 {
        0
    } else {
        plain_sum(s.drop_last()) + s.last()
    }
}

proof fn lemma_plain_sum_front(s: Seq<int>)
    requires
        s.len() > 0,
    ensures
        plain_sum(s) == s[0] + plain_sum(s.drop_first()),
    decreases s.len(),
{
    if s.len() == 1 {
        assert(s.drop_last() =~= Seq::<int>::empty());
        assert(s.drop_first() =~= Seq::<int>::empty());
    } else {
        lemma_plain_sum_front(s.drop_last());
        assert(s.drop_last().drop_first() =~= s.drop_first().drop_last());
        assert(s.drop_first().last() == s.last());
    }
}

spec fn none_negative(s: Seq<int>) -> bool {
    forall|i: int| 0 <= i < s.len() ==> 0 <= #[trigger] s[i]
}

proof fn lemma_parts_unheld(s: Seq<int>)
    requires
        none_negative(s),
        plain_sum(s) <= u64::MAX,
    ensures
        all_parts(s) == plain_sum(s),
        0 <= plain_sum(s),
    decreases s.len(),
{
    if s.len() > 0 {
        let rest = s.drop_last();
        assert(none_negative(rest)) by {
            assert forall|i: int| 0 <= i < rest.len() implies 0 <= #[trigger] rest[i] by {
                assert(rest[i] == s[i]);
            }
        }
        assert(0 <= s[s.len() - 1]);
        lemma_parts_unheld(rest);
    }
}

proof fn lemma_place_by_sums(s: Seq<int>, acc: int, target: int)
    requires
        s.len() > 0,
        none_negative(s),
        0 <= acc <= target < acc + plain_sum(s),
        acc + plain_sum(s) <= u64::MAX,
    ensures
        0 <= place_of(s, acc, target) < s.len(),
        acc + plain_sum(s.take(place_of(s, acc, target))) <= target,
        target < acc + plain_sum(s.take(place_of(s, acc, target) + 1)),
    decreases s.len(),
{
    let rest = s.drop_first();
    lemma_plain_sum_front(s);
    assert(0 <= s[0]);
    assert(none_negative(rest)) by {
        assert forall|i: int| 0 <= i < rest.len() implies 0 <= #[trigger] rest[i] by {
            assert(rest[i] == s[i + 1]);
        }
    }
    assert(0 <= plain_sum(rest)) by {
        lemma_parts_unheld(rest);
    }
    assert(s.take(0) =~= Seq::<int>::empty());
    assert(s.take(1).drop_last() =~= Seq::<int>::empty());
    assert(s.take(1).last() == s[0]);
    assert(plain_sum(s.take(1)) == s[0]) by {
        reveal_with_fuel(plain_sum, 2);
    }
    if s.len() <= 1 {
        assert(rest =~= Seq::<int>::empty());
    } else if target >= acc + s[0] {
        lemma_place_by_sums(rest, acc + s[0], target);
        let p = place_of(rest, acc + s[0], target);
        assert(s.take(p + 1).drop_first() =~= rest.take(p));
        assert(s.take(p + 2).drop_first() =~= rest.take(p + 1));
        lemma_plain_sum_front(s.take(p + 1));
        lemma_plain_sum_front(s.take(p + 2));
    }
}

/// The shares of the first routes are those of the pool that stand there.
proof fn lemma_portions<F: Fn(Op) -> Scalar>(
    unit: F,
    weights: Map<Seq<char>, Scalar>,
    routes: Seq<RouteView>,
    n: int,
)
    requires
        0 <= n <= routes.len(),
    ensures
        0 <= ahead(routes, n) <= pool(routes, false).len(),
        portions(unit, weights, routes, n) == plain_sum(
            shares(unit, weights, pool(routes, false)).take(ahead(routes, n)),
        ),
    decreases n,
{
    let c = pool(routes, false);
    let s = shares(unit, weights, c);
    lemma_all_bad(routes);
    if n == 0 {
        assert(routes.take(0) =~= Seq::<RouteView>::empty());
        assert(s.take(0) =~= Seq::<int>::empty());
    } else {
        lemma_portions(unit, weights, routes, n - 1);
        let p = ahead(routes, n - 1);
        assert(routes.take(n).drop_last() =~= routes.take(n - 1));
        assert(routes.take(n).last() == routes[n - 1]);
        if eligible(routes, n - 1) {
            lemma_place_in_pool(routes, n - 1);
            assert(ahead(routes, n) == p + 1);
            assert(s.take(p + 1).drop_last() =~= s.take(p));
            assert(s.take(p + 1).last() == s[p]);
            assert(s[p] == parts_of(unit, weights, c[p]));
        } else {
            assert(ahead(routes, n) == p);
        }
    }
}

/// By hash a new flow comes to the routes by their shares: the hash value, taken
/// modulo the sum of all shares, falls into the share of its route, when the
/// shares are laid out one after the other. Their sum is to fit 64 bits.
pub proof fn law_hash_falls_by_share<F: Fn(Op) -> Scalar>(
    unit: F,
    b: BalancerView,
    flow: FlowKey,
    routes: Seq<RouteView>,
    hash: u64,
    now_ms: i64,
) -> (k: int)
    requires
        b.strategy == LbStrategy::WeightedHash,
        unseen(b, flow),
        0 < portions(unit, b.weights, routes, routes.len() as int) <= u64::MAX,
    ensures
        eligible(routes, k),
        b.registered(unit, flow, routes, hash, now_ms).1 == Some(
            BindingView { flow, route_id: routes[k].route_id, created_at_ms: now_ms },
        ),
        ({
            let at = hash as int % portions(unit, b.weights, routes, routes.len() as int);
            portions(unit, b.weights, routes, k) <= at < portions(unit, b.weights, routes, k + 1)
        }),
{
    let c = pool(routes, false);
    let s = shares(unit, b.weights, c);
    let n = routes.len() as int;
    lemma_unseen(b.bindings, flow);
    lemma_portions(unit, b.weights, routes, n);
    lemma_all_bad(routes);
    assert(routes.take(n) =~= routes);
    assert(ahead(routes, n) == c.len());
    assert(s.take(c.len() as int) =~= s);
    let total = portions(unit, b.weights, routes, n);
    assert(total == plain_sum(s));
    assert(none_negative(s)) by {
        assert forall|i: int| 0 <= i < s.len() implies 0 <= #[trigger] s[i] by {
            lemma_parts_not_negative(unit, b.weights, c[i]);
        }
    }
    lemma_parts_unheld(s);
    lemma_mod_bound(hash as int, total);
    assert(s.len() > 0);
    lemma_place_by_sums(s, 0, hash as int % total);
    let p = weighted_place(s, hash);
    let k = lemma_seat(routes, p);
    lemma_portions(unit, b.weights, routes, k);
    lemma_portions(unit, b.weights, routes, k + 1);
    lemma_place_in_pool(routes, k);
    assert(routes.take(k + 1).drop_last() =~= routes.take(k));
    assert(routes.take(k + 1).last() == routes[k]);
    assert(ahead(routes, k + 1) == p + 1);
    k
}

proof fn lemma_parts_not_negative<F: Fn(Op) -> Scalar>(
    unit: F,
    weights: Map<Seq<char>, Scalar>,
    r: RouteView,
)
    ensures
        0 <= parts_of(unit, weights, r),
{
    lemma_whole_part(
        result(
            unit,
            Op::Times(
                if weights.dom().contains(r.route_id) {
                    weights[r.route_id]
                } else {
                    Scalar::one_value()
                },
                Scalar { bits: WEIGHT_PARTS_BITS },
            ),
        ),
    );
}

/// Where no route has a share, a new flow comes to the first that it may come to.
pub proof fn law_hash_without_shares<F: Fn(Op) -> Scalar>(
    unit: F,
    b: BalancerView,
    flow: FlowKey,
    routes: Seq<RouteView>,
    hash: u64,
    now_ms: i64,
) -> (k: int)
    requires
        b.strategy == LbStrategy::WeightedHash,
        unseen(b, flow),
        routes.len() > 0,
        portions(unit, b.weights, routes, routes.len() as int) == 0,
    ensures
        eligible(routes, k),
        b.registered(unit, flow, routes, hash, now_ms).1 == Some(
            BindingView { flow, route_id: routes[k].route_id, created_at_ms: now_ms },
        ),
        forall|i: int| #[trigger] eligible(routes, i) ==> k <= i,
{
    let c = pool(routes, false);
    let s = shares(unit, b.weights, c);
    let n = routes.len() as int;
    lemma_unseen(b.bindings, flow);
    lemma_portions(unit, b.weights, routes, n);
    lemma_all_bad(routes);
    assert(routes.take(n) =~= routes);
    assert(s.take(c.len() as int) =~= s);
    assert(none_negative(s)) by {
        assert forall|i: int| 0 <= i < s.len() implies 0 <= #[trigger] s[i] by {
            lemma_parts_not_negative(unit, b.weights, c[i]);
        }
    }
    lemma_parts_unheld(s);
    let k = lemma_seat(routes, 0);
    assert forall|i: int| #[trigger] eligible(routes, i) implies k <= i by {
        lemma_place_in_pool(routes, i);
        if i < k {
            lemma_ahead_grows(routes, i, k);
        }
    }
    k
}

/// A flow without any route to come to is not bound, and nothing changes.
pub proof fn law_no_route_no_binding<F: Fn(Op) -> Scalar>(
    unit: F,
    b: BalancerView,
    flow: FlowKey,
    hash: u64,
    now_ms: i64,
)
    requires
        unseen(b, flow),
    ensures
        b.registered(unit, flow, Seq::empty(), hash, now_ms) == (b, None::<BindingView>),
{
    lemma_unseen(b.bindings, flow);
}

/// Whether a route with an id is bad.
pub open spec fn gone_bad(routes: Seq<RouteView>, id: Seq<char>) -> bool {
    exists|i: int|
        0 <= i < routes.len() && (#[trigger] routes[i]).route_id == id && routes[i].health
            == Health::Bad
}

proof fn lemma_gone_bad(routes: Seq<RouteView>, id: Seq<char>)
    ensures
        bad_ids(routes).contains(id) == gone_bad(routes, id),
    decreases routes.len(),
{
    if routes.len() > 0 {
        let rest = routes.drop_last();
        let all = bad_ids(routes);
        let before = bad_ids(rest);
        lemma_gone_bad(rest, id);
        if gone_bad(rest, id) {
            let i = choose|i: int|
                0 <= i < rest.len() && (#[trigger] rest[i]).route_id == id && rest[i].health
                    == Health::Bad;
            assert(routes[i] == rest[i]);
            let k = before.index_of(id);
            assert(all[k] == id);
        } else if gone_bad(routes, id) {
            let i = choose|i: int|
                0 <= i < routes.len() && (#[trigger] routes[i]).route_id == id && routes[i].health
                    == Health::Bad;
            if i < rest.len() {
                assert(rest[i] == routes[i]);
            }
            assert(all[all.len() - 1] == id);
        } else if all.contains(id) {
            let k = all.index_of(id);
            if k < before.len() {
                assert(before[k] == id);
            } else {
                assert(routes[routes.len() - 1].route_id == id);
            }
        }
    } else {
        assert(!gone_bad(routes, id));
    }
}

/// Rebinding moves what it has to and leaves the rest alone. As long as any route
/// is not bad, every flow keeps its place: one whose route is not bad keeps its
/// binding as it is, any other gets a route that is not bad and the time of the
/// rebinding; the count is that of the flows moved, and none is dropped.
pub proof fn law_rebinding_moves_only_the_bad<F: Fn(Op) -> Scalar>(
    unit: F,
    b: BalancerView,
    list: Seq<BindingView>,
    routes: Seq<RouteView>,
    hashes: Seq<u64>,
    now_ms: i64,
)
    requires
        exists|i: int| 0 <= i < routes.len() && (#[trigger] routes[i]).health != Health::Bad,
    ensures
        ({
            let r = rebinding(unit, b, list, routes, hashes, now_ms);
            &&& r.dropped == 0
            &&& r.kept.len() == list.len()
            &&& forall|i: int|
                0 <= i < list.len() ==> {
                    let x = #[trigger] r.kept[i];
                    if gone_bad(routes, list[i].route_id) {
                        &&& x.flow == list[i].flow
                        &&& x.created_at_ms == now_ms
                        &&& exists|k: int|
                            0 <= k < routes.len() && (#[trigger] routes[k]).route_id == x.route_id
                                && routes[k].health != Health::Bad
                    } else {
                        x == list[i]
                    }
                }
            &&& r.rebound == list.filter(|x: BindingView| gone_bad(routes, x.route_id)).len()
        }),
    decreases list.len(),
{
    reveal(Seq::filter);
    let r = rebinding(unit, b, list, routes, hashes, now_ms);
    let on_bad = |x: BindingView| gone_bad(routes, x.route_id);
    lemma_all_bad(routes);
    if list.len() > 0 {
        let rest = list.drop_last();
        let before = rebinding(unit, b, rest, routes, hashes, now_ms);
        let last = list.last();
        law_rebinding_moves_only_the_bad(unit, b, rest, routes, hashes, now_ms);
        lemma_gone_bad(routes, last.route_id);
        if gone_bad(routes, last.route_id) {
            lemma_picked_place(
                unit,
                before.balancer,
                routes,
                true,
                hashes[list.len() - 1],
            );
            let picked = before.balancer.picked(unit, routes, true, hashes[list.len() - 1]);
            let at = choose|at: int|
                0 <= at < pool(routes, true).len() && picked == Some(
                    (#[trigger] pool(routes, true)[at]).route_id,
                );
            let k = lemma_usable_seat(routes, at);
            assert(routes[k].route_id == picked->0);
        }
        assert forall|i: int| 0 <= i < list.len() implies ({
            let x = #[trigger] r.kept[i];
            if gone_bad(routes, list[i].route_id) {
                &&& x.flow == list[i].flow
                &&& x.created_at_ms == now_ms
                &&& exists|k: int|
                    0 <= k < routes.len() && (#[trigger] routes[k]).route_id == x.route_id
                        && routes[k].health != Health::Bad
            } else {
                x == list[i]
            }
        }) by {
            if i < rest.len() {
                assert(rest[i] == list[i]);
                assert(r.kept[i] == before.kept[i]);
            }
        }
        assert(list.filter(on_bad).len() == rest.filter(on_bad).len() + if on_bad(last) {
            1int
        } else {
            0
        });
    }
}

/// Where every route is bad, flows on them are dropped and counted, and all others
/// keep their bindings.
pub proof fn law_rebinding_drops_when_all_are_bad<F: Fn(Op) -> Scalar>(
    unit: F,
    b: BalancerView,
    list: Seq<BindingView>,
    routes: Seq<RouteView>,
    hashes: Seq<u64>,
    now_ms: i64,
)
    requires
        forall|i: int| 0 <= i < routes.len() ==> (#[trigger] routes[i]).health == Health::Bad,
    ensures
        ({
            let r = rebinding(unit, b, list, routes, hashes, now_ms);
            &&& r.rebound == 0
            &&& r.kept == list.filter(|x: BindingView| !gone_bad(routes, x.route_id))
            &&& r.dropped == list.len() - r.kept.len()
        }),
    decreases list.len(),
{
    reveal(Seq::filter);
    lemma_all_bad(routes);
    if list.len() > 0 {
        let rest = list.drop_last();
        law_rebinding_drops_when_all_are_bad(unit, b, rest, routes, hashes, now_ms);
        lemma_gone_bad(routes, list.last().route_id);
    }
}

} // verus!
