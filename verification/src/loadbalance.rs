//! Sticky spreading of flows over routes.
//!
//! A flow that is bound to a route stays there until it is unregistered or its
//! route goes bad.

use crate::address::IpAddr;
use crate::arith::{dependable, product, product_of, Op};
use crate::name_map::NameMap;
use crate::scalar::{Scalar, ONE_BITS};
use crate::snapshot::{Health, RouteView, Snapshot};
use crate::text::{holds_text, lemma_texts_push, opt_text, texts};
use std::collections::hash_map::DefaultHasher;
use std::hash::{BuildHasher, BuildHasherDefault};
use vstd::arithmetic::div_mod::{lemma_mod_equivalence, lemma_small_mod};
use vstd::prelude::*;

verus! {

/// The encoding of 1000.0, the parts that a weight of one has.
pub const WEIGHT_PARTS_BITS: u32 = 0x447a_0000;

/// What tells one flow from another.
#[derive(Debug, Clone, Copy, PartialEq, Eq, Hash, Structural)]
pub struct FlowKey {
    pub src_ip: IpAddr,
    pub src_port: u16,
    pub dst_ip: IpAddr,
    pub dst_port: u16,
    pub proto: u8,
}

/// How a route is picked for a new flow.
#[derive(Debug, Clone, Copy, PartialEq, Eq, Structural)]
pub enum LbStrategy {
    RoundRobin,
    LeastLatency,
    WeightedHash,
}

impl Default for LbStrategy {
    fn default() -> (r: LbStrategy)
        ensures
            r == LbStrategy::LeastLatency,
    {
        LbStrategy::LeastLatency
    }
}

/// A flow with its route.
#[derive(Debug, Clone)]
pub struct FlowBinding {
    pub flow: FlowKey,
    pub route_id: String,
    pub created_at_ms: i64,
}

/// What a `FlowBinding` holds.
#[verifier::ext_equal]
pub struct BindingView {
    pub flow: FlowKey,
    pub route_id: Seq<char>,
    pub created_at_ms: i64,
}

impl View for FlowBinding {
    type V = BindingView;

    open spec fn view(&self) -> BindingView {
        BindingView {
            flow: self.flow,
            route_id: self.route_id@,
            created_at_ms: self.created_at_ms,
        }
    }
}

impl FlowBinding {
    fn copy(&self) -> (r: FlowBinding)
        ensures
            r@ == self@,
    {
        FlowBinding {
            flow: self.flow,
            route_id: self.route_id.clone(),
            created_at_ms: self.created_at_ms,
        }
    }
}

/// What a list of bindings holds.
pub open spec fn binding_views(list: Seq<FlowBinding>) -> Seq<BindingView> {
    Seq::new(list.len(), |i: int| list[i]@)
}

/// What an optional binding holds.
pub open spec fn opt_binding(b: Option<FlowBinding>) -> Option<BindingView> {
    match b {
        Some(x) => Some(x@),
        None => None,
    }
}

/// The state of the balancer.
#[derive(Debug, Clone, Copy, PartialEq, Eq, Structural)]
pub struct LbState {
    pub strategy: LbStrategy,
    pub bindings_count: usize,
    pub rr_counter: usize,
}

/// What a rebinding came to.
#[derive(Debug, Clone, Copy, PartialEq, Eq, Structural)]
pub struct RebindResult {
    pub rebound: usize,
    pub dropped: usize,
}

/// Spreads flows over routes.
#[derive(Debug)]
pub struct LoadBalancer {
    bindings: Vec<FlowBinding>,
    strategy: LbStrategy,
    weights: NameMap<Scalar>,
    rr_counter: usize,
}

/// What a balancer holds; its bindings in the order in which they were made.
#[verifier::ext_equal]
pub struct BalancerView {
    pub bindings: Seq<BindingView>,
    pub strategy: LbStrategy,
    pub weights: Map<Seq<char>, Scalar>,
    pub rr_counter: usize,
}

impl View for LoadBalancer {
    type V = BalancerView;

    closed spec fn view(&self) -> BalancerView {
        BalancerView {
            bindings: binding_views(self.bindings@),
            strategy: self.strategy,
            weights: self.weights@,
            rr_counter: self.rr_counter,
        }
    }
}

// ---------------------------------------------------------------------------
// Picking a route
// ---------------------------------------------------------------------------

/// The routes that are not bad.
pub open spec fn usable(routes: Seq<RouteView>) -> Seq<RouteView>
    decreases routes.len(),
{
    if routes.len() == 0 {
        seq![]
    } else if routes.last().health == Health::Bad {
        usable(routes.drop_last())
    } else {
        usable(routes.drop_last()).push(routes.last())
    }
}

/// The routes to pick from: those that are not bad, or all of them where each is
/// bad and that is allowed.
pub open spec fn pool(routes: Seq<RouteView>, strict: bool) -> Seq<RouteView> {
    if usable(routes).len() == 0 && !strict {
        routes
    } else {
        usable(routes)
    }
}

/// The place of the first of the lowest scores.
pub open spec fn fastest(routes: Seq<RouteView>) -> int
    decreases routes.len(),
{
    if routes.len() <= 1 {
        0
    } else {
        let best = fastest(routes.drop_last());
        if routes.last().score.less(routes[best].score) {
            routes.len() - 1
        } else {
            best
        }
    }
}

/// The parts that a route has by its weight, one thousand for each whole.
pub open spec fn parts_of<F: Fn(Op) -> Scalar>(
    unit: F,
    weights: Map<Seq<char>, Scalar>,
    r: RouteView,
) -> int {
    let w = if weights.dom().contains(r.route_id) {
        weights[r.route_id]
    } else {
        Scalar::one_value()
    };
    product_of(unit, w, Scalar { bits: WEIGHT_PARTS_BITS }).whole_part()
}

/// The parts of some routes.
pub open spec fn shares<F: Fn(Op) -> Scalar>(
    unit: F,
    weights: Map<Seq<char>, Scalar>,
    routes: Seq<RouteView>,
) -> Seq<int> {
    Seq::new(routes.len(), |i: int| parts_of(unit, weights, routes[i]))
}

/// A number held to what 64 bits can carry.
pub open spec fn held(n: int) -> int {
    if n > u64::MAX {
        u64::MAX as int
    } else {
        n
    }
}

/// The sum of all parts.
pub open spec fn all_parts(s: Seq<int>) -> int
    decreases s.len(),
{
    if s.len() == 0 {
        0
    } else {
        held(all_parts(s.drop_last()) + s.last())
    }
}

/// The place at which a count of parts from `acc` on passes a target; the last
/// where it does not.
pub open spec fn place_of(s: Seq<int>, acc: int, target: int) -> int
    decreases s.len(),
{
    if s.len() <= 1 || target < held(acc + s[0]) {
        0
    } else {
        1 + place_of(s.drop_first(), held(acc + s[0]), target)
    }
}

/// The place that a hash value falls on, by the parts of each.
pub open spec fn weighted_place(s: Seq<int>, hash: u64) -> int {
    if all_parts(s) == 0 {
        0
    } else {
        place_of(s, 0, hash as int % all_parts(s))
    }
}

impl BalancerView {
    /// The route picked for a flow with a hash value, if there is any.
    pub open spec fn picked<F: Fn(Op) -> Scalar>(
        self,
        unit: F,
        routes: Seq<RouteView>,
        strict: bool,
        hash: u64,
    ) -> Option<Seq<char>> {
        let c = pool(routes, strict);
        if c.len() == 0 {
            None
        } else {
            let at = match self.strategy {
                LbStrategy::RoundRobin => self.rr_counter as int % c.len() as int,
                LbStrategy::LeastLatency => fastest(c),
                LbStrategy::WeightedHash => weighted_place(shares(unit, self.weights, c), hash),
            };
            Some(c[at].route_id)
        }
    }

    /// The balancer after picking; only taking turns leaves a trace.
    pub open spec fn after_pick(self, routes: Seq<RouteView>, strict: bool) -> BalancerView {
        if self.strategy == LbStrategy::RoundRobin && pool(routes, strict).len() > 0 {
            BalancerView {
                rr_counter: if self.rr_counter == usize::MAX {
                    0
                } else {
                    (self.rr_counter + 1) as usize
                },
                ..self
            }
        } else {
            self
        }
    }

    /// Where the first binding of a flow stands; the number of bindings where it
    /// has none.
    pub open spec fn place(self, flow: FlowKey) -> int {
        binding_place(self.bindings, flow)
    }

    /// The balancer after registering a flow, and its binding.
    pub open spec fn registered<F: Fn(Op) -> Scalar>(
        self,
        unit: F,
        flow: FlowKey,
        routes: Seq<RouteView>,
        hash: u64,
        now_ms: i64,
    ) -> (BalancerView, Option<BindingView>) {
        let at = self.place(flow);
        if at < self.bindings.len() {
            (self, Some(self.bindings[at]))
        } else {
            match self.picked(unit, routes, false, hash) {
                None => (self, None),
                Some(route_id) => {
                    let b = BindingView { flow, route_id, created_at_ms: now_ms };
                    let next = self.after_pick(routes, false);
                    (BalancerView { bindings: next.bindings.push(b), ..next }, Some(b))
                },
            }
        }
    }
}

/// Where the first binding of a flow stands; the number of bindings where it has
/// none.
pub open spec fn binding_place(list: Seq<BindingView>, flow: FlowKey) -> int
    decreases list.len(),
{
    if list.len() == 0 || list[0].flow == flow {
        0
    } else {
        1 + binding_place(list.drop_first(), flow)
    }
}

/// The ids of the bad routes.
pub open spec fn bad_ids(routes: Seq<RouteView>) -> Seq<Seq<char>>
    decreases routes.len(),
{
    if routes.len() == 0 {
        seq![]
    } else if routes.last().health == Health::Bad {
        bad_ids(routes.drop_last()).push(routes.last().route_id)
    } else {
        bad_ids(routes.drop_last())
    }
}

/// A balancer in the middle of a rebinding: the bindings kept or moved so far and
/// the counts.
#[verifier::ext_equal]
pub struct Rebinding {
    pub balancer: BalancerView,
    pub kept: Seq<BindingView>,
    pub rebound: int,
    pub dropped: int,
}

/// The rebinding of some bindings, each with its hash value: those on bad routes
/// move to a route that is not bad, or go where there is none.
pub open spec fn rebinding<F: Fn(Op) -> Scalar>(
    unit: F,
    balancer: BalancerView,
    list: Seq<BindingView>,
    routes: Seq<RouteView>,
    hashes: Seq<u64>,
    now_ms: i64,
) -> Rebinding
    decreases list.len(),
{
    if list.len() == 0 {
        Rebinding { balancer, kept: seq![], rebound: 0, dropped: 0 }
    } else {
        let r = rebinding(unit, balancer, list.drop_last(), routes, hashes, now_ms);
        let b = list.last();
        if !bad_ids(routes).contains(b.route_id) {
            Rebinding { kept: r.kept.push(b), ..r }
        } else {
            let next = r.balancer.after_pick(routes, true);
            match r.balancer.picked(unit, routes, true, hashes[list.len() - 1]) {
                Some(route_id) => Rebinding {
                    balancer: next,
                    kept: r.kept.push(
                        BindingView { flow: b.flow, route_id, created_at_ms: now_ms },
                    ),
                    rebound: r.rebound + 1,
                    ..r
                },
                None => Rebinding { balancer: next, dropped: r.dropped + 1, ..r },
            }
        }
    }
}

/// Calls `BuildHasher::hash_one` of the standard library for a flow, with the
/// hasher that `DefaultHasher` gives by default. The algorithm is not specified
/// there and may differ between releases and machines, so nothing is said of the
/// value.
#[verifier::external_body]
fn flow_hash(flow: &FlowKey) -> (r: u64) {
    BuildHasherDefault::<DefaultHasher>::default().hash_one(flow)
}

proof fn lemma_binding_place(list: Seq<BindingView>, flow: FlowKey, i: int)
    requires
        0 <= i <= list.len(),
        forall|j: int| 0 <= j < i ==> (#[trigger] list[j]).flow != flow,
        i < list.len() ==> list[i].flow == flow,
    ensures
        binding_place(list, flow) == i,
    decreases list.len(),
{
    if i > 0 {
        let rest = list.drop_first();
        assert(list[0].flow != flow);
        assert forall|j: int| 0 <= j < i - 1 implies (#[trigger] rest[j]).flow != flow by {
            assert(rest[j] == list[j + 1]);
        }
        lemma_binding_place(rest, flow, i - 1);
    }
}

proof fn lemma_fastest_bounds(routes: Seq<RouteView>)
    requires
        routes.len() > 0,
    ensures
        0 <= fastest(routes) < routes.len(),
    decreases routes.len(),
{
    if routes.len() > 1 {
        lemma_fastest_bounds(routes.drop_last());
    }
}

proof fn lemma_place_bounds(s: Seq<int>, acc: int, target: int)
    requires
        s.len() > 0,
    ensures
        0 <= place_of(s, acc, target) < s.len(),
    decreases s.len(),
{
    if s.len() > 1 && target >= held(acc + s[0]) {
        lemma_place_bounds(s.drop_first(), held(acc + s[0]), target);
    }
}

fn hold(a: u64, b: u64) -> (r: u64)
    ensures
        r == held(a + b),
{
    if a > u64::MAX - b {
        u64::MAX
    } else {
        a + b
    }
}

fn index_by_parts(parts: &Vec<u64>, hash: u64, Ghost(s): Ghost<Seq<int>>) -> (r: usize)
    requires
        parts@.len() > 0,
        parts@.len() == s.len(),
        forall|i: int| 0 <= i < s.len() ==> #[trigger] s[i] == parts@[i] as int,
    ensures
        r == weighted_place(s, hash),
        r < parts@.len(),
{
    let n: usize = parts.len();
    let mut total: u64 = 0;
    let mut k: usize = 0;
    assert(s.take(0) =~= Seq::<int>::empty());
    while k < n
        invariant
            k <= n == parts@.len() == s.len(),
            forall|i: int| 0 <= i < s.len() ==> #[trigger] s[i] == parts@[i] as int,
            total == all_parts(s.take(k as int)),
        decreases n - k,
    {
        assert(s.take(k as int + 1).drop_last() =~= s.take(k as int));
        assert(s.take(k as int + 1).last() == s[k as int]);
        total = hold(total, parts[k]);
        k = k + 1;
    }
    assert(s.take(k as int) =~= s);
    if total == 0 {
        return 0;
    }
    let target: u64 = hash % total;
    proof {
        lemma_place_bounds(s, 0, target as int);
    }
    let mut acc: u64 = 0;
    let mut i: usize = 0;
    assert(s.skip(0) =~= s);
    while i < n - 1
        invariant
            i <= n - 1,
            n == parts@.len() == s.len(),
            n > 0,
            total == all_parts(s),
            total > 0,
            target == hash % total,
            forall|j: int| 0 <= j < s.len() ==> #[trigger] s[j] == parts@[j] as int,
            weighted_place(s, hash) == i + place_of(s.skip(i as int), acc as int, target as int),
        decreases n - i,
    {
        assert(s.skip(i as int)[0] == s[i as int]);
        assert(s.skip(i as int).drop_first() =~= s.skip(i as int + 1));
        acc = hold(acc, parts[i]);
        if target < acc {
            return i;
        }
        i = i + 1;
    }
    i
}

impl LoadBalancer {
    /// A balancer without flows.
    pub fn new() -> (r: LoadBalancer)
        ensures
            r@ == (BalancerView {
                bindings: seq![],
                strategy: LbStrategy::LeastLatency,
                weights: Map::empty(),
                rr_counter: 0,
            }),
    {
        let r = LoadBalancer {
            bindings: Vec::new(),
            strategy: LbStrategy::default(),
            weights: NameMap::new(),
            rr_counter: 0,
        };
        assert(r@.bindings =~= Seq::<BindingView>::empty());
        r
    }

    /// Sets how routes are picked.
    pub fn set_strategy(&mut self, s: LbStrategy)
        ensures
            final(self)@ == (BalancerView { strategy: s, ..old(self)@ }),
    {
        self.strategy = s;
    }

    /// How routes are picked.
    pub fn strategy(&self) -> (r: LbStrategy)
        ensures
            r == self@.strategy,
    {
        self.strategy
    }

    /// Sets the weights of the routes; one that is not named weighs one.
    pub fn set_route_weights(&mut self, w: NameMap<Scalar>)
        ensures
            final(self)@ == (BalancerView { weights: w@, ..old(self)@ }),
    {
        self.weights = w;
    }

    fn candidates(&self, snap: &Snapshot, strict: bool) -> (r: Vec<usize>)
        ensures
            forall|i: int| 0 <= i < r@.len() ==> #[trigger] r@[i] < snap.routes@.len(),
            r@.len() == pool(snap@.routes, strict).len(),
            forall|i: int|
                0 <= i < r@.len() ==> snap.routes@[#[trigger] r@[i] as int]@ == pool(
                    snap@.routes,
                    strict,
                )[i],
    {
        let ghost v = snap@.routes;
        let mut out: Vec<usize> = Vec::new();
        let mut i: usize = 0;
        assert(v.take(0) =~= Seq::<RouteView>::empty());
        while i < snap.routes.len()
            invariant
                i <= snap.routes@.len() == v.len(),
                v == snap@.routes,
                forall|j: int| 0 <= j < out@.len() ==> #[trigger] out@[j] < snap.routes@.len(),
                out@.len() == usable(v.take(i as int)).len(),
                forall|j: int|
                    0 <= j < out@.len() ==> snap.routes@[#[trigger] out@[j] as int]@ == usable(
                        v.take(i as int),
                    )[j],
            decreases snap.routes@.len() - i,
        {
            assert(v.take(i as int + 1).drop_last() =~= v.take(i as int));
            assert(v.take(i as int + 1).last() == snap.routes@[i as int]@);
            if snap.routes[i].health != Health::Bad {
                out.push(i);
            }
            i = i + 1;
        }
        assert(v.take(i as int) =~= v);
        if out.len() == 0 && !strict {
            let mut all: Vec<usize> = Vec::new();
            let mut k: usize = 0;
            while k < snap.routes.len()
                invariant
                    k <= snap.routes@.len(),
                    all@.len() == k,
                    forall|j: int| 0 <= j < k ==> #[trigger] all@[j] == j,
                decreases snap.routes@.len() - k,
            {
                all.push(k);
                k = k + 1;
            }
            return all;
        }
        out
    }

    fn pick_round_robin(&mut self, count: usize) -> (r: usize)
        requires
            count > 0,
        ensures
            r == old(self)@.rr_counter as int % count as int,
            final(self)@ == (BalancerView {
                rr_counter: if old(self)@.rr_counter == usize::MAX {
                    0
                } else {
                    (old(self)@.rr_counter + 1) as usize
                },
                ..old(self)@
            }),
    {
        let at: usize = self.rr_counter % count;
        self.rr_counter = if self.rr_counter == usize::MAX {
            0
        } else {
            self.rr_counter + 1
        };
        at
    }

    fn pick_least_latency(&self, snap: &Snapshot, list: &Vec<usize>, Ghost(c): Ghost<
        Seq<RouteView>,
    >) -> (r: usize)
        requires
            list@.len() > 0,
            list@.len() == c.len(),
            forall|i: int| 0 <= i < list@.len() ==> #[trigger] list@[i] < snap.routes@.len(),
            forall|i: int|
                0 <= i < list@.len() ==> snap.routes@[#[trigger] list@[i] as int]@ == c[i],
        ensures
            r == fastest(c),
            r < list@.len(),
    {
        let mut best: usize = 0;
        let mut i: usize = 1;
        while i < list.len()
            invariant
                1 <= i <= list@.len() == c.len(),
                best < i,
                forall|j: int| 0 <= j < list@.len() ==> #[trigger] list@[j] < snap.routes@.len(),
                forall|j: int|
                    0 <= j < list@.len() ==> snap.routes@[#[trigger] list@[j] as int]@ == c[j],
                best == fastest(c.take(i as int)),
            decreases list@.len() - i,
        {
            assert(c.take(i as int + 1).drop_last() =~= c.take(i as int));
            assert(c.take(i as int + 1).last() == c[i as int]);
            assert(c.take(i as int + 1)[best as int] == c[best as int]);
            if snap.routes[list[i]].score.lt(&snap.routes[list[best]].score) {
                best = i;
            }
            i = i + 1;
        }
        assert(c.take(i as int) =~= c);
        best
    }

    fn pick_weighted_hash<F: Fn(Op) -> Scalar>(
        &self,
        unit: &F,
        snap: &Snapshot,
        list: &Vec<usize>,
        hash: u64,
        Ghost(c): Ghost<Seq<RouteView>>,
    ) -> (r: usize)
        requires
            dependable(*unit),
            list@.len() > 0,
            list@.len() == c.len(),
            forall|i: int| 0 <= i < list@.len() ==> #[trigger] list@[i] < snap.routes@.len(),
            forall|i: int|
                0 <= i < list@.len() ==> snap.routes@[#[trigger] list@[i] as int]@ == c[i],
        ensures
            r == weighted_place(shares(*unit, self@.weights, c), hash),
            r < list@.len(),
    {
        let ghost s = shares(*unit, self@.weights, c);
        let mut parts: Vec<u64> = Vec::new();
        let mut i: usize = 0;
        while i < list.len()
            invariant
                dependable(*unit),
                i <= list@.len() == c.len(),
                s == shares(*unit, self@.weights, c),
                forall|j: int| 0 <= j < list@.len() ==> #[trigger] list@[j] < snap.routes@.len(),
                forall|j: int|
                    0 <= j < list@.len() ==> snap.routes@[#[trigger] list@[j] as int]@ == c[j],
                parts@.len() == i,
                forall|j: int| 0 <= j < i ==> #[trigger] s[j] == parts@[j] as int,
            decreases list@.len() - i,
        {
            let w = match self.weights.get(snap.routes[list[i]].route_id.as_str()) {
                Some(w) => *w,
                None => Scalar { bits: ONE_BITS },
            };
            parts.push(product(unit, w, Scalar { bits: WEIGHT_PARTS_BITS }).to_u64());
            i = i + 1;
        }
        index_by_parts(&parts, hash, Ghost(s))
    }

    fn pick_route<F: Fn(Op) -> Scalar>(
        &mut self,
        unit: &F,
        snap: &Snapshot,
        strict: bool,
        hash: u64,
    ) -> (r: Option<String>)
        requires
            dependable(*unit),
        ensures
            opt_text(r) == old(self)@.picked(*unit, snap@.routes, strict, hash),
            final(self)@ == old(self)@.after_pick(snap@.routes, strict),
    {
        let ghost c = pool(snap@.routes, strict);
        let list = self.candidates(snap, strict);
        if list.len() == 0 {
            return None;
        }
        let at = match self.strategy {
            LbStrategy::RoundRobin => self.pick_round_robin(list.len()),
            LbStrategy::LeastLatency => self.pick_least_latency(snap, &list, Ghost(c)),
            LbStrategy::WeightedHash => self.pick_weighted_hash(unit, snap, &list, hash, Ghost(c)),
        };
        assert(snap.routes@[list@[at as int] as int]@ == c[at as int]);
        Some(snap.routes[list[at]].route_id.clone())
    }

    fn find_flow(&self, flow: &FlowKey) -> (r: usize)
        ensures
            r == self@.place(*flow),
            r <= self.bindings@.len(),
            r < self.bindings@.len() ==> self.bindings@[r as int].flow == *flow,
    {
        let ghost v = self@.bindings;
        let mut i: usize = 0;
        while i < self.bindings.len()
            invariant
                i <= self.bindings@.len() == v.len(),
                v == self@.bindings,
                forall|j: int| 0 <= j < i ==> (#[trigger] v[j]).flow != *flow,
            decreases self.bindings@.len() - i,
        {
            assert(v[i as int] == self.bindings@[i as int]@);
            if self.bindings[i].flow == *flow {
                proof {
                    lemma_binding_place(v, *flow, i as int);
                }
                return i;
            }
            i = i + 1;
        }
        proof {
            lemma_binding_place(v, *flow, i as int);
        }
        i
    }

    /// Binds a flow with a given hash value to a route; one that is bound stays
    /// where it is. There may be no route.
    pub fn register_hashed<F: Fn(Op) -> Scalar>(
        &mut self,
        unit: &F,
        flow: FlowKey,
        snap: &Snapshot,
        hash: u64,
        now_ms: i64,
    ) -> (r: Option<FlowBinding>)
        requires
            dependable(*unit),
        ensures
            (final(self)@, opt_binding(r)) == old(self)@.registered(
                *unit,
                flow,
                snap@.routes,
                hash,
                now_ms,
            ),
    {
        let at = self.find_flow(&flow);
        if at < self.bindings.len() {
            assert(self@.bindings[at as int] == self.bindings@[at as int]@);
            return Some(self.bindings[at].copy());
        }
        match self.pick_route(unit, snap, false, hash) {
            None => None,
            Some(route_id) => {
                let b = FlowBinding { flow, route_id, created_at_ms: now_ms };
                let ghost before = self.bindings@;
                self.bindings.push(b.copy());
                assert(binding_views(self.bindings@) =~= binding_views(before).push(b@));
                Some(b)
            },
        }
    }

    /// Binds a flow to a route; one that is bound stays where it is. There may be
    /// no route.
    pub fn register_flow<F: Fn(Op) -> Scalar>(
        &mut self,
        unit: &F,
        flow: FlowKey,
        snap: &Snapshot,
        now_ms: i64,
    ) -> (r: Option<FlowBinding>)
        requires
            dependable(*unit),
        ensures
            exists|hash: u64|
                (final(self)@, opt_binding(r)) == #[trigger] old(self)@.registered(
                    *unit,
                    flow,
                    snap@.routes,
                    hash,
                    now_ms,
                ),
    {
        let hash: u64 = flow_hash(&flow);
        self.register_hashed(unit, flow, snap, hash, now_ms)
    }

    /// Unbinds a flow, and tells whether it was bound.
    pub fn unregister_flow(&mut self, flow: &FlowKey) -> (r: bool)
        ensures
            ({
                let at = old(self)@.place(*flow);
                if at < old(self)@.bindings.len() {
                    r && final(self)@ == (BalancerView {
                        bindings: old(self)@.bindings.remove(at),
                        ..old(self)@
                    })
                } else {
                    !r && final(self)@ == old(self)@
                }
            }),
    {
        let at = self.find_flow(flow);
        if at < self.bindings.len() {
            let ghost before = self.bindings@;
            let _ = self.bindings.remove(at);
            assert(binding_views(self.bindings@) =~= binding_views(before).remove(at as int));
            true
        } else {
            false
        }
    }

    /// The bindings, in the order in which they were made.
    pub fn list_flows(&self) -> (r: Vec<FlowBinding>)
        ensures
            binding_views(r@) == self@.bindings,
    {
        let mut out: Vec<FlowBinding> = Vec::new();
        let mut i: usize = 0;
        while i < self.bindings.len()
            invariant
                i <= self.bindings@.len(),
                out@.len() == i,
                forall|j: int| 0 <= j < i ==> (#[trigger] out@[j])@ == self.bindings@[j]@,
            decreases self.bindings@.len() - i,
        {
            out.push(self.bindings[i].copy());
            i = i + 1;
        }
        assert(binding_views(out@) =~= self@.bindings);
        out
    }

    /// The state of the balancer.
    pub fn state(&self) -> (r: LbState)
        ensures
            r.strategy == self@.strategy,
            r.bindings_count == self@.bindings.len(),
            r.rr_counter == self@.rr_counter,
    {
        LbState {
            strategy: self.strategy,
            bindings_count: self.bindings.len(),
            rr_counter: self.rr_counter,
        }
    }

    /// Moves the flows off bad routes; each binding comes with its hash value. A
    /// flow for which there is no other route is dropped.
    pub fn rebind_hashed<F: Fn(Op) -> Scalar>(
        &mut self,
        unit: &F,
        snap: &Snapshot,
        hashes: &Vec<u64>,
        now_ms: i64,
    ) -> (r: RebindResult)
        requires
            dependable(*unit),
            hashes@.len() == old(self)@.bindings.len(),
        ensures
            ({
                let b = rebinding(
                    *unit,
                    old(self)@,
                    old(self)@.bindings,
                    snap@.routes,
                    hashes@,
                    now_ms,
                );
                &&& final(self)@ == (BalancerView { bindings: b.kept, ..b.balancer })
                &&& r.rebound == b.rebound
                &&& r.dropped == b.dropped
            }),
    {
        let ghost first = self@;
        let ghost routes = snap@.routes;
        let bad = list_bad(snap);
        let mut list: Vec<FlowBinding> = Vec::new();
        std::mem::swap(&mut list, &mut self.bindings);
        let ghost v = binding_views(list@);
        assert(v == first.bindings);
        let mut kept: Vec<FlowBinding> = Vec::new();
        let mut rebound: usize = 0;
        let mut dropped: usize = 0;
        let mut i: usize = 0;
        assert(v.take(0) =~= Seq::<BindingView>::empty());
        assert(binding_views(kept@) =~= Seq::<BindingView>::empty());
        while i < list.len()
            invariant
                dependable(*unit),
                i <= list@.len() == v.len() == hashes@.len(),
                v == binding_views(list@),
                routes == snap@.routes,
                texts(bad@) == bad_ids(routes),
                rebound + dropped <= i,
                ({
                    let b = rebinding(*unit, first, v.take(i as int), routes, hashes@, now_ms);
                    &&& self@ == (BalancerView { bindings: self@.bindings, ..b.balancer })
                    &&& binding_views(kept@) == b.kept
                    &&& rebound == b.rebound
                    &&& dropped == b.dropped
                }),
            decreases list@.len() - i,
        {
            let ghost part = v.take(i as int + 1);
            assert(part.drop_last() =~= v.take(i as int));
            assert(part.last() == list@[i as int]@);
            let ghost before = kept@;
            let ghost r0 = rebinding(*unit, first, v.take(i as int), routes, hashes@, now_ms);
            assert(self@.picked(*unit, routes, true, hashes@[i as int]) == r0.balancer.picked(
                *unit,
                routes,
                true,
                hashes@[i as int],
            ));
            if holds_text(&bad, list[i].route_id.as_str()) {
                match self.pick_route(unit, snap, true, hashes[i]) {
                    Some(route_id) => {
                        let b = FlowBinding {
                            flow: list[i].flow,
                            route_id,
                            created_at_ms: now_ms,
                        };
                        kept.push(b);
                        assert(binding_views(kept@) =~= binding_views(before).push(b@));
                        rebound = rebound + 1;
                    },
                    None => {
                        dropped = dropped + 1;
                    },
                }
            } else {
                kept.push(list[i].copy());
                assert(binding_views(kept@) =~= binding_views(before).push(v[i as int]));
            }
            i = i + 1;
        }
        assert(v.take(i as int) =~= v);
        self.bindings = kept;
        RebindResult { rebound, dropped }
    }

    /// Moves the flows off bad routes. A flow for which there is no other route is
    /// dropped.
    pub fn rebind_bad<F: Fn(Op) -> Scalar>(&mut self, unit: &F, snap: &Snapshot, now_ms: i64) -> (r:
        RebindResult)
        requires
            dependable(*unit),
        ensures
            exists|hashes: Seq<u64>|
                {
                    let b = #[trigger] rebinding(
                        *unit,
                        old(self)@,
                        old(self)@.bindings,
                        snap@.routes,
                        hashes,
                        now_ms,
                    );
                    &&& final(self)@ == (BalancerView { bindings: b.kept, ..b.balancer })
                    &&& r.rebound == b.rebound
                    &&& r.dropped == b.dropped
                },
    {
        let mut hashes: Vec<u64> = Vec::new();
        let mut i: usize = 0;
        while i < self.bindings.len()
            invariant
                i <= self.bindings@.len(),
                hashes@.len() == i,
            decreases self.bindings@.len() - i,
        {
            hashes.push(flow_hash(&self.bindings[i].flow));
            i = i + 1;
        }
        self.rebind_hashed(unit, snap, &hashes, now_ms)
    }
}

fn list_bad(snap: &Snapshot) -> (r: Vec<String>)
    ensures
        texts(r@) == bad_ids(snap@.routes),
{
    let ghost v = snap@.routes;
    let mut out: Vec<String> = Vec::new();
    let mut i: usize = 0;
    assert(v.take(0) =~= Seq::<RouteView>::empty());
    assert(texts(out@) =~= bad_ids(v.take(0)));
    while i < snap.routes.len()
        invariant
            i <= snap.routes@.len() == v.len(),
            v == snap@.routes,
            texts(out@) == bad_ids(v.take(i as int)),
        decreases snap.routes@.len() - i,
    {
        assert(v.take(i as int + 1).drop_last() =~= v.take(i as int));
        assert(v.take(i as int + 1).last() == snap.routes@[i as int]@);
        if snap.routes[i].health == Health::Bad {
            let id = snap.routes[i].route_id.clone();
            proof {
                lemma_texts_push(out@, id);
            }
            out.push(id);
        }
        i = i + 1;
    }
    assert(v.take(i as int) =~= v);
    out
}

// ---------------------------------------------------------------------------
// Laws
// ---------------------------------------------------------------------------

/// Whether no flow is bound twice.
pub open spec fn bound_once(list: Seq<BindingView>) -> bool {
    forall|i: int, j: int|
        0 <= i < j < list.len() ==> (#[trigger] list[i]).flow != (#[trigger] list[j]).flow
}

proof fn lemma_place_sound(list: Seq<BindingView>, flow: FlowKey)
    ensures
        0 <= binding_place(list, flow) <= list.len(),
        binding_place(list, flow) < list.len() ==> list[binding_place(list, flow)].flow == flow,
        forall|j: int| 0 <= j < binding_place(list, flow) ==> (#[trigger] list[j]).flow != flow,
    decreases list.len(),
{
    if list.len() > 0 && list[0].flow != flow {
        let rest = list.drop_first();
        lemma_place_sound(rest, flow);
        assert forall|j: int| 0 <= j < binding_place(list, flow) implies (
        #[trigger] list[j]).flow != flow by {
            if j > 0 {
                assert(list[j] == rest[j - 1]);
            }
        }
    }
}

/// A flow sticks to its route: registering it again, at any time and whatever the
/// routes have become, gives the same binding and changes nothing.
pub proof fn law_flows_are_sticky<F: Fn(Op) -> Scalar>(
    unit: F,
    b: BalancerView,
    flow: FlowKey,
    routes: Seq<RouteView>,
    hash: u64,
    now_ms: i64,
    later_routes: Seq<RouteView>,
    later_hash: u64,
    later_ms: i64,
)
    requires
        b.registered(unit, flow, routes, hash, now_ms).1 is Some,
    ensures
        ({
            let first = b.registered(unit, flow, routes, hash, now_ms);
            first.0.registered(unit, flow, later_routes, later_hash, later_ms) == first
        }),
{
    let first = b.registered(unit, flow, routes, hash, now_ms);
    lemma_place_sound(b.bindings, flow);
    if b.place(flow) == b.bindings.len() {
        let list = first.0.bindings;
        assert forall|j: int| 0 <= j < b.bindings.len() implies (#[trigger] list[j]).flow
            != flow by {
            assert(list[j] == b.bindings[j]);
        }
        lemma_binding_place(list, flow, b.bindings.len() as int);
    }
}

/// No flow is ever bound twice: registering keeps it so.
pub proof fn law_registering_binds_once<F: Fn(Op) -> Scalar>(
    unit: F,
    b: BalancerView,
    flow: FlowKey,
    routes: Seq<RouteView>,
    hash: u64,
    now_ms: i64,
)
    requires
        bound_once(b.bindings),
    ensures
        bound_once(b.registered(unit, flow, routes, hash, now_ms).0.bindings),
{
    lemma_place_sound(b.bindings, flow);
}

proof fn lemma_rebinding_flows<F: Fn(Op) -> Scalar>(
    unit: F,
    b: BalancerView,
    list: Seq<BindingView>,
    routes: Seq<RouteView>,
    hashes: Seq<u64>,
    now_ms: i64,
)
    ensures
        forall|i: int|
            0 <= i < rebinding(unit, b, list, routes, hashes, now_ms).kept.len() ==> exists|k: int|
                0 <= k < list.len() && (#[trigger] list[k]).flow == (#[trigger] rebinding(
                    unit,
                    b,
                    list,
                    routes,
                    hashes,
                    now_ms,
                ).kept[i]).flow,
    decreases list.len(),
{
    if list.len() > 0 {
        let rest = list.drop_last();
        let before = rebinding(unit, b, rest, routes, hashes, now_ms).kept;
        let kept = rebinding(unit, b, list, routes, hashes, now_ms).kept;
        lemma_rebinding_flows(unit, b, rest, routes, hashes, now_ms);
        assert forall|i: int| 0 <= i < kept.len() implies exists|k: int|
            0 <= k < list.len() && (#[trigger] list[k]).flow == (#[trigger] kept[i]).flow by {
            if i < before.len() {
                assert(kept[i] == before[i]);
                let k = choose|k: int|
                    0 <= k < rest.len() && (#[trigger] rest[k]).flow == before[i].flow;
                assert(list[k] == rest[k]);
            } else {
                assert(list[list.len() - 1] == list.last());
            }
        }
    }
}

/// No flow is ever bound twice: rebinding keeps it so.
pub proof fn law_rebinding_binds_once<F: Fn(Op) -> Scalar>(
    unit: F,
    b: BalancerView,
    list: Seq<BindingView>,
    routes: Seq<RouteView>,
    hashes: Seq<u64>,
    now_ms: i64,
)
    requires
        bound_once(list),
    ensures
        bound_once(rebinding(unit, b, list, routes, hashes, now_ms).kept),
    decreases list.len(),
{
    if list.len() > 0 {
        let rest = list.drop_last();
        let before = rebinding(unit, b, rest, routes, hashes, now_ms).kept;
        let kept = rebinding(unit, b, list, routes, hashes, now_ms).kept;
        assert forall|i: int, j: int| 0 <= i < j < rest.len() implies (#[trigger] rest[i]).flow
            != (#[trigger] rest[j]).flow by {
            assert(rest[i] == list[i] && rest[j] == list[j]);
        }
        law_rebinding_binds_once(unit, b, rest, routes, hashes, now_ms);
        lemma_rebinding_flows(unit, b, rest, routes, hashes, now_ms);
        assert forall|i: int, j: int| 0 <= i < j < kept.len() implies (#[trigger] kept[i]).flow
            != (#[trigger] kept[j]).flow by {
            assert(kept[i] == before[i]);
            if j < before.len() {
                assert(kept[j] == before[j]);
            } else {
                let k = choose|k: int|
                    0 <= k < rest.len() && (#[trigger] rest[k]).flow == before[i].flow;
                assert(list[k] == rest[k]);
                assert(list[list.len() - 1] == list.last());
            }
        }
    }
}

proof fn lemma_bad_ids(routes: Seq<RouteView>, id: Seq<char>)
    ensures
        bad_ids(routes).contains(id) ==> exists|i: int|
            0 <= i < routes.len() && (#[trigger] routes[i]).route_id == id && routes[i].health
                == Health::Bad,
    decreases routes.len(),
{
    if routes.len() > 0 && bad_ids(routes).contains(id) {
        let rest = routes.drop_last();
        lemma_bad_ids(rest, id);
        let k = bad_ids(routes).index_of(id);
        if k < bad_ids(rest).len() {
            assert(bad_ids(rest)[k] == id);
            assert(bad_ids(rest).contains(id));
            let i = choose|i: int|
                0 <= i < rest.len() && (#[trigger] rest[i]).route_id == id && rest[i].health
                    == Health::Bad;
            assert(routes[i] == rest[i]);
        } else {
            assert(routes[routes.len() - 1].route_id == id);
        }
    }
}

proof fn lemma_usable(routes: Seq<RouteView>)
    ensures
        forall|i: int|
            0 <= i < usable(routes).len() ==> exists|k: int|
                0 <= k < routes.len() && (#[trigger] routes[k]) == (#[trigger] usable(routes)[i])
                    && routes[k].health != Health::Bad,
    decreases routes.len(),
{
    if routes.len() > 0 {
        let rest = routes.drop_last();
        let before = usable(rest);
        let all = usable(routes);
        lemma_usable(rest);
        assert forall|i: int| 0 <= i < all.len() implies exists|k: int|
            0 <= k < routes.len() && (#[trigger] routes[k]) == (#[trigger] all[i])
                && routes[k].health != Health::Bad by {
            if i < before.len() {
                assert(all[i] == before[i]);
                let k = choose|k: int|
                    0 <= k < rest.len() && (#[trigger] rest[k]) == before[i] && rest[k].health
                        != Health::Bad;
                assert(routes[k] == rest[k]);
            } else {
                assert(routes[routes.len() - 1] == routes.last());
            }
        }
    }
}

/// What is picked is a route of the pool, and where there is any, one is picked.
pub proof fn lemma_picked_place<F: Fn(Op) -> Scalar>(
    unit: F,
    b: BalancerView,
    routes: Seq<RouteView>,
    strict: bool,
    hash: u64,
)
    requires
        pool(routes, strict).len() > 0,
    ensures
        exists|at: int|
            0 <= at < pool(routes, strict).len() && b.picked(unit, routes, strict, hash) == Some(
                (#[trigger] pool(routes, strict)[at]).route_id,
            ),
{
    let c = pool(routes, strict);
    lemma_fastest_bounds(c);
    let s = shares(unit, b.weights, c);
    if all_parts(s) != 0 {
        lemma_place_bounds(s, 0, hash as int % all_parts(s));
    }
    let at = match b.strategy {
        LbStrategy::RoundRobin => b.rr_counter as int % c.len() as int,
        LbStrategy::LeastLatency => fastest(c),
        LbStrategy::WeightedHash => weighted_place(s, hash),
    };
    assert(0 <= at < c.len());
    assert(b.picked(unit, routes, strict, hash) == Some(c[at].route_id));
}

proof fn lemma_picked_is_usable<F: Fn(Op) -> Scalar>(
    unit: F,
    b: BalancerView,
    routes: Seq<RouteView>,
    hash: u64,
)
    requires
        b.picked(unit, routes, true, hash) is Some,
    ensures
        exists|k: int|
            0 <= k < routes.len() && (#[trigger] routes[k]).route_id == b.picked(
                unit,
                routes,
                true,
                hash,
            )->0 && routes[k].health != Health::Bad,
{
    lemma_usable(routes);
    lemma_picked_place(unit, b, routes, true, hash);
    let c = pool(routes, true);
    let at = choose|at: int|
        0 <= at < c.len() && b.picked(unit, routes, true, hash) == Some(
            (#[trigger] c[at]).route_id,
        );
    let k = choose|k: int|
        0 <= k < routes.len() && (#[trigger] routes[k]) == usable(routes)[at] && routes[k].health
            != Health::Bad;
    assert(routes[k].route_id == c[at].route_id);
}

/// Whether routes with the same id have the same health.
pub open spec fn one_health_each(routes: Seq<RouteView>) -> bool {
    forall|i: int, j: int|
        0 <= i < routes.len() && 0 <= j < routes.len() && (#[trigger] routes[i]).route_id == (
        #[trigger] routes[j]).route_id ==> routes[i].health == routes[j].health
}

/// After a rebinding no flow is left on a bad route.
pub proof fn law_rebinding_leaves_bad_routes<F: Fn(Op) -> Scalar>(
    unit: F,
    b: BalancerView,
    list: Seq<BindingView>,
    routes: Seq<RouteView>,
    hashes: Seq<u64>,
    now_ms: i64,
)
    requires
        one_health_each(routes),
    ensures
        forall|i: int|
            0 <= i < rebinding(unit, b, list, routes, hashes, now_ms).kept.len() ==> !bad_ids(
                routes,
            ).contains(
                (#[trigger] rebinding(unit, b, list, routes, hashes, now_ms).kept[i]).route_id,
            ),
    decreases list.len(),
{
    if list.len() > 0 {
        let rest = list.drop_last();
        let before = rebinding(unit, b, rest, routes, hashes, now_ms);
        let kept = rebinding(unit, b, list, routes, hashes, now_ms).kept;
        law_rebinding_leaves_bad_routes(unit, b, rest, routes, hashes, now_ms);
        assert forall|i: int| 0 <= i < kept.len() implies !bad_ids(routes).contains(
            (#[trigger] kept[i]).route_id,
        ) by {
            if i < before.kept.len() {
                assert(kept[i] == before.kept[i]);
            } else if bad_ids(routes).contains(list.last().route_id) {
                let hash = hashes[list.len() - 1];
                lemma_picked_is_usable(unit, before.balancer, routes, hash);
                lemma_bad_ids(routes, kept[i].route_id);
            }
        }
    }
}

/// Nothing is lost: every flow is kept, moved or dropped.
pub proof fn law_rebinding_accounts_for_all<F: Fn(Op) -> Scalar>(
    unit: F,
    b: BalancerView,
    list: Seq<BindingView>,
    routes: Seq<RouteView>,
    hashes: Seq<u64>,
    now_ms: i64,
)
    ensures
        ({
            let r = rebinding(unit, b, list, routes, hashes, now_ms);
            &&& r.kept.len() + r.dropped == list.len()
            &&& 0 <= r.rebound <= r.kept.len()
        }),
    decreases list.len(),
{
    if list.len() > 0 {
        law_rebinding_accounts_for_all(unit, b, list.drop_last(), routes, hashes, now_ms);
    }
}

proof fn lemma_all_parts(s: Seq<int>, acc: int)
    requires
        forall|i: int| 0 <= i < s.len() ==> 0 <= #[trigger] s[i],
        0 <= acc <= u64::MAX,
    ensures
        0 <= running(s, acc) <= u64::MAX,
        acc <= running(s, acc),
    decreases s.len(),
{
    if s.len() > 0 {
        let rest = s.drop_first();
        assert forall|i: int| 0 <= i < rest.len() implies 0 <= #[trigger] rest[i] by {
            assert(rest[i] == s[i + 1]);
        }
        assert(0 <= s[0]);
        lemma_all_parts(rest, held(acc + s[0]));
    }
}

/// The count of parts from the front.
spec fn running(s: Seq<int>, acc: int) -> int
    decreases s.len(),
{
    if s.len() == 0 {
        acc
    } else {
        running(s.drop_first(), held(acc + s[0]))
    }
}

proof fn lemma_running_is_sum(s: Seq<int>, acc: int)
    requires
        s.len() > 0,
    ensures
        running(s, acc) == held(running(s.drop_last(), acc) + s.last()),
    decreases s.len(),
{
    reveal_with_fuel(running, 2);
    if s.len() == 1 {
        assert(s.drop_last() =~= Seq::<int>::empty());
        assert(s.drop_first() =~= Seq::<int>::empty());
    } else {
        let rest = s.drop_first();
        lemma_running_is_sum(rest, held(acc + s[0]));
        assert(rest.drop_last() =~= s.drop_last().drop_first());
        assert(s.drop_last()[0] == s[0]);
    }
}

proof fn lemma_sums_agree(s: Seq<int>)
    ensures
        all_parts(s) == running(s, 0),
    decreases s.len(),
{
    if s.len() > 0 {
        lemma_sums_agree(s.drop_last());
        lemma_running_is_sum(s, 0);
    }
}

proof fn lemma_place_has_parts(s: Seq<int>, acc: int, target: int)
    requires
        s.len() > 0,
        forall|i: int| 0 <= i < s.len() ==> 0 <= #[trigger] s[i],
        0 <= acc <= target < running(s, acc),
        acc <= u64::MAX,
    ensures
        s[place_of(s, acc, target)] > 0,
    decreases s.len(),
{
    reveal_with_fuel(running, 2);
    let rest = s.drop_first();
    if s.len() <= 1 {
        assert(rest =~= Seq::<int>::empty());
    } else if target >= held(acc + s[0]) {
        assert forall|i: int| 0 <= i < rest.len() implies 0 <= #[trigger] rest[i] by {
            assert(rest[i] == s[i + 1]);
        }
        assert(0 <= s[0]);
        lemma_place_bounds(rest, held(acc + s[0]), target);
        lemma_place_has_parts(rest, held(acc + s[0]), target);
        let k = place_of(rest, held(acc + s[0]), target);
        assert(rest[k] == s[k + 1]);
    }
}

/// A route without parts is never picked by hash, as long as any route has some.
pub proof fn law_weight_zero_excludes(s: Seq<int>, hash: u64)
    requires
        s.len() > 0,
        forall|i: int| 0 <= i < s.len() ==> 0 <= #[trigger] s[i],
        all_parts(s) > 0,
    ensures
        0 <= weighted_place(s, hash) < s.len(),
        s[weighted_place(s, hash)] > 0,
{
    let total = all_parts(s);
    lemma_sums_agree(s);
    lemma_all_parts(s, 0);
    lemma_place_bounds(s, 0, hash as int % total);
    lemma_place_has_parts(s, 0, hash as int % total);
}

/// Taking turns: of as many picks in a row as there are routes, no two fall on the
/// same one.
pub proof fn law_turns_cycle(counter: int, n: int, a: int, b: int)
    requires
        0 <= counter,
        0 <= a < b < n,
    ensures
        (counter + a) % n != (counter + b) % n,
{
    if (counter + a) % n == (counter + b) % n {
        lemma_mod_equivalence(counter + b, counter + a, n);
        lemma_small_mod((b - a) as nat, n as nat);
    }
}

} // verus!
