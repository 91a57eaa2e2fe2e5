//! Watching the targets: which ones, how often, and what the probes found.

use crate::address::IpAddr;
use crate::metrics::{MetricsStore, PingSample, StoreView};
use crate::scalar::Scalar;
use crate::text::{holds_text, texts};
use vstd::prelude::*;

verus! {

/// The shortest interval and the shortest timeout, in milliseconds.
pub const SHORTEST_MS: u64 = 50;

/// A target to watch.
#[derive(Debug, Clone)]
pub struct MonitorTarget {
    pub id: String,
    pub addr: IpAddr,
    /// The port for a probe by connection.
    pub fallback_port: u16,
}

/// What a `MonitorTarget` holds.
#[verifier::ext_equal]
pub struct TargetView {
    pub id: Seq<char>,
    pub addr: IpAddr,
    pub fallback_port: u16,
}

impl View for MonitorTarget {
    type V = TargetView;

    open spec fn view(&self) -> TargetView {
        TargetView { id: self.id@, addr: self.addr, fallback_port: self.fallback_port }
    }
}

/// What a list of targets holds.
pub open spec fn target_views(list: Seq<MonitorTarget>) -> Seq<TargetView> {
    Seq::new(list.len(), |i: int| list[i]@)
}

/// The names of some targets.
pub open spec fn target_ids(list: Seq<TargetView>) -> Seq<Seq<char>> {
    Seq::new(list.len(), |i: int| list[i].id)
}

/// The port for a probe by connection where none is given.
pub fn default_fallback_port() -> (r: u16)
    ensures
        r == 443,
{
    443
}

impl MonitorTarget {
    fn copy(&self) -> (r: MonitorTarget)
        ensures
            r@ == self@,
    {
        MonitorTarget {
            id: self.id.clone(),
            addr: self.addr,
            fallback_port: self.fallback_port,
        }
    }
}

fn copy_targets(list: &Vec<MonitorTarget>) -> (r: Vec<MonitorTarget>)
    ensures
        target_views(r@) == target_views(list@),
{
    let mut out: Vec<MonitorTarget> = Vec::new();
    let mut i: usize = 0;
    while i < list.len()
        invariant
            i <= list@.len(),
            out@.len() == i,
            forall|j: int| 0 <= j < i ==> (#[trigger] out@[j])@ == list@[j]@,
        decreases list@.len() - i,
    {
        out.push(list[i].copy());
        i = i + 1;
    }
    assert(target_views(out@) =~= target_views(list@));
    out
}

/// What to watch, and how often.
#[derive(Debug, Clone)]
pub struct MonitorConfig {
    pub interval_ms: u64,
    pub probe_timeout_ms: u64,
    pub targets: Vec<MonitorTarget>,
}

impl Default for MonitorConfig {
    fn default() -> (r: MonitorConfig)
        ensures
            r.interval_ms == 1000,
            r.probe_timeout_ms == 800,
            r.targets@.len() == 0,
    {
        MonitorConfig { interval_ms: 1000, probe_timeout_ms: 800, targets: Vec::new() }
    }
}

/// Whether targets are watched, which ones, and how often.
#[derive(Debug, Clone)]
pub struct MonitorState {
    pub running: bool,
    pub interval_ms: u64,
    pub targets: Vec<MonitorTarget>,
}

/// The sample of a target.
#[derive(Debug, Clone)]
pub struct TargetSample {
    pub target_id: String,
    pub sample: PingSample,
}

/// What a list of samples holds.
pub open spec fn sample_views(list: Seq<TargetSample>) -> Seq<(Seq<char>, PingSample)> {
    Seq::new(list.len(), |i: int| (list[i].target_id@, list[i].sample))
}

/// The samples of one round.
#[derive(Debug, Clone)]
pub struct MonitorTick {
    pub timestamp_ms: i64,
    pub samples: Vec<TargetSample>,
}

/// Keeps the targets and their samples.
#[derive(Debug)]
pub struct MonitorService {
    metrics: MetricsStore,
    config: MonitorConfig,
    running: bool,
}

/// What a `MonitorService` holds.
#[verifier::ext_equal]
pub struct ServiceView {
    pub store: StoreView,
    pub interval_ms: u64,
    pub probe_timeout_ms: u64,
    pub targets: Seq<TargetView>,
    pub running: bool,
}

impl View for MonitorService {
    type V = ServiceView;

    closed spec fn view(&self) -> ServiceView {
        ServiceView {
            store: self.metrics@,
            interval_ms: self.config.interval_ms,
            probe_timeout_ms: self.config.probe_timeout_ms,
            targets: target_views(self.config.targets@),
            running: self.running,
        }
    }
}

/// A time in milliseconds, held to the shortest.
pub open spec fn not_too_short(ms: u64) -> u64 {
    if ms < SHORTEST_MS {
        SHORTEST_MS
    } else {
        ms
    }
}

/// A store without those of some targets that are not kept.
pub open spec fn pruned(store: StoreView, ids: Seq<Seq<char>>, kept: Seq<Seq<char>>) -> StoreView
    decreases ids.len(),
{
    if ids.len() == 0 {
        store
    } else {
        let rest = pruned(store, ids.drop_last(), kept);
        if kept.contains(ids.last()) {
            rest
        } else {
            rest.removed(ids.last())
        }
    }
}

/// A store with a window for each of some targets.
pub open spec fn all_ensured(store: StoreView, ids: Seq<Seq<char>>) -> StoreView
    decreases ids.len(),
{
    if ids.len() == 0 {
        store
    } else {
        all_ensured(store, ids.drop_last()).ensured(ids.last())
    }
}

/// A store after the targets were replaced.
pub open spec fn retargeted_store(
    store: StoreView,
    before: Seq<TargetView>,
    after: Seq<TargetView>,
) -> StoreView {
    all_ensured(pruned(store, target_ids(before), target_ids(after)), target_ids(after))
}

/// The sample that a probe with a time, or none, makes.
pub open spec fn sample_of(rtt_ms: Option<Scalar>, timestamp_ms: i64) -> PingSample {
    PingSample { rtt_ms, timestamp_ms }
}

/// The samples of a round.
pub open spec fn round(results: Seq<(Seq<char>, Option<Scalar>)>, timestamp_ms: i64) -> Seq<
    (Seq<char>, PingSample),
> {
    Seq::new(results.len(), |i: int| (results[i].0, sample_of(results[i].1, timestamp_ms)))
}

/// A store with the samples of a round.
pub open spec fn all_pushed(store: StoreView, samples: Seq<(Seq<char>, PingSample)>) -> StoreView
    decreases samples.len(),
{
    if samples.len() == 0 {
        store
    } else {
        all_pushed(store, samples.drop_last()).pushed(samples.last().0, samples.last().1)
    }
}

/// What a list of results holds.
pub open spec fn result_views(list: Seq<(String, Option<Scalar>)>) -> Seq<
    (Seq<char>, Option<Scalar>),
> {
    Seq::new(list.len(), |i: int| (list[i].0@, list[i].1))
}

proof fn lemma_window_stays(store: StoreView, ids: Seq<Seq<char>>, kept: Seq<Seq<char>>)
    ensures
        pruned(store, ids, kept).window == store.window,
        all_ensured(store, ids).window == store.window,
    decreases ids.len(),
{
    if ids.len() > 0 {
        lemma_window_stays(store, ids.drop_last(), kept);
    }
}

proof fn lemma_pushing_keeps_window(store: StoreView, samples: Seq<(Seq<char>, PingSample)>)
    ensures
        all_pushed(store, samples).window == store.window,
    decreases samples.len(),
{
    if samples.len() > 0 {
        lemma_pushing_keeps_window(store, samples.drop_last());
    }
}

fn ids_of(list: &Vec<MonitorTarget>) -> (r: Vec<String>)
    ensures
        texts(r@) == target_ids(target_views(list@)),
{
    let mut out: Vec<String> = Vec::new();
    let mut i: usize = 0;
    while i < list.len()
        invariant
            i <= list@.len(),
            out@.len() == i,
            forall|j: int| 0 <= j < i ==> (#[trigger] out@[j])@ == list@[j].id@,
        decreases list@.len() - i,
    {
        out.push(list[i].id.clone());
        i = i + 1;
    }
    assert(texts(out@) =~= target_ids(target_views(list@)));
    out
}

impl MonitorService {
    /// A service that watches nothing yet.
    pub fn new(metrics: MetricsStore) -> (r: MonitorService)
        ensures
            r@ == (ServiceView {
                store: metrics@,
                interval_ms: 1000,
                probe_timeout_ms: 800,
                targets: seq![],
                running: false,
            }),
    {
        let r = MonitorService { metrics, config: MonitorConfig::default(), running: false };
        assert(r@.targets =~= Seq::<TargetView>::empty());
        r
    }

    /// The samples.
    pub fn metrics(&self) -> (r: &MetricsStore)
        ensures
            r@ == self@.store,
    {
        &self.metrics
    }

    /// What is watched, and how often.
    pub fn snapshot_state(&self) -> (r: MonitorState)
        ensures
            r.running == self@.running,
            r.interval_ms == self@.interval_ms,
            target_views(r.targets@) == self@.targets,
    {
        MonitorState {
            running: self.running,
            interval_ms: self.config.interval_ms,
            targets: copy_targets(&self.config.targets),
        }
    }

    /// How long to wait for a probe, in milliseconds.
    pub fn probe_timeout_ms(&self) -> (r: u64)
        ensures
            r == self@.probe_timeout_ms,
    {
        self.config.probe_timeout_ms
    }

    /// Replaces the targets. The samples of those that go are forgotten, those of
    /// the ones that stay are kept.
    pub fn set_targets(&mut self, targets: Vec<MonitorTarget>)
        requires
            targets@.len() > 0 ==> old(self)@.store.window > 0,
        ensures
            final(self)@ == (ServiceView {
                targets: target_views(targets@),
                store: retargeted_store(
                    old(self)@.store,
                    old(self)@.targets,
                    target_views(targets@),
                ),
                ..old(self)@
            }),
    {
        let ghost store = self@.store;
        let new_ids = ids_of(&targets);
        let old_ids = ids_of(&self.config.targets);
        let ghost kept = texts(new_ids@);
        let ghost gone = texts(old_ids@);
        let mut i: usize = 0;
        assert(gone.take(0) =~= Seq::<Seq<char>>::empty());
        while i < old_ids.len()
            invariant
                i <= old_ids@.len(),
                gone == texts(old_ids@),
                kept == texts(new_ids@),
                self.config == old(self).config,
                self.running == old(self).running,
                self.metrics@ == pruned(store, gone.take(i as int), kept),
            decreases old_ids@.len() - i,
        {
            assert(gone.take(i as int + 1).drop_last() =~= gone.take(i as int));
            assert(gone.take(i as int + 1).last() == old_ids@[i as int]@);
            if !holds_text(&new_ids, old_ids[i].as_str()) {
                self.metrics.remove_target(old_ids[i].as_str());
            }
            i = i + 1;
        }
        assert(gone.take(i as int) =~= gone);
        let ghost rest = self.metrics@;
        let mut k: usize = 0;
        assert(kept.take(0) =~= Seq::<Seq<char>>::empty());
        proof {
            lemma_window_stays(store, gone, kept);
            assert(kept.len() == targets@.len());
        }
        while k < new_ids.len()
            invariant
                k <= new_ids@.len(),
                kept == texts(new_ids@),
                self.config == old(self).config,
                self.running == old(self).running,
                new_ids@.len() > 0 ==> rest.window > 0,
                self.metrics@ == all_ensured(rest, kept.take(k as int)),
            decreases new_ids@.len() - k,
        {
            assert(kept.take(k as int + 1).drop_last() =~= kept.take(k as int));
            assert(kept.take(k as int + 1).last() == new_ids@[k as int]@);
            proof {
                lemma_window_stays(rest, kept.take(k as int), kept);
            }
            self.metrics.ensure_target(new_ids[k].as_str());
            k = k + 1;
        }
        assert(kept.take(k as int) =~= kept);
        self.config.targets = targets;
    }

    /// Sets how often the targets are probed and how long a probe may take; both
    /// have a lower bound.
    pub fn set_interval(&mut self, interval_ms: u64, probe_timeout_ms: u64)
        ensures
            final(self)@ == (ServiceView {
                interval_ms: not_too_short(interval_ms),
                probe_timeout_ms: not_too_short(probe_timeout_ms),
                ..old(self)@
            }),
    {
        self.config.interval_ms = if interval_ms < SHORTEST_MS {
            SHORTEST_MS
        } else {
            interval_ms
        };
        self.config.probe_timeout_ms = if probe_timeout_ms < SHORTEST_MS {
            SHORTEST_MS
        } else {
            probe_timeout_ms
        };
    }

    /// Starts watching; says whether that is news.
    pub fn start(&mut self) -> (r: bool)
        ensures
            r == !old(self)@.running,
            final(self)@ == (ServiceView { running: true, ..old(self)@ }),
    {
        let news = !self.running;
        self.running = true;
        news
    }

    /// Stops watching.
    pub fn stop(&mut self)
        ensures
            final(self)@ == (ServiceView { running: false, ..old(self)@ }),
    {
        self.running = false;
    }

    /// Takes in the results of a round of probes: of each target the time that it
    /// took, or none.
    pub fn record(&mut self, results: &Vec<(String, Option<Scalar>)>, timestamp_ms: i64) -> (r:
        MonitorTick)
        requires
            results@.len() > 0 ==> old(self)@.store.window > 0,
        ensures
            r.timestamp_ms == timestamp_ms,
            sample_views(r.samples@) == round(result_views(results@), timestamp_ms),
            final(self)@ == (ServiceView {
                store: all_pushed(
                    old(self)@.store,
                    round(result_views(results@), timestamp_ms),
                ),
                ..old(self)@
            }),
    {
        let ghost store = self@.store;
        let ghost all = round(result_views(results@), timestamp_ms);
        let mut samples: Vec<TargetSample> = Vec::new();
        let mut i: usize = 0;
        assert(all.take(0) =~= Seq::<(Seq<char>, PingSample)>::empty());
        assert(sample_views(samples@) =~= all.take(0));
        while i < results.len()
            invariant
                i <= results@.len(),
                all == round(result_views(results@), timestamp_ms),
                results@.len() > 0 ==> store.window > 0,
                self.config == old(self).config,
                self.running == old(self).running,
                sample_views(samples@) == all.take(i as int),
                self.metrics@ == all_pushed(store, all.take(i as int)),
            decreases results@.len() - i,
        {
            let ghost before = samples@;
            assert(all.take(i as int + 1).drop_last() =~= all.take(i as int));
            let sample = match results[i].1 {
                Some(rtt_ms) => PingSample::ok(rtt_ms, timestamp_ms),
                None => PingSample::lost(timestamp_ms),
            };
            assert(all.take(i as int + 1).last() == (results@[i as int].0@, sample));
            proof {
                lemma_pushing_keeps_window(store, all.take(i as int));
            }
            self.metrics.push(results[i].0.as_str(), sample);
            samples.push(TargetSample { target_id: results[i].0.clone(), sample });
            assert(sample_views(samples@) =~= all.take(i as int + 1));
            i = i + 1;
        }
        assert(all.take(i as int) =~= all);
        MonitorTick { timestamp_ms, samples }
    }
}

proof fn lemma_pruned(store: StoreView, ids: Seq<Seq<char>>, kept: Seq<Seq<char>>, id: Seq<char>)
    ensures
        ({
            let r = pruned(store, ids, kept);
            &&& r.targets.dom().contains(id) <==> store.targets.dom().contains(id) && (
            !ids.contains(id) || kept.contains(id))
            &&& r.targets.dom().contains(id) ==> r.targets[id] == store.targets[id]
        }),
    decreases ids.len(),
{
    if ids.len() > 0 {
        let rest = ids.drop_last();
        lemma_pruned(store, rest, kept, id);
        if ids.contains(id) {
            let i = ids.index_of(id);
            if i < rest.len() {
                assert(rest[i] == id);
            }
        }
        if rest.contains(id) {
            let i = rest.index_of(id);
            assert(ids[i] == id);
        }
        if ids.last() == id {
            assert(ids[ids.len() - 1] == id);
        }
    }
}

proof fn lemma_ensured(store: StoreView, ids: Seq<Seq<char>>, id: Seq<char>)
    ensures
        ({
            let r = all_ensured(store, ids);
            &&& r.targets.dom().contains(id) <==> store.targets.dom().contains(id)
                || ids.contains(id)
            &&& store.targets.dom().contains(id) ==> r.targets[id] == store.targets[id]
        }),
    decreases ids.len(),
{
    if ids.len() > 0 {
        let rest = ids.drop_last();
        lemma_ensured(store, rest, id);
        if ids.contains(id) {
            let i = ids.index_of(id);
            if i < rest.len() {
                assert(rest[i] == id);
            }
        }
        if rest.contains(id) {
            let i = rest.index_of(id);
            assert(ids[i] == id);
        }
        if ids.last() == id {
            assert(ids[ids.len() - 1] == id);
        }
    }
}

/// After the targets were replaced, each new target has a window, no target that
/// went has one, and a window that stays keeps its samples.
pub proof fn law_windows_follow_targets(
    store: StoreView,
    before: Seq<TargetView>,
    after: Seq<TargetView>,
    id: Seq<char>,
)
    ensures
        ({
            let r = retargeted_store(store, before, after);
            &&& r.targets.dom().contains(id) <==> target_ids(after).contains(id) || (
            store.targets.dom().contains(id) && !target_ids(before).contains(id))
            &&& store.targets.dom().contains(id) && r.targets.dom().contains(id)
                ==> r.targets[id] == store.targets[id]
        }),
{
    let kept = target_ids(after);
    lemma_pruned(store, target_ids(before), kept, id);
    lemma_ensured(pruned(store, target_ids(before), kept), kept, id);
}

/// The last so many of some samples.
pub open spec fn latest(s: Seq<PingSample>, n: int) -> Seq<PingSample> {
    if s.len() <= n {
        s
    } else {
        s.skip(s.len() - n)
    }
}

/// The samples that a round gives of one target.
pub open spec fn found_of(
    results: Seq<(Seq<char>, Option<Scalar>)>,
    id: Seq<char>,
    timestamp_ms: i64,
) -> Seq<PingSample> {
    results.filter(|r: (Seq<char>, Option<Scalar>)| r.0 == id).map_values(
        |r: (Seq<char>, Option<Scalar>)| PingSample { rtt_ms: r.1, timestamp_ms },
    )
}

proof fn lemma_latest(s: Seq<PingSample>, x: PingSample, n: int)
    requires
        n > 0,
    ensures
        latest(latest(s, n).push(x), n) == latest(s.push(x), n),
{
    assert(latest(latest(s, n).push(x), n) =~= latest(s.push(x), n));
}

proof fn lemma_round_recorded(
    store: StoreView,
    results: Seq<(Seq<char>, Option<Scalar>)>,
    timestamp_ms: i64,
    id: Seq<char>,
)
    requires
        store.bounded(),
        store.window > 0,
    ensures
        ({
            let r = all_pushed(store, round(results, timestamp_ms));
            &&& r.bounded()
            &&& r.window == store.window
            &&& r.samples(id) == latest(
                store.samples(id) + found_of(results, id, timestamp_ms),
                store.window,
            )
            &&& r.targets.dom().contains(id) <==> store.targets.dom().contains(id) || exists|i: int|
                0 <= i < results.len() && (#[trigger] results[i]).0 == id
        }),
    decreases results.len(),
{
    reveal(Seq::filter);
    let all = round(results, timestamp_ms);
    let before = store.samples(id);
    if results.len() == 0 {
        assert(found_of(results, id, timestamp_ms) =~= Seq::<PingSample>::empty());
        assert(before + found_of(results, id, timestamp_ms) =~= before);
    } else {
        let rest = results.drop_last();
        let (name, rtt_ms) = results.last();
        let sample = PingSample { rtt_ms, timestamp_ms };
        lemma_round_recorded(store, rest, timestamp_ms, id);
        assert(all.drop_last() =~= round(rest, timestamp_ms));
        let mid = all_pushed(store, round(rest, timestamp_ms));
        assert(all_pushed(store, all) == mid.pushed(name, sample));
        let found = found_of(rest, id, timestamp_ms);
        if name == id {
            assert(found_of(results, id, timestamp_ms) =~= found.push(sample));
            assert(before + found.push(sample) =~= (before + found).push(sample));
            lemma_latest(before + found, sample, store.window);
            assert(mid.pushed(name, sample).samples(id) =~= latest(
                mid.samples(id).push(sample),
                store.window,
            ));
            assert(results[results.len() - 1].0 == id);
        } else {
            assert(found_of(results, id, timestamp_ms) =~= found);
        }
        assert forall|i: int| 0 <= i < rest.len() && (#[trigger] rest[i]).0 == id implies exists|
            j: int,
        |
            0 <= j < results.len() && (#[trigger] results[j]).0 == id by {
            assert(results[i].0 == id);
        }
        assert forall|i: int| 0 <= i < results.len() && (#[trigger] results[i]).0 == id
            && name != id implies exists|j: int| 0 <= j < rest.len() && (#[trigger] rest[j]).0
            == id by {
            assert(rest[i].0 == id);
        }
    }
}

/// A round of probes reaches the windows of its targets and no other: behind the
/// samples that a target had come the round's own, each with its time or as lost
/// and with the time of the round, and of all these a window keeps the latest.
pub proof fn law_round_is_recorded(
    store: StoreView,
    results: Seq<(Seq<char>, Option<Scalar>)>,
    timestamp_ms: i64,
    id: Seq<char>,
)
    requires
        store.bounded(),
        store.window > 0,
    ensures
        ({
            let r = all_pushed(store, round(results, timestamp_ms));
            &&& r.samples(id) == latest(
                store.samples(id) + found_of(results, id, timestamp_ms),
                store.window,
            )
            &&& r.targets.dom().contains(id) <==> store.targets.dom().contains(id) || exists|i: int|
                0 <= i < results.len() && (#[trigger] results[i]).0 == id
            &&& r.window == store.window
        }),
{
    lemma_round_recorded(store, results, timestamp_ms, id);
}

/// What a round tells: of each target in turn the time that was found, or that
/// there was none.
pub proof fn law_round_is_told(results: Seq<(Seq<char>, Option<Scalar>)>, timestamp_ms: i64, i: int)
    requires
        0 <= i < results.len(),
    ensures
        round(results, timestamp_ms).len() == results.len(),
        round(results, timestamp_ms)[i].0 == results[i].0,
        round(results, timestamp_ms)[i].1.rtt_ms == results[i].1,
        round(results, timestamp_ms)[i].1.timestamp_ms == timestamp_ms,
{
}

/// No time is shorter than 50 ms; one that is longer stays as it is, and a longer one
/// never comes out shorter.
pub proof fn law_times_are_not_too_short(a: u64, b: u64)
    ensures
        not_too_short(a) >= 50,
        a >= 50 ==> not_too_short(a) == a,
        a < 50 ==> not_too_short(a) == 50,
        a <= b ==> not_too_short(a) <= not_too_short(b),
{
}

} // verus!
