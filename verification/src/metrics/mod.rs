//! Sliding windows of probe results, one per target.

pub mod aggregate;
pub mod figures_laws;

use crate::arith::{dependable, mean_of, Op};
use crate::name_map::{lists, NameMap};
use crate::ringbuf::{Ring, RingBuffer};
use crate::scalar::Scalar;
use crate::text::texts;
use vstd::prelude::*;

use aggregate::{
    avg_min_max, highest, jitter_ms, jitter_of, loss_of, loss_ratio, lowest, stability,
    stability_of, times_of,
};

verus! {

/// How many samples a window holds unless told otherwise.
pub const DEFAULT_WINDOW: usize = 120;

/// The result of one probe.
#[derive(Debug, Clone, Copy, PartialEq, Eq, Structural)]
pub struct PingSample {
    /// The round-trip time in milliseconds; none for a lost packet.
    pub rtt_ms: Option<Scalar>,
    pub timestamp_ms: i64,
}

impl PingSample {
    /// A probe that was answered.
    pub fn ok(rtt_ms: Scalar, timestamp_ms: i64) -> (r: PingSample)
        ensures
            r == (PingSample { rtt_ms: Some(rtt_ms), timestamp_ms }),
    {
        PingSample { rtt_ms: Some(rtt_ms), timestamp_ms }
    }

    /// A probe that was lost.
    pub fn lost(timestamp_ms: i64) -> (r: PingSample)
        ensures
            r == (PingSample { rtt_ms: None, timestamp_ms }),
    {
        PingSample { rtt_ms: None, timestamp_ms }
    }
}

/// The figures of one target over its window.
#[derive(Debug, Clone)]
pub struct AggregatedMetrics {
    pub target_id: String,
    /// The latest round-trip time; none if the last packet was lost.
    pub latest_rtt_ms: Option<Scalar>,
    pub avg_rtt_ms: Option<Scalar>,
    pub min_rtt_ms: Option<Scalar>,
    pub max_rtt_ms: Option<Scalar>,
    pub jitter_ms: Scalar,
    /// The share of lost packets, from 0 to 1.
    pub loss_ratio: Scalar,
    /// How steady the target is, from 0 to 1.
    pub stability: Scalar,
    pub samples: usize,
    pub window: usize,
}

/// What an `AggregatedMetrics` holds.
#[verifier::ext_equal]
pub struct AggregatedView {
    pub target_id: Seq<char>,
    pub latest_rtt_ms: Option<Scalar>,
    pub avg_rtt_ms: Option<Scalar>,
    pub min_rtt_ms: Option<Scalar>,
    pub max_rtt_ms: Option<Scalar>,
    pub jitter_ms: Scalar,
    pub loss_ratio: Scalar,
    pub stability: Scalar,
    pub samples: int,
    pub window: int,
}

impl View for AggregatedMetrics {
    type V = AggregatedView;

    open spec fn view(&self) -> AggregatedView {
        AggregatedView {
            target_id: self.target_id@,
            latest_rtt_ms: self.latest_rtt_ms,
            avg_rtt_ms: self.avg_rtt_ms,
            min_rtt_ms: self.min_rtt_ms,
            max_rtt_ms: self.max_rtt_ms,
            jitter_ms: self.jitter_ms,
            loss_ratio: self.loss_ratio,
            stability: self.stability,
            samples: self.samples as int,
            window: self.window as int,
        }
    }
}

/// The figures of a target with the given samples.
pub open spec fn figures_of<F: Fn(Op) -> Scalar>(
    unit: F,
    target_id: Seq<char>,
    samples: Seq<PingSample>,
    window: int,
) -> AggregatedView {
    let t = times_of(samples);
    let jitter = jitter_of(unit, samples);
    let loss = loss_of(unit, samples);
    AggregatedView {
        target_id,
        latest_rtt_ms: if samples.len() == 0 {
            None
        } else {
            samples.last().rtt_ms
        },
        avg_rtt_ms: if t.len() == 0 {
            None
        } else {
            Some(mean_of(unit, t))
        },
        min_rtt_ms: if t.len() == 0 {
            None
        } else {
            Some(lowest(t))
        },
        max_rtt_ms: if t.len() == 0 {
            None
        } else {
            Some(highest(t))
        },
        jitter_ms: jitter,
        loss_ratio: loss,
        stability: stability_of(unit, jitter, loss),
        samples: samples.len() as int,
        window,
    }
}

/// The windows of all targets.
#[derive(Debug)]
pub struct MetricsStore {
    targets: NameMap<RingBuffer<PingSample>>,
    window: usize,
}

/// What a store holds: the window of each target, and the length of new ones.
#[verifier::ext_equal]
pub struct StoreView {
    pub targets: Map<Seq<char>, Ring<PingSample>>,
    pub window: int,
}

impl View for MetricsStore {
    type V = StoreView;

    closed spec fn view(&self) -> StoreView {
        StoreView { targets: self.targets@, window: self.window as int }
    }
}

impl StoreView {
    /// Whether each window has the length that new ones get, and no more samples
    /// than that.
    pub open spec fn bounded(self) -> bool {
        forall|id: Seq<char>| #[trigger]
            self.targets.dom().contains(id) ==> self.targets[id].capacity == self.window
                && self.targets[id].items.len() <= self.window
    }

    /// The store with a window for a target, an empty one where it had none.
    pub open spec fn ensured(self, id: Seq<char>) -> StoreView {
        if self.targets.dom().contains(id) {
            self
        } else {
            StoreView { targets: self.targets.insert(id, Ring::empty(self.window)), ..self }
        }
    }

    /// The store with one more sample for a target.
    pub open spec fn pushed(self, id: Seq<char>, sample: PingSample) -> StoreView {
        let s = self.ensured(id);
        StoreView { targets: s.targets.insert(id, s.targets[id].pushed(sample)), ..s }
    }

    /// The store without a target.
    pub open spec fn removed(self, id: Seq<char>) -> StoreView {
        StoreView { targets: self.targets.remove(id), ..self }
    }

    /// The store with the window of a target emptied.
    pub open spec fn cleared(self, id: Seq<char>) -> StoreView {
        if self.targets.dom().contains(id) {
            StoreView {
                targets: self.targets.insert(id, Ring::empty(self.targets[id].capacity)),
                ..self
            }
        } else {
            self
        }
    }

    /// The samples of a target, none for one without a window.
    pub open spec fn samples(self, id: Seq<char>) -> Seq<PingSample> {
        if self.targets.dom().contains(id) {
            self.targets[id].items
        } else {
            seq![]
        }
    }

    /// The figures of a target that has a window.
    pub open spec fn figures<F: Fn(Op) -> Scalar>(self, unit: F, id: Seq<char>) -> Option<
        AggregatedView,
    > {
        if self.targets.dom().contains(id) {
            Some(figures_of(unit, id, self.targets[id].items, self.window))
        } else {
            None
        }
    }
}

/// What optional figures hold.
pub open spec fn opt_figures(a: Option<AggregatedMetrics>) -> Option<AggregatedView> {
    match a {
        Some(m) => Some(m@),
        None => None,
    }
}

impl MetricsStore {
    #[verifier::type_invariant]
    spec fn sound(&self) -> bool {
        self@.bounded()
    }

    /// A store without targets, with windows of the usual length.
    pub fn new() -> (r: MetricsStore)
        ensures
            r@ == (StoreView { targets: Map::empty(), window: DEFAULT_WINDOW as int }),
    {
        Self::with_window(DEFAULT_WINDOW)
    }

    /// A store without targets, with windows of the given length.
    pub fn with_window(window: usize) -> (r: MetricsStore)
        ensures
            r@ == (StoreView { targets: Map::empty(), window: window as int }),
    {
        MetricsStore { targets: NameMap::new(), window }
    }

    /// Gives a target a window, if it has none.
    pub fn ensure_target(&mut self, target_id: &str)
        requires
            old(self)@.window > 0,
        ensures
            final(self)@ == old(self)@.ensured(target_id@),
    {
        proof {
            use_type_invariant(&*self);
            law_windows_are_bounded(self@, target_id@, arbitrary());
        }
        if !self.targets.contains(target_id) {
            let mut targets = self.give_up();
            targets.insert(target_id.to_string(), RingBuffer::new(self.window));
            self.targets = targets;
        }
    }

    /// Takes all windows out, to be put back after a change.
    fn give_up(&mut self) -> (r: NameMap<RingBuffer<PingSample>>)
        ensures
            r@ == old(self)@.targets,
            final(self)@ == (StoreView { targets: Map::empty(), ..old(self)@ }),
            final(self).window == old(self).window,
    {
        let mut targets: NameMap<RingBuffer<PingSample>> = NameMap::new();
        std::mem::swap(&mut targets, &mut self.targets);
        targets
    }

    /// Forgets a target.
    pub fn remove_target(&mut self, target_id: &str)
        ensures
            final(self)@ == old(self)@.removed(target_id@),
    {
        proof {
            use_type_invariant(&*self);
            law_windows_are_bounded(self@, target_id@, arbitrary());
        }
        let mut targets = self.give_up();
        let _ = targets.take(target_id);
        self.targets = targets;
    }

    /// Empties the window of a target.
    pub fn clear_target(&mut self, target_id: &str)
        ensures
            final(self)@ == old(self)@.cleared(target_id@),
    {
        proof {
            use_type_invariant(&*self);
            law_windows_are_bounded(self@, target_id@, arbitrary());
        }
        let ghost v = self@;
        let mut targets = self.give_up();
        match targets.take(target_id) {
            Some(mut slot) => {
                slot.clear();
                targets.insert(target_id.to_string(), slot);
            },
            None => {},
        }
        assert(targets@ =~= v.cleared(target_id@).targets);
        self.targets = targets;
    }

    /// Adds a sample to the window of a target.
    pub fn push(&mut self, target_id: &str, sample: PingSample)
        requires
            old(self)@.window > 0,
        ensures
            final(self)@ == old(self)@.pushed(target_id@, sample),
    {
        proof {
            use_type_invariant(&*self);
            law_windows_are_bounded(self@, target_id@, sample);
        }
        let ghost v = self@;
        self.ensure_target(target_id);
        let mut targets = self.give_up();
        match targets.take(target_id) {
            Some(mut slot) => {
                slot.push(sample);
                targets.insert(target_id.to_string(), slot);
            },
            None => {},
        }
        assert(targets@ =~= v.pushed(target_id@, sample).targets);
        self.targets = targets;
    }

    /// The targets in dictionary order.
    pub fn list_targets(&self) -> (r: Vec<String>)
        ensures
            lists(texts(r@), self@.targets.dom()),
    {
        let n = self.targets.len();
        let mut out: Vec<String> = Vec::new();
        let mut i: usize = 0;
        while i < n
            invariant
                i <= n == self.targets.names().len(),
                out@.len() == i,
                forall|j: int| 0 <= j < i ==> #[trigger] out@[j]@ == self.targets.names()[j],
            decreases n - i,
        {
            out.push(self.targets.name_at(i).clone());
            i = i + 1;
        }
        assert(texts(out@) =~= self.targets.names());
        out
    }

    /// The samples of a target, from the oldest to the newest.
    pub fn samples(&self, target_id: &str) -> (r: Vec<PingSample>)
        ensures
            r@ == self@.samples(target_id@),
            r@.len() <= self@.window,
    {
        proof {
            use_type_invariant(&*self);
        }
        match self.targets.get(target_id) {
            Some(slot) => {
                let out = slot.snapshot();
                assert(out@ =~= self@.samples(target_id@));
                out
            },
            None => Vec::new(),
        }
    }

    /// The figures of a target, if it has a window.
    pub fn aggregated<F: Fn(Op) -> Scalar>(&self, unit: &F, target_id: &str) -> (r: Option<
        AggregatedMetrics,
    >)
        requires
            dependable(*unit),
        ensures
            opt_figures(r) == self@.figures(*unit, target_id@),
            r is Some ==> r->0.samples <= r->0.window,
    {
        if !self.targets.contains(target_id) {
            return None;
        }
        let samples = self.samples(target_id);
        let (avg_rtt_ms, min_rtt_ms, max_rtt_ms) = avg_min_max(unit, &samples);
        let jitter = jitter_ms(unit, &samples);
        let loss = loss_ratio(unit, &samples);
        let latest_rtt_ms = if samples.len() == 0 {
            None
        } else {
            samples[samples.len() - 1].rtt_ms
        };
        Some(
            AggregatedMetrics {
                target_id: target_id.to_string(),
                latest_rtt_ms,
                avg_rtt_ms,
                min_rtt_ms,
                max_rtt_ms,
                jitter_ms: jitter,
                loss_ratio: loss,
                stability: stability(unit, jitter, loss),
                samples: samples.len(),
                window: self.window,
            },
        )
    }

    /// The figures of all targets, in the order of their names.
    pub fn aggregated_all<F: Fn(Op) -> Scalar>(&self, unit: &F) -> (r: Vec<AggregatedMetrics>)
        requires
            dependable(*unit),
        ensures
            lists(Seq::new(r@.len(), |i: int| r@[i]@.target_id), self@.targets.dom()),
            forall|i: int|
                0 <= i < r@.len() ==> Some(#[trigger] r@[i]@) == self@.figures(
                    *unit,
                    r@[i]@.target_id,
                ) && r@[i].samples <= r@[i].window,
    {
        let ids = self.list_targets();
        let mut out: Vec<AggregatedMetrics> = Vec::new();
        let mut i: usize = 0;
        while i < ids.len()
            invariant
                dependable(*unit),
                i <= ids@.len(),
                out@.len() == i,
                lists(texts(ids@), self@.targets.dom()),
                forall|j: int| 0 <= j < i ==> (#[trigger] out@[j])@.target_id == ids@[j]@,
                forall|j: int|
                    0 <= j < i ==> Some(#[trigger] out@[j]@) == self@.figures(
                        *unit,
                        out@[j]@.target_id,
                    ) && out@[j].samples <= out@[j].window,
            decreases ids@.len() - i,
        {
            assert(texts(ids@)[i as int] == ids@[i as int]@);
            assert(texts(ids@).contains(ids@[i as int]@));
            match self.aggregated(unit, ids[i].as_str()) {
                Some(a) => {
                    out.push(a);
                },
                None => {},
            }
            i = i + 1;
        }
        assert(Seq::new(out@.len(), |i: int| out@[i]@.target_id) =~= texts(ids@));
        out
    }
}

impl Default for MetricsStore {
    fn default() -> (r: MetricsStore)
        ensures
            r@ == (StoreView { targets: Map::empty(), window: DEFAULT_WINDOW as int }),
    {
        Self::new()
    }
}

/// No window outgrows its length, whatever is done to the store.
pub proof fn law_windows_are_bounded(v: StoreView, id: Seq<char>, sample: PingSample)
    requires
        v.bounded(),
    ensures
        v.removed(id).bounded(),
        v.cleared(id).bounded(),
        v.window > 0 ==> v.ensured(id).bounded(),
        v.window > 0 ==> v.pushed(id, sample).bounded(),
{
    assert forall|k: Seq<char>| #[trigger] v.cleared(id).targets.dom().contains(k) implies v.cleared(
        id,
    ).targets[k].capacity == v.window && v.cleared(id).targets[k].items.len() <= v.window by {
        assert(v.targets.dom().contains(k));
    }
    if v.window > 0 {
        assert(v.ensured(id).bounded());
        assert forall|k: Seq<char>| #[trigger]
            v.pushed(id, sample).targets.dom().contains(k) implies v.pushed(id, sample).targets[
            k
        ].capacity == v.window && v.pushed(id, sample).targets[k].items.len() <= v.window by {
            assert(v.ensured(id).targets.dom().contains(k));
        }
    }
}

} // verus!
