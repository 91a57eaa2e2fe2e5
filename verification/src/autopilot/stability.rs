//! How steady each route has been of late, from 0 to 1.

use crate::arith::{
    compute, dependable, diff, diff_of, mean, mean_of, product, product_of, quotient, quotient_of,
    result, sum, sum_of, total, total_of, whole, whole_of, Op,
};
use crate::metrics::PingSample;
use crate::name_map::NameMap;
use crate::scalar::{
    law_unit_range, lemma_code_orders, Scalar, HALF_BITS, ONE_BITS, ZERO_BITS,
};
use vstd::prelude::*;

verus! {

/// How many samples are kept of a route unless told otherwise.
pub const DEFAULT_CAP: usize = 10;

/// How many samples it takes to judge a route.
pub const MIN_SAMPLES: usize = 3;

/// The encoding of 4.0, by which the relative spread counts.
pub const SPREAD_FACTOR_BITS: u32 = 0x4080_0000;

/// The encoding of 5.0, a slope that counts in full.
pub const FULL_SLOPE_BITS: u32 = 0x40a0_0000;

/// The encoding of 0.6, the share of the spread.
pub const SPREAD_SHARE_BITS: u32 = 0x3f19_999a;

/// The encoding of 0.3, the share of the loss.
pub const LOSS_SHARE_BITS: u32 = 0x3e99_999a;

/// The encoding of 0.1, the share of the slope.
pub const SLOPE_SHARE_BITS: u32 = 0x3dcc_cccd;

/// One sample of a route.
#[derive(Debug, Clone, Copy, PartialEq, Eq, Structural)]
pub struct StabilitySample {
    pub rtt_ms: Scalar,
    pub loss: bool,
    pub ts_ms: i64,
}

impl StabilitySample {
    /// The sample that the result of a probe gives.
    pub open spec fn of_ping(s: PingSample) -> StabilitySample {
        StabilitySample {
            rtt_ms: match s.rtt_ms {
                Some(t) => t,
                None => Scalar::zero_value(),
            },
            loss: s.rtt_ms is None,
            ts_ms: s.timestamp_ms,
        }
    }

    /// The sample that the result of a probe gives.
    pub fn from_ping(s: &PingSample) -> (r: StabilitySample)
        ensures
            r == Self::of_ping(*s),
    {
        match s.rtt_ms {
            Some(t) => StabilitySample { rtt_ms: t, loss: false, ts_ms: s.timestamp_ms },
            None => StabilitySample {
                rtt_ms: Scalar { bits: ZERO_BITS },
                loss: true,
                ts_ms: s.timestamp_ms,
            },
        }
    }
}

/// The times of the samples that were not lost, in order.
pub open spec fn good_times(samples: Seq<StabilitySample>) -> Seq<Scalar>
    decreases samples.len(),
{
    if samples.len() == 0 {
        seq![]
    } else if samples.last().loss {
        good_times(samples.drop_last())
    } else {
        good_times(samples.drop_last()).push(samples.last().rtt_ms)
    }
}

/// The squares of the distances of some numbers from another.
pub open spec fn squares<F: Fn(Op) -> Scalar>(unit: F, s: Seq<Scalar>, from: Scalar) -> Seq<Scalar> {
    Seq::new(
        s.len(),
        |i: int| product_of(unit, diff_of(unit, s[i], from), diff_of(unit, s[i], from)),
    )
}

/// The numbers 0, 1, 2 and so on.
pub open spec fn ordinals<F: Fn(Op) -> Scalar>(unit: F, n: nat) -> Seq<Scalar> {
    Seq::new(n, |i: int| whole_of(unit, i))
}

/// The products of the distances of two lists from their means.
pub open spec fn cross<F: Fn(Op) -> Scalar>(
    unit: F,
    xs: Seq<Scalar>,
    x_mean: Scalar,
    ys: Seq<Scalar>,
    y_mean: Scalar,
) -> Seq<Scalar> {
    Seq::new(
        ys.len(),
        |i: int| product_of(unit, diff_of(unit, xs[i], x_mean), diff_of(unit, ys[i], y_mean)),
    )
}

/// The standard deviation of some times; none of a single one.
pub open spec fn deviation<F: Fn(Op) -> Scalar>(unit: F, t: Seq<Scalar>) -> Scalar {
    if t.len() > 1 {
        result(unit, Op::Root(mean_of(unit, squares(unit, t, mean_of(unit, t)))))
    } else {
        Scalar::zero_value()
    }
}

/// The deviation of some times relative to their mean.
pub open spec fn spread<F: Fn(Op) -> Scalar>(unit: F, t: Seq<Scalar>) -> Scalar {
    if Scalar::zero_value().less(mean_of(unit, t)) {
        quotient_of(unit, deviation(unit, t), mean_of(unit, t))
    } else {
        Scalar::zero_value()
    }
}

/// How steeply some times rise or fall: the slope of the line that fits them
/// best, without its sign.
pub open spec fn slope<F: Fn(Op) -> Scalar>(unit: F, t: Seq<Scalar>) -> Scalar {
    if t.len() >= 2 {
        let xs = ordinals(unit, t.len());
        let x_mean = mean_of(unit, xs);
        let num = total_of(unit, cross(unit, xs, x_mean, t, mean_of(unit, t)));
        let den = total_of(unit, squares(unit, xs, x_mean));
        if Scalar::zero_value().less(den) {
            quotient_of(unit, num, den).magnitude()
        } else {
            Scalar::zero_value()
        }
    } else {
        Scalar::zero_value()
    }
}

/// Which share of the samples was lost.
pub open spec fn loss_share<F: Fn(Op) -> Scalar>(unit: F, samples: Seq<StabilitySample>) -> Scalar {
    quotient_of(
        unit,
        whole_of(unit, samples.len() - good_times(samples).len()),
        whole_of(unit, samples.len() as int),
    )
}

/// How steady a route with some samples is: neutral while there are too few, not
/// at all where everything was lost; else spread, loss and slope are taken off.
pub open spec fn steadiness<F: Fn(Op) -> Scalar>(unit: F, samples: Seq<StabilitySample>) -> Scalar {
    let t = good_times(samples);
    if samples.len() < MIN_SAMPLES {
        Scalar { bits: HALF_BITS }
    } else if t.len() == 0 {
        Scalar::zero_value()
    } else {
        let cv = product_of(
            unit,
            spread(unit, t),
            Scalar { bits: SPREAD_FACTOR_BITS },
        ).unit_range();
        let loss = loss_share(unit, samples).unit_range();
        let steep = quotient_of(
            unit,
            slope(unit, t),
            Scalar { bits: FULL_SLOPE_BITS },
        ).unit_range();
        let bad = sum_of(
            unit,
            sum_of(
                unit,
                product_of(unit, cv, Scalar { bits: SPREAD_SHARE_BITS }),
                product_of(unit, loss, Scalar { bits: LOSS_SHARE_BITS }),
            ),
            product_of(unit, steep, Scalar { bits: SLOPE_SHARE_BITS }),
        );
        diff_of(unit, Scalar::one_value(), bad).unit_range()
    }
}

fn times(samples: &Vec<StabilitySample>) -> (r: Vec<Scalar>)
    ensures
        r@ == good_times(samples@),
        r@.len() <= samples@.len(),
{
    let mut out: Vec<Scalar> = Vec::new();
    let mut i: usize = 0;
    assert(samples@.take(0) =~= Seq::<StabilitySample>::empty());
    while i < samples.len()
        invariant
            i <= samples@.len(),
            out@ == good_times(samples@.take(i as int)),
            out@.len() <= i,
        decreases samples@.len() - i,
    {
        assert(samples@.take(i as int + 1).drop_last() =~= samples@.take(i as int));
        assert(samples@.take(i as int + 1).last() == samples@[i as int]);
        if !samples[i].loss {
            out.push(samples[i].rtt_ms);
        }
        i = i + 1;
    }
    assert(samples@.take(i as int) =~= samples@);
    out
}

fn square_all<F: Fn(Op) -> Scalar>(unit: &F, s: &Vec<Scalar>, from: Scalar) -> (r: Vec<Scalar>)
    requires
        dependable(*unit),
    ensures
        r@ == squares(*unit, s@, from),
{
    let mut out: Vec<Scalar> = Vec::new();
    let mut i: usize = 0;
    while i < s.len()
        invariant
            dependable(*unit),
            i <= s@.len(),
            out@ == squares(*unit, s@, from).take(i as int),
        decreases s@.len() - i,
    {
        let d = diff(unit, s[i], from);
        let ghost all = squares(*unit, s@, from);
        out.push(product(unit, d, d));
        assert(all.take(i as int + 1) =~= all.take(i as int).push(all[i as int]));
        i = i + 1;
    }
    assert(out@ =~= squares(*unit, s@, from));
    out
}

fn ordinal_list<F: Fn(Op) -> Scalar>(unit: &F, n: usize) -> (r: Vec<Scalar>)
    requires
        dependable(*unit),
    ensures
        r@ == ordinals(*unit, n as nat),
{
    let mut out: Vec<Scalar> = Vec::new();
    let mut i: usize = 0;
    while i < n
        invariant
            dependable(*unit),
            i <= n,
            out@ == ordinals(*unit, i as nat),
        decreases n - i,
    {
        out.push(whole(unit, i));
        assert(out@ =~= ordinals(*unit, (i + 1) as nat));
        i = i + 1;
    }
    out
}

fn find_slope<F: Fn(Op) -> Scalar>(unit: &F, t: &Vec<Scalar>, y_mean: Scalar) -> (r: Scalar)
    requires
        dependable(*unit),
        y_mean == mean_of(*unit, t@),
    ensures
        r == slope(*unit, t@),
{
    if t.len() < 2 {
        return Scalar { bits: ZERO_BITS };
    }
    let xs = ordinal_list(unit, t.len());
    let x_mean = mean(unit, &xs);
    let mut products: Vec<Scalar> = Vec::new();
    let ghost all = cross(*unit, xs@, x_mean, t@, y_mean);
    let mut i: usize = 0;
    while i < t.len()
        invariant
            dependable(*unit),
            i <= t@.len() == xs@.len(),
            all == cross(*unit, xs@, x_mean, t@, y_mean),
            products@ == all.take(i as int),
        decreases t@.len() - i,
    {
        products.push(product(unit, diff(unit, xs[i], x_mean), diff(unit, t[i], y_mean)));
        assert(all.take(i as int + 1) =~= all.take(i as int).push(all[i as int]));
        i = i + 1;
    }
    assert(products@ =~= all);
    let num = total(unit, &products);
    let den = total(unit, &square_all(unit, &xs, x_mean));
    if den.gt(&Scalar { bits: ZERO_BITS }) {
        quotient(unit, num, den).abs()
    } else {
        Scalar { bits: ZERO_BITS }
    }
}

fn judge<F: Fn(Op) -> Scalar>(unit: &F, samples: &Vec<StabilitySample>) -> (r: Scalar)
    requires
        dependable(*unit),
    ensures
        r == steadiness(*unit, samples@),
{
    let zero = Scalar { bits: ZERO_BITS };
    if samples.len() < MIN_SAMPLES {
        return Scalar { bits: HALF_BITS };
    }
    let t = times(samples);
    if t.len() == 0 {
        return zero;
    }
    let average = mean(unit, &t);
    let stddev = if t.len() > 1 {
        compute(unit, Op::Root(mean(unit, &square_all(unit, &t, average))))
    } else {
        zero
    };
    let cv = if average.gt(&zero) {
        quotient(unit, stddev, average)
    } else {
        zero
    };
    let lost: usize = samples.len() - t.len();
    let loss_freq = quotient(unit, whole(unit, lost), whole(unit, samples.len()));
    let steep = find_slope(unit, &t, average);
    let cv_penalty = product(unit, cv, Scalar { bits: SPREAD_FACTOR_BITS }).clamp_unit();
    let loss_penalty = loss_freq.clamp_unit();
    let slope_penalty = quotient(unit, steep, Scalar { bits: FULL_SLOPE_BITS }).clamp_unit();
    let bad = sum(
        unit,
        sum(
            unit,
            product(unit, cv_penalty, Scalar { bits: SPREAD_SHARE_BITS }),
            product(unit, loss_penalty, Scalar { bits: LOSS_SHARE_BITS }),
        ),
        product(unit, slope_penalty, Scalar { bits: SLOPE_SHARE_BITS }),
    );
    diff(unit, Scalar { bits: ONE_BITS }, bad).clamp_unit()
}

/// The samples of one route, from the oldest to the newest.
#[derive(Debug)]
struct Track {
    samples: Vec<StabilitySample>,
}

impl View for Track {
    type V = Seq<StabilitySample>;

    closed spec fn view(&self) -> Seq<StabilitySample> {
        self.samples@
    }
}

/// The latest samples of every route.
#[derive(Debug)]
pub struct StabilityHistory {
    samples: NameMap<Track>,
    cap: usize,
}

/// What a history holds.
#[verifier::ext_equal]
pub struct HistoryView {
    pub samples: Map<Seq<char>, Seq<StabilitySample>>,
    pub cap: int,
}

impl View for StabilityHistory {
    type V = HistoryView;

    closed spec fn view(&self) -> HistoryView {
        HistoryView { samples: self.samples@, cap: self.cap as int }
    }
}

impl HistoryView {
    /// The samples of a route.
    pub open spec fn of(self, id: Seq<char>) -> Seq<StabilitySample> {
        if self.samples.dom().contains(id) {
            self.samples[id]
        } else {
            seq![]
        }
    }

    /// The history with one more sample of a route; a full one loses its oldest.
    pub open spec fn recorded(self, id: Seq<char>, sample: StabilitySample) -> HistoryView {
        let now = self.of(id);
        let kept = if now.len() == self.cap {
            now.drop_first()
        } else {
            now
        };
        HistoryView { samples: self.samples.insert(id, kept.push(sample)), ..self }
    }

    /// How steady a route is; neutral for one without samples.
    pub open spec fn index<F: Fn(Op) -> Scalar>(self, unit: F, id: Seq<char>) -> Scalar {
        steadiness(unit, self.of(id))
    }
}

impl StabilityHistory {
    #[verifier::type_invariant]
    spec fn sound(&self) -> bool {
        self.cap > 0
    }

    /// A history without samples.
    pub fn new() -> (r: StabilityHistory)
        ensures
            r@ == (HistoryView { samples: Map::empty(), cap: DEFAULT_CAP as int }),
    {
        Self::with_cap(DEFAULT_CAP)
    }

    /// A history without samples that keeps `cap` of each route.
    pub fn with_cap(cap: usize) -> (r: StabilityHistory)
        requires
            cap > 0,
        ensures
            r@ == (HistoryView { samples: Map::empty(), cap: cap as int }),
    {
        StabilityHistory { samples: NameMap::new(), cap }
    }

    /// Adds a sample of a route; a full list loses its oldest.
    pub fn record(&mut self, route_id: &str, sample: StabilitySample)
        ensures
            final(self)@ == old(self)@.recorded(route_id@, sample),
    {
        proof {
            use_type_invariant(&*self);
        }
        let ghost before = self@;
        let mut samples: NameMap<Track> = NameMap::new();
        std::mem::swap(&mut samples, &mut self.samples);
        let mut track = match samples.take(route_id) {
            Some(t) => t,
            None => {
                let t = Track { samples: Vec::new() };
                assert(t@ =~= Seq::<StabilitySample>::empty());
                t
            },
        };
        assert(track@ == before.of(route_id@));
        if track.samples.len() == self.cap {
            let _ = track.samples.remove(0);
            assert(track@ =~= before.of(route_id@).drop_first());
        }
        track.samples.push(sample);
        samples.insert(route_id.to_string(), track);
        self.samples = samples;
        assert(self@.samples =~= before.recorded(route_id@, sample).samples);
    }

    /// How steady a route is, from 0 to 1.
    pub fn stability_index<F: Fn(Op) -> Scalar>(&self, unit: &F, route_id: &str) -> (r: Scalar)
        requires
            dependable(*unit),
        ensures
            r == self@.index(*unit, route_id@),
    {
        match self.samples.get(route_id) {
            Some(track) => judge(unit, &track.samples),
            None => Scalar { bits: HALF_BITS },
        }
    }

    /// Forgets a route.
    pub fn clear(&mut self, route_id: &str)
        ensures
            final(self)@ == (HistoryView {
                samples: old(self)@.samples.remove(route_id@),
                ..old(self)@
            }),
    {
        proof {
            use_type_invariant(&*self);
        }
        let mut samples: NameMap<Track> = NameMap::new();
        std::mem::swap(&mut samples, &mut self.samples);
        let _ = samples.take(route_id);
        self.samples = samples;
    }

    /// How many samples there are of a route.
    pub fn len(&self, route_id: &str) -> (r: usize)
        ensures
            r == self@.of(route_id@).len(),
    {
        match self.samples.get(route_id) {
            Some(track) => track.samples.len(),
            None => 0,
        }
    }
}

/// A list of samples never outgrows its capacity.
pub proof fn law_history_is_bounded(h: HistoryView, id: Seq<char>, sample: StabilitySample)
    requires
        h.cap > 0,
        forall|k: Seq<char>| #[trigger] h.of(k).len() <= h.cap,
    ensures
        forall|k: Seq<char>| #[trigger] h.recorded(id, sample).of(k).len() <= h.cap,
{
    assert forall|k: Seq<char>| #[trigger] h.recorded(id, sample).of(k).len() <= h.cap by {
        assert(h.of(k).len() <= h.cap);
        assert(h.of(id).len() <= h.cap);
    }
}

/// How steady some samples are lies from 0 to 1, unless the unit gives no number.
proof fn lemma_in_range<F: Fn(Op) -> Scalar>(unit: F, samples: Seq<StabilitySample>)
    ensures
        ({
            let s = steadiness(unit, samples);
            !s.nan() ==> s.at_least(Scalar::zero_value()) && Scalar::one_value().at_least(s)
        }),
{
    let t = good_times(samples);
    let zero = Scalar::zero_value();
    let half = Scalar { bits: HALF_BITS };
    law_unit_range(zero);
    law_unit_range(half);
    lemma_code_orders(0, HALF_BITS as int);
    lemma_code_orders(HALF_BITS as int, ONE_BITS as int);
    let cv = product_of(unit, spread(unit, t), Scalar { bits: SPREAD_FACTOR_BITS }).unit_range();
    let loss = loss_share(unit, samples).unit_range();
    let steep = quotient_of(unit, slope(unit, t), Scalar { bits: FULL_SLOPE_BITS }).unit_range();
    let bad = sum_of(
        unit,
        sum_of(
            unit,
            product_of(unit, cv, Scalar { bits: SPREAD_SHARE_BITS }),
            product_of(unit, loss, Scalar { bits: LOSS_SHARE_BITS }),
        ),
        product_of(unit, steep, Scalar { bits: SLOPE_SHARE_BITS }),
    );
    law_unit_range(diff_of(unit, Scalar::one_value(), bad));
}

proof fn lemma_all_lost(samples: Seq<StabilitySample>)
    requires
        forall|i: int| 0 <= i < samples.len() ==> (#[trigger] samples[i]).loss,
    ensures
        good_times(samples).len() == 0,
    decreases samples.len(),
{
    if samples.len() > 0 {
        assert(samples[samples.len() - 1].loss);
        assert forall|i: int| 0 <= i < samples.len() - 1 implies (
        #[trigger] samples.drop_last()[i]).loss by {
            assert(samples[i].loss);
        }
        lemma_all_lost(samples.drop_last());
    }
}

/// The index of a route lies from 0 to 1, unless the unit gives no number. It is
/// one half while there are fewer than three samples, and 0 where all of at least
/// three were lost.
pub proof fn law_index_in_range<F: Fn(Op) -> Scalar>(unit: F, h: HistoryView, id: Seq<char>)
    ensures
        !h.index(unit, id).nan() ==> h.index(unit, id).at_least(Scalar::zero_value())
            && Scalar::one_value().at_least(h.index(unit, id)),
        h.of(id).len() < 3 ==> h.index(unit, id) == (Scalar { bits: HALF_BITS }),
        h.of(id).len() >= 3 && (forall|i: int|
            0 <= i < h.of(id).len() ==> (#[trigger] h.of(id)[i]).loss) ==> h.index(unit, id)
            == Scalar::zero_value(),
{
    lemma_in_range(unit, h.of(id));
    if forall|i: int| 0 <= i < h.of(id).len() ==> (#[trigger] h.of(id)[i]).loss {
        lemma_all_lost(h.of(id));
    }
}

/// The index of a route depends on its own samples alone: neither a sample of
/// another route nor forgetting another route changes it.
pub proof fn law_index_is_per_route<F: Fn(Op) -> Scalar>(
    unit: F,
    h: HistoryView,
    g: HistoryView,
    id: Seq<char>,
    other: Seq<char>,
    sample: StabilitySample,
)
    requires
        other != id,
    ensures
        h.of(id) == g.of(id) ==> h.index(unit, id) == g.index(unit, id),
        h.recorded(other, sample).index(unit, id) == h.index(unit, id),
        (HistoryView { samples: h.samples.remove(other), ..h }).index(unit, id) == h.index(unit, id),
{
    assert(h.recorded(other, sample).of(id) == h.of(id));
    assert((HistoryView { samples: h.samples.remove(other), ..h }).of(id) == h.of(id));
}

} // verus!
