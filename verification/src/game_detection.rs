//! Detection of a running game by its processes and by bursts of small UDP
//! packets.

use crate::arith::{dependable, whole, whole_of, Op};
use crate::scalar::{Scalar, HALF_BITS, ZERO_BITS};
use crate::text::{copy_texts, holds_text, lemma_texts_push, opt_text, same_text, texts};
use vstd::prelude::*;

verus! {

/// The shortest time between two scans of the processes.
pub const SCAN_THROTTLE_MS: i64 = 1000;

/// How far back packets count.
pub const BURST_WINDOW_MS: i64 = 1000;

/// The encoding of 0.95.
pub const BOTH_BITS: u32 = 0x3f73_3333;

/// The encoding of 0.6.
pub const PROCESS_BITS: u32 = 0x3f19_999a;

/// The encoding of 40.0.
pub const CS2_THRESHOLD_BITS: u32 = 0x4220_0000;

// ---------------------------------------------------------------------------
// Lower case
// ---------------------------------------------------------------------------

/// The text that `str::to_lowercase` gives.
pub uninterp spec fn lowercase(s: Seq<char>) -> Seq<char>;

/// Calls `str::to_lowercase`. The result is a function of the text alone; which
/// character goes to which is not said here.
#[verifier::external_body]
fn to_lowercase(s: &str) -> (r: String)
    ensures
        r@ == lowercase(s@),
{
    s.to_lowercase()
}

// ---------------------------------------------------------------------------
// Profiles and signals
// ---------------------------------------------------------------------------

/// What gives a game away.
#[derive(Debug, Clone)]
pub struct GameProfile {
    pub id: String,
    pub name: String,
    pub process_names: Vec<String>,
    pub udp_ports: Vec<u16>,
    pub burst_threshold_pps: Scalar,
    pub max_packet_size: usize,
}

/// What a `GameProfile` holds.
#[verifier::ext_equal]
pub struct GameView {
    pub id: Seq<char>,
    pub name: Seq<char>,
    pub process_names: Seq<Seq<char>>,
    pub udp_ports: Seq<u16>,
    pub burst_threshold_pps: Scalar,
    pub max_packet_size: int,
}

impl View for GameProfile {
    type V = GameView;

    open spec fn view(&self) -> GameView {
        GameView {
            id: self.id@,
            name: self.name@,
            process_names: texts(self.process_names@),
            udp_ports: self.udp_ports@,
            burst_threshold_pps: self.burst_threshold_pps,
            max_packet_size: self.max_packet_size as int,
        }
    }
}

impl GameProfile {
    fn copy(&self) -> (r: GameProfile)
        ensures
            r@ == self@,
    {
        let mut udp_ports: Vec<u16> = Vec::new();
        let mut i: usize = 0;
        while i < self.udp_ports.len()
            invariant
                i <= self.udp_ports@.len(),
                udp_ports@ == self.udp_ports@.take(i as int),
            decreases self.udp_ports@.len() - i,
        {
            udp_ports.push(self.udp_ports[i]);
            assert(self.udp_ports@.take(i as int + 1) =~= self.udp_ports@.take(i as int).push(
                self.udp_ports@[i as int],
            ));
            i = i + 1;
        }
        assert(udp_ports@ =~= self.udp_ports@);
        GameProfile {
            id: self.id.clone(),
            name: self.name.clone(),
            process_names: copy_texts(&self.process_names),
            udp_ports,
            burst_threshold_pps: self.burst_threshold_pps,
            max_packet_size: self.max_packet_size,
        }
    }
}

/// What a list of profiles holds.
pub open spec fn game_views(profiles: Seq<GameProfile>) -> Seq<GameView> {
    Seq::new(profiles.len(), |i: int| profiles[i]@)
}

/// What a signal rests on.
#[derive(Debug, Clone, Copy, PartialEq, Eq, Structural)]
pub enum DetectionReason {
    Idle,
    Process,
    UdpBurst,
    Both,
}

/// The process names of the first game with an id; none where there is none.
pub open spec fn processes_of(games: Seq<GameView>, id: Seq<char>) -> Seq<Seq<char>>
    decreases games.len(),
{
    if games.len() == 0 {
        seq![]
    } else if games[0].id == id {
        games[0].process_names
    } else {
        processes_of(games.drop_first(), id)
    }
}

/// Whether a game is running.
#[derive(Debug, Clone)]
pub struct GameSignal {
    pub detected: bool,
    pub game_id: Option<String>,
    pub game_name: Option<String>,
    pub confidence: Scalar,
    pub reason: DetectionReason,
    pub timestamp_ms: i64,
}

/// What a `GameSignal` holds.
#[verifier::ext_equal]
pub struct SignalView {
    pub detected: bool,
    pub game_id: Option<Seq<char>>,
    pub game_name: Option<Seq<char>>,
    pub confidence: Scalar,
    pub reason: DetectionReason,
    pub timestamp_ms: i64,
}

impl View for GameSignal {
    type V = SignalView;

    open spec fn view(&self) -> SignalView {
        SignalView {
            detected: self.detected,
            game_id: opt_text(self.game_id),
            game_name: opt_text(self.game_name),
            confidence: self.confidence,
            reason: self.reason,
            timestamp_ms: self.timestamp_ms,
        }
    }
}

impl SignalView {
    /// The signal while no game is running.
    pub open spec fn idle(now_ms: i64) -> SignalView {
        SignalView {
            detected: false,
            game_id: None,
            game_name: None,
            confidence: Scalar::zero_value(),
            reason: DetectionReason::Idle,
            timestamp_ms: now_ms,
        }
    }
}

impl GameSignal {
    /// The signal while no game is running.
    pub fn idle(now_ms: i64) -> (r: GameSignal)
        ensures
            r@ == SignalView::idle(now_ms),
    {
        GameSignal {
            detected: false,
            game_id: None,
            game_name: None,
            confidence: Scalar { bits: ZERO_BITS },
            reason: DetectionReason::Idle,
            timestamp_ms: now_ms,
        }
    }

    fn copy(&self) -> (r: GameSignal)
        ensures
            r@ == self@,
    {
        GameSignal {
            detected: self.detected,
            game_id: self.game_id.clone(),
            game_name: self.game_name.clone(),
            confidence: self.confidence,
            reason: self.reason,
            timestamp_ms: self.timestamp_ms,
        }
    }
}

/// A packet that was seen: its port, its size and the time.
pub type Packet = (u16, usize, i64);

/// Watches for games.
#[derive(Debug)]
pub struct GameDetector {
    profiles: Vec<GameProfile>,
    bursts: Vec<Packet>,
    cached_matches: Vec<String>,
    last_signal: GameSignal,
    last_scan_ms: i64,
    scan_count: u64,
}

/// What a detector holds.
#[verifier::ext_equal]
pub struct DetectorView {
    pub profiles: Seq<GameView>,
    pub bursts: Seq<Packet>,
    pub cached_matches: Seq<Seq<char>>,
    pub last_signal: SignalView,
    pub last_scan_ms: i64,
    pub scan_count: u64,
}

impl View for GameDetector {
    type V = DetectorView;

    closed spec fn view(&self) -> DetectorView {
        DetectorView {
            profiles: game_views(self.profiles@),
            bursts: self.bursts@,
            cached_matches: texts(self.cached_matches@),
            last_signal: self.last_signal@,
            last_scan_ms: self.last_scan_ms,
            scan_count: self.scan_count,
        }
    }
}

/// The built-in profile.
pub open spec fn cs2_view() -> GameView {
    GameView {
        id: "cs2"@,
        name: "Counter-Strike 2"@,
        process_names: seq!["cs2.exe"@],
        udp_ports: Seq::new(46, |i: int| (27005 + i) as u16),
        burst_threshold_pps: Scalar { bits: CS2_THRESHOLD_BITS },
        max_packet_size: 200,
    }
}

/// The profiles without those of an id.
pub open spec fn without_game(profiles: Seq<GameView>, id: Seq<char>) -> Seq<GameView>
    decreases profiles.len(),
{
    if profiles.len() == 0 {
        seq![]
    } else if profiles.last().id == id {
        without_game(profiles.drop_last(), id)
    } else {
        without_game(profiles.drop_last(), id).push(profiles.last())
    }
}

/// The packets in the sliding window, in the order in which they were seen.
pub open spec fn recent(bursts: Seq<Packet>, now_ms: int) -> Seq<Packet> {
    bursts.filter(|p: Packet| now_ms - p.2 <= BURST_WINDOW_MS)
}

/// How many packets fit a profile.
pub open spec fn packet_count(bursts: Seq<Packet>, p: GameView) -> nat
    decreases bursts.len(),
{
    if bursts.len() == 0 {
        0
    } else if bursts.last().1 <= p.max_packet_size && p.udp_ports.contains(bursts.last().0) {
        packet_count(bursts.drop_last(), p) + 1
    } else {
        packet_count(bursts.drop_last(), p)
    }
}

/// Whether one of some names is, but for case, one of a profile's processes.
pub open spec fn process_matches(names: Seq<Seq<char>>, p: GameView) -> bool {
    exists|i: int, j: int|
        0 <= i < names.len() && 0 <= j < p.process_names.len() && lowercase(#[trigger] names[i])
            == lowercase(#[trigger] p.process_names[j])
}

/// The signal that one profile gives, idle where nothing fits.
pub open spec fn signal_of<F: Fn(Op) -> Scalar>(
    unit: F,
    p: GameView,
    bursts: Seq<Packet>,
    names: Seq<Seq<char>>,
    now_ms: i64,
) -> SignalView {
    let by_process = process_matches(names, p);
    let by_packets = whole_of(unit, packet_count(bursts, p) as int).at_least(
        p.burst_threshold_pps,
    );
    let found = SignalView {
        detected: true,
        game_id: Some(p.id),
        game_name: Some(p.name),
        confidence: Scalar { bits: BOTH_BITS },
        reason: DetectionReason::Both,
        timestamp_ms: now_ms,
    };
    if by_process && by_packets {
        found
    } else if by_process {
        SignalView {
            confidence: Scalar { bits: PROCESS_BITS },
            reason: DetectionReason::Process,
            ..found
        }
    } else if by_packets {
        SignalView {
            confidence: Scalar { bits: HALF_BITS },
            reason: DetectionReason::UdpBurst,
            ..found
        }
    } else {
        SignalView::idle(now_ms)
    }
}

/// The strongest signal of some profiles, the first among equals; idle where
/// none has any.
pub open spec fn strongest<F: Fn(Op) -> Scalar>(
    unit: F,
    profiles: Seq<GameView>,
    bursts: Seq<Packet>,
    names: Seq<Seq<char>>,
    now_ms: i64,
) -> SignalView
    decreases profiles.len(),
{
    if profiles.len() == 0 {
        SignalView::idle(now_ms)
    } else {
        let before = strongest(unit, profiles.drop_last(), bursts, names, now_ms);
        let s = signal_of(unit, profiles.last(), bursts, names, now_ms);
        if before.confidence.less(s.confidence) {
            s
        } else {
            before
        }
    }
}

/// The process names of a profile that occur, but for case, among some names
/// that are in lower case.
pub open spec fn profile_hits(names: Seq<Seq<char>>, wanted: Seq<Seq<char>>) -> Seq<Seq<char>>
    decreases wanted.len(),
{
    if wanted.len() == 0 {
        seq![]
    } else if names.contains(lowercase(wanted.last())) {
        profile_hits(names, wanted.drop_last()).push(wanted.last())
    } else {
        profile_hits(names, wanted.drop_last())
    }
}

/// The process names of all profiles that occur among some names.
pub open spec fn hits(names: Seq<Seq<char>>, profiles: Seq<GameView>) -> Seq<Seq<char>>
    decreases profiles.len(),
{
    if profiles.len() == 0 {
        seq![]
    } else {
        hits(names, profiles.drop_last()) + profile_hits(names, profiles.last().process_names)
    }
}

/// The names in lower case.
pub open spec fn lowered(names: Seq<Seq<char>>) -> Seq<Seq<char>> {
    Seq::new(names.len(), |i: int| lowercase(names[i]))
}

impl DetectorView {
    /// Whether the last scan is too recent for another.
    pub open spec fn throttled(self, now_ms: int) -> bool {
        self.last_scan_ms != 0 && now_ms - self.last_scan_ms < SCAN_THROTTLE_MS
    }

    /// The detector after a scan that found processes with the given names.
    pub open spec fn scanned(self, names: Seq<Seq<char>>, now_ms: i64) -> DetectorView {
        DetectorView {
            cached_matches: hits(lowered(names), self.profiles),
            last_scan_ms: now_ms,
            scan_count: if self.scan_count == u64::MAX {
                0
            } else {
                (self.scan_count + 1) as u64
            },
            ..self
        }
    }

    /// The detector after working out the signal of a moment.
    pub open spec fn signalled<F: Fn(Op) -> Scalar>(self, unit: F, now_ms: i64) -> DetectorView {
        let bursts = recent(self.bursts, now_ms as int);
        DetectorView {
            bursts,
            last_signal: strongest(unit, self.profiles, bursts, self.cached_matches, now_ms),
            ..self
        }
    }
}

fn has_port(ports: &Vec<u16>, port: u16) -> (r: bool)
    ensures
        r == ports@.contains(port),
{
    let mut i: usize = 0;
    while i < ports.len()
        invariant
            i <= ports@.len(),
            forall|j: int| 0 <= j < i ==> ports@[j] != port,
        decreases ports@.len() - i,
    {
        if ports[i] == port {
            assert(ports@[i as int] == port);
            return true;
        }
        i = i + 1;
    }
    false
}

fn count_packets(bursts: &Vec<Packet>, p: &GameProfile) -> (r: usize)
    ensures
        r == packet_count(bursts@, p@),
{
    let mut n: usize = 0;
    let mut i: usize = 0;
    assert(bursts@.take(0) =~= Seq::<Packet>::empty());
    while i < bursts.len()
        invariant
            n <= i <= bursts@.len(),
            n == packet_count(bursts@.take(i as int), p@),
        decreases bursts@.len() - i,
    {
        assert(bursts@.take(i as int + 1).drop_last() =~= bursts@.take(i as int));
        assert(bursts@.take(i as int + 1).last() == bursts@[i as int]);
        let (port, size, _) = bursts[i];
        if size <= p.max_packet_size && has_port(&p.udp_ports, port) {
            n = n + 1;
        }
        i = i + 1;
    }
    assert(bursts@.take(i as int) =~= bursts@);
    n
}

fn matches_process(names: &Vec<String>, p: &GameProfile) -> (r: bool)
    ensures
        r == process_matches(texts(names@), p@),
{
    let ghost all = texts(names@);
    let ghost wanted = p@.process_names;
    let mut i: usize = 0;
    while i < names.len()
        invariant
            i <= names@.len(),
            all == texts(names@),
            wanted == texts(p.process_names@),
            wanted == p@.process_names,
            forall|k: int, l: int|
                0 <= k < i && 0 <= l < wanted.len() ==> lowercase(#[trigger] all[k]) != lowercase(
                    #[trigger] wanted[l],
                ),
        decreases names@.len() - i,
    {
        let low = to_lowercase(names[i].as_str());
        assert(all[i as int] == names@[i as int]@);
        let mut j: usize = 0;
        while j < p.process_names.len()
            invariant
                i < names@.len(),
                j <= p.process_names@.len(),
                all == texts(names@),
                wanted == texts(p.process_names@),
                wanted == p@.process_names,
                low@ == lowercase(all[i as int]),
                forall|l: int| 0 <= l < j ==> low@ != lowercase(#[trigger] wanted[l]),
            decreases p.process_names@.len() - j,
        {
            let other = to_lowercase(p.process_names[j].as_str());
            assert(wanted[j as int] == p.process_names@[j as int]@);
            if same_text(low.as_str(), other.as_str()) {
                assert(lowercase(all[i as int]) == lowercase(wanted[j as int]));
                return true;
            }
            j = j + 1;
        }
        i = i + 1;
    }
    false
}

fn push_hits(out: &mut Vec<String>, names: &Vec<String>, wanted: &Vec<String>)
    ensures
        texts(final(out)@) == texts(old(out)@) + profile_hits(texts(names@), texts(wanted@)),
{
    let ghost all = texts(names@);
    let ghost w = texts(wanted@);
    let ghost before = texts(out@);
    let mut i: usize = 0;
    assert(w.take(0) =~= Seq::<Seq<char>>::empty());
    assert(texts(out@) =~= before + profile_hits(all, w.take(0)));
    while i < wanted.len()
        invariant
            i <= wanted@.len(),
            all == texts(names@),
            w == texts(wanted@),
            texts(out@) == before + profile_hits(all, w.take(i as int)),
        decreases wanted@.len() - i,
    {
        assert(w.take(i as int + 1).drop_last() =~= w.take(i as int));
        assert(w.take(i as int + 1).last() == wanted@[i as int]@);
        let low = to_lowercase(wanted[i].as_str());
        if holds_text(names, low.as_str()) {
            let name = wanted[i].clone();
            proof {
                lemma_texts_push(out@, name);
                assert((before + profile_hits(all, w.take(i as int))).push(name@) =~= before
                    + profile_hits(all, w.take(i as int + 1)));
            }
            out.push(name);
        }
        i = i + 1;
    }
    assert(w.take(i as int) =~= w);
}

impl GameDetector {
    /// A detector with the built-in profile.
    pub fn new() -> (r: GameDetector)
        ensures
            r@ == (DetectorView {
                profiles: seq![cs2_view()],
                bursts: seq![],
                cached_matches: seq![],
                last_signal: SignalView::idle(0),
                last_scan_ms: 0,
                scan_count: 0,
            }),
    {
        let mut profiles: Vec<GameProfile> = Vec::new();
        profiles.push(Self::default_cs2_profile());
        let r = GameDetector {
            profiles,
            bursts: Vec::new(),
            cached_matches: Vec::new(),
            last_signal: GameSignal::idle(0),
            last_scan_ms: 0,
            scan_count: 0,
        };
        assert(r@.profiles =~= seq![cs2_view()]);
        assert(r@.bursts =~= Seq::<Packet>::empty());
        assert(r@.cached_matches =~= Seq::<Seq<char>>::empty());
        r
    }

    fn default_cs2_profile() -> (r: GameProfile)
        ensures
            r@ == cs2_view(),
    {
        let mut process_names: Vec<String> = Vec::new();
        process_names.push("cs2.exe".to_string());
        let mut udp_ports: Vec<u16> = Vec::new();
        let mut i: u16 = 0;
        while i < 46
            invariant
                i <= 46,
                udp_ports@ == Seq::new(i as nat, |k: int| (27005 + k) as u16),
            decreases 46 - i,
        {
            udp_ports.push(27005 + i);
            assert(udp_ports@ =~= Seq::new((i + 1) as nat, |k: int| (27005 + k) as u16));
            i = i + 1;
        }
        let r = GameProfile {
            id: "cs2".to_string(),
            name: "Counter-Strike 2".to_string(),
            process_names,
            udp_ports,
            burst_threshold_pps: Scalar { bits: CS2_THRESHOLD_BITS },
            max_packet_size: 200,
        };
        assert(r@.process_names =~= seq!["cs2.exe"@]);
        r
    }

    fn drop_game(&mut self, id: &str)
        ensures
            final(self)@ == (DetectorView {
                profiles: without_game(old(self)@.profiles, id@),
                ..old(self)@
            }),
    {
        let ghost v = self@.profiles;
        let mut kept: Vec<GameProfile> = Vec::new();
        let mut i: usize = 0;
        assert(v.take(0) =~= Seq::<GameView>::empty());
        assert(game_views(kept@) =~= without_game(v.take(0), id@));
        while i < self.profiles.len()
            invariant
                i <= self.profiles@.len() == v.len(),
                v == self@.profiles,
                game_views(kept@) == without_game(v.take(i as int), id@),
            decreases self.profiles@.len() - i,
        {
            assert(v.take(i as int + 1).drop_last() =~= v.take(i as int));
            assert(v.take(i as int + 1).last() == self.profiles@[i as int]@);
            if !same_text(self.profiles[i].id.as_str(), id) {
                let ghost before = kept@;
                kept.push(self.profiles[i].copy());
                assert(game_views(kept@) =~= game_views(before).push(v[i as int]));
            }
            i = i + 1;
        }
        assert(v.take(i as int) =~= v);
        self.profiles = kept;
    }

    /// Adds a profile in place of any with the same id.
    pub fn register_profile(&mut self, profile: GameProfile)
        ensures
            final(self)@ == (DetectorView {
                profiles: without_game(old(self)@.profiles, profile@.id).push(profile@),
                ..old(self)@
            }),
    {
        self.drop_game(profile.id.as_str());
        let ghost before = self.profiles@;
        self.profiles.push(profile);
        assert(game_views(self.profiles@) =~= game_views(before).push(profile@));
    }

    /// Removes the profiles with an id, and tells whether there were any.
    pub fn unregister_profile(&mut self, id: &str) -> (r: bool)
        ensures
            final(self)@ == (DetectorView {
                profiles: without_game(old(self)@.profiles, id@),
                ..old(self)@
            }),
            r == (old(self)@.profiles.len() != final(self)@.profiles.len()),
    {
        let before: usize = self.profiles.len();
        self.drop_game(id);
        before != self.profiles.len()
    }

    /// The profiles.
    pub fn list_profiles(&self) -> (r: Vec<GameProfile>)
        ensures
            game_views(r@) == self@.profiles,
    {
        let mut out: Vec<GameProfile> = Vec::new();
        let mut i: usize = 0;
        while i < self.profiles.len()
            invariant
                i <= self.profiles@.len(),
                out@.len() == i,
                forall|j: int| 0 <= j < i ==> (#[trigger] out@[j])@ == self.profiles@[j]@,
            decreases self.profiles@.len() - i,
        {
            out.push(self.profiles[i].copy());
            i = i + 1;
        }
        assert(game_views(out@) =~= self@.profiles);
        out
    }

    /// Sets the process names that count as running.
    pub fn set_cached_matches(&mut self, names: Vec<String>)
        ensures
            final(self)@ == (DetectorView { cached_matches: texts(names@), ..old(self)@ }),
    {
        self.cached_matches = names;
    }

    /// Counts the processes of a game as running, whether they are or not; none
    /// for a game that is not known.
    pub fn force_active(&mut self, id: &str)
        ensures
            final(self)@ == (DetectorView {
                cached_matches: processes_of(old(self)@.profiles, id@),
                ..old(self)@
            }),
    {
        let ghost all = game_views(self.profiles@);
        let mut i: usize = 0;
        assert(all.skip(0) =~= all);
        while i < self.profiles.len()
            invariant
                i <= self.profiles@.len(),
                all == game_views(self.profiles@),
                *self == *old(self),
                processes_of(all, id@) == processes_of(all.skip(i as int), id@),
            decreases self.profiles@.len() - i,
        {
            assert(all.skip(i as int)[0] == self.profiles@[i as int]@);
            assert(all.skip(i as int).drop_first() =~= all.skip(i as int + 1));
            if same_text(self.profiles[i].id.as_str(), id) {
                self.cached_matches = copy_texts(&self.profiles[i].process_names);
                return;
            }
            i = i + 1;
        }
        self.cached_matches = Vec::new();
        assert(texts(self.cached_matches@) =~= Seq::<Seq<char>>::empty());
    }

    /// Notes a packet that was seen at a given time.
    pub fn observe_udp_at(&mut self, port: u16, size: usize, ts_ms: i64)
        ensures
            final(self)@ == (DetectorView {
                bursts: old(self)@.bursts.push((port, size, ts_ms)),
                ..old(self)@
            }),
    {
        self.bursts.push((port, size, ts_ms));
    }

    /// Looks for the processes of the profiles. `read` lists the names of all
    /// processes; it is asked only if the last scan is old enough.
    pub fn scan_processes<R: Fn() -> Vec<String>>(&mut self, now_ms: i64, read: R) -> (r: Vec<
        String,
    >)
        requires
            call_requires(read, ()),
        ensures
            texts(r@) == final(self)@.cached_matches,
            if old(self)@.throttled(now_ms as int) {
                final(self)@ == old(self)@
            } else {
                exists|names: Vec<String>| #[trigger]
                    call_ensures(read, (), names) && final(self)@ == old(self)@.scanned(
                        texts(names@),
                        now_ms,
                    )
            },
    {
        if self.last_scan_ms != 0 && (now_ms as i128 - self.last_scan_ms as i128)
            < SCAN_THROTTLE_MS as i128 {
            return copy_texts(&self.cached_matches);
        }
        let names = read();
        self.note_scan(&names, now_ms)
    }

    /// Takes in the names of all processes, read at a given time, and tells which
    /// belong to a profile.
    pub fn note_scan(&mut self, names: &Vec<String>, now_ms: i64) -> (r: Vec<String>)
        ensures
            final(self)@ == old(self)@.scanned(texts(names@), now_ms),
            texts(r@) == final(self)@.cached_matches,
    {
        self.last_scan_ms = now_ms;
        self.scan_count = if self.scan_count == u64::MAX {
            0
        } else {
            self.scan_count + 1
        };
        let mut low: Vec<String> = Vec::new();
        let mut i: usize = 0;
        while i < names.len()
            invariant
                i <= names@.len(),
                low@.len() == i,
                forall|j: int| 0 <= j < i ==> (#[trigger] low@[j])@ == lowercase(names@[j]@),
            decreases names@.len() - i,
        {
            low.push(to_lowercase(names[i].as_str()));
            i = i + 1;
        }
        assert(texts(low@) =~= lowered(texts(names@)));
        let matched = self.match_process_names(&low);
        self.cached_matches = copy_texts(&matched);
        matched
    }

    /// How many scans there were.
    pub fn scan_count(&self) -> (r: u64)
        ensures
            r == self@.scan_count,
    {
        self.scan_count
    }

    /// The process names of the profiles that occur among some names in lower
    /// case.
    pub fn match_process_names(&self, names: &Vec<String>) -> (r: Vec<String>)
        ensures
            texts(r@) == hits(texts(names@), self@.profiles),
    {
        let ghost v = self@.profiles;
        let mut out: Vec<String> = Vec::new();
        let mut i: usize = 0;
        assert(v.take(0) =~= Seq::<GameView>::empty());
        assert(texts(out@) =~= hits(texts(names@), v.take(0)));
        while i < self.profiles.len()
            invariant
                i <= self.profiles@.len() == v.len(),
                v == self@.profiles,
                texts(out@) == hits(texts(names@), v.take(i as int)),
            decreases self.profiles@.len() - i,
        {
            assert(v.take(i as int + 1).drop_last() =~= v.take(i as int));
            assert(v.take(i as int + 1).last() == self.profiles@[i as int]@);
            push_hits(&mut out, names, &self.profiles[i].process_names);
            i = i + 1;
        }
        assert(v.take(i as int) =~= v);
        out
    }

    fn prune(&mut self, now_ms: i64)
        ensures
            final(self)@ == (DetectorView {
                bursts: recent(old(self)@.bursts, now_ms as int),
                ..old(self)@
            }),
    {
        let ghost all = self.bursts@;
        let ghost fresh = |p: Packet| now_ms as int - p.2 <= BURST_WINDOW_MS;
        let mut kept: Vec<Packet> = Vec::new();
        let mut i: usize = 0;
        proof {
            reveal(Seq::filter);
        }
        assert(all.take(0) =~= Seq::<Packet>::empty());
        while i < self.bursts.len()
            invariant
                i <= self.bursts@.len(),
                all == self.bursts@,
                fresh == (|p: Packet| now_ms as int - p.2 <= BURST_WINDOW_MS),
                kept@ == all.take(i as int).filter(fresh),
            decreases self.bursts@.len() - i,
        {
            proof {
                reveal(Seq::filter);
            }
            assert(all.take(i as int + 1).drop_last() =~= all.take(i as int));
            assert(all.take(i as int + 1).last() == all[i as int]);
            let p = self.bursts[i];
            if now_ms as i128 - p.2 as i128 <= BURST_WINDOW_MS as i128 {
                kept.push(p);
            }
            i = i + 1;
        }
        assert(all.take(i as int) =~= all);
        self.bursts = kept;
    }

    fn profile_signal<F: Fn(Op) -> Scalar>(&self, unit: &F, p: &GameProfile, now_ms: i64) -> (r:
        GameSignal)
        requires
            dependable(*unit),
        ensures
            r@ == signal_of(*unit, p@, self@.bursts, self@.cached_matches, now_ms),
    {
        let by_process = matches_process(&self.cached_matches, p);
        let packets = count_packets(&self.bursts, p);
        let by_packets = whole(unit, packets).ge(&p.burst_threshold_pps);
        let (bits, reason) = if by_process && by_packets {
            (BOTH_BITS, DetectionReason::Both)
        } else if by_process {
            (PROCESS_BITS, DetectionReason::Process)
        } else if by_packets {
            (HALF_BITS, DetectionReason::UdpBurst)
        } else {
            return GameSignal::idle(now_ms);
        };
        GameSignal {
            detected: true,
            game_id: Some(p.id.clone()),
            game_name: Some(p.name.clone()),
            confidence: Scalar { bits },
            reason,
            timestamp_ms: now_ms,
        }
    }

    /// Works out the signal of a moment from the recent packets and the known
    /// processes.
    pub fn compute_signal<F: Fn(Op) -> Scalar>(&mut self, unit: &F, now_ms: i64) -> (r: GameSignal)
        requires
            dependable(*unit),
        ensures
            final(self)@ == old(self)@.signalled(*unit, now_ms),
            r@ == final(self)@.last_signal,
    {
        self.prune(now_ms);
        let ghost v = self@;
        let mut best = GameSignal::idle(now_ms);
        let mut i: usize = 0;
        assert(v.profiles.take(0) =~= Seq::<GameView>::empty());
        while i < self.profiles.len()
            invariant
                dependable(*unit),
                i <= self.profiles@.len() == v.profiles.len(),
                v == self@,
                best@ == strongest(
                    *unit,
                    v.profiles.take(i as int),
                    v.bursts,
                    v.cached_matches,
                    now_ms,
                ),
            decreases self.profiles@.len() - i,
        {
            assert(v.profiles.take(i as int + 1).drop_last() =~= v.profiles.take(i as int));
            assert(v.profiles.take(i as int + 1).last() == self.profiles@[i as int]@);
            let s = self.profile_signal(unit, &self.profiles[i], now_ms);
            if best.confidence.lt(&s.confidence) {
                best = s;
            }
            i = i + 1;
        }
        assert(v.profiles.take(i as int) =~= v.profiles);
        self.last_signal = best.copy();
        best
    }

    /// The last signal that was worked out.
    pub fn current(&self) -> (r: GameSignal)
        ensures
            r@ == self@.last_signal,
    {
        self.last_signal.copy()
    }
}

// ---------------------------------------------------------------------------
// Laws
// ---------------------------------------------------------------------------

/// A profile that is registered is there, and no other with its id is.
pub proof fn law_registered_once(profiles: Seq<GameView>, id: Seq<char>)
    ensures
        forall|i: int|
            0 <= i < without_game(profiles, id).len() ==> (#[trigger] without_game(
                profiles,
                id,
            )[i]).id != id,
    decreases profiles.len(),
{
    if profiles.len() > 0 {
        let rest = without_game(profiles.drop_last(), id);
        let all = without_game(profiles, id);
        law_registered_once(profiles.drop_last(), id);
        assert forall|i: int| 0 <= i < all.len() implies (#[trigger] all[i]).id != id by {
            if i < rest.len() {
                assert(all[i] == rest[i]);
            }
        }
    }
}

/// A signal that is detected names a game, and one that is not is idle.
pub proof fn law_signal_is_whole<F: Fn(Op) -> Scalar>(
    unit: F,
    profiles: Seq<GameView>,
    bursts: Seq<Packet>,
    names: Seq<Seq<char>>,
    now_ms: i64,
)
    ensures
        ({
            let s = strongest(unit, profiles, bursts, names, now_ms);
            if s.detected {
                s.game_id is Some && s.game_name is Some && s.reason != DetectionReason::Idle
            } else {
                s == SignalView::idle(now_ms)
            }
        }),
    decreases profiles.len(),
{
    if profiles.len() > 0 {
        law_signal_is_whole(unit, profiles.drop_last(), bursts, names, now_ms);
    }
}

} // verus!
