//! What gives a game away.

use crate::arith::{result, Op};
use crate::game_detection::{
    cs2_view, hits, lowercase, lowered, packet_count, process_matches, processes_of, profile_hits,
    recent, signal_of, strongest, without_game, DetectionReason, DetectorView, GameView, Packet,
    SignalView,
};
use crate::scalar::{code_magnitude, lemma_code_orders, Scalar};
use vstd::prelude::*;

verus! {

// ---------------------------------------------------------------------------
// Evidence
// ---------------------------------------------------------------------------

/// Whether a packet speaks for a game: it is no older than a second, no larger
/// than the game's packets, and on one of the game's ports.
pub open spec fn speaks_for(packet: Packet, game: GameView, now_ms: i64) -> bool {
    &&& now_ms - packet.2 <= 1000
    &&& packet.1 <= game.max_packet_size
    &&& game.udp_ports.contains(packet.0)
}

/// Whether as many packets speak for a game as it takes.
pub open spec fn bursting<F: Fn(Op) -> Scalar>(
    unit: F,
    d: DetectorView,
    game: GameView,
    now_ms: i64,
) -> bool {
    let n = d.bursts.filter(|p: Packet| speaks_for(p, game, now_ms)).len();
    result(unit, Op::Whole(n as u64)).at_least(game.burst_threshold_pps)
}

/// Whether a process of a game runs: one of those found has, but for case, one of
/// its names.
pub open spec fn running(d: DetectorView, game: GameView) -> bool {
    exists|i: int, j: int|
        0 <= i < d.cached_matches.len() && 0 <= j < game.process_names.len() && lowercase(
            #[trigger] d.cached_matches[i],
        ) == lowercase(#[trigger] game.process_names[j])
}

/// How strongly a game is given away: by process and packets, by process, by
/// packets, or not at all.
pub open spec fn strength<F: Fn(Op) -> Scalar>(
    unit: F,
    d: DetectorView,
    game: GameView,
    now_ms: i64,
) -> int {
    (if running(d, game) {
        2int
    } else {
        0
    }) + (if bursting(unit, d, game, now_ms) {
        1int
    } else {
        0
    })
}

/// The signal for a game that is given away with a strength: the confidence is
/// 0.95, 0.6 or 0.5.
pub open spec fn signal_for(game: GameView, strength: int, now_ms: i64) -> SignalView {
    if strength == 0 {
        SignalView {
            detected: false,
            game_id: None,
            game_name: None,
            confidence: Scalar { bits: 0 },
            reason: DetectionReason::Idle,
            timestamp_ms: now_ms,
        }
    } else {
        SignalView {
            detected: true,
            game_id: Some(game.id),
            game_name: Some(game.name),
            confidence: Scalar {
                bits: if strength == 3 {
                    0x3f73_3333
                } else if strength == 2 {
                    0x3f19_999a
                } else {
                    0x3f00_0000
                },
            },
            reason: if strength == 3 {
                DetectionReason::Both
            } else if strength == 2 {
                DetectionReason::Process
            } else {
                DetectionReason::UdpBurst
            },
            timestamp_ms: now_ms,
        }
    }
}

proof fn lemma_packets(bursts: Seq<Packet>, game: GameView, now_ms: i64)
    ensures
        packet_count(recent(bursts, now_ms as int), game) == bursts.filter(
            |p: Packet| speaks_for(p, game, now_ms),
        ).len(),
    decreases bursts.len(),
{
    reveal(Seq::filter);
    if bursts.len() > 0 {
        let rest = bursts.drop_last();
        let last = bursts.last();
        lemma_packets(rest, game, now_ms);
        if now_ms - last.2 <= 1000 {
            assert(recent(bursts, now_ms as int) == recent(rest, now_ms as int).push(last));
            assert(recent(bursts, now_ms as int).drop_last() =~= recent(rest, now_ms as int));
        }
    }
}

proof fn lemma_signal<F: Fn(Op) -> Scalar>(unit: F, d: DetectorView, game: GameView, now_ms: i64)
    ensures
        signal_of(unit, game, recent(d.bursts, now_ms as int), d.cached_matches, now_ms)
            == signal_for(game, strength(unit, d, game, now_ms), now_ms),
{
    lemma_packets(d.bursts, game, now_ms);
    assert(process_matches(d.cached_matches, game) == running(d, game));
}

proof fn lemma_confidences()
    ensures
        (Scalar { bits: 0 }).less(Scalar { bits: 0x3f00_0000 }),
        (Scalar { bits: 0 }).less(Scalar { bits: 0x3f19_999a }),
        (Scalar { bits: 0 }).less(Scalar { bits: 0x3f73_3333 }),
        (Scalar { bits: 0x3f00_0000 }).less(Scalar { bits: 0x3f19_999a }),
        (Scalar { bits: 0x3f00_0000 }).less(Scalar { bits: 0x3f73_3333 }),
        (Scalar { bits: 0x3f19_999a }).less(Scalar { bits: 0x3f73_3333 }),
{
    lemma_code_orders(0, 0x3f00_0000);
    lemma_code_orders(0x3f00_0000, 0x3f19_999a);
    lemma_code_orders(0x3f19_999a, 0x3f73_3333);
    assert(code_magnitude(0) == 0);
}

proof fn lemma_strongest<F: Fn(Op) -> Scalar>(
    unit: F,
    d: DetectorView,
    games: Seq<GameView>,
    now_ms: i64,
) -> (k: int)
    ensures
        ({
            let s = strongest(
                unit,
                games,
                recent(d.bursts, now_ms as int),
                d.cached_matches,
                now_ms,
            );
            if k < 0 {
                &&& forall|i: int|
                    0 <= i < games.len() ==> strength(unit, d, #[trigger] games[i], now_ms) == 0
                &&& s == SignalView::idle(now_ms)
            } else {
                let most = strength(unit, d, games[k], now_ms);
                &&& k < games.len()
                &&& most > 0
                &&& s == signal_for(games[k], most, now_ms)
                &&& forall|i: int|
                    0 <= i < games.len() ==> strength(unit, d, #[trigger] games[i], now_ms) <= most
                &&& forall|i: int|
                    0 <= i < k ==> strength(unit, d, #[trigger] games[i], now_ms) < most
            }
        }),
    decreases games.len(),
{
    lemma_confidences();
    if games.len() == 0 {
        -1
    } else {
        let rest = games.drop_last();
        let n = games.len() - 1;
        assert(forall|i: int| 0 <= i < rest.len() ==> #[trigger] rest[i] == games[i]);
        assert(games[n] == games.last());
        let k = lemma_strongest(unit, d, rest, now_ms);
        lemma_signal(unit, d, games[n], now_ms);
        let here = strength(unit, d, games[n], now_ms);
        if k < 0 {
            assert forall|i: int| 0 <= i < n implies strength(
                unit,
                d,
                #[trigger] games[i],
                now_ms,
            ) == 0 by {
                assert(rest[i] == games[i]);
            }
            if here > 0 {
                n
            } else {
                -1
            }
        } else {
            assert(rest[k] == games[k]);
            let most = strength(unit, d, games[k], now_ms);
            assert forall|i: int| 0 <= i < n implies strength(
                unit,
                d,
                #[trigger] games[i],
                now_ms,
            ) <= most && (i < k ==> strength(unit, d, games[i], now_ms) < most) by {
                assert(rest[i] == games[i]);
            }
            if here > most {
                n
            } else {
                k
            }
        }
    }
}

// ---------------------------------------------------------------------------
// Laws
// ---------------------------------------------------------------------------

/// The signal of a moment is that of the game given away most strongly, and of
/// equal ones the first; where none is given away, it is idle. Packets that have
/// become too old are forgotten.
pub proof fn law_strongest_evidence_wins<F: Fn(Op) -> Scalar>(
    unit: F,
    d: DetectorView,
    now_ms: i64,
) -> (k: int)
    ensures
        ({
            let s = d.signalled(unit, now_ms).last_signal;
            if k < 0 {
                &&& forall|i: int|
                    0 <= i < d.profiles.len() ==> strength(
                        unit,
                        d,
                        #[trigger] d.profiles[i],
                        now_ms,
                    ) == 0
                &&& !s.detected && s.game_id is None && s.game_name is None && s.confidence
                    == Scalar { bits: 0 } && s.reason == DetectionReason::Idle && s.timestamp_ms
                    == now_ms
            } else {
                let most = strength(unit, d, d.profiles[k], now_ms);
                &&& k < d.profiles.len()
                &&& most > 0
                &&& s == signal_for(d.profiles[k], most, now_ms)
                &&& forall|i: int|
                    0 <= i < d.profiles.len() ==> strength(
                        unit,
                        d,
                        #[trigger] d.profiles[i],
                        now_ms,
                    ) <= most
                &&& forall|i: int|
                    0 <= i < k ==> strength(unit, d, #[trigger] d.profiles[i], now_ms) < most
            }
        }),
        d.signalled(unit, now_ms).bursts == d.bursts.filter(|p: Packet| now_ms - p.2 <= 1000),
        d.signalled(unit, now_ms).profiles == d.profiles,
        d.signalled(unit, now_ms).cached_matches == d.cached_matches,
{
    assert((|p: Packet| now_ms as int - p.2 <= 1000) =~= (|p: Packet| now_ms - p.2 <= 1000));
    lemma_strongest(unit, d, d.profiles, now_ms)
}

/// Whether a name is one of a game's and, but for case, one of some processes.
pub open spec fn found(game: GameView, names: Seq<Seq<char>>, name: Seq<char>) -> bool {
    &&& game.process_names.contains(name)
    &&& exists|i: int| 0 <= i < names.len() && lowercase(#[trigger] names[i]) == lowercase(name)
}

proof fn lemma_profile_hits(names: Seq<Seq<char>>, wanted: Seq<Seq<char>>, name: Seq<char>)
    ensures
        profile_hits(names, wanted).contains(name) <==> wanted.contains(name) && names.contains(
            lowercase(name),
        ),
    decreases wanted.len(),
{
    if wanted.len() > 0 {
        let rest = wanted.drop_last();
        let last = wanted.last();
        let (before, all) = (profile_hits(names, rest), profile_hits(names, wanted));
        lemma_profile_hits(names, rest, name);
        if all.contains(name) {
            let i = all.index_of(name);
            if i < before.len() {
                assert(before[i] == name);
                assert(before.contains(name));
                let j = rest.index_of(name);
                assert(wanted[j] == name);
            } else {
                assert(wanted[wanted.len() - 1] == name);
            }
        }
        if wanted.contains(name) && names.contains(lowercase(name)) {
            let j = wanted.index_of(name);
            if j < rest.len() {
                assert(rest[j] == name);
                let i = before.index_of(name);
                assert(all[i] == name);
            } else {
                assert(last == name);
                assert(all[all.len() - 1] == name);
            }
        }
    }
}

proof fn lemma_hits(names: Seq<Seq<char>>, games: Seq<GameView>, name: Seq<char>)
    ensures
        hits(names, games).contains(name) <==> names.contains(lowercase(name)) && exists|k: int|
            0 <= k < games.len() && (#[trigger] games[k]).process_names.contains(name),
    decreases games.len(),
{
    if games.len() > 0 {
        let rest = games.drop_last();
        let n = games.len() - 1;
        let (before, here) = (hits(names, rest), profile_hits(names, games.last().process_names));
        let all = hits(names, games);
        lemma_hits(names, rest, name);
        lemma_profile_hits(names, games.last().process_names, name);
        assert(games[n] == games.last());
        if all.contains(name) {
            let i = all.index_of(name);
            if i < before.len() {
                assert(before[i] == name);
                assert(before.contains(name));
                let k = choose|k: int|
                    0 <= k < rest.len() && (#[trigger] rest[k]).process_names.contains(name);
                assert(games[k] == rest[k]);
            } else {
                assert(here[i - before.len()] == name);
                assert(here.contains(name));
            }
        }
        if names.contains(lowercase(name)) && exists|k: int|
            0 <= k < games.len() && (#[trigger] games[k]).process_names.contains(name) {
            let k = choose|k: int|
                0 <= k < games.len() && (#[trigger] games[k]).process_names.contains(name);
            if k < n {
                assert(rest[k] == games[k]);
                let i = before.index_of(name);
                assert(all[i] == name);
            } else {
                let i = here.index_of(name);
                assert(all[before.len() + i] == name);
            }
        }
    }
}

/// A scan finds the process names of all games that occur, but for case, among the
/// names of the processes, and no others. It is counted, and nothing else changes.
pub proof fn law_scan_finds_processes(
    d: DetectorView,
    names: Seq<Seq<char>>,
    now_ms: i64,
    name: Seq<char>,
)
    ensures
        ({
            let n = d.scanned(names, now_ms);
            &&& n.cached_matches.contains(name) <==> exists|k: int|
                0 <= k < d.profiles.len() && found(#[trigger] d.profiles[k], names, name)
            &&& n.last_scan_ms == now_ms
            &&& d.scan_count < u64::MAX ==> n.scan_count == d.scan_count + 1
            &&& n.profiles == d.profiles
            &&& n.bursts == d.bursts
            &&& n.last_signal == d.last_signal
        }),
{
    let low = lowered(names);
    lemma_hits(low, d.profiles, name);
    if low.contains(lowercase(name)) {
        let i = low.index_of(lowercase(name));
        assert(lowercase(names[i]) == lowercase(name));
        if exists|k: int|
            0 <= k < d.profiles.len() && (#[trigger] d.profiles[k]).process_names.contains(name) {
            let k = choose|k: int|
                0 <= k < d.profiles.len() && (#[trigger] d.profiles[k]).process_names.contains(
                    name,
                );
            assert(found(d.profiles[k], names, name));
        }
    }
    if exists|k: int| 0 <= k < d.profiles.len() && found(#[trigger] d.profiles[k], names, name) {
        let k = choose|k: int|
            0 <= k < d.profiles.len() && found(#[trigger] d.profiles[k], names, name);
        let i = choose|i: int|
            0 <= i < names.len() && lowercase(#[trigger] names[i]) == lowercase(name);
        assert(low[i] == lowercase(name));
        assert(low.contains(lowercase(name)));
        assert(d.profiles[k].process_names.contains(name));
    }
}

/// Processes are scanned at most once a second; the first scan is always due.
pub proof fn law_scans_keep_apart(d: DetectorView, now_ms: i64)
    ensures
        d.throttled(now_ms as int) <==> d.last_scan_ms != 0 && now_ms < d.last_scan_ms + 1000,
{
}

/// Registering and removing games by their id: those with another id stay, in
/// their order.
pub proof fn law_other_games_stay(games: Seq<GameView>, id: Seq<char>)
    ensures
        without_game(games, id) == games.filter(|g: GameView| g.id != id),
    decreases games.len(),
{
    reveal(Seq::filter);
    if games.len() > 0 {
        law_other_games_stay(games.drop_last(), id);
    }
}

/// The processes of a game are those of the first with its id; without one there
/// are none.
pub proof fn law_processes_by_id(games: Seq<GameView>, id: Seq<char>, k: int)
    requires
        0 <= k <= games.len(),
        forall|i: int| 0 <= i < k ==> (#[trigger] games[i]).id != id,
        k < games.len() ==> games[k].id == id,
    ensures
        processes_of(games, id) == if k < games.len() {
            games[k].process_names
        } else {
            seq![]
        },
    decreases games.len(),
{
    if k > 0 {
        let rest = games.drop_first();
        assert(games[0].id != id);
        assert forall|i: int| 0 <= i < k - 1 implies (#[trigger] rest[i]).id != id by {
            assert(rest[i] == games[i + 1]);
        }
        law_processes_by_id(rest, id, k - 1);
    }
}

/// The game known from the start: its process, its ports from 27005 to 27050, and
/// 40 packets a second of at most 200 bytes.
pub proof fn law_known_game(port: u16)
    ensures
        ({
            let g = cs2_view();
            &&& g.id == "cs2"@
            &&& g.name == "Counter-Strike 2"@
            &&& g.process_names.len() == 1
            &&& g.process_names[0] == "cs2.exe"@
            &&& g.udp_ports.contains(port) <==> 27005 <= port <= 27050
            &&& g.burst_threshold_pps == Scalar { bits: 0x4220_0000 }
            &&& g.max_packet_size == 200
        }),
{
    let g = cs2_view();
    if 27005 <= port <= 27050 {
        assert(g.udp_ports[port - 27005] == port);
    }
}

/// A scan is counted and its moment noted; the count begins anew behind the largest
/// number. The packets and the last signal stay.
pub proof fn law_scans_are_counted(d: DetectorView, names: Seq<Seq<char>>, now_ms: i64)
    ensures
        ({
            let n = d.scanned(names, now_ms);
            &&& n.last_scan_ms == now_ms
            &&& d.scan_count < u64::MAX ==> n.scan_count == d.scan_count + 1
            &&& d.scan_count == u64::MAX ==> n.scan_count == 0
            &&& n.profiles == d.profiles
            &&& n.bursts == d.bursts
            &&& n.last_signal == d.last_signal
        }),
{
}

} // verus!
