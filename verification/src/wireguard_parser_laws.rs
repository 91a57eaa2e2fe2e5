//! What the lines of a configuration text bring about.

use crate::text::{lines, pieces, split_once, trimmed};
use crate::wireguard_parser::{
    allowed_ips_of, close_peer, config_text, read_line, read_lines, AnswerView, ReadingView,
};
use vstd::prelude::*;

verus! {

/// Whether a key is one that some part of a configuration has.
pub open spec fn known_key(key: Seq<char>) -> bool {
    ||| key == "PrivateKey"@
    ||| key == "ListenPort"@
    ||| key == "Address"@
    ||| key == "DNS"@
    ||| key == "PublicKey"@
    ||| key == "PresharedKey"@
    ||| key == "Endpoint"@
    ||| key == "PersistentKeepalive"@
    ||| key == "AllowedIPs"@
}

/// Whether a line says nothing: a blank one, a comment, or a setting with a key
/// that no part has.
pub open spec fn idle_line(raw: Seq<char>) -> bool {
    let line = trimmed(raw);
    ||| line.len() == 0
    ||| line[0] == '#'
    ||| line[0] == ';'
    ||| {
        &&& !(line[0] == '[' && line.last() == ']')
        &&& split_once(line, '=') matches Some((k, v)) && !known_key(trimmed(k))
    }
}

/// The lines that say something, in their order.
pub open spec fn telling(list: Seq<Seq<char>>) -> Seq<Seq<char>>
    decreases list.len(),
{
    if list.len() == 0 {
        seq![]
    } else if idle_line(list.last()) {
        telling(list.drop_last())
    } else {
        telling(list.drop_last()).push(list.last())
    }
}

/// The good result of a step, if it is one.
pub open spec fn good<T, E>(r: Result<T, E>) -> Option<T> {
    match r {
        Ok(v) => Some(v),
        Err(_) => None,
    }
}

proof fn lemma_ranges_by_text(p: Seq<Seq<char>>, n: int, m: int)
    ensures
        good(allowed_ips_of(p, n)) == good(allowed_ips_of(p, m)),
    decreases p.len(),
{
    if p.len() > 0 {
        lemma_ranges_by_text(p.drop_last(), n, m);
    }
}

/// The number of a line matters to messages alone.
proof fn lemma_number_is_for_words(
    st: ReadingView,
    n: int,
    m: int,
    raw: Seq<char>,
    answers: Seq<AnswerView>,
)
    ensures
        good(read_line(st, n, raw, answers)) == good(read_line(st, m, raw, answers)),
{
    if let Some((_, v)) = split_once(trimmed(raw), '=') {
        lemma_ranges_by_text(pieces(trimmed(v), ','), n, m);
    }
}

proof fn lemma_telling_lines(list: Seq<Seq<char>>, answers: Seq<AnswerView>)
    ensures
        good(read_lines(list, answers)) == good(read_lines(telling(list), answers)),
    decreases list.len(),
{
    if list.len() > 0 {
        let rest = list.drop_last();
        let raw = list.last();
        lemma_telling_lines(rest, answers);
        if !idle_line(raw) {
            let told = telling(list);
            assert(told.drop_last() =~= telling(rest));
            if let Ok(st) = read_lines(rest, answers) {
                lemma_number_is_for_words(
                    st,
                    list.len() as int,
                    told.len() as int,
                    raw,
                    answers,
                );
            }
        }
    }
}

/// A configuration rests on the lines that say something: two texts with the same
/// such lines, in the same order, are both read or both not, and give the same
/// configuration. So blank lines, comments and settings with unknown keys change
/// nothing, wherever they stand.
pub proof fn law_idle_lines_change_nothing(
    a: Seq<char>,
    b: Seq<char>,
    answers: Seq<AnswerView>,
)
    requires
        telling(lines(a)) == telling(lines(b)),
    ensures
        config_text(a, answers) is Ok <==> config_text(b, answers) is Ok,
        config_text(a, answers) is Ok ==> config_text(a, answers) == config_text(b, answers),
{
    lemma_telling_lines(lines(a), answers);
    lemma_telling_lines(lines(b), answers);
}

/// A line that says nothing can be put in anywhere: the lines that say something
/// stay the same.
pub proof fn law_idle_line_can_be_put_in(list: Seq<Seq<char>>, i: int, raw: Seq<char>)
    requires
        0 <= i <= list.len(),
        idle_line(raw),
    ensures
        telling(list.insert(i, raw)) == telling(list),
    decreases list.len() - i,
{
    let longer = list.insert(i, raw);
    if i == list.len() {
        assert(longer.drop_last() =~= list);
        assert(longer.last() == raw);
    } else {
        assert(longer.last() == list.last());
        assert(longer.drop_last() =~= list.drop_last().insert(i, raw));
        law_idle_line_can_be_put_in(list.drop_last(), i, raw);
    }
}

/// Whether a line opens the part of a peer.
pub open spec fn opens_peer(raw: Seq<char>) -> bool {
    trimmed(raw) == "[Peer]"@
}

/// How many lines open the part of a peer.
pub open spec fn peer_heads(list: Seq<Seq<char>>) -> nat
    decreases list.len(),
{
    if list.len() == 0 {
        0
    } else {
        peer_heads(list.drop_last()) + if opens_peer(list.last()) {
            1nat
        } else {
            0
        }
    }
}

/// How many peers have been read, the one whose part is open among them.
pub open spec fn begun(st: ReadingView) -> nat {
    st.peers.len() + if st.section is Peer {
        1nat
    } else {
        0
    }
}

proof fn lemma_line_begins_peer(
    st: ReadingView,
    n: int,
    raw: Seq<char>,
    answers: Seq<AnswerView>,
)
    ensures
        read_line(st, n, raw, answers) matches Ok(next) ==> {
            &&& begun(next) == begun(st) + if opens_peer(raw) {
                1nat
            } else {
                0
            }
            &&& st.peers.len() <= next.peers.len()
            &&& next.peers.take(st.peers.len() as int) == st.peers
            &&& opens_peer(raw) ==> good(close_peer(st, n - 1)) is Some && next.peers == good(
                close_peer(st, n - 1),
            )->0.peers
        },
{
    reveal_strlit("[Peer]");
    reveal_strlit("[Interface]");
    let line = trimmed(raw);
    if opens_peer(raw) {
        assert(line.len() == 6 && line[0] == '[' && line.last() == ']');
    }
    if line == "[Interface]"@ {
        assert(line.len() == 11);
    }
    if let Ok(next) = read_line(st, n, raw, answers) {
        assert(next.peers.take(st.peers.len() as int) =~= st.peers);
    }
}

/// As many peers have been read or begun as parts of peers were opened.
pub proof fn lemma_peers_begun(list: Seq<Seq<char>>, answers: Seq<AnswerView>)
    ensures
        read_lines(list, answers) matches Ok(st) ==> begun(st) == peer_heads(list),
    decreases list.len(),
{
    if list.len() > 0 {
        lemma_peers_begun(list.drop_last(), answers);
        if let Ok(st) = read_lines(list.drop_last(), answers) {
            lemma_line_begins_peer(st, list.len() as int, list.last(), answers);
        }
    }
}

/// The peers that the first lines gave stay, in their places.
pub proof fn lemma_peers_stay(list: Seq<Seq<char>>, answers: Seq<AnswerView>, i: int)
    requires
        0 <= i <= list.len(),
        read_lines(list, answers) is Ok,
    ensures
        read_lines(list.take(i), answers) matches Ok(st) && {
            let end = read_lines(list, answers)->Ok_0;
            st.peers.len() <= end.peers.len() && end.peers.take(st.peers.len() as int) == st.peers
        },
    decreases list.len() - i,
{
    if i == list.len() {
        assert(list.take(i) =~= list);
        let end = read_lines(list, answers)->Ok_0;
        assert(end.peers.take(end.peers.len() as int) =~= end.peers);
    } else {
        let rest = list.drop_last();
        lemma_peers_stay(rest, answers, i);
        assert(rest.take(i) =~= list.take(i));
        let mid = read_lines(rest, answers)->Ok_0;
        lemma_line_begins_peer(mid, list.len() as int, list.last(), answers);
        let st = read_lines(list.take(i), answers)->Ok_0;
        let end = read_lines(list, answers)->Ok_0;
        assert(end.peers.take(st.peers.len() as int) =~= mid.peers.take(st.peers.len() as int)) by {
            assert(end.peers.take(mid.peers.len() as int) == mid.peers);
            assert forall|j: int| 0 <= j < mid.peers.len() implies end.peers[j] == mid.peers[j] by {
                assert(end.peers.take(mid.peers.len() as int)[j] == mid.peers[j]);
            }
        }
    }
}

/// A configuration has as many peers as its text has lines that open the part of
/// a peer, the last one among them.
pub proof fn law_one_peer_per_part(text: Seq<char>, answers: Seq<AnswerView>)
    ensures
        config_text(text, answers) matches Ok(c) ==> c.peers.len() == peer_heads(lines(text)),
{
    lemma_peers_begun(lines(text), answers);
}

/// The peers stand in the order of their parts: at a line that opens the part of a
/// peer, the lines above have given the peers in front of it, one for each part.
pub proof fn law_peers_in_text_order(text: Seq<char>, answers: Seq<AnswerView>, i: int)
    requires
        config_text(text, answers) is Ok,
        0 <= i < lines(text).len(),
        opens_peer(lines(text)[i]),
    ensures
        ({
            let above = lines(text).take(i);
            let c = config_text(text, answers)->Ok_0;
            &&& read_lines(above, answers) is Ok
            &&& close_peer(read_lines(above, answers)->Ok_0, i) is Ok
            &&& peer_heads(above) < c.peers.len()
            &&& c.peers.take(peer_heads(above) as int) == close_peer(
                read_lines(above, answers)->Ok_0,
                i,
            )->Ok_0.peers
        }),
{
    let list = lines(text);
    let above = list.take(i);
    let through = list.take(i + 1);
    let c = config_text(text, answers)->Ok_0;
    let end = read_lines(list, answers)->Ok_0;
    assert(through.drop_last() =~= above);
    assert(through.last() == list[i]);
    lemma_peers_stay(list, answers, i);
    lemma_peers_stay(list, answers, i + 1);
    lemma_peers_begun(above, answers);
    lemma_peers_begun(through, answers);
    lemma_peers_begun(list, answers);
    let st = read_lines(above, answers)->Ok_0;
    lemma_line_begins_peer(st, i + 1, list[i], answers);
    let now = read_lines(through, answers)->Ok_0;
    lemma_heads_grow(list, i + 1);
    let n = peer_heads(above) as int;
    assert(now.peers.len() == n);
    assert forall|j: int| 0 <= j < n implies c.peers[j] == now.peers[j] by {
        assert(end.peers.take(n)[j] == now.peers[j]);
    }
    assert(c.peers.take(n) =~= now.peers);
}

proof fn lemma_heads_grow(list: Seq<Seq<char>>, i: int)
    requires
        0 <= i <= list.len(),
    ensures
        peer_heads(list.take(i)) <= peer_heads(list),
    decreases list.len() - i,
{
    if i == list.len() {
        assert(list.take(i) =~= list);
    } else {
        assert(list.drop_last().take(i) =~= list.take(i));
        lemma_heads_grow(list.drop_last(), i);
    }
}

} // verus!
