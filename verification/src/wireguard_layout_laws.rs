//! Where each setting of a configuration stands in its binary form.

use crate::address::{IpAddr, SocketAddr};
use crate::wireguard_config::{
    be, from_le, le, lemma_le_zero, lemma_sockaddr_len, ConfigView, ParsedAllowedIp, PeerView,
    WireguardAllowedIp, AF_INET, AF_INET6,
};
use crate::wireguard_serializer::{
    allowed_ip_bytes, allowed_ips_bytes, config_bytes, count_field, endpoint_bytes, field,
    interface_bytes, interface_flags, lemma_allowed_ips_len, lemma_interface_layout, lemma_peer_at,
    lemma_peer_layout, lemma_peers_prefix, peer_bytes, peer_flags, peer_stats,
    peer_writable, peers_bytes, stats_at, stats_from, writable,
};
use vstd::arithmetic::power::pow;
use vstd::prelude::*;

verus! {

// ---------------------------------------------------------------------------
// Numbers in bytes
// ---------------------------------------------------------------------------

/// The number in two bytes, the least significant first.
pub open spec fn short_at(b: Seq<u8>, off: int) -> int {
    b[off] + 0x100 * b[off + 1]
}

/// The number in four bytes, the least significant first.
pub open spec fn word_at(b: Seq<u8>, off: int) -> int {
    short_at(b, off) + 0x1_0000 * short_at(b, off + 2)
}

/// The number in eight bytes, the least significant first.
pub open spec fn long_at(b: Seq<u8>, off: int) -> int {
    word_at(b, off) + 0x1_0000_0000 * word_at(b, off + 4)
}

/// The number in some bytes, the most significant first.
pub open spec fn network_number(b: Seq<u8>) -> int
    decreases b.len(),
{
    if b.len() == 0 {
        0
    } else {
        0x100 * network_number(b.drop_last()) + b.last()
    }
}

/// Whether some bytes are all zero.
pub open spec fn blank(b: Seq<u8>, off: int, n: int) -> bool {
    forall|i: int| off <= i < off + n ==> #[trigger] b[i] == 0
}

// ---------------------------------------------------------------------------
// Records
// ---------------------------------------------------------------------------

/// Whether the bytes at a place give a socket address: the family (2 or 23) and
/// the scope with the least significant byte first, the port and the address with
/// the most significant byte first.
pub open spec fn gives_endpoint(b: Seq<u8>, off: int, endpoint: Option<SocketAddr>) -> bool {
    match endpoint {
        None => blank(b, off, 28),
        Some(SocketAddr::V4(a)) => {
            &&& short_at(b, off) == 2
            &&& network_number(b.subrange(off + 2, off + 4)) == a.port
            &&& network_number(b.subrange(off + 4, off + 8)) == a.ip.bits
            &&& blank(b, off + 8, 20)
        },
        Some(SocketAddr::V6(a)) => {
            &&& short_at(b, off) == 23
            &&& network_number(b.subrange(off + 2, off + 4)) == a.port
            &&& word_at(b, off + 4) == a.flowinfo
            &&& network_number(b.subrange(off + 8, off + 24)) == a.ip.bits
            &&& word_at(b, off + 24) == a.scope_id
        },
    }
}

/// Whether the 24 bytes at a place give an allowed range.
pub open spec fn gives_range(b: Seq<u8>, off: int, a: ParsedAllowedIp) -> bool {
    &&& match a.address {
        IpAddr::V4(ip) => {
            &&& network_number(b.subrange(off, off + 4)) == ip.bits
            &&& blank(b, off + 4, 12)
            &&& short_at(b, off + 16) == 2
        },
        IpAddr::V6(ip) => {
            &&& network_number(b.subrange(off, off + 16)) == ip.bits
            &&& short_at(b, off + 16) == 23
        },
    }
    &&& b[off + 18] == a.cidr
    &&& blank(b, off + 19, 5)
}

/// The bits of what a peer has: a public key 1, a preshared key 2, a keepalive 4,
/// an endpoint 8, and 32 for ranges that replace those before.
pub open spec fn peer_bits(p: PeerView) -> int {
    33 + (if p.preshared_key is Some {
        2int
    } else {
        0
    }) + (if p.persistent_keepalive is Some {
        4int
    } else {
        0
    }) + (if p.endpoint is Some {
        8int
    } else {
        0
    })
}

/// Whether the 136 bytes at a place give a peer, but for its allowed ranges, of
/// which they give the number.
pub open spec fn gives_peer(b: Seq<u8>, off: int, p: PeerView) -> bool {
    &&& word_at(b, off) == peer_bits(p)
    &&& blank(b, off + 4, 4)
    &&& b.subrange(off + 8, off + 40) == p.public_key
    &&& match p.preshared_key {
        Some(k) => b.subrange(off + 40, off + 72) == k,
        None => blank(b, off + 40, 32),
    }
    &&& short_at(b, off + 72) == match p.persistent_keepalive {
        Some(k) => k as int,
        None => 0,
    }
    &&& blank(b, off + 74, 2)
    &&& gives_endpoint(b, off + 76, p.endpoint)
    &&& blank(b, off + 104, 24)
    &&& word_at(b, off + 128) == p.allowed_ips.len()
    &&& blank(b, off + 132, 4)
}

/// Where the record of the peer at `i` begins: behind the 80 bytes of the
/// interface, and the 136 bytes of each peer before it with 24 for each of its
/// allowed ranges.
pub open spec fn peer_place(peers: Seq<PeerView>, i: int) -> int
    decreases i,
{
    if i <= 0 {
        80
    } else {
        peer_place(peers, i - 1) + 136 + 24 * peers[i - 1].allowed_ips.len()
    }
}

// ---------------------------------------------------------------------------
// Proofs on numbers
// ---------------------------------------------------------------------------

proof fn lemma_short(n: int)
    requires
        0 <= n < 0x1_0000,
    ensures
        le(n, 2).len() == 2,
        short_at(le(n, 2), 0) == n,
{
    reveal_with_fuel(le, 3);
}

proof fn lemma_word(n: int)
    requires
        0 <= n < 0x1_0000_0000,
    ensures
        le(n, 4).len() == 4,
        word_at(le(n, 4), 0) == n,
{
    reveal_with_fuel(le, 5);
    let s = le(n, 4);
    assert(s[0] == n % 256);
    assert(s[1] == n / 256 % 256);
    assert(s[2] == n / 256 / 256 % 256);
    assert(s[3] == n / 256 / 256 / 256 % 256);
}

proof fn lemma_network_number(n: int, k: nat)
    requires
        0 <= n < pow(256, k),
    ensures
        be(n, k).len() == k,
        network_number(be(n, k)) == n,
    decreases k,
{
    reveal(pow);
    if k > 0 {
        let j = (k - 1) as nat;
        assert(pow(256, k) == 256 * pow(256, j));
        lemma_network_number(n / 256, j);
        assert(be(n, k).drop_last() =~= be(n / 256, j));
    }
}

proof fn lemma_network_sizes()
    ensures
        pow(256, 2) == 0x1_0000,
        pow(256, 4) == 0x1_0000_0000,
        pow(256, 16) == 0x1_0000_0000_0000_0000_0000_0000_0000_0000,
{
    reveal_with_fuel(pow, 17);
}

/// What some bytes give, they give wherever they stand.
proof fn lemma_moved(whole: Seq<u8>, part: Seq<u8>, at: int)
    requires
        0 <= at,
        at + part.len() <= whole.len(),
        whole.subrange(at, at + part.len()) == part,
    ensures
        forall|i: int| 0 <= i < part.len() ==> #[trigger] whole[at + i] == part[i],
        forall|i: int| at <= i < at + part.len() ==> #[trigger] whole[i] == part[i - at],
        forall|i: int, j: int|
            0 <= i <= j <= part.len() ==> #[trigger] part.subrange(i, j) == whole.subrange(
                at + i,
                at + j,
            ),
{
    assert forall|i: int| 0 <= i < part.len() implies #[trigger] whole[at + i] == part[i] by {
        assert(whole.subrange(at, at + part.len())[i] == whole[at + i]);
    }
    assert forall|i: int| at <= i < at + part.len() implies #[trigger] whole[i] == part[i - at] by {
        assert(whole.subrange(at, at + part.len())[i - at] == whole[i]);
    }
    assert forall|i: int, j: int| 0 <= i <= j <= part.len() implies #[trigger] part.subrange(i, j)
        == whole.subrange(at + i, at + j) by {
        assert(part.subrange(i, j) =~= whole.subrange(at + i, at + j));
    }
}

proof fn lemma_blank_moved(whole: Seq<u8>, part: Seq<u8>, at: int, off: int, n: int)
    requires
        0 <= at,
        at + part.len() <= whole.len(),
        whole.subrange(at, at + part.len()) == part,
        0 <= off,
        off + n <= part.len(),
        blank(part, off, n),
    ensures
        blank(whole, at + off, n),
{
    lemma_moved(whole, part, at);
    assert forall|i: int| at + off <= i < at + off + n implies #[trigger] whole[i] == 0 by {
        assert(part[i - at] == 0);
    }
}

proof fn lemma_endpoint(endpoint: Option<SocketAddr>)
    ensures
        endpoint_bytes(endpoint).len() == 28,
        gives_endpoint(endpoint_bytes(endpoint), 0, endpoint),
{
    let b = endpoint_bytes(endpoint);
    lemma_network_sizes();
    match endpoint {
        None => {},
        Some(SocketAddr::V4(a)) => {
            lemma_sockaddr_len(SocketAddr::V4(a));
            lemma_short(AF_INET as int);
            lemma_network_number(a.port as int, 2);
            lemma_network_number(a.ip.bits as int, 4);
            assert(b.subrange(2, 4) =~= be(a.port as int, 2));
            assert(b.subrange(4, 8) =~= be(a.ip.bits as int, 4));
            assert(b[0] == le(AF_INET as int, 2)[0] && b[1] == le(AF_INET as int, 2)[1]);
        },
        Some(SocketAddr::V6(a)) => {
            lemma_sockaddr_len(SocketAddr::V6(a));
            lemma_short(AF_INET6 as int);
            lemma_network_number(a.port as int, 2);
            lemma_word(a.flowinfo as int);
            lemma_network_number(a.ip.bits as int, 16);
            lemma_word(a.scope_id as int);
            let f = le(AF_INET6 as int, 2);
            let w = le(a.flowinfo as int, 4);
            let s = le(a.scope_id as int, 4);
            assert(b.subrange(2, 4) =~= be(a.port as int, 2));
            assert(b.subrange(8, 24) =~= be(a.ip.bits as int, 16));
            assert(b[0] == f[0] && b[1] == f[1]);
            assert(b[4] == w[0] && b[5] == w[1] && b[6] == w[2] && b[7] == w[3]);
            assert(b[24] == s[0] && b[25] == s[1] && b[26] == s[2] && b[27] == s[3]);
        },
    }
}

proof fn lemma_endpoint_moved(whole: Seq<u8>, at: int, endpoint: Option<SocketAddr>)
    requires
        0 <= at,
        at + 28 <= whole.len(),
        whole.subrange(at, at + 28) == endpoint_bytes(endpoint),
    ensures
        gives_endpoint(whole, at, endpoint),
{
    let part = endpoint_bytes(endpoint);
    lemma_endpoint(endpoint);
    lemma_moved(whole, part, at);
    match endpoint {
        None => lemma_blank_moved(whole, part, at, 0, 28),
        Some(SocketAddr::V4(_)) => {
            lemma_blank_moved(whole, part, at, 8, 20);
            assert(part.subrange(2, 4) == whole.subrange(at + 2, at + 4));
            assert(part.subrange(4, 8) == whole.subrange(at + 4, at + 8));
        },
        Some(SocketAddr::V6(_)) => {
            assert(part.subrange(2, 4) == whole.subrange(at + 2, at + 4));
            assert(part.subrange(8, 24) == whole.subrange(at + 8, at + 24));
        },
    }
}

proof fn lemma_range_moved(whole: Seq<u8>, at: int, a: ParsedAllowedIp)
    requires
        0 <= at,
        at + 24 <= whole.len(),
        whole.subrange(at, at + 24) == allowed_ip_bytes(a),
    ensures
        gives_range(whole, at, a),
{
    let part = allowed_ip_bytes(a);
    (WireguardAllowedIp { address: a.address, cidr: a.cidr }).lemma_layout();
    lemma_network_sizes();
    lemma_short(AF_INET as int);
    lemma_short(AF_INET6 as int);
    lemma_moved(whole, part, at);
    match a.address {
        IpAddr::V4(ip) => {
            lemma_network_number(ip.bits as int, 4);
            assert(part.subrange(0, 4) =~= be(ip.bits as int, 4));
            assert(part.subrange(0, 4) == whole.subrange(at + 0, at + 4));
            assert(blank(part, 4, 12));
            lemma_blank_moved(whole, part, at, 4, 12);
        },
        IpAddr::V6(ip) => {
            lemma_network_number(ip.bits as int, 16);
            assert(part.subrange(0, 16) =~= be(ip.bits as int, 16));
            assert(part.subrange(0, 16) == whole.subrange(at + 0, at + 16));
        },
    }
    let f = part.subrange(16, 18);
    assert(part[16] == f[0] && part[17] == f[1]);
    assert(blank(part, 19, 5));
    lemma_blank_moved(whole, part, at, 19, 5);
}

proof fn lemma_peer_record(whole: Seq<u8>, at: int, p: PeerView)
    requires
        peer_writable(p),
        0 <= at,
        at + 136 <= whole.len(),
        whole.subrange(at, at + 136) == peer_bytes(p),
    ensures
        gives_peer(whole, at, p),
{
    let b = peer_bytes(p);
    let flags = le(peer_flags(p), 4);
    let alive: int = match p.persistent_keepalive {
        Some(k) => k as int,
        None => 0,
    };
    let count = le(count_field(p.allowed_ips.len()), 4);
    lemma_peer_layout(p);
    lemma_word(peer_flags(p));
    lemma_short(alive);
    lemma_word(p.allowed_ips.len() as int);
    lemma_le_zero(4);
    lemma_le_zero(8);
    lemma_endpoint(p.endpoint);
    lemma_moved(whole, b, at);
    assert(b[0] == flags[0] && b[1] == flags[1] && b[2] == flags[2] && b[3] == flags[3]);
    assert(b[72] == le(alive, 2)[0] && b[73] == le(alive, 2)[1]);
    assert(b[128] == count[0] && b[129] == count[1] && b[130] == count[2] && b[131] == count[3]);
    assert(b.subrange(8, 40) =~= p.public_key);
    assert(b.subrange(8, 40) == whole.subrange(at + 8, at + 40));
    match p.preshared_key {
        Some(k) => {
            assert(b.subrange(40, 72) =~= k);
            assert(b.subrange(40, 72) == whole.subrange(at + 40, at + 72));
        },
        None => {
            assert(blank(b, 40, 32));
            lemma_blank_moved(whole, b, at, 40, 32);
        },
    }
    assert(b.subrange(76, 104) =~= endpoint_bytes(p.endpoint));
    assert(b.subrange(76, 104) == whole.subrange(at + 76, at + 104));
    lemma_endpoint_moved(whole, at + 76, p.endpoint);
    assert(blank(b, 4, 4));
    assert(blank(b, 74, 2));
    assert(blank(b, 104, 24));
    assert(blank(b, 132, 4));
    lemma_blank_moved(whole, b, at, 4, 4);
    lemma_blank_moved(whole, b, at, 74, 2);
    lemma_blank_moved(whole, b, at, 104, 24);
    lemma_blank_moved(whole, b, at, 132, 4);
}

proof fn lemma_peer_place(peers: Seq<PeerView>, i: int)
    requires
        0 <= i <= peers.len(),
        forall|j: int| 0 <= j < peers.len() ==> peer_writable(#[trigger] peers[j]),
    ensures
        peer_place(peers, i) == 80 + peers_bytes(peers.take(i)).len(),
    decreases i,
{
    let part = peers.take(i);
    if i > 0 {
        lemma_peer_place(peers, i - 1);
        assert(part.drop_last() =~= peers.take(i - 1));
        assert(part.last() == peers[i - 1]);
        lemma_peer_layout(peers[i - 1]);
        lemma_allowed_ips_len(peers[i - 1].allowed_ips);
    } else {
        assert(part =~= Seq::<PeerView>::empty());
    }
}

/// Where the record of the allowed range at `j` stands among those of a peer.
proof fn lemma_range_at(list: Seq<ParsedAllowedIp>, j: int)
    requires
        0 <= j < list.len(),
    ensures
        24 * j + 24 <= allowed_ips_bytes(list).len(),
        allowed_ips_bytes(list).subrange(24 * j, 24 * j + 24) == allowed_ip_bytes(list[j]),
    decreases list.len(),
{
    let rest = list.drop_last();
    let last = list.last();
    lemma_allowed_ips_len(list);
    lemma_allowed_ips_len(rest);
    (WireguardAllowedIp { address: last.address, cidr: last.cidr }).lemma_layout();
    if j < rest.len() {
        lemma_range_at(rest, j);
        assert(allowed_ips_bytes(list).subrange(24 * j, 24 * j + 24) =~= allowed_ips_bytes(
            rest,
        ).subrange(24 * j, 24 * j + 24));
    } else {
        assert(allowed_ips_bytes(list).subrange(24 * j, 24 * j + 24) =~= allowed_ip_bytes(last));
    }
}

/// Where the allowed ranges of the peer at `i` stand in the whole.
proof fn lemma_ranges_at(c: ConfigView, i: int)
    requires
        writable(c),
        0 <= i < c.peers.len(),
    ensures
        ({
            let off = 80 + peers_bytes(c.peers.take(i)).len() as int + 136;
            let ranges = allowed_ips_bytes(c.peers[i].allowed_ips);
            &&& off + ranges.len() <= config_bytes(c).len()
            &&& config_bytes(c).subrange(off, off + ranges.len()) == ranges
        }),
{
    let blob = config_bytes(c);
    let before = peers_bytes(c.peers.take(i));
    let p = c.peers[i];
    let ranges = allowed_ips_bytes(p.allowed_ips);
    let all = peers_bytes(c.peers);
    let off = 80 + before.len() as int + 136;
    lemma_interface_layout(c);
    lemma_peer_layout(p);
    assert(c.peers.take(i + 1).drop_last() =~= c.peers.take(i));
    assert(c.peers.take(i + 1).last() == p);
    lemma_peers_prefix(c.peers, i + 1);
    let upto = peers_bytes(c.peers.take(i + 1));
    assert(upto == before + peer_bytes(p) + ranges);
    assert forall|j: int| 0 <= j < ranges.len() implies blob[off + j] == #[trigger] ranges[j] by {
        let m = before.len() + 136 + j;
        assert(all.take(upto.len() as int)[m] == all[m]);
        assert(upto[m] == ranges[j]);
    }
    assert(blob.subrange(off, off + ranges.len()) =~= ranges);
}

// ---------------------------------------------------------------------------
// Laws
// ---------------------------------------------------------------------------

/// The interface can be read off the binary form. It begins with the bits of what
/// it has (a private key 2, a listen port 4, and 8 for peers that replace those
/// before), the listen port and the private key; the number of peers follows, and
/// all else is zero.
pub proof fn law_interface_is_written(c: ConfigView)
    requires
        writable(c),
    ensures
        ({
            let b = config_bytes(c);
            &&& b.len() >= 80
            &&& word_at(b, 0) == 10 + if c.listen_port is Some {
                4int
            } else {
                0
            }
            &&& short_at(b, 4) == match c.listen_port {
                Some(p) => p as int,
                None => 0,
            }
            &&& b.subrange(6, 38) == c.private_key
            &&& blank(b, 38, 34)
            &&& word_at(b, 72) == c.peers.len()
            &&& blank(b, 76, 4)
        }),
{
    let b = config_bytes(c);
    let i = interface_bytes(c);
    let flags = le(interface_flags(c), 4);
    let port: int = match c.listen_port {
        Some(p) => p as int,
        None => 0,
    };
    let count = le(count_field(c.peers.len()), 4);
    lemma_interface_layout(c);
    lemma_word(interface_flags(c));
    lemma_short(port);
    lemma_word(c.peers.len() as int);
    assert(b.subrange(0, 80) =~= i);
    lemma_moved(b, i, 0);
    assert(i[0] == flags[0] && i[1] == flags[1] && i[2] == flags[2] && i[3] == flags[3]);
    assert(i[4] == le(port, 2)[0] && i[5] == le(port, 2)[1]);
    assert(i[72] == count[0] && i[73] == count[1] && i[74] == count[2] && i[75] == count[3]);
    assert(i.subrange(6, 38) =~= c.private_key);
    assert(i.subrange(6, 38) == b.subrange(6, 38));
    assert(blank(i, 38, 34));
    assert(blank(i, 76, 4));
    lemma_blank_moved(b, i, 0, 38, 34);
    lemma_blank_moved(b, i, 0, 76, 4);
}

proof fn lemma_range_written(c: ConfigView, i: int, j: int)
    requires
        writable(c),
        0 <= i < c.peers.len(),
        0 <= j < c.peers[i].allowed_ips.len(),
    ensures
        gives_range(
            config_bytes(c),
            peer_place(c.peers, i) + 136 + 24 * j,
            c.peers[i].allowed_ips[j],
        ),
{
    let b = config_bytes(c);
    let list = c.peers[i].allowed_ips;
    let off = peer_place(c.peers, i) + 136;
    lemma_peer_place(c.peers, i);
    lemma_ranges_at(c, i);
    lemma_range_at(list, j);
    lemma_allowed_ips_len(list);
    let ranges = allowed_ips_bytes(list);
    lemma_moved(b, ranges, off);
    assert(ranges.subrange(24 * j, 24 * j + 24) == b.subrange(off + 24 * j, off + (24 * j + 24)));
    lemma_range_moved(b, off + 24 * j, list[j]);
}

/// Every peer can be read off the binary form, at its place: its keys, its
/// keepalive, its endpoint, and behind its record its allowed ranges one by one.
/// Nothing follows the last of them.
pub proof fn law_peers_are_written(c: ConfigView)
    requires
        writable(c),
    ensures
        config_bytes(c).len() == peer_place(c.peers, c.peers.len() as int),
        forall|i: int|
            0 <= i < c.peers.len() ==> gives_peer(
                config_bytes(c),
                peer_place(c.peers, i),
                #[trigger] c.peers[i],
            ),
        forall|i: int, j: int|
            0 <= i < c.peers.len() && 0 <= j < c.peers[i].allowed_ips.len() ==> gives_range(
                config_bytes(c),
                peer_place(c.peers, i) + 136 + 24 * j,
                #[trigger] c.peers[i].allowed_ips[j],
            ),
{
    let b = config_bytes(c);
    lemma_interface_layout(c);
    lemma_peer_place(c.peers, c.peers.len() as int);
    assert(c.peers.take(c.peers.len() as int) =~= c.peers);
    assert forall|i: int| 0 <= i < c.peers.len() implies gives_peer(
        b,
        peer_place(c.peers, i),
        #[trigger] c.peers[i],
    ) by {
        lemma_peer_place(c.peers, i);
        lemma_peer_at(c, i);
        lemma_peer_record(b, peer_place(c.peers, i), c.peers[i]);
    }
    assert forall|i: int, j: int|
        0 <= i < c.peers.len() && 0 <= j < c.peers[i].allowed_ips.len() implies gives_range(
        b,
        peer_place(c.peers, i) + 136 + 24 * j,
        #[trigger] c.peers[i].allowed_ips[j],
    ) by {
        lemma_range_written(c, i, j);
    }
}

// ---------------------------------------------------------------------------
// Counters
// ---------------------------------------------------------------------------

/// Where the record of the peer at `i` begins in a blob, by the counts of allowed
/// ranges that stand in the records before it.
pub open spec fn reported_place(b: Seq<u8>, i: int) -> int
    decreases i,
{
    if i <= 0 {
        80
    } else {
        reported_place(b, i - 1) + 136 + 24 * word_at(b, reported_place(b, i - 1) + 128)
    }
}

/// Whether the peer record at a place gives some counters: the bytes sent, the
/// bytes received, and the last handshake in Unix seconds, which is 0 for none. In
/// the record it is a count of 100 ns from the year 1601 on.
pub open spec fn gives_counters(b: Seq<u8>, at: int, counters: (u64, u64, u64)) -> bool {
    let time = long_at(b, at + 120);
    &&& at + 136 <= b.len()
    &&& counters.0 == long_at(b, at + 104)
    &&& counters.1 == long_at(b, at + 112)
    &&& counters.2 == if time <= 116_444_736_000_000_000 {
        0
    } else {
        (time - 116_444_736_000_000_000) / 10_000_000
    }
}

proof fn lemma_field_word(b: Seq<u8>, off: int)
    requires
        0 <= off,
        off + 4 <= b.len(),
    ensures
        field(b, off, 4) == word_at(b, off),
        0 <= field(b, off, 4) < 0x1_0000_0000,
{
    reveal_with_fuel(from_le, 5);
    let s = b.subrange(off, off + 4);
    let t = s.drop_first();
    let u = t.drop_first();
    let v = u.drop_first();
    assert(v.drop_first().len() == 0);
    assert(s[0] == b[off] && t[0] == b[off + 1] && u[0] == b[off + 2] && v[0] == b[off + 3]);
}

proof fn lemma_field_long(b: Seq<u8>, off: int)
    requires
        0 <= off,
        off + 8 <= b.len(),
    ensures
        field(b, off, 8) == long_at(b, off),
        0 <= field(b, off, 8) <= u64::MAX,
{
    reveal_with_fuel(from_le, 9);
    let s0 = b.subrange(off, off + 8);
    let s1 = s0.drop_first();
    let s2 = s1.drop_first();
    let s3 = s2.drop_first();
    let s4 = s3.drop_first();
    let s5 = s4.drop_first();
    let s6 = s5.drop_first();
    let s7 = s6.drop_first();
    assert(s7.drop_first().len() == 0);
    assert(s0[0] == b[off] && s1[0] == b[off + 1] && s2[0] == b[off + 2] && s3[0] == b[off + 3]);
    assert(s4[0] == b[off + 4] && s5[0] == b[off + 5] && s6[0] == b[off + 6] && s7[0] == b[off
        + 7]);
}

proof fn lemma_place_grows(b: Seq<u8>, i: int)
    ensures
        reported_place(b, i) >= 80,
    decreases i,
{
    if i > 0 {
        lemma_place_grows(b, i - 1);
    }
}

proof fn lemma_counters(b: Seq<u8>, off: int)
    requires
        0 <= off,
        off + 136 <= b.len(),
    ensures
        gives_counters(b, off, stats_at(b, off)),
{
    lemma_field_long(b, off + 104);
    lemma_field_long(b, off + 112);
    lemma_field_long(b, off + 120);
}

proof fn lemma_stats(b: Seq<u8>, i: int, count: int)
    requires
        0 <= i,
        0 <= count,
    ensures
        ({
            let r = stats_from(b, reported_place(b, i), count);
            &&& r.len() <= count
            &&& r.len() < count ==> b.len() < reported_place(b, i + r.len()) + 136
            &&& forall|k: int|
                0 <= k < r.len() ==> gives_counters(b, reported_place(b, i + k), #[trigger] r[k])
        }),
    decreases count,
{
    let off = reported_place(b, i);
    lemma_place_grows(b, i);
    if count > 0 && off + 136 <= b.len() {
        lemma_field_word(b, off + 128);
        lemma_counters(b, off);
        lemma_stats(b, i + 1, count - 1);
        let r = stats_from(b, off, count);
        let rest = stats_from(b, reported_place(b, i + 1), count - 1);
        assert(reported_place(b, i + 1) == off + 136 + 24 * word_at(b, off + 128));
        assert(r == seq![stats_at(b, off)] + rest);
        assert((i + 1) + rest.len() == i + r.len());
        assert forall|k: int| 0 <= k < r.len() implies gives_counters(
            b,
            reported_place(b, i + k),
            #[trigger] r[k],
        ) by {
            if k > 0 {
                assert(r[k] == rest[k - 1]);
                assert((i + 1) + (k - 1) == i + k);
            }
        }
    }
}

/// The counters that a blob reports, for each peer in turn. All peers are reported
/// that the blob claims and has room for.
pub proof fn law_counters_are_read(b: Seq<u8>)
    ensures
        b.len() < 80 ==> peer_stats(b).len() == 0,
        b.len() >= 80 ==> peer_stats(b).len() <= word_at(b, 72),
        b.len() >= 80 && peer_stats(b).len() < word_at(b, 72) ==> b.len() < reported_place(
            b,
            peer_stats(b).len() as int,
        ) + 136,
        forall|k: int|
            0 <= k < peer_stats(b).len() ==> gives_counters(
                b,
                reported_place(b, k),
                #[trigger] peer_stats(b)[k],
            ),
{
    if b.len() >= 80 {
        lemma_field_word(b, 72);
        lemma_stats(b, 0, field(b, 72, 4));
        let r = peer_stats(b);
        assert(r == stats_from(b, reported_place(b, 0), field(b, 72, 4)));
        assert(0 + r.len() == r.len());
        assert forall|k: int| 0 <= k < r.len() implies gives_counters(
            b,
            reported_place(b, k),
            #[trigger] r[k],
        ) by {
            assert(0 + k == k);
        }
    }
}

} // verus!
