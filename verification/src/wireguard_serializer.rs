//! The binary form of a configuration, as the tunnel driver takes it.

use crate::address::SocketAddr;
use crate::text::{decimal, hex_padded, push_decimal, push_hex};
use crate::wireguard_config::{
    from_le, le, lemma_le_len, lemma_le_reads_back, lemma_le_zero, lemma_sockaddr_len, push_zeros,
    sockaddr_bytes, socket_addr_to_sockaddr_inet, zeros, ConfigView, ParsedAllowedIp, ParsedConfig,
    ParsedPeer, PeerView, WireguardAllowedIp, WireguardInterface, WireguardPeer, ALLOWED_IP_SIZE,
    INTERFACE_SIZE, PEER_SIZE, WIREGUARD_INTERFACE_HAS_LISTEN_PORT,
    WIREGUARD_INTERFACE_HAS_PRIVATE_KEY, WIREGUARD_INTERFACE_REPLACE_PEERS,
    WIREGUARD_PEER_HAS_ENDPOINT, WIREGUARD_PEER_HAS_PERSISTENT_KEEPALIVE,
    WIREGUARD_PEER_HAS_PRESHARED_KEY, WIREGUARD_PEER_HAS_PUBLIC_KEY,
    WIREGUARD_PEER_REPLACE_ALLOWED_IPS,
};
use vstd::prelude::*;
use vstd::slice::slice_subrange;

verus! {

/// What a count leaves in a field of four bytes.
pub open spec fn count_field(n: nat) -> int {
    n as int % 0x1_0000_0000
}

fn count_of(n: usize) -> (r: u32)
    ensures
        r == count_field(n as nat),
{
    (n as u64 % 0x1_0000_0000) as u32
}

// ---------------------------------------------------------------------------
// Layout
// ---------------------------------------------------------------------------

/// The flags of the interface record.
pub open spec fn interface_flags(c: ConfigView) -> int {
    WIREGUARD_INTERFACE_HAS_PRIVATE_KEY + WIREGUARD_INTERFACE_REPLACE_PEERS + if c.listen_port is Some {
        WIREGUARD_INTERFACE_HAS_LISTEN_PORT as int
    } else {
        0
    }
}

/// The interface record of a configuration. The driver works out the public key
/// by itself.
pub open spec fn interface_bytes(c: ConfigView) -> Seq<u8> {
    le(interface_flags(c), 4) + le(
        match c.listen_port {
            Some(p) => p as int,
            None => 0,
        },
        2,
    ) + c.private_key + zeros(32) + zeros(2) + le(count_field(c.peers.len()), 4) + zeros(4)
}

/// The flags of a peer record.
pub open spec fn peer_flags(p: PeerView) -> int {
    WIREGUARD_PEER_HAS_PUBLIC_KEY + WIREGUARD_PEER_REPLACE_ALLOWED_IPS + (
    if p.preshared_key is Some {
        WIREGUARD_PEER_HAS_PRESHARED_KEY as int
    } else {
        0
    }) + (if p.persistent_keepalive is Some {
        WIREGUARD_PEER_HAS_PERSISTENT_KEEPALIVE as int
    } else {
        0
    }) + (if p.endpoint is Some {
        WIREGUARD_PEER_HAS_ENDPOINT as int
    } else {
        0
    })
}

/// The endpoint field of a peer record.
pub open spec fn endpoint_bytes(endpoint: Option<SocketAddr>) -> Seq<u8> {
    match endpoint {
        Some(a) => sockaddr_bytes(a),
        None => zeros(28),
    }
}

/// A peer record. The counters and the time of the last handshake are zero.
pub open spec fn peer_bytes(p: PeerView) -> Seq<u8> {
    le(peer_flags(p), 4) + le(0, 4) + p.public_key + (match p.preshared_key {
        Some(k) => k,
        None => zeros(32),
    }) + le(
        match p.persistent_keepalive {
            Some(k) => k as int,
            None => 0,
        },
        2,
    ) + zeros(2) + endpoint_bytes(p.endpoint) + le(0, 8) + le(0, 8) + le(0, 8) + le(
        count_field(p.allowed_ips.len()),
        4,
    ) + zeros(4)
}

/// An allowed-address record.
pub open spec fn allowed_ip_bytes(a: ParsedAllowedIp) -> Seq<u8> {
    (WireguardAllowedIp { address: a.address, cidr: a.cidr }).bytes()
}

/// The records of a list of allowed addresses.
pub open spec fn allowed_ips_bytes(list: Seq<ParsedAllowedIp>) -> Seq<u8>
    decreases list.len(),
{
    if list.len() == 0 {
        seq![]
    } else {
        allowed_ips_bytes(list.drop_last()) + allowed_ip_bytes(list.last())
    }
}

/// The records of a list of peers, each followed by its allowed addresses.
pub open spec fn peers_bytes(list: Seq<PeerView>) -> Seq<u8>
    decreases list.len(),
{
    if list.len() == 0 {
        seq![]
    } else {
        peers_bytes(list.drop_last()) + peer_bytes(list.last()) + allowed_ips_bytes(
            list.last().allowed_ips,
        )
    }
}

/// The binary form of a configuration.
pub open spec fn config_bytes(c: ConfigView) -> Seq<u8> {
    interface_bytes(c) + peers_bytes(c.peers)
}

fn write_allowed_ips(list: &Vec<ParsedAllowedIp>, out: &mut Vec<u8>)
    ensures
        final(out)@ == old(out)@ + allowed_ips_bytes(list@),
{
    let mut i: usize = 0;
    assert(list@.take(0) =~= Seq::<ParsedAllowedIp>::empty());
    assert(out@ =~= old(out)@ + allowed_ips_bytes(list@.take(0)));
    while i < list.len()
        invariant
            i <= list@.len(),
            out@ == old(out)@ + allowed_ips_bytes(list@.take(i as int)),
        decreases list@.len() - i,
    {
        let record = WireguardAllowedIp { address: list[i].address, cidr: list[i].cidr };
        record.write(out);
        assert(list@.take(i as int + 1).drop_last() =~= list@.take(i as int));
        assert(list@.take(i as int + 1).last() == list@[i as int]);
        assert(out@ =~= old(out)@ + allowed_ips_bytes(list@.take(i as int + 1)));
        i = i + 1;
    }
    assert(list@.take(i as int) =~= list@);
}

fn write_peer(peer: &ParsedPeer, out: &mut Vec<u8>)
    ensures
        final(out)@ == old(out)@ + peer_bytes(peer@),
{
    let mut flags: u32 = WIREGUARD_PEER_HAS_PUBLIC_KEY + WIREGUARD_PEER_REPLACE_ALLOWED_IPS;
    if peer.preshared_key.is_some() {
        flags = flags + WIREGUARD_PEER_HAS_PRESHARED_KEY;
    }
    if peer.persistent_keepalive.is_some() {
        flags = flags + WIREGUARD_PEER_HAS_PERSISTENT_KEEPALIVE;
    }
    if peer.endpoint.is_some() {
        flags = flags + WIREGUARD_PEER_HAS_ENDPOINT;
    }
    let endpoint = match &peer.endpoint {
        Some(a) => socket_addr_to_sockaddr_inet(a),
        None => {
            let mut empty: Vec<u8> = Vec::new();
            push_zeros(&mut empty, 28);
            assert(empty@ =~= zeros(28));
            empty
        },
    };
    let no_key: [u8; 32] = [0u8; 32];
    assert(no_key@ =~= zeros(32));
    let record = WireguardPeer {
        flags,
        reserved: 0,
        public_key: peer.public_key,
        preshared_key: match peer.preshared_key {
            Some(k) => k,
            None => no_key,
        },
        persistent_keepalive: match peer.persistent_keepalive {
            Some(k) => k,
            None => 0,
        },
        endpoint,
        tx_bytes: 0,
        rx_bytes: 0,
        last_handshake: 0,
        allowed_ips_count: count_of(peer.allowed_ips.len()),
    };
    assert(record.bytes() =~= peer_bytes(peer@));
    record.write(out);
}

/// The binary form of a configuration: the interface, then each peer with its
/// allowed addresses.
pub fn serialize_config(config: &ParsedConfig) -> (r: Result<Vec<u8>, String>)
    ensures
        r matches Ok(blob) && blob@ == config_bytes(config@),
{
    let ghost c = config@;
    let mut blob: Vec<u8> = Vec::new();
    let mut flags: u32 = WIREGUARD_INTERFACE_HAS_PRIVATE_KEY + WIREGUARD_INTERFACE_REPLACE_PEERS;
    if config.listen_port.is_some() {
        flags = flags + WIREGUARD_INTERFACE_HAS_LISTEN_PORT;
    }
    let public_key: [u8; 32] = [0u8; 32];
    assert(public_key@ =~= zeros(32));
    let interface = WireguardInterface {
        flags,
        listen_port: match config.listen_port {
            Some(p) => p,
            None => 0,
        },
        private_key: config.private_key,
        public_key,
        peers_count: count_of(config.peers.len()),
    };
    interface.write(&mut blob);
    assert(blob@ =~= interface_bytes(c));
    let mut i: usize = 0;
    assert(c.peers.take(0) =~= Seq::<PeerView>::empty());
    assert(blob@ =~= interface_bytes(c) + peers_bytes(c.peers.take(0)));
    while i < config.peers.len()
        invariant
            i <= config.peers@.len(),
            c == config@,
            c.peers.len() == config.peers@.len(),
            blob@ == interface_bytes(c) + peers_bytes(c.peers.take(i as int)),
        decreases config.peers@.len() - i,
    {
        write_peer(&config.peers[i], &mut blob);
        write_allowed_ips(&config.peers[i].allowed_ips, &mut blob);
        assert(c.peers.take(i as int + 1).drop_last() =~= c.peers.take(i as int));
        assert(c.peers.take(i as int + 1).last() == config.peers@[i as int]@);
        assert(blob@ =~= interface_bytes(c) + peers_bytes(c.peers.take(i as int + 1)));
        i = i + 1;
    }
    assert(c.peers.take(i as int) =~= c.peers);
    Ok(blob)
}

// ---------------------------------------------------------------------------
// Reading back
// ---------------------------------------------------------------------------

/// The tick count of the Unix epoch: 100 ns steps from 1601 to 1970.
pub const EPOCH_DIFF: u64 = 116_444_736_000_000_000;

/// Unix seconds of a Windows file time; zero stands for no time.
pub open spec fn unix_seconds(ft: int) -> int {
    if ft <= EPOCH_DIFF {
        0
    } else {
        (ft - EPOCH_DIFF) / 10_000_000
    }
}

/// Unix seconds of a Windows file time; zero stands for no time.
pub fn filetime_to_unix(ft: u64) -> (r: u64)
    ensures
        r == unix_seconds(ft as int),
{
    if ft <= EPOCH_DIFF {
        return 0;
    }
    (ft - EPOCH_DIFF) / 10_000_000
}

/// The number in `k` bytes of a blob at `off`.
pub open spec fn field(blob: Seq<u8>, off: int, k: int) -> int {
    from_le(blob.subrange(off, off + k))
}

/// The counters of the peer record at `off`: sent, received, and the Unix time
/// of the last handshake.
pub open spec fn stats_at(blob: Seq<u8>, off: int) -> (u64, u64, u64) {
    (
        field(blob, off + 104, 8) as u64,
        field(blob, off + 112, 8) as u64,
        unix_seconds(field(blob, off + 120, 8)) as u64,
    )
}

/// The counters of up to `count` peer records from `off` on, as far as the blob
/// reaches.
pub open spec fn stats_from(blob: Seq<u8>, off: int, count: int) -> Seq<(u64, u64, u64)>
    decreases count,
{
    if count <= 0 || off + PEER_SIZE > blob.len() {
        seq![]
    } else {
        seq![stats_at(blob, off)] + stats_from(
            blob,
            off + PEER_SIZE + field(blob, off + 128, 4) * ALLOWED_IP_SIZE,
            count - 1,
        )
    }
}

/// The counters of all peers that a blob reports.
pub open spec fn peer_stats(blob: Seq<u8>) -> Seq<(u64, u64, u64)> {
    if blob.len() < INTERFACE_SIZE {
        seq![]
    } else {
        stats_from(blob, INTERFACE_SIZE as int, field(blob, 72, 4))
    }
}

fn read_le(blob: &[u8], off: usize, k: usize) -> (r: u64)
    requires
        k <= 8,
        off + k <= blob@.len(),
    ensures
        r == field(blob@, off as int, k as int),
        k == 4 ==> r < 0x1_0000_0000,
{
    let ghost s = blob@.subrange(off as int, off as int + k as int);
    let total: usize = blob.len();
    let mut acc: u64 = 0;
    let mut i: usize = k;
    assert(s.skip(k as int).len() == 0);
    while i > 0
        invariant
            i <= k <= 8,
            off + k <= total == blob@.len(),
            s == blob@.subrange(off as int, off as int + k as int),
            acc == from_le(s.skip(i as int)),
            i == k ==> acc == 0,
            i == k - 1 ==> acc < 0x100,
            i == k - 2 ==> acc < 0x1_0000,
            i == k - 3 ==> acc < 0x100_0000,
            i == k - 4 ==> acc < 0x1_0000_0000,
            i == k - 5 ==> acc < 0x100_0000_0000,
            i == k - 6 ==> acc < 0x1_0000_0000_0000,
            i == k - 7 ==> acc < 0x100_0000_0000_0000,
        decreases i,
    {
        i = i - 1;
        assert(s.skip(i as int).drop_first() =~= s.skip(i as int + 1));
        assert(s.skip(i as int)[0] == blob@[off + i]);
        acc = acc * 256 + blob[off + i] as u64;
    }
    assert(s.skip(0) =~= s);
    acc
}

/// The counters of all peers that a blob of the driver reports: sent, received,
/// and the Unix time of the last handshake.
pub fn read_peer_stats(blob: &[u8]) -> (r: Vec<(u64, u64, u64)>)
    ensures
        r@ == peer_stats(blob@),
{
    let mut result: Vec<(u64, u64, u64)> = Vec::new();
    if blob.len() < INTERFACE_SIZE {
        assert(result@ =~= Seq::<(u64, u64, u64)>::empty());
        return result;
    }
    let count: u64 = read_le(blob, 72, 4);
    let mut left: u64 = count;
    let mut off: usize = INTERFACE_SIZE;
    assert(result@ + stats_from(blob@, off as int, left as int) =~= peer_stats(blob@));
    while left > 0 && blob.len() - off >= PEER_SIZE
        invariant
            off <= blob@.len(),
            result@ + stats_from(blob@, off as int, left as int) == peer_stats(blob@),
        decreases left,
    {
        let entry = (
            read_le(blob, off + 104, 8),
            read_le(blob, off + 112, 8),
            filetime_to_unix(read_le(blob, off + 120, 8)),
        );
        let allowed: u64 = read_le(blob, off + 128, 4);
        let next: u128 = off as u128 + PEER_SIZE as u128 + allowed as u128
            * ALLOWED_IP_SIZE as u128;
        let ghost rest = stats_from(blob@, next as int, left - 1);
        assert(stats_from(blob@, off as int, left as int) == seq![entry] + rest);
        assert((result@ + (seq![entry] + rest)) =~= result@.push(entry) + rest);
        result.push(entry);
        left = left - 1;
        if next > blob.len() as u128 {
            assert(rest =~= Seq::<(u64, u64, u64)>::empty());
            assert(result@ + rest =~= result@);
            return result;
        }
        off = next as usize;
    }
    assert(stats_from(blob@, off as int, left as int) =~= Seq::<(u64, u64, u64)>::empty());
    assert(result@ + stats_from(blob@, off as int, left as int) =~= result@);
    result
}

// ---------------------------------------------------------------------------
// Dump
// ---------------------------------------------------------------------------

/// One place of a dump line: two digits, or blanks where the line is short. A
/// wider gap parts the two halves.
pub open spec fn dump_cell(chunk: Seq<u8>, j: int) -> Seq<char> {
    (if j < chunk.len() {
        hex_padded(chunk[j] as nat, 2) + " "@
    } else {
        "   "@
    }) + (if j == 7 {
        " "@
    } else {
        ""@
    })
}

/// The first `k` places of a dump line.
pub open spec fn dump_cells(chunk: Seq<u8>, k: int) -> Seq<char>
    decreases k,
{
    if k <= 0 {
        seq![]
    } else {
        dump_cells(chunk, k - 1) + dump_cell(chunk, k - 1)
    }
}

/// The character of a byte: itself where it can be shown, else a dot.
pub open spec fn dump_char(b: u8) -> char {
    if 0x20 <= b <= 0x7e {
        b as char
    } else {
        '.'
    }
}

/// A line of a dump: the offset, sixteen places, the characters.
pub open spec fn dump_line(off: int, chunk: Seq<u8>) -> Seq<char> {
    hex_padded(off as nat, 8) + "  "@ + dump_cells(chunk, 16) + " |"@ + Seq::new(
        chunk.len(),
        |i: int| dump_char(chunk[i]),
    ) + "|\n"@
}

/// The sixteen bytes from `off` on, or as many as there are.
pub open spec fn dump_chunk(data: Seq<u8>, off: int) -> Seq<u8> {
    data.subrange(
        off,
        if off + 16 <= data.len() {
            off + 16
        } else {
            data.len() as int
        },
    )
}

/// The dump lines from `off` on.
pub open spec fn dump_lines(data: Seq<u8>, off: int) -> Seq<char>
    decreases
            if off < data.len() {
                data.len() - off
            } else {
                0
            },
{
    if off >= data.len() {
        seq![]
    } else {
        dump_line(off, dump_chunk(data, off)) + dump_lines(data, off + 16)
    }
}

/// The dump of at most `max_bytes` bytes, and how many were left out.
pub open spec fn dump_text(data: Seq<u8>, max_bytes: int) -> Seq<char> {
    if data.len() > max_bytes {
        dump_lines(data.take(max_bytes), 0) + ("... ("@ + decimal((data.len() - max_bytes) as nat)
            + " more bytes)\n"@)
    } else {
        dump_lines(data, 0)
    }
}

fn push_cell(out: &mut String, chunk: &[u8], j: usize)
    ensures
        final(out)@ == old(out)@ + dump_cell(chunk@, j as int),
{
    if j < chunk.len() {
        push_hex(out, chunk[j] as u64, 2);
        out.append(" ");
    } else {
        out.append("   ");
    }
    if j == 7 {
        out.append(" ");
    } else {
        out.append("");
    }
    assert(out@ =~= old(out)@ + dump_cell(chunk@, j as int));
}

fn push_dump_line(out: &mut String, off: usize, chunk: &[u8])
    ensures
        final(out)@ == old(out)@ + dump_line(off as int, chunk@),
{
    push_hex(out, off as u64, 8);
    out.append("  ");
    let ghost head = out@;
    let mut j: usize = 0;
    assert(out@ =~= head + dump_cells(chunk@, 0));
    while j < 16
        invariant
            j <= 16,
            out@ == head + dump_cells(chunk@, j as int),
        decreases 16 - j,
    {
        push_cell(out, chunk, j);
        assert(out@ =~= head + dump_cells(chunk@, j as int + 1));
        j = j + 1;
    }
    out.append(" |");
    let ghost body = out@;
    let mut i: usize = 0;
    let ghost shown = Seq::new(chunk@.len(), |i: int| dump_char(chunk@[i]));
    assert(out@ =~= body + shown.take(0));
    while i < chunk.len()
        invariant
            i <= chunk@.len(),
            shown == Seq::new(chunk@.len(), |i: int| dump_char(chunk@[i])),
            out@ == body + shown.take(i as int),
        decreases chunk@.len() - i,
    {
        let b: u8 = chunk[i];
        if 0x20 <= b && b <= 0x7e {
            out.push(b as char);
        } else {
            out.push('.');
        }
        assert(out@ =~= body + shown.take(i as int + 1));
        i = i + 1;
    }
    assert(shown.take(i as int) =~= shown);
    out.append("|\n");
    assert(out@ =~= old(out)@ + dump_line(off as int, chunk@));
}

/// The dump of at most `max_bytes` bytes, and how many were left out.
pub fn hexdump(data: &[u8], max_bytes: usize) -> (r: String)
    ensures
        r@ == dump_text(data@, max_bytes as int),
{
    let mut out = String::new();
    let len: usize = if data.len() < max_bytes {
        data.len()
    } else {
        max_bytes
    };
    let shown = slice_subrange(data, 0, len);
    assert(shown@ =~= data@.take(len as int));
    let mut off: usize = 0;
    assert(out@ + dump_lines(shown@, 0) =~= dump_lines(shown@, 0));
    while off < len
        invariant
            off <= len == shown@.len(),
            out@ + dump_lines(shown@, off as int) == dump_lines(shown@, 0),
        decreases len - off,
    {
        let end: usize = if len - off >= 16 {
            off + 16
        } else {
            len
        };
        let chunk = slice_subrange(shown, off, end);
        let ghost before = out@;
        push_dump_line(&mut out, off, chunk);
        assert(dump_lines(shown@, end as int) =~= dump_lines(shown@, off as int + 16));
        assert(out@ + dump_lines(shown@, end as int) =~= before + (dump_line(off as int, chunk@)
            + dump_lines(shown@, off as int + 16)));
        off = end;
    }
    assert(out@ + dump_lines(shown@, off as int) =~= out@);
    if data.len() > max_bytes {
        let mut more = "... (".to_string();
        push_decimal(&mut more, (data.len() - max_bytes) as u64);
        more.append(" more bytes)\n");
        out.append(more.as_str());
    } else {
        assert(data@.take(len as int) =~= data@);
    }
    out
}

// ---------------------------------------------------------------------------
// Laws
// ---------------------------------------------------------------------------

/// Whether the keys of a configuration are whole and its counts fit their
/// fields.
pub open spec fn writable(c: ConfigView) -> bool {
    &&& c.private_key.len() == 32
    &&& c.peers.len() < 0x1_0000_0000
    &&& forall|i: int| 0 <= i < c.peers.len() ==> peer_writable(#[trigger] c.peers[i])
}

/// Whether the keys of a peer are whole and its count fits its field.
pub open spec fn peer_writable(p: PeerView) -> bool {
    &&& p.public_key.len() == 32
    &&& p.preshared_key is Some ==> (p.preshared_key->0).len() == 32
    &&& p.allowed_ips.len() < 0x1_0000_0000
}

/// The interface record takes its size, and holds the number of peers.
pub proof fn lemma_interface_layout(c: ConfigView)
    requires
        writable(c),
    ensures
        interface_bytes(c).len() == INTERFACE_SIZE,
        field(interface_bytes(c), 72, 4) == c.peers.len(),
{
    let b = interface_bytes(c);
    lemma_le_len(interface_flags(c), 4);
    lemma_le_len(
        match c.listen_port {
            Some(p) => p as int,
            None => 0,
        },
        2,
    );
    lemma_le_len(count_field(c.peers.len()), 4);
    assert(b.subrange(72, 76) =~= le(count_field(c.peers.len()), 4));
    lemma_le_reads_back(c.peers.len() as int);
}

/// A peer record takes its size, and holds its counters and the number of its
/// allowed addresses.
pub proof fn lemma_peer_layout(p: PeerView)
    requires
        peer_writable(p),
    ensures
        peer_bytes(p).len() == PEER_SIZE,
        field(peer_bytes(p), 104, 8) == 0,
        field(peer_bytes(p), 112, 8) == 0,
        field(peer_bytes(p), 120, 8) == 0,
        field(peer_bytes(p), 128, 4) == p.allowed_ips.len(),
{
    let b = peer_bytes(p);
    lemma_le_len(peer_flags(p), 4);
    lemma_le_len(0, 4);
    lemma_le_len(
        match p.persistent_keepalive {
            Some(k) => k as int,
            None => 0,
        },
        2,
    );
    match p.endpoint {
        Some(a) => lemma_sockaddr_len(a),
        None => {},
    }
    lemma_le_len(0, 8);
    lemma_le_len(count_field(p.allowed_ips.len()), 4);
    lemma_le_zero(8);
    assert(b.subrange(104, 112) =~= zeros(8));
    assert(b.subrange(112, 120) =~= zeros(8));
    assert(b.subrange(120, 128) =~= zeros(8));
    assert(b.subrange(128, 132) =~= le(count_field(p.allowed_ips.len()), 4));
    lemma_le_reads_back(p.allowed_ips.len() as int);
}

/// How many bytes a list of allowed addresses takes.
pub proof fn lemma_allowed_ips_len(list: Seq<ParsedAllowedIp>)
    ensures
        allowed_ips_bytes(list).len() == list.len() * ALLOWED_IP_SIZE,
    decreases list.len(),
{
    if list.len() > 0 {
        lemma_allowed_ips_len(list.drop_last());
        let a = list.last();
        (WireguardAllowedIp { address: a.address, cidr: a.cidr }).lemma_layout();
    }
}

/// The records of the first peers come first.
pub proof fn lemma_peers_prefix(list: Seq<PeerView>, k: int)
    requires
        0 <= k <= list.len(),
    ensures
        peers_bytes(list.take(k)).len() <= peers_bytes(list).len(),
        peers_bytes(list).take(peers_bytes(list.take(k)).len() as int) == peers_bytes(list.take(k)),
    decreases list.len(),
{
    if k == list.len() {
        assert(list.take(k) =~= list);
        assert(peers_bytes(list).take(peers_bytes(list).len() as int) =~= peers_bytes(list));
    } else {
        lemma_peers_prefix(list.drop_last(), k);
        assert(list.drop_last().take(k) =~= list.take(k));
        let n = peers_bytes(list.take(k)).len() as int;
        assert(peers_bytes(list).take(n) =~= peers_bytes(list.drop_last()).take(n));
    }
}

/// Where a field of a part stands in the whole.
proof fn lemma_field_within(whole: Seq<u8>, part: Seq<u8>, at: int, off: int, k: int)
    requires
        0 <= at,
        at + part.len() <= whole.len(),
        whole.subrange(at, at + part.len()) == part,
        0 <= off,
        0 <= k,
        off + k <= part.len(),
    ensures
        field(whole, at + off, k) == field(part, off, k),
{
    assert(whole.subrange(at + off, at + off + k) =~= part.subrange(off, off + k));
}

/// Where the record of the peer at `i` stands, and where the next one begins.
pub proof fn lemma_peer_at(c: ConfigView, i: int)
    requires
        writable(c),
        0 <= i < c.peers.len(),
    ensures
        ({
            let off = INTERFACE_SIZE + peers_bytes(c.peers.take(i)).len();
            &&& off + PEER_SIZE <= config_bytes(c).len()
            &&& config_bytes(c).subrange(off, off + PEER_SIZE) == peer_bytes(c.peers[i])
            &&& INTERFACE_SIZE + peers_bytes(c.peers.take(i + 1)).len() == off + PEER_SIZE
                + c.peers[i].allowed_ips.len() * ALLOWED_IP_SIZE
        }),
{
    let blob = config_bytes(c);
    let before = peers_bytes(c.peers.take(i));
    let off = INTERFACE_SIZE + before.len();
    let p = c.peers[i];
    let b = peer_bytes(p);
    let after = allowed_ips_bytes(p.allowed_ips);
    let all = peers_bytes(c.peers);
    lemma_interface_layout(c);
    lemma_peer_layout(p);
    lemma_allowed_ips_len(p.allowed_ips);
    assert(c.peers.take(i + 1).drop_last() =~= c.peers.take(i));
    assert(c.peers.take(i + 1).last() == p);
    lemma_peers_prefix(c.peers, i + 1);
    let upto = peers_bytes(c.peers.take(i + 1));
    assert(upto == before + b + after);
    assert(all.take(upto.len() as int) == upto);
    assert forall|j: int| 0 <= j < PEER_SIZE implies blob[off + j] == #[trigger] b[j] by {
        let m = before.len() + j;
        assert(all.take(upto.len() as int)[m] == all[m]);
        assert(upto[m] == b[j]);
    }
    assert(blob.subrange(off, off + PEER_SIZE) =~= b);
}

proof fn lemma_stats_read_back(c: ConfigView, i: int)
    requires
        writable(c),
        0 <= i <= c.peers.len(),
    ensures
        stats_from(
            config_bytes(c),
            INTERFACE_SIZE + peers_bytes(c.peers.take(i)).len(),
            c.peers.len() - i,
        ) == Seq::new((c.peers.len() - i) as nat, |j: int| (0u64, 0u64, 0u64)),
    decreases c.peers.len() - i,
{
    let n = (c.peers.len() - i) as nat;
    let none = (0u64, 0u64, 0u64);
    if i < c.peers.len() {
        let blob = config_bytes(c);
        let off = INTERFACE_SIZE + peers_bytes(c.peers.take(i)).len();
        let b = peer_bytes(c.peers[i]);
        lemma_peer_layout(c.peers[i]);
        lemma_peer_at(c, i);
        lemma_field_within(blob, b, off, 104, 8);
        lemma_field_within(blob, b, off, 112, 8);
        lemma_field_within(blob, b, off, 120, 8);
        lemma_field_within(blob, b, off, 128, 4);
        lemma_stats_read_back(c, i + 1);
        assert(stats_at(blob, off) == none);
        assert(seq![none] + Seq::new((n - 1) as nat, |j: int| (0u64, 0u64, 0u64)) =~= Seq::new(
            n,
            |j: int| (0u64, 0u64, 0u64),
        ));
    } else {
        assert(Seq::new(0nat, |j: int| (0u64, 0u64, 0u64)) =~= Seq::<(u64, u64, u64)>::empty());
    }
}

/// What is read back of a written configuration: one entry of zeros for every
/// peer, since nothing has been sent, received or agreed yet.
pub proof fn law_stats_of_written_config(c: ConfigView)
    requires
        writable(c),
    ensures
        peer_stats(config_bytes(c)) == Seq::new(c.peers.len(), |j: int| (0u64, 0u64, 0u64)),
{
    lemma_interface_layout(c);
    lemma_stats_read_back(c, 0);
    assert(c.peers.take(0) =~= Seq::<PeerView>::empty());
    let blob = config_bytes(c);
    assert(blob.subrange(0, 80) =~= interface_bytes(c));
    lemma_field_within(blob, interface_bytes(c), 0, 72, 4);
}

proof fn lemma_peers_len(list: Seq<PeerView>)
    requires
        forall|i: int| 0 <= i < list.len() ==> peer_writable(#[trigger] list[i]),
    ensures
        peers_bytes(list).len() == peers_size(list),
    decreases list.len(),
{
    if list.len() > 0 {
        lemma_peers_len(list.drop_last());
        lemma_peer_layout(list.last());
        lemma_allowed_ips_len(list.last().allowed_ips);
    }
}

/// How many bytes the records of a list of peers take.
pub open spec fn peers_size(list: Seq<PeerView>) -> int
    decreases list.len(),
{
    if list.len() == 0 {
        0
    } else {
        peers_size(list.drop_last()) + PEER_SIZE + list.last().allowed_ips.len() * ALLOWED_IP_SIZE
    }
}

/// The binary form takes 80 bytes for the interface, 136 for each peer and 24
/// for each allowed address.
pub proof fn law_written_size(c: ConfigView)
    requires
        writable(c),
    ensures
        config_bytes(c).len() == INTERFACE_SIZE + peers_size(c.peers),
{
    lemma_interface_layout(c);
    lemma_peers_len(c.peers);
}

} // verus!
