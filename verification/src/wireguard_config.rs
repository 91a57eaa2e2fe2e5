//! The tunnel configuration: its parsed form and its native byte layout.

use crate::address::{IpAddr, SocketAddr};
use crate::text::{opt_text, texts};
use vstd::prelude::*;

verus! {

/// The length of a WireGuard key in bytes.
pub const WIREGUARD_KEY_LENGTH: usize = 32;

pub type WireguardInterfaceFlag = u32;

pub const WIREGUARD_INTERFACE_HAS_PRIVATE_KEY: u32 = 2;

pub const WIREGUARD_INTERFACE_HAS_LISTEN_PORT: u32 = 4;

pub const WIREGUARD_INTERFACE_REPLACE_PEERS: u32 = 8;

pub type WireguardPeerFlag = u32;

pub const WIREGUARD_PEER_HAS_PUBLIC_KEY: u32 = 1;

pub const WIREGUARD_PEER_HAS_PRESHARED_KEY: u32 = 2;

pub const WIREGUARD_PEER_HAS_PERSISTENT_KEEPALIVE: u32 = 4;

pub const WIREGUARD_PEER_HAS_ENDPOINT: u32 = 8;

pub const WIREGUARD_PEER_REPLACE_ALLOWED_IPS: u32 = 32;

pub type WireguardAllowedIpFlag = u32;

pub const _WIREGUARD_ALLOWED_IP_REMOVE: u32 = 1;

/// The number of the IPv4 address family.
pub const AF_INET: u16 = 2;

/// The number of the IPv6 address family.
pub const AF_INET6: u16 = 23;

/// The size of a native interface record.
pub const INTERFACE_SIZE: usize = 80;

/// The size of a native peer record.
pub const PEER_SIZE: usize = 136;

/// The size of a native allowed-address record.
pub const ALLOWED_IP_SIZE: usize = 24;

// ---------------------------------------------------------------------------
// Parsed form
// ---------------------------------------------------------------------------

/// A tunnel configuration.
#[derive(Debug, Clone)]
pub struct ParsedConfig {
    pub private_key: [u8; 32],
    pub listen_port: Option<u16>,
    pub interface_address: Option<IpAddr>,
    pub interface_prefix: Option<u8>,
    pub dns_servers: Vec<String>,
    pub peers: Vec<ParsedPeer>,
}

/// A peer of a tunnel.
#[derive(Debug, Clone)]
pub struct ParsedPeer {
    pub public_key: [u8; 32],
    pub preshared_key: Option<[u8; 32]>,
    pub endpoint: Option<SocketAddr>,
    pub endpoint_hostname: Option<String>,
    pub persistent_keepalive: Option<u16>,
    pub allowed_ips: Vec<ParsedAllowedIp>,
}

/// A range of addresses that a peer may use.
#[derive(Debug, Clone, Copy, PartialEq, Eq, Structural)]
pub struct ParsedAllowedIp {
    pub address: IpAddr,
    pub cidr: u8,
}

/// What a peer holds.
#[verifier::ext_equal]
pub struct PeerView {
    pub public_key: Seq<u8>,
    pub preshared_key: Option<Seq<u8>>,
    pub endpoint: Option<SocketAddr>,
    pub endpoint_hostname: Option<Seq<char>>,
    pub persistent_keepalive: Option<u16>,
    pub allowed_ips: Seq<ParsedAllowedIp>,
}

/// What a configuration holds.
#[verifier::ext_equal]
pub struct ConfigView {
    pub private_key: Seq<u8>,
    pub listen_port: Option<u16>,
    pub interface_address: Option<IpAddr>,
    pub interface_prefix: Option<u8>,
    pub dns_servers: Seq<Seq<char>>,
    pub peers: Seq<PeerView>,
}

/// The bytes of an optional key.
pub open spec fn opt_key(key: Option<[u8; 32]>) -> Option<Seq<u8>> {
    match key {
        Some(k) => Some(k@),
        None => None,
    }
}

impl View for ParsedPeer {
    type V = PeerView;

    open spec fn view(&self) -> PeerView {
        PeerView {
            public_key: self.public_key@,
            preshared_key: opt_key(self.preshared_key),
            endpoint: self.endpoint,
            endpoint_hostname: opt_text(self.endpoint_hostname),
            persistent_keepalive: self.persistent_keepalive,
            allowed_ips: self.allowed_ips@,
        }
    }
}

/// What a list of peers holds.
pub open spec fn peer_views(peers: Seq<ParsedPeer>) -> Seq<PeerView> {
    Seq::new(peers.len(), |i: int| peers[i]@)
}

/// What a list of peers holds once one more is added.
pub proof fn lemma_peer_views_push(peers: Seq<ParsedPeer>, p: ParsedPeer)
    ensures
        peer_views(peers.push(p)) == peer_views(peers).push(p@),
{
    assert(peer_views(peers.push(p)) =~= peer_views(peers).push(p@));
}

impl View for ParsedConfig {
    type V = ConfigView;

    open spec fn view(&self) -> ConfigView {
        ConfigView {
            private_key: self.private_key@,
            listen_port: self.listen_port,
            interface_address: self.interface_address,
            interface_prefix: self.interface_prefix,
            dns_servers: texts(self.dns_servers@),
            peers: peer_views(self.peers@),
        }
    }
}

/// Whether two keys are the same.
pub fn same_key(a: &[u8; 32], b: &[u8; 32]) -> (r: bool)
    ensures
        r == (a@ == b@),
{
    let mut i: usize = 0;
    while i < 32
        invariant
            i <= 32,
            forall|j: int| 0 <= j < i ==> a@[j] == b@[j],
        decreases 32 - i,
    {
        if a[i] != b[i] {
            return false;
        }
        i = i + 1;
    }
    assert(a@ =~= b@);
    true
}

/// Whether a key consists of zeros.
pub open spec fn zero_key(key: Seq<u8>) -> bool {
    forall|i: int| 0 <= i < key.len() ==> key[i] == 0
}

/// Whether a key consists of zeros.
pub fn is_zero_key(key: &[u8; 32]) -> (r: bool)
    ensures
        r == zero_key(key@),
{
    let mut i: usize = 0;
    while i < 32
        invariant
            i <= 32,
            forall|j: int| 0 <= j < i ==> key@[j] == 0,
        decreases 32 - i,
    {
        if key[i] != 0 {
            return false;
        }
        i = i + 1;
    }
    true
}

// ---------------------------------------------------------------------------
// Native layout
// ---------------------------------------------------------------------------

/// A number in `k` bytes, the least significant first.
pub open spec fn le(n: int, k: nat) -> Seq<u8>
    decreases k,
{
    if k == 0 {
        seq![]
    } else {
        seq![(n % 256) as u8] + le(n / 256, (k - 1) as nat)
    }
}

/// A number in `k` bytes, the most significant first.
pub open spec fn be(n: int, k: nat) -> Seq<u8>
    decreases k,
{
    if k == 0 {
        seq![]
    } else {
        be(n / 256, (k - 1) as nat).push((n % 256) as u8)
    }
}

/// The number that bytes hold, the least significant first.
pub open spec fn from_le(s: Seq<u8>) -> int
    decreases s.len(),
{
    if s.len() == 0 {
        0
    } else {
        s[0] + 256 * from_le(s.drop_first())
    }
}

/// `k` bytes of zero.
pub open spec fn zeros(k: nat) -> Seq<u8> {
    Seq::new(k, |i: int| 0u8)
}

/// A number takes as many bytes as asked for.
pub proof fn lemma_le_len(n: int, k: nat)
    ensures
        le(n, k).len() == k,
        be(n, k).len() == k,
    decreases k,
{
    if k > 0 {
        lemma_le_len(n / 256, (k - 1) as nat);
    }
}

/// What fits in four bytes is read back from them.
pub proof fn lemma_le_reads_back(n: int)
    requires
        0 <= n < 0x1_0000_0000,
    ensures
        from_le(le(n, 4)) == n,
{
    reveal_with_fuel(le, 5);
    reveal_with_fuel(from_le, 5);
    let s = le(n, 4);
    assert(s.len() == 4);
    assert(s[0] == n % 256);
    assert(s[1] == n / 256 % 256);
    assert(s[2] == n / 256 / 256 % 256);
    assert(s[3] == n / 256 / 256 / 256 % 256);
    let t = s.drop_first();
    let u = t.drop_first();
    let v = u.drop_first();
    assert(v.drop_first().len() == 0);
}

/// Bytes of zero are the number zero.
pub proof fn lemma_le_zero(k: nat)
    ensures
        from_le(zeros(k)) == 0,
        le(0, k) == zeros(k),
    decreases k,
{
    if k > 0 {
        lemma_le_zero((k - 1) as nat);
        assert(zeros(k).drop_first() =~= zeros((k - 1) as nat));
        assert(le(0, k) =~= zeros(k));
    } else {
        assert(le(0, k) =~= zeros(k));
    }
}

/// Appends a number in `k` bytes, the least significant first.
pub fn push_le(out: &mut Vec<u8>, n: u64, k: usize)
    ensures
        final(out)@ == old(out)@ + le(n as int, k as nat),
    decreases k,
{
    if k > 0 {
        out.push((n % 256) as u8);
        push_le(out, n / 256, k - 1);
    }
    assert(out@ =~= old(out)@ + le(n as int, k as nat));
}

/// Appends a number in `k` bytes, the most significant first.
pub fn push_be(out: &mut Vec<u8>, n: u128, k: usize)
    ensures
        final(out)@ == old(out)@ + be(n as int, k as nat),
    decreases k,
{
    if k > 0 {
        push_be(out, n / 256, k - 1);
        out.push((n % 256) as u8);
    }
    assert(out@ =~= old(out)@ + be(n as int, k as nat));
}

/// Appends `k` bytes of zero.
pub fn push_zeros(out: &mut Vec<u8>, k: usize)
    ensures
        final(out)@ == old(out)@ + zeros(k as nat),
{
    let mut i: usize = 0;
    assert(out@ =~= old(out)@ + zeros(0));
    while i < k
        invariant
            i <= k,
            out@ == old(out)@ + zeros(i as nat),
        decreases k - i,
    {
        out.push(0);
        assert(out@ =~= old(out)@ + zeros((i + 1) as nat));
        i = i + 1;
    }
}

/// Appends some bytes.
pub fn push_all(out: &mut Vec<u8>, bytes: &[u8])
    ensures
        final(out)@ == old(out)@ + bytes@,
{
    let mut i: usize = 0;
    assert(out@ =~= old(out)@ + bytes@.take(0));
    while i < bytes.len()
        invariant
            i <= bytes@.len(),
            out@ == old(out)@ + bytes@.take(i as int),
        decreases bytes@.len() - i,
    {
        out.push(bytes[i]);
        assert(out@ =~= old(out)@ + bytes@.take(i as int + 1));
        i = i + 1;
    }
    assert(bytes@.take(i as int) =~= bytes@);
}

/// The bytes of an address in network order, filled up to sixteen.
pub open spec fn ip_bytes(ip: IpAddr) -> Seq<u8> {
    match ip {
        IpAddr::V4(a) => be(a.bits as int, 4) + zeros(12),
        IpAddr::V6(a) => be(a.bits as int, 16),
    }
}

/// The number of an address family.
pub open spec fn family(ip: IpAddr) -> u16 {
    match ip {
        IpAddr::V4(_) => AF_INET,
        IpAddr::V6(_) => AF_INET6,
    }
}

/// The native form of a socket address: the family and the scope in native
/// order, the port and the address in network order.
pub open spec fn sockaddr_bytes(addr: SocketAddr) -> Seq<u8> {
    match addr {
        SocketAddr::V4(a) => le(AF_INET as int, 2) + be(a.port as int, 2) + be(
            a.ip.bits as int,
            4,
        ) + zeros(20),
        SocketAddr::V6(a) => le(AF_INET6 as int, 2) + be(a.port as int, 2) + le(
            a.flowinfo as int,
            4,
        ) + be(a.ip.bits as int, 16) + le(a.scope_id as int, 4),
    }
}

/// The native form of a socket address takes 28 bytes.
pub proof fn lemma_sockaddr_len(addr: SocketAddr)
    ensures
        sockaddr_bytes(addr).len() == 28,
{
    match addr {
        SocketAddr::V4(a) => {
            lemma_le_len(AF_INET as int, 2);
            lemma_le_len(a.port as int, 2);
            lemma_le_len(a.ip.bits as int, 4);
        },
        SocketAddr::V6(a) => {
            lemma_le_len(AF_INET6 as int, 2);
            lemma_le_len(a.port as int, 2);
            lemma_le_len(a.flowinfo as int, 4);
            lemma_le_len(a.ip.bits as int, 16);
            lemma_le_len(a.scope_id as int, 4);
        },
    }
}

/// The native form of a socket address.
pub fn socket_addr_to_sockaddr_inet(addr: &SocketAddr) -> (r: Vec<u8>)
    ensures
        r@ == sockaddr_bytes(*addr),
        r@.len() == 28,
{
    let mut out: Vec<u8> = Vec::new();
    match addr {
        SocketAddr::V4(a) => {
            push_le(&mut out, AF_INET as u64, 2);
            push_be(&mut out, a.port as u128, 2);
            push_be(&mut out, a.ip.bits as u128, 4);
            push_zeros(&mut out, 20);
        },
        SocketAddr::V6(a) => {
            push_le(&mut out, AF_INET6 as u64, 2);
            push_be(&mut out, a.port as u128, 2);
            push_le(&mut out, a.flowinfo as u64, 4);
            push_be(&mut out, a.ip.bits, 16);
            push_le(&mut out, a.scope_id as u64, 4);
        },
    }
    assert(out@ =~= sockaddr_bytes(*addr));
    proof {
        lemma_sockaddr_len(*addr);
    }
    out
}

/// A native interface record.
#[derive(Clone, Copy)]
pub struct WireguardInterface {
    pub flags: u32,
    pub listen_port: u16,
    pub private_key: [u8; 32],
    pub public_key: [u8; 32],
    pub peers_count: u32,
}

impl WireguardInterface {
    /// The bytes of the record.
    pub open spec fn bytes(self) -> Seq<u8> {
        le(self.flags as int, 4) + le(self.listen_port as int, 2) + self.private_key@
            + self.public_key@ + zeros(2) + le(self.peers_count as int, 4) + zeros(4)
    }

    /// The record takes 80 bytes, and its fields stand at fixed places.
    pub proof fn lemma_layout(self)
        ensures
            self.bytes().len() == INTERFACE_SIZE,
            self.bytes().subrange(0, 4) == le(self.flags as int, 4),
            self.bytes().subrange(4, 6) == le(self.listen_port as int, 2),
            self.bytes().subrange(6, 38) == self.private_key@,
            self.bytes().subrange(38, 70) == self.public_key@,
            self.bytes().subrange(72, 76) == le(self.peers_count as int, 4),
    {
        lemma_le_len(self.flags as int, 4);
        lemma_le_len(self.listen_port as int, 2);
        lemma_le_len(self.peers_count as int, 4);
        assert(self.bytes().subrange(0, 4) =~= le(self.flags as int, 4));
        assert(self.bytes().subrange(4, 6) =~= le(self.listen_port as int, 2));
        assert(self.bytes().subrange(6, 38) =~= self.private_key@);
        assert(self.bytes().subrange(38, 70) =~= self.public_key@);
        assert(self.bytes().subrange(72, 76) =~= le(self.peers_count as int, 4));
    }

    /// Appends the bytes of the record.
    pub fn write(&self, out: &mut Vec<u8>)
        ensures
            final(out)@ == old(out)@ + self.bytes(),
    {
        push_le(out, self.flags as u64, 4);
        push_le(out, self.listen_port as u64, 2);
        push_all(out, self.private_key.as_slice());
        push_all(out, self.public_key.as_slice());
        push_zeros(out, 2);
        push_le(out, self.peers_count as u64, 4);
        push_zeros(out, 4);
        assert(out@ =~= old(out)@ + self.bytes());
    }
}

/// A native peer record.
#[derive(Clone)]
pub struct WireguardPeer {
    pub flags: u32,
    pub reserved: u32,
    pub public_key: [u8; 32],
    pub preshared_key: [u8; 32],
    pub persistent_keepalive: u16,
    pub endpoint: Vec<u8>,
    pub tx_bytes: u64,
    pub rx_bytes: u64,
    pub last_handshake: u64,
    pub allowed_ips_count: u32,
}

impl WireguardPeer {
    /// The bytes of the record.
    pub open spec fn bytes(self) -> Seq<u8> {
        le(self.flags as int, 4) + le(self.reserved as int, 4) + self.public_key@
            + self.preshared_key@ + le(self.persistent_keepalive as int, 2) + zeros(2)
            + self.endpoint@ + le(self.tx_bytes as int, 8) + le(self.rx_bytes as int, 8) + le(
            self.last_handshake as int,
            8,
        ) + le(self.allowed_ips_count as int, 4) + zeros(4)
    }

    /// The record takes 136 bytes, and its fields stand at fixed places.
    pub proof fn lemma_layout(self)
        requires
            self.endpoint@.len() == 28,
        ensures
            self.bytes().len() == PEER_SIZE,
            self.bytes().subrange(0, 4) == le(self.flags as int, 4),
            self.bytes().subrange(4, 8) == le(self.reserved as int, 4),
            self.bytes().subrange(8, 40) == self.public_key@,
            self.bytes().subrange(40, 72) == self.preshared_key@,
            self.bytes().subrange(72, 74) == le(self.persistent_keepalive as int, 2),
            self.bytes().subrange(76, 104) == self.endpoint@,
            self.bytes().subrange(104, 112) == le(self.tx_bytes as int, 8),
            self.bytes().subrange(112, 120) == le(self.rx_bytes as int, 8),
            self.bytes().subrange(120, 128) == le(self.last_handshake as int, 8),
            self.bytes().subrange(128, 132) == le(self.allowed_ips_count as int, 4),
    {
        lemma_le_len(self.flags as int, 4);
        lemma_le_len(self.reserved as int, 4);
        lemma_le_len(self.persistent_keepalive as int, 2);
        lemma_le_len(self.tx_bytes as int, 8);
        lemma_le_len(self.rx_bytes as int, 8);
        lemma_le_len(self.last_handshake as int, 8);
        lemma_le_len(self.allowed_ips_count as int, 4);
        assert(self.bytes().subrange(0, 4) =~= le(self.flags as int, 4));
        assert(self.bytes().subrange(4, 8) =~= le(self.reserved as int, 4));
        assert(self.bytes().subrange(8, 40) =~= self.public_key@);
        assert(self.bytes().subrange(40, 72) =~= self.preshared_key@);
        assert(self.bytes().subrange(72, 74) =~= le(self.persistent_keepalive as int, 2));
        assert(self.bytes().subrange(76, 104) =~= self.endpoint@);
        assert(self.bytes().subrange(104, 112) =~= le(self.tx_bytes as int, 8));
        assert(self.bytes().subrange(112, 120) =~= le(self.rx_bytes as int, 8));
        assert(self.bytes().subrange(120, 128) =~= le(self.last_handshake as int, 8));
        assert(self.bytes().subrange(128, 132) =~= le(self.allowed_ips_count as int, 4));
    }

    /// Appends the bytes of the record.
    pub fn write(&self, out: &mut Vec<u8>)
        ensures
            final(out)@ == old(out)@ + self.bytes(),
    {
        push_le(out, self.flags as u64, 4);
        push_le(out, self.reserved as u64, 4);
        push_all(out, self.public_key.as_slice());
        push_all(out, self.preshared_key.as_slice());
        push_le(out, self.persistent_keepalive as u64, 2);
        push_zeros(out, 2);
        push_all(out, self.endpoint.as_slice());
        push_le(out, self.tx_bytes, 8);
        push_le(out, self.rx_bytes, 8);
        push_le(out, self.last_handshake, 8);
        push_le(out, self.allowed_ips_count as u64, 4);
        push_zeros(out, 4);
        assert(out@ =~= old(out)@ + self.bytes());
    }
}

/// A native allowed-address record.
#[derive(Clone, Copy)]
pub struct WireguardAllowedIp {
    pub address: IpAddr,
    pub cidr: u8,
}

impl WireguardAllowedIp {
    /// The bytes of the record.
    pub open spec fn bytes(self) -> Seq<u8> {
        ip_bytes(self.address) + le(family(self.address) as int, 2) + seq![self.cidr] + zeros(5)
    }

    /// The record takes 24 bytes, and its fields stand at fixed places.
    pub proof fn lemma_layout(self)
        ensures
            self.bytes().len() == ALLOWED_IP_SIZE,
            self.bytes().subrange(0, 16) == ip_bytes(self.address),
            self.bytes().subrange(16, 18) == le(family(self.address) as int, 2),
            self.bytes()[18] == self.cidr,
    {
        match self.address {
            IpAddr::V4(a) => lemma_le_len(a.bits as int, 4),
            IpAddr::V6(a) => lemma_le_len(a.bits as int, 16),
        }
        lemma_le_len(family(self.address) as int, 2);
        assert(self.bytes().subrange(0, 16) =~= ip_bytes(self.address));
        assert(self.bytes().subrange(16, 18) =~= le(family(self.address) as int, 2));
    }

    /// Appends the bytes of the record.
    pub fn write(&self, out: &mut Vec<u8>)
        ensures
            final(out)@ == old(out)@ + self.bytes(),
    {
        match self.address {
            IpAddr::V4(a) => {
                push_be(out, a.bits as u128, 4);
                push_zeros(out, 12);
                push_le(out, AF_INET as u64, 2);
            },
            IpAddr::V6(a) => {
                push_be(out, a.bits, 16);
                push_le(out, AF_INET6 as u64, 2);
            },
        }
        out.push(self.cidr);
        push_zeros(out, 5);
        assert(out@ =~= old(out)@ + self.bytes());
    }
}

} // verus!
