//! Network addresses and their text form.

use crate::text::{
    code_point, decimal, parse_digits, pieces, push_decimal, read_digits, split, split_at_first,
    split_once, views,
};
use vstd::prelude::*;
use vstd::slice::slice_subrange;

verus! {

/// An IPv4 address; the first octet is the most significant.
#[derive(Debug, Clone, Copy, PartialEq, Eq, PartialOrd, Ord, Hash, Structural)]
pub struct Ipv4Addr {
    pub bits: u32,
}

/// An IPv6 address; the first segment is the most significant.
#[derive(Debug, Clone, Copy, PartialEq, Eq, PartialOrd, Ord, Hash, Structural)]
pub struct Ipv6Addr {
    pub bits: u128,
}

/// An address of either family.
#[derive(Debug, Clone, Copy, PartialEq, Eq, PartialOrd, Ord, Hash, Structural)]
pub enum IpAddr {
    V4(Ipv4Addr),
    V6(Ipv6Addr),
}

/// An IPv4 address with a port.
#[derive(Debug, Clone, Copy, PartialEq, Eq, PartialOrd, Ord, Hash, Structural)]
pub struct SocketAddrV4 {
    pub ip: Ipv4Addr,
    pub port: u16,
}

/// An IPv6 address with a port, a flow label and a scope.
#[derive(Debug, Clone, Copy, PartialEq, Eq, PartialOrd, Ord, Hash, Structural)]
pub struct SocketAddrV6 {
    pub ip: Ipv6Addr,
    pub port: u16,
    pub flowinfo: u32,
    pub scope_id: u32,
}

/// An address of either family with a port.
#[derive(Debug, Clone, Copy, PartialEq, Eq, PartialOrd, Ord, Hash, Structural)]
pub enum SocketAddr {
    V4(SocketAddrV4),
    V6(SocketAddrV6),
}

impl Ipv4Addr {
    /// The value of four octets.
    pub open spec fn value(a: int, b: int, c: int, d: int) -> int {
        a * 0x100_0000 + b * 0x1_0000 + c * 0x100 + d
    }

    /// The octet at a place, 0 being the first.
    pub open spec fn octet(self, i: int) -> u8 {
        if i == 0 {
            (self.bits / 0x100_0000) as u8
        } else if i == 1 {
            (self.bits / 0x1_0000 % 0x100) as u8
        } else if i == 2 {
            (self.bits / 0x100 % 0x100) as u8
        } else {
            (self.bits % 0x100) as u8
        }
    }

    /// An address from its octets.
    pub fn new(a: u8, b: u8, c: u8, d: u8) -> (r: Ipv4Addr)
        ensures
            r.bits == Self::value(a as int, b as int, c as int, d as int),
            r.octet(0) == a,
            r.octet(1) == b,
            r.octet(2) == c,
            r.octet(3) == d,
    {
        let bits: u32 = a as u32 * 0x100_0000 + b as u32 * 0x1_0000 + c as u32 * 0x100 + d as u32;
        assert(bits / 0x100_0000 == a && bits / 0x1_0000 % 0x100 == b && bits / 0x100 % 0x100 == c
            && bits % 0x100 == d) by (bit_vector)
            requires
                bits == a * 0x100_0000 + b * 0x1_0000 + c * 0x100 + d,
        ;
        Ipv4Addr { bits }
    }

    /// The octets, first to last.
    pub fn octets(&self) -> (r: [u8; 4])
        ensures
            forall|i: int| 0 <= i < 4 ==> r@[i] == self.octet(i),
    {
        [
            (self.bits / 0x100_0000) as u8,
            (self.bits / 0x1_0000 % 0x100) as u8,
            (self.bits / 0x100 % 0x100) as u8,
            (self.bits % 0x100) as u8,
        ]
    }

    /// The dotted text of the address.
    pub open spec fn dotted(self) -> Seq<char> {
        decimal(self.octet(0) as nat) + seq!['.'] + decimal(self.octet(1) as nat) + seq!['.']
            + decimal(self.octet(2) as nat) + seq!['.'] + decimal(self.octet(3) as nat)
    }

    /// Appends the dotted text of the address.
    pub fn push_dotted(&self, out: &mut String)
        ensures
            final(out)@ == old(out)@ + self.dotted(),
    {
        let o = self.octets();
        push_decimal(out, o[0] as u64);
        out.push('.');
        push_decimal(out, o[1] as u64);
        out.push('.');
        push_decimal(out, o[2] as u64);
        out.push('.');
        push_decimal(out, o[3] as u64);
        assert(out@ =~= old(out)@ + self.dotted());
    }
}

impl Ipv6Addr {
    /// The value of eight segments.
    pub open spec fn value(w: Seq<u16>) -> int {
        w[0] * 0x1_0000_0000_0000_0000_0000_0000_0000 + w[1] * 0x1_0000_0000_0000_0000_0000_0000
            + w[2] * 0x1_0000_0000_0000_0000_0000 + w[3] * 0x1_0000_0000_0000_0000 + w[4]
            * 0x1_0000_0000_0000 + w[5] * 0x1_0000_0000 + w[6] * 0x1_0000 + w[7]
    }

    /// An address from its segments.
    pub fn from_segments(w: &Vec<u16>) -> (r: Ipv6Addr)
        requires
            w@.len() == 8,
        ensures
            r.bits == Self::value(w@),
    {
        Ipv6Addr {
            bits: w[0] as u128 * 0x1_0000_0000_0000_0000_0000_0000_0000 + w[1] as u128
                * 0x1_0000_0000_0000_0000_0000_0000 + w[2] as u128 * 0x1_0000_0000_0000_0000_0000
                + w[3] as u128 * 0x1_0000_0000_0000_0000 + w[4] as u128 * 0x1_0000_0000_0000
                + w[5] as u128 * 0x1_0000_0000 + w[6] as u128 * 0x1_0000 + w[7] as u128,
        }
    }
}

impl IpAddr {
    /// Whether this is an IPv4 address.
    pub fn is_ipv4(&self) -> (r: bool)
        ensures
            r == (self is V4),
    {
        match self {
            IpAddr::V4(_) => true,
            IpAddr::V6(_) => false,
        }
    }

    /// The longest prefix that the family allows.
    pub open spec fn longest_prefix(self) -> int {
        if self is V4 {
            32
        } else {
            128
        }
    }
}

// ---------------------------------------------------------------------------
// Text form
// ---------------------------------------------------------------------------

/// One octet: up to three digits, no needless leading zero, at most 255.
pub open spec fn octet_text(s: Seq<char>) -> Option<int> {
    if 1 <= s.len() <= 3 && (s.len() == 1 || s[0] != '0') {
        match read_digits(s, 0, 255) {
            Ok(n) => Some(n),
            Err(_) => None,
        }
    } else {
        None
    }
}

/// The IPv4 address that a text writes: four octets with dots between.
pub open spec fn ipv4_text(s: Seq<char>) -> Option<Ipv4Addr> {
    let p = pieces(s, '.');
    if p.len() == 4 {
        match (octet_text(p[0]), octet_text(p[1]), octet_text(p[2]), octet_text(p[3])) {
            (Some(a), Some(b), Some(c), Some(d)) => Some(
                Ipv4Addr { bits: Ipv4Addr::value(a, b, c, d) as u32 },
            ),
            _ => None,
        }
    } else {
        None
    }
}

/// The value of a hexadecimal digit of either case.
pub open spec fn hex_value(c: char) -> Option<int> {
    if 48 <= c as int <= 57 {
        Some(c as int - 48)
    } else if 97 <= c as int <= 102 {
        Some(c as int - 87)
    } else if 65 <= c as int <= 70 {
        Some(c as int - 55)
    } else {
        None
    }
}

/// The number that hexadecimal digits write.
pub open spec fn read_hex(s: Seq<char>) -> Option<int>
    decreases s.len(),
{
    if s.len() == 0 {
        Some(0)
    } else {
        match (read_hex(s.drop_last()), hex_value(s.last())) {
            (Some(n), Some(d)) => Some(n * 16 + d),
            _ => None,
        }
    }
}

/// One segment: up to four hexadecimal digits.
pub open spec fn segment_text(s: Seq<char>) -> Option<u16> {
    if 1 <= s.len() <= 4 {
        match read_hex(s) {
            Some(n) => Some(n as u16),
            None => None,
        }
    } else {
        None
    }
}

/// The segments that a list of texts writes.
pub open spec fn segments(p: Seq<Seq<char>>) -> Option<Seq<u16>>
    decreases p.len(),
{
    if p.len() == 0 {
        Some(seq![])
    } else {
        match (segments(p.drop_last()), segment_text(p.last())) {
            (Some(w), Some(n)) => Some(w.push(n)),
            _ => None,
        }
    }
}

/// The segments that a list of texts writes, where the last one may be an IPv4
/// address, which stands for two segments.
pub open spec fn last_segments(p: Seq<Seq<char>>) -> Option<Seq<u16>> {
    match ipv4_text(p.last()) {
        Some(v4) => match segments(p.drop_last()) {
            Some(w) => Some(w.push((v4.bits / 0x1_0000) as u16).push((v4.bits % 0x1_0000) as u16)),
            None => None,
        },
        None => segments(p),
    }
}

/// Where two colons first stand side by side; the length of the text where they
/// do not.
pub open spec fn gap(s: Seq<char>) -> int
    decreases s.len(),
{
    if s.len() < 2 {
        s.len() as int
    } else if s[0] == ':' && s[1] == ':' {
        0
    } else {
        1 + gap(s.drop_first())
    }
}

/// The segments of a text without a gap, none for the empty text.
pub open spec fn head_words(s: Seq<char>) -> Option<Seq<u16>> {
    if s.len() == 0 {
        Some(seq![])
    } else {
        segments(pieces(s, ':'))
    }
}

/// The segments of a text without a gap, none for the empty text; the last may
/// be an IPv4 address.
pub open spec fn tail_words(s: Seq<char>) -> Option<Seq<u16>> {
    if s.len() == 0 {
        Some(seq![])
    } else {
        last_segments(pieces(s, ':'))
    }
}

/// The eight segments that a text writes. A double colon stands for one or more
/// segments of zero.
pub open spec fn ipv6_words(s: Seq<char>) -> Option<Seq<u16>> {
    let g = gap(s);
    if g < s.len() {
        match (head_words(s.take(g)), tail_words(s.skip(g + 2))) {
            (Some(h), Some(t)) => if h.len() + t.len() <= 7 {
                Some(h + Seq::new((8 - h.len() - t.len()) as nat, |i: int| 0u16) + t)
            } else {
                None
            },
            _ => None,
        }
    } else {
        match tail_words(s) {
            Some(w) => if w.len() == 8 {
                Some(w)
            } else {
                None
            },
            None => None,
        }
    }
}

/// The IPv6 address that a text writes.
pub open spec fn ipv6_text(s: Seq<char>) -> Option<Ipv6Addr> {
    match ipv6_words(s) {
        Some(w) => Some(Ipv6Addr { bits: Ipv6Addr::value(w) as u128 }),
        None => None,
    }
}

/// The address that a text writes.
pub open spec fn ip_text(s: Seq<char>) -> Option<IpAddr> {
    match ipv4_text(s) {
        Some(v4) => Some(IpAddr::V4(v4)),
        None => match ipv6_text(s) {
            Some(v6) => Some(IpAddr::V6(v6)),
            None => None,
        },
    }
}

/// A number written in digits alone.
pub open spec fn digits_text(s: Seq<char>, max: int) -> Option<int> {
    if s.len() == 0 {
        None
    } else {
        match read_digits(s, 0, max) {
            Ok(n) => Some(n),
            Err(_) => None,
        }
    }
}

/// `address:port` with an IPv4 address.
pub open spec fn socket_v4_text(s: Seq<char>) -> Option<SocketAddr> {
    match split_once(s, ':') {
        Some((a, p)) => match (ipv4_text(a), digits_text(p, 0xffff)) {
            (Some(ip), Some(port)) => Some(SocketAddr::V4(SocketAddrV4 { ip, port: port as u16 })),
            _ => None,
        },
        None => None,
    }
}

/// An IPv6 address, with a percent sign and a scope behind it if there is one.
pub open spec fn scoped_text(s: Seq<char>) -> Option<(Ipv6Addr, int)> {
    match split_once(s, '%') {
        Some((a, z)) => match (ipv6_text(a), digits_text(z, 0xffff_ffff)) {
            (Some(ip), Some(scope)) => Some((ip, scope)),
            _ => None,
        },
        None => match ipv6_text(s) {
            Some(ip) => Some((ip, 0)),
            None => None,
        },
    }
}

/// `[address]:port` with an IPv6 address, which may carry a scope.
pub open spec fn socket_v6_text(s: Seq<char>) -> Option<SocketAddr> {
    if s.len() > 0 && s[0] == '[' {
        match split_once(s.skip(1), ']') {
            Some((a, rest)) => if rest.len() > 0 && rest[0] == ':' {
                match (scoped_text(a), digits_text(rest.skip(1), 0xffff)) {
                    (Some((ip, scope)), Some(port)) => Some(
                        SocketAddr::V6(
                            SocketAddrV6 {
                                ip,
                                port: port as u16,
                                flowinfo: 0,
                                scope_id: scope as u32,
                            },
                        ),
                    ),
                    _ => None,
                }
            } else {
                None
            },
            None => None,
        }
    } else {
        None
    }
}

/// The socket address that a text writes.
pub open spec fn socket_text(s: Seq<char>) -> Option<SocketAddr> {
    match socket_v4_text(s) {
        Some(a) => Some(a),
        None => socket_v6_text(s),
    }
}

fn parse_octet(s: &[char]) -> (r: Option<u8>)
    ensures
        match r {
            Some(n) => octet_text(s@) == Some(n as int),
            None => octet_text(s@) is None,
        },
{
    if s.len() < 1 || s.len() > 3 || (s.len() > 1 && s[0] == '0') {
        return None;
    }
    match parse_digits(s, 255) {
        Ok(n) => Some(n as u8),
        Err(_) => None,
    }
}

/// The IPv4 address that a text writes.
pub fn parse_ipv4(s: &[char]) -> (r: Option<Ipv4Addr>)
    ensures
        r == ipv4_text(s@),
{
    let p = split(s, '.');
    assert(views(p@).len() == p@.len());
    if p.len() != 4 {
        return None;
    }
    assert(forall|i: int| 0 <= i < 4 ==> views(p@)[i] == #[trigger] p@[i]@);
    let a = parse_octet(p[0].as_slice());
    let b = parse_octet(p[1].as_slice());
    let c = parse_octet(p[2].as_slice());
    let d = parse_octet(p[3].as_slice());
    match (a, b, c, d) {
        (Some(a), Some(b), Some(c), Some(d)) => Some(Ipv4Addr::new(a, b, c, d)),
        _ => None,
    }
}

fn parse_hex_digit(c: char) -> (r: Option<u32>)
    ensures
        match r {
            Some(n) => hex_value(c) == Some(n as int) && n < 16,
            None => hex_value(c) is None,
        },
{
    let u: u32 = code_point(c);
    if 48 <= u && u <= 57 {
        Some(u - 48)
    } else if 97 <= u && u <= 102 {
        Some(u - 87)
    } else if 65 <= u && u <= 70 {
        Some(u - 55)
    } else {
        None
    }
}

/// A prefix that is no number makes the whole text none.
proof fn lemma_read_hex_prefix(s: Seq<char>, i: int)
    requires
        0 <= i <= s.len(),
        read_hex(s.take(i)) is None,
    ensures
        read_hex(s) is None,
    decreases s.len() - i,
{
    if i < s.len() {
        assert(s.take(i + 1).drop_last() =~= s.take(i));
        lemma_read_hex_prefix(s, i + 1);
    } else {
        assert(s.take(i) =~= s);
    }
}

fn parse_segment(s: &[char]) -> (r: Option<u16>)
    ensures
        r == segment_text(s@),
{
    if s.len() < 1 || s.len() > 4 {
        return None;
    }
    let mut acc: u32 = 0;
    let mut i: usize = 0;
    assert(s@.take(0) =~= Seq::<char>::empty());
    while i < s.len()
        invariant
            i <= s@.len() <= 4,
            1 <= s@.len(),
            read_hex(s@.take(i as int)) == Some(acc as int),
            i == 0 ==> acc == 0,
            i == 1 ==> acc < 0x10,
            i == 2 ==> acc < 0x100,
            i == 3 ==> acc < 0x1000,
            i == 4 ==> acc < 0x1_0000,
        decreases s@.len() - i,
    {
        assert(s@.take(i as int + 1).drop_last() =~= s@.take(i as int));
        match parse_hex_digit(s[i]) {
            Some(d) => {
                acc = acc * 16 + d;
            },
            None => {
                proof {
                    lemma_read_hex_prefix(s@, i as int + 1);
                }
                return None;
            },
        }
        i = i + 1;
    }
    assert(s@.take(i as int) =~= s@);
    Some(acc as u16)
}

/// A prefix that is no list of segments makes the whole list none.
proof fn lemma_segments_prefix(p: Seq<Seq<char>>, i: int)
    requires
        0 <= i <= p.len(),
        segments(p.take(i)) is None,
    ensures
        segments(p) is None,
    decreases p.len() - i,
{
    if i < p.len() {
        assert(p.take(i + 1).drop_last() =~= p.take(i));
        lemma_segments_prefix(p, i + 1);
    } else {
        assert(p.take(i) =~= p);
    }
}

fn parse_segments(p: &Vec<Vec<char>>, n: usize) -> (r: Option<Vec<u16>>)
    requires
        n <= p@.len(),
    ensures
        match r {
            Some(w) => segments(views(p@).take(n as int)) == Some(w@),
            None => segments(views(p@).take(n as int)) is None,
        },
{
    let mut out: Vec<u16> = Vec::new();
    let mut i: usize = 0;
    let ghost all = views(p@).take(n as int);
    assert(all.take(0) =~= Seq::<Seq<char>>::empty());
    while i < n
        invariant
            i <= n <= p@.len(),
            all == views(p@).take(n as int),
            segments(all.take(i as int)) == Some(out@),
        decreases n - i,
    {
        assert(all.take(i as int + 1).drop_last() =~= all.take(i as int));
        assert(all.take(i as int + 1).last() == p@[i as int]@);
        match parse_segment(p[i].as_slice()) {
            Some(w) => {
                out.push(w);
            },
            None => {
                proof {
                    lemma_segments_prefix(all, i as int + 1);
                }
                return None;
            },
        }
        i = i + 1;
    }
    assert(all.take(i as int) =~= all);
    Some(out)
}

fn parse_head(s: &[char]) -> (r: Option<Vec<u16>>)
    ensures
        match r {
            Some(w) => head_words(s@) == Some(w@),
            None => head_words(s@) is None,
        },
{
    if s.len() == 0 {
        let none: Vec<u16> = Vec::new();
        assert(none@ =~= Seq::<u16>::empty());
        return Some(none);
    }
    let p = split(s, ':');
    assert(views(p@).take(p@.len() as int) =~= views(p@));
    parse_segments(&p, p.len())
}

fn parse_tail(s: &[char]) -> (r: Option<Vec<u16>>)
    ensures
        match r {
            Some(w) => tail_words(s@) == Some(w@),
            None => tail_words(s@) is None,
        },
{
    if s.len() == 0 {
        let none: Vec<u16> = Vec::new();
        assert(none@ =~= Seq::<u16>::empty());
        return Some(none);
    }
    let p = split(s, ':');
    let n: usize = p.len();
    assert(views(p@).take(n as int) =~= views(p@));
    assert(views(p@).take(n - 1) =~= views(p@).drop_last());
    assert(views(p@).last() == p@[n - 1]@);
    match parse_ipv4(p[n - 1].as_slice()) {
        Some(v4) => match parse_segments(&p, n - 1) {
            Some(mut w) => {
                w.push((v4.bits / 0x1_0000) as u16);
                w.push((v4.bits % 0x1_0000) as u16);
                Some(w)
            },
            None => None,
        },
        None => parse_segments(&p, n),
    }
}

fn find_gap(s: &[char]) -> (r: usize)
    ensures
        r == gap(s@),
        r <= s@.len(),
        r < s@.len() ==> r + 2 <= s@.len(),
{
    let mut i: usize = 0;
    assert(s@.skip(0) =~= s@);
    while i < s.len() && s.len() - i >= 2
        invariant
            i <= s@.len(),
            gap(s@) == i + gap(s@.skip(i as int)),
        decreases s@.len() - i,
    {
        if s[i] == ':' && s[i + 1] == ':' {
            return i;
        }
        assert(s@.skip(i as int).drop_first() =~= s@.skip(i as int + 1));
        i = i + 1;
    }
    s.len()
}

/// The IPv6 address that a text writes.
pub fn parse_ipv6(s: &[char]) -> (r: Option<Ipv6Addr>)
    ensures
        r == ipv6_text(s@),
{
    let g = find_gap(s);
    if g < s.len() {
        let head = slice_subrange(s, 0, g);
        let tail = slice_subrange(s, g + 2, s.len());
        assert(head@ =~= s@.take(g as int));
        assert(tail@ =~= s@.skip(g as int + 2));
        let h = parse_head(head);
        let t = parse_tail(tail);
        match (h, t) {
            (Some(h), Some(t)) => {
                if h.len() > 7 || t.len() > 7 || h.len() + t.len() > 7 {
                    return None;
                }
                let ghost hw = h@;
                let ghost tw = t@;
                let mut w = h;
                let n: usize = 8 - w.len() - t.len();
                let mut i: usize = 0;
                while i < n
                    invariant
                        i <= n,
                        w@ == hw + Seq::new(i as nat, |j: int| 0u16),
                    decreases n - i,
                {
                    w.push(0);
                    assert(w@ =~= hw + Seq::new((i + 1) as nat, |j: int| 0u16));
                    i = i + 1;
                }
                let mut rest = t;
                w.append(&mut rest);
                assert(w@ =~= hw + Seq::new((8 - hw.len() - tw.len()) as nat, |j: int| 0u16) + tw);
                Some(Ipv6Addr::from_segments(&w))
            },
            _ => None,
        }
    } else {
        match parse_tail(s) {
            Some(w) => {
                if w.len() == 8 {
                    Some(Ipv6Addr::from_segments(&w))
                } else {
                    None
                }
            },
            None => None,
        }
    }
}

/// The address that a text writes.
pub fn parse_ip(s: &[char]) -> (r: Option<IpAddr>)
    ensures
        r == ip_text(s@),
{
    match parse_ipv4(s) {
        Some(v4) => Some(IpAddr::V4(v4)),
        None => match parse_ipv6(s) {
            Some(v6) => Some(IpAddr::V6(v6)),
            None => None,
        },
    }
}

fn parse_plain(s: &[char], max: u32) -> (r: Option<u32>)
    ensures
        match r {
            Some(n) => digits_text(s@, max as int) == Some(n as int) && n <= max,
            None => digits_text(s@, max as int) is None,
        },
{
    if s.len() == 0 {
        return None;
    }
    match parse_digits(s, max) {
        Ok(n) => Some(n),
        Err(_) => None,
    }
}

fn parse_socket_v4(s: &[char]) -> (r: Option<SocketAddr>)
    ensures
        r == socket_v4_text(s@),
{
    match split_at_first(s, ':') {
        Some((a, p)) => match (parse_ipv4(a), parse_plain(p, 0xffff)) {
            (Some(ip), Some(port)) => Some(SocketAddr::V4(SocketAddrV4 { ip, port: port as u16 })),
            _ => None,
        },
        None => None,
    }
}

fn parse_scoped(s: &[char]) -> (r: Option<(Ipv6Addr, u32)>)
    ensures
        match r {
            Some((ip, scope)) => scoped_text(s@) == Some((ip, scope as int)),
            None => scoped_text(s@) is None,
        },
{
    match split_at_first(s, '%') {
        Some((a, z)) => match (parse_ipv6(a), parse_plain(z, 0xffff_ffff)) {
            (Some(ip), Some(scope)) => Some((ip, scope)),
            _ => None,
        },
        None => match parse_ipv6(s) {
            Some(ip) => Some((ip, 0)),
            None => None,
        },
    }
}

fn parse_socket_v6(s: &[char]) -> (r: Option<SocketAddr>)
    ensures
        r == socket_v6_text(s@),
{
    if s.len() == 0 || s[0] != '[' {
        return None;
    }
    let inner = slice_subrange(s, 1, s.len());
    assert(inner@ =~= s@.skip(1));
    match split_at_first(inner, ']') {
        Some((a, rest)) => {
            if rest.len() == 0 || rest[0] != ':' {
                return None;
            }
            let p = slice_subrange(rest, 1, rest.len());
            assert(p@ =~= rest@.skip(1));
            match (parse_scoped(a), parse_plain(p, 0xffff)) {
                (Some((ip, scope_id)), Some(port)) => Some(
                    SocketAddr::V6(SocketAddrV6 { ip, port: port as u16, flowinfo: 0, scope_id }),
                ),
                _ => None,
            }
        },
        None => None,
    }
}

/// The socket address that a text writes.
pub fn parse_socket(s: &[char]) -> (r: Option<SocketAddr>)
    ensures
        r == socket_text(s@),
{
    match parse_socket_v4(s) {
        Some(a) => Some(a),
        None => parse_socket_v6(s),
    }
}

} // verus!
