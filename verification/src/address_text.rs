//! The text of addresses.

use crate::address::{IpAddr, Ipv4Addr, Ipv6Addr, SocketAddr};
use crate::text::{decimal, hex_padded, push_decimal, push_hex};
use vstd::prelude::*;

verus! {

/// The segment of an address at a place, 0 being the first.
pub open spec fn segment(a: Ipv6Addr, i: int) -> u16 {
    if i == 0 {
        (a.bits / 0x1_0000_0000_0000_0000_0000_0000_0000) as u16
    } else if i == 1 {
        (a.bits / 0x1_0000_0000_0000_0000_0000_0000 % 0x1_0000) as u16
    } else if i == 2 {
        (a.bits / 0x1_0000_0000_0000_0000_0000 % 0x1_0000) as u16
    } else if i == 3 {
        (a.bits / 0x1_0000_0000_0000_0000 % 0x1_0000) as u16
    } else if i == 4 {
        (a.bits / 0x1_0000_0000_0000 % 0x1_0000) as u16
    } else if i == 5 {
        (a.bits / 0x1_0000_0000 % 0x1_0000) as u16
    } else if i == 6 {
        (a.bits / 0x1_0000 % 0x1_0000) as u16
    } else {
        (a.bits % 0x1_0000) as u16
    }
}

/// The eight segments of an address, first to last.
pub open spec fn segments(a: Ipv6Addr) -> Seq<u16> {
    Seq::new(8, |i: int| segment(a, i))
}

fn split_segments(a: Ipv6Addr) -> (r: Vec<u16>)
    ensures
        r@ == segments(a),
{
    let b: u128 = a.bits;
    let mut out: Vec<u16> = Vec::new();
    out.push((b / 0x1_0000_0000_0000_0000_0000_0000_0000) as u16);
    out.push((b / 0x1_0000_0000_0000_0000_0000_0000 % 0x1_0000) as u16);
    out.push((b / 0x1_0000_0000_0000_0000_0000 % 0x1_0000) as u16);
    out.push((b / 0x1_0000_0000_0000_0000 % 0x1_0000) as u16);
    out.push((b / 0x1_0000_0000_0000 % 0x1_0000) as u16);
    out.push((b / 0x1_0000_0000 % 0x1_0000) as u16);
    out.push((b / 0x1_0000 % 0x1_0000) as u16);
    out.push((b % 0x1_0000) as u16);
    assert(out@ =~= segments(a));
    out
}

/// How many zeros follow each other from a place on.
pub open spec fn zeros_from(s: Seq<u16>, i: int) -> nat
    decreases s.len() - i,
{
    if i < 0 || i >= s.len() || s[i] != 0 {
        0
    } else {
        1 + zeros_from(s, i + 1)
    }
}

/// Where the longest row of zeros from a place on begins, and its length; the
/// first of several.
pub open spec fn longest_from(s: Seq<u16>, i: int) -> (int, nat)
    decreases s.len() - i,
{
    if i < 0 || i >= s.len() {
        (i, 0)
    } else {
        let rest = longest_from(s, i + 1);
        if zeros_from(s, i) > 0 && zeros_from(s, i) >= rest.1 {
            (i, zeros_from(s, i))
        } else {
            rest
        }
    }
}

fn longest_zeros(s: &Vec<u16>) -> (r: (usize, usize))
    ensures
        (r.0 as int, r.1 as nat) == longest_from(s@, 0),
        r.0 + r.1 <= s@.len(),
{
    let n: usize = s.len();
    let mut i: usize = n;
    let mut row: usize = 0;
    let mut start: usize = i;
    let mut len: usize = 0;
    while i > 0
        invariant
            i <= s@.len() == n,
            row == zeros_from(s@, i as int),
            (start as int, len as nat) == longest_from(s@, i as int),
            i + row <= s@.len(),
            start + len <= s@.len(),
        decreases i,
    {
        i = i - 1;
        row = if s[i] == 0 {
            row + 1
        } else {
            0
        };
        if row > 0 && row >= len {
            start = i;
            len = row;
        }
    }
    (start, len)
}

/// The segments in hexadecimal, with colons between them.
pub open spec fn colons(s: Seq<u16>) -> Seq<char>
    decreases s.len(),
{
    if s.len() == 0 {
        seq![]
    } else if s.len() == 1 {
        hex_padded(s[0] as nat, 1)
    } else {
        colons(s.drop_last()) + ":"@ + hex_padded(s.last() as nat, 1)
    }
}

fn push_colons(out: &mut String, s: &Vec<u16>, from: usize, to: usize)
    requires
        from <= to <= s@.len(),
    ensures
        final(out)@ == old(out)@ + colons(s@.subrange(from as int, to as int)),
{
    let ghost before = out@;
    let mut i: usize = from;
    assert(s@.subrange(from as int, from as int) =~= Seq::<u16>::empty());
    assert(before + colons(Seq::<u16>::empty()) =~= before);
    while i < to
        invariant
            from <= i <= to <= s@.len(),
            out@ == before + colons(s@.subrange(from as int, i as int)),
        decreases to - i,
    {
        let ghost done = s@.subrange(from as int, i as int);
        let ghost next = s@.subrange(from as int, i as int + 1);
        assert(next.drop_last() =~= done);
        assert(next.last() == s@[i as int]);
        if i > from {
            out.append(":");
        }
        push_hex(out, s[i] as u64, 1);
        proof {
            if i > from {
                assert(out@ =~= before + (colons(done) + ":"@ + hex_padded(
                    s@[i as int] as nat,
                    1,
                )));
            } else {
                assert(done =~= Seq::<u16>::empty());
                assert(out@ =~= before + colons(next));
            }
        }
        i = i + 1;
    }
}

/// The text of an address of the newer kind: one that stands for an address of the
/// older kind shows that one; the longest row of at least two zeros is left out.
pub open spec fn ipv6_words(a: Ipv6Addr) -> Seq<char> {
    let s = segments(a);
    let (start, len) = longest_from(s, 0);
    if a.bits / 0x1_0000_0000 == 0xffff {
        "::ffff:"@ + (Ipv4Addr { bits: (a.bits % 0x1_0000_0000) as u32 }).dotted()
    } else if len > 1 {
        colons(s.subrange(0, start)) + "::"@ + colons(s.subrange(start + len, 8))
    } else {
        colons(s)
    }
}

/// Appends the text of an address of the newer kind.
pub fn push_ipv6(out: &mut String, a: Ipv6Addr)
    ensures
        final(out)@ == old(out)@ + ipv6_words(a),
{
    let ghost before = out@;
    if a.bits / 0x1_0000_0000 == 0xffff {
        out.append("::ffff:");
        let low = Ipv4Addr { bits: (a.bits % 0x1_0000_0000) as u32 };
        low.push_dotted(out);
        assert(out@ =~= before + ipv6_words(a));
    } else {
        let s = split_segments(a);
        let (start, len) = longest_zeros(&s);
        if len > 1 {
            push_colons(out, &s, 0, start);
            out.append("::");
            push_colons(out, &s, start + len, 8);
        } else {
            push_colons(out, &s, 0, 8);
            assert(s@.subrange(0, 8) =~= s@);
        }
        assert(out@ =~= before + ipv6_words(a));
    }
}

/// The text of an address.
pub open spec fn ip_words(a: IpAddr) -> Seq<char> {
    match a {
        IpAddr::V4(a) => a.dotted(),
        IpAddr::V6(a) => ipv6_words(a),
    }
}

/// The text of an address.
pub fn ip_to_text(a: IpAddr) -> (r: String)
    ensures
        r@ == ip_words(a),
{
    let mut out = String::new();
    match a {
        IpAddr::V4(a) => {
            a.push_dotted(&mut out);
        },
        IpAddr::V6(a) => {
            push_ipv6(&mut out, a);
        },
    }
    assert(out@ =~= ip_words(a));
    out
}

/// The text of an address with a port.
pub open spec fn socket_words(a: SocketAddr) -> Seq<char> {
    match a {
        SocketAddr::V4(a) => a.ip.dotted() + ":"@ + decimal(a.port as nat),
        SocketAddr::V6(a) => "["@ + ipv6_words(a.ip) + (if a.scope_id == 0 {
            ""@
        } else {
            "%"@ + decimal(a.scope_id as nat)
        }) + "]:"@ + decimal(a.port as nat),
    }
}

/// The text of an address with a port.
pub fn socket_to_text(a: SocketAddr) -> (r: String)
    ensures
        r@ == socket_words(a),
{
    let mut out = String::new();
    match a {
        SocketAddr::V4(a) => {
            a.ip.push_dotted(&mut out);
            out.append(":");
            push_decimal(&mut out, a.port as u64);
        },
        SocketAddr::V6(a) => {
            out.append("[");
            push_ipv6(&mut out, a.ip);
            if a.scope_id != 0 {
                out.append("%");
                push_decimal(&mut out, a.scope_id as u64);
            } else {
                out.append("");
            }
            out.append("]:");
            push_decimal(&mut out, a.port as u64);
        },
    }
    assert(out@ =~= socket_words(a));
    out
}

} // verus!
