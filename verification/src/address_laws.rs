//! Addresses read back from their text.

use crate::address::{
    digits_text, gap, head_words, hex_value, ip_text, ipv4_text, ipv6_text, octet_text, read_hex,
    scoped_text, segment_text, segments, socket_text, socket_v4_text, socket_v6_text, tail_words,
    IpAddr, Ipv4Addr, Ipv6Addr, SocketAddr, SocketAddrV6,
};
use crate::address_text::{
    colons, ip_words, ipv6_words, longest_from, socket_words, zeros_from,
};
use crate::network_config::comma_list;
use crate::text::{
    decimal, hex_padded, is_digit, lemma_position, lemma_position_bounds, lemma_read_number_bound,
    pieces, position, read_number,
};
use crate::text_laws::{
    all_digits, digits_value, hex_digit_value, hex_number, is_hex_digit, joined, law_decimal,
    law_digits_are_read, law_hexadecimal, law_numbers_are_read, law_pieces,
};
use crate::utils::{cidr_of, destination_of};
use vstd::arithmetic::div_mod::lemma_div_denominator;
use vstd::prelude::*;

verus! {

// ---------------------------------------------------------------------------
// Putting together and taking apart
// ---------------------------------------------------------------------------

/// Texts that are put together with a character that none of them holds are taken
/// apart again.
proof fn lemma_pieces_of_joined(p: Seq<Seq<char>>, c: char)
    requires
        p.len() > 0,
        forall|i: int| 0 <= i < p.len() ==> !(#[trigger] p[i]).contains(c),
    ensures
        pieces(joined(p, c), c) == p,
    decreases p.len(),
{
    let s = joined(p, c);
    let n = p[0].len() as int;
    assert(!p[0].contains(c));
    if p.len() == 1 {
        assert forall|j: int| 0 <= j < n implies s[j] != c by {
            assert(p[0].contains(p[0][j]));
        }
        lemma_position(s, c, n);
        assert(pieces(s, c) =~= p);
    } else {
        let rest = p.drop_first();
        assert forall|i: int| 0 <= i < rest.len() implies !(#[trigger] rest[i]).contains(c) by {
            assert(rest[i] == p[i + 1]);
        }
        lemma_pieces_of_joined(rest, c);
        assert forall|j: int| 0 <= j < n implies s[j] != c by {
            assert(s[j] == p[0][j]);
            assert(p[0].contains(p[0][j]));
        }
        assert(s[n] == c);
        lemma_position(s, c, n);
        assert(s.take(n) =~= p[0]);
        assert(s.skip(n + 1) =~= joined(rest, c));
        assert(pieces(s, c) =~= p);
    }
}

proof fn lemma_joined_push(p: Seq<Seq<char>>, x: Seq<char>, c: char)
    requires
        p.len() > 0,
    ensures
        joined(p.push(x), c) == joined(p, c) + seq![c] + x,
    decreases p.len(),
{
    let q = p.push(x);
    if p.len() == 1 {
        assert(q.drop_first() =~= seq![x]);
        reveal_with_fuel(joined, 3);
        assert(joined(q, c) =~= joined(p, c) + seq![c] + x);
    } else {
        let rest = p.drop_first();
        assert(q.drop_first() =~= rest.push(x));
        lemma_joined_push(rest, x, c);
        assert(joined(q, c) =~= joined(p, c) + seq![c] + x);
    }
}

// ---------------------------------------------------------------------------
// Addresses of the older kind
// ---------------------------------------------------------------------------

proof fn lemma_decimal_len(n: nat)
    requires
        n < 256,
    ensures
        1 <= decimal(n).len() <= 3,
{
    reveal_with_fuel(decimal, 4);
}

proof fn lemma_digits_hold(s: Seq<char>, c: char)
    requires
        all_digits(s),
        !is_digit(c),
    ensures
        !s.contains(c),
{
}

proof fn lemma_value_above_zero(s: Seq<char>)
    requires
        all_digits(s),
        s.len() > 0,
        s[0] != '0',
    ensures
        digits_value(s) > 0,
    decreases s.len(),
{
    let rest = s.drop_last();
    assert(is_digit(s[s.len() - 1]));
    assert(is_digit(s[0]));
    reveal_with_fuel(digits_value, 2);
    if s.len() > 1 {
        assert forall|i: int| 0 <= i < rest.len() implies is_digit(#[trigger] rest[i]) by {
            assert(rest[i] == s[i]);
        }
        assert(rest[0] == s[0]);
        lemma_value_above_zero(rest);
    }
}

/// Digits without a needless zero in front are the decimal text of their number.
proof fn lemma_canonical(s: Seq<char>)
    requires
        all_digits(s),
        s.len() > 0,
        s.len() == 1 || s[0] != '0',
    ensures
        digits_value(s) >= 0,
        decimal(digits_value(s) as nat) == s,
    decreases s.len(),
{
    let rest = s.drop_last();
    assert(is_digit(s[s.len() - 1]));
    reveal_with_fuel(digits_value, 2);
    if s.len() == 1 {
        assert(decimal(digits_value(s) as nat) =~= s);
    } else {
        assert forall|i: int| 0 <= i < rest.len() implies is_digit(#[trigger] rest[i]) by {
            assert(rest[i] == s[i]);
        }
        assert(rest[0] == s[0]);
        lemma_canonical(rest);
        lemma_value_above_zero(rest);
        let v = digits_value(s);
        assert(v / 10 == digits_value(rest) && v % 10 == s.last() as int - 48);
        assert(decimal(v as nat) =~= s);
    }
}

proof fn lemma_octet(s: Seq<char>, n: int)
    ensures
        octet_text(s) == Some(n) <==> 0 <= n < 256 && s == decimal(n as nat),
{
    law_digits_are_read(s, 255);
    if 0 <= n < 256 && s == decimal(n as nat) {
        law_decimal(n as nat, 255);
        lemma_decimal_len(n as nat);
    }
    if octet_text(s) == Some(n) {
        lemma_canonical(s);
    }
}

proof fn lemma_octets(a: Ipv4Addr)
    ensures
        Ipv4Addr::value(
            a.octet(0) as int,
            a.octet(1) as int,
            a.octet(2) as int,
            a.octet(3) as int,
        ) == a.bits,
{
    let b = a.bits as int;
    assert(b / 0x1_0000 == b / 0x100 / 0x100 && b / 0x100_0000 == b / 0x100 / 0x100 / 0x100);
    assert(0 <= b / 0x100_0000 < 0x100);
}

proof fn lemma_from_octets(a: int, b: int, c: int, d: int)
    requires
        0 <= a < 256,
        0 <= b < 256,
        0 <= c < 256,
        0 <= d < 256,
    ensures
        0 <= Ipv4Addr::value(a, b, c, d) < 0x1_0000_0000,
        ({
            let x = Ipv4Addr { bits: Ipv4Addr::value(a, b, c, d) as u32 };
            x.octet(0) == a && x.octet(1) == b && x.octet(2) == c && x.octet(3) == d
        }),
{
    let n = Ipv4Addr::value(a, b, c, d);
    assert(n / 0x100_0000 == a);
    assert(n / 0x1_0000 == a * 0x100 + b);
    assert(n / 0x100 == a * 0x1_0000 + b * 0x100 + c);
}

spec fn octet_texts(a: Ipv4Addr) -> Seq<Seq<char>> {
    Seq::new(4, |i: int| decimal(a.octet(i) as nat))
}

proof fn lemma_dotted(a: Ipv4Addr)
    ensures
        a.dotted() == joined(octet_texts(a), '.'),
        forall|i: int|
            0 <= i < 4 ==> !(#[trigger] octet_texts(a)[i]).contains('.') && all_digits(
                octet_texts(a)[i],
            ),
        pieces(a.dotted(), '.') == octet_texts(a),
{
    let p = octet_texts(a);
    reveal_with_fuel(joined, 5);
    assert(p.drop_first().drop_first().drop_first().len() == 1);
    assert(a.dotted() =~= joined(p, '.'));
    assert forall|i: int| 0 <= i < 4 implies !(#[trigger] p[i]).contains('.') && all_digits(
        p[i],
    ) by {
        law_decimal(a.octet(i) as nat, 255);
        lemma_digits_hold(p[i], '.');
    }
    lemma_pieces_of_joined(p, '.');
}

/// A text writes an address of the older kind exactly where it is the text of that
/// address: four numbers in decimal with dots between them.
pub proof fn law_ipv4_text(s: Seq<char>, a: Ipv4Addr)
    ensures
        ipv4_text(s) == Some(a) <==> s == a.dotted(),
{
    if s == a.dotted() {
        let p = octet_texts(a);
        lemma_dotted(a);
        lemma_octet(p[0], a.octet(0) as int);
        lemma_octet(p[1], a.octet(1) as int);
        lemma_octet(p[2], a.octet(2) as int);
        lemma_octet(p[3], a.octet(3) as int);
        lemma_octets(a);
    }
    if ipv4_text(s) == Some(a) {
        let p = pieces(s, '.');
        law_pieces(s, '.');
        let (o0, o1, o2, o3) = (
            octet_text(p[0])->0,
            octet_text(p[1])->0,
            octet_text(p[2])->0,
            octet_text(p[3])->0,
        );
        lemma_octet(p[0], o0);
        lemma_octet(p[1], o1);
        lemma_octet(p[2], o2);
        lemma_octet(p[3], o3);
        lemma_from_octets(o0, o1, o2, o3);
        lemma_dotted(a);
        assert(p =~= octet_texts(a));
    }
}

// ---------------------------------------------------------------------------
// Addresses of the newer kind
// ---------------------------------------------------------------------------

proof fn lemma_hex_len(n: nat, width: nat, k: nat)
    requires
        k >= 1,
        width <= k,
        k == 1 ==> n < 0x10,
        k == 2 ==> n < 0x100,
        k == 3 ==> n < 0x1000,
        k == 4 ==> n < 0x1_0000,
        k <= 4,
    ensures
        hex_padded(n, width).len() <= k,
    decreases k,
{
    if !(n < 16 && width <= 1) {
        lemma_hex_len(
            n / 16,
            if width == 0 {
                0
            } else {
                (width - 1) as nat
            },
            (k - 1) as nat,
        );
    }
}

proof fn lemma_read_hex(s: Seq<char>)
    requires
        forall|i: int| 0 <= i < s.len() ==> is_hex_digit(#[trigger] s[i]),
    ensures
        read_hex(s) == Some(hex_number(s)),
    decreases s.len(),
{
    if s.len() > 0 {
        let rest = s.drop_last();
        assert forall|i: int| 0 <= i < rest.len() implies is_hex_digit(#[trigger] rest[i]) by {
            assert(rest[i] == s[i]);
        }
        lemma_read_hex(rest);
        assert(is_hex_digit(s[s.len() - 1]));
        assert(hex_value(s.last()) == Some(hex_digit_value(s.last())));
    }
}

/// The texts of some segments.
spec fn hexes(w: Seq<u16>) -> Seq<Seq<char>> {
    Seq::new(w.len(), |i: int| hex_padded(w[i] as nat, 1))
}

proof fn lemma_hexes(w: Seq<u16>)
    ensures
        forall|i: int|
            0 <= i < w.len() ==> {
                let h = #[trigger] hexes(w)[i];
                &&& h.len() > 0
                &&& segment_text(h) == Some(w[i])
                &&& !h.contains(':')
                &&& !h.contains('.')
                &&& forall|j: int| 0 <= j < h.len() ==> is_hex_digit(#[trigger] h[j])
            },
{
    assert forall|i: int| 0 <= i < w.len() implies ({
        let h = #[trigger] hexes(w)[i];
        &&& h.len() > 0
        &&& segment_text(h) == Some(w[i])
        &&& !h.contains(':')
        &&& !h.contains('.')
        &&& forall|j: int| 0 <= j < h.len() ==> is_hex_digit(#[trigger] h[j])
    }) by {
        let n = w[i] as nat;
        law_hexadecimal(n, 1);
        lemma_hex_len(n, 1, 4);
        lemma_read_hex(hex_padded(n, 1));
    }
}

proof fn lemma_segments(w: Seq<u16>)
    ensures
        segments(hexes(w)) == Some(w),
    decreases w.len(),
{
    if w.len() > 0 {
        let rest = w.drop_last();
        lemma_segments(rest);
        lemma_hexes(w);
        assert(hexes(w).drop_last() =~= hexes(rest));
        assert(hexes(w)[w.len() - 1] == hexes(w).last());
        assert(rest.push(w.last()) =~= w);
    } else {
        assert(hexes(w) =~= Seq::<Seq<char>>::empty());
        assert(w =~= Seq::<u16>::empty());
    }
}

proof fn lemma_colons(w: Seq<u16>)
    ensures
        colons(w) == joined(hexes(w), ':'),
    decreases w.len(),
{
    if w.len() == 0 {
        assert(hexes(w) =~= Seq::<Seq<char>>::empty());
    } else if w.len() > 1 {
        let rest = w.drop_last();
        lemma_colons(rest);
        assert(hexes(w) =~= hexes(rest).push(hex_padded(w.last() as nat, 1)));
        lemma_joined_push(hexes(rest), hex_padded(w.last() as nat, 1), ':');
        reveal_strlit(":");
        assert(":"@ =~= seq![':']);
    } else {
        assert(hexes(w)[0] == hex_padded(w[0] as nat, 1));
    }
}

proof fn lemma_words(w: Seq<u16>)
    ensures
        head_words(colons(w)) == Some(w),
        tail_words(colons(w)) == Some(w),
{
    lemma_colons(w);
    lemma_hexes(w);
    lemma_segments(w);
    if w.len() == 0 {
        assert(colons(w) =~= Seq::<char>::empty());
        assert(w =~= Seq::<u16>::empty());
    } else {
        let p = hexes(w);
        lemma_pieces_of_joined(p, ':');
        assert(colons(w).len() > 0) by {
            assert(p[0].len() > 0);
            if w.len() > 1 {
                assert(joined(p, ':').len() > 0);
            }
        }
        let last = p.last();
        assert(last == p[w.len() - 1]);
        if let Some(a) = ipv4_text(last) {
            law_ipv4_text(last, a);
            lemma_has_dot(a);
        }
    }
}

proof fn lemma_has_dot(a: Ipv4Addr)
    ensures
        a.dotted().contains('.'),
{
    let n = decimal(a.octet(0) as nat).len() as int;
    assert(a.dotted()[n] == '.');
}

proof fn lemma_gap(s: Seq<char>, g: int)
    requires
        0 <= g <= s.len(),
        forall|i: int| 0 <= i < g && i + 1 < s.len() ==> !(#[trigger] s[i] == ':' && s[i + 1] == ':'),
        g == s.len() || (g + 1 < s.len() && s[g] == ':' && s[g + 1] == ':'),
    ensures
        gap(s) == g,
    decreases s.len(),
{
    if s.len() >= 2 && g > 0 {
        assert(!(s[0] == ':' && s[1] == ':'));
        let rest = s.drop_first();
        assert forall|i: int| 0 <= i < g - 1 && i + 1 < rest.len() implies !(#[trigger] rest[i]
            == ':' && rest[i + 1] == ':') by {
            assert(rest[i] == s[i + 1] && rest[i + 1] == s[i + 2]);
        }
        lemma_gap(rest, g - 1);
    }
}

/// Between single colons no two stand side by side, and none stands at an end.
proof fn lemma_no_double(p: Seq<Seq<char>>)
    requires
        p.len() > 0,
        forall|i: int|
            0 <= i < p.len() ==> (#[trigger] p[i]).len() > 0 && !p[i].contains(':'),
    ensures
        ({
            let s = joined(p, ':');
            &&& s.len() > 0
            &&& s[0] != ':'
            &&& s.last() != ':'
            &&& forall|i: int|
                0 <= i && i + 1 < s.len() ==> !(#[trigger] s[i] == ':' && s[i + 1] == ':')
        }),
    decreases p.len(),
{
    let s = joined(p, ':');
    let a = p[0];
    let n = a.len() as int;
    assert(a.len() > 0 && !a.contains(':'));
    assert forall|i: int| 0 <= i < n implies #[trigger] a[i] != ':' by {
        assert(a.contains(a[i]));
    }
    if p.len() > 1 {
        let rest = p.drop_first();
        assert forall|i: int| 0 <= i < rest.len() implies (#[trigger] rest[i]).len() > 0
            && !rest[i].contains(':') by {
            assert(rest[i] == p[i + 1]);
        }
        lemma_no_double(rest);
        let t = joined(rest, ':');
        assert(s == a + seq![':'] + t);
        assert forall|i: int| 0 <= i && i + 1 < s.len() implies !(#[trigger] s[i] == ':' && s[i + 1]
            == ':') by {
            if i < n {
                assert(s[i] == a[i]);
            } else if i == n {
                assert(s[i + 1] == t[0]);
            } else {
                assert(s[i] == t[i - n - 1] && s[i + 1] == t[i - n]);
            }
        }
        assert(s[0] == a[0]);
        assert(s.last() == t.last());
    }
}

proof fn lemma_colons_single(w: Seq<u16>)
    ensures
        ({
            let s = colons(w);
            &&& w.len() > 0 ==> s.len() > 0 && s[0] != ':' && s.last() != ':'
            &&& w.len() == 0 ==> s.len() == 0
            &&& forall|i: int|
                0 <= i && i + 1 < s.len() ==> !(#[trigger] s[i] == ':' && s[i + 1] == ':')
        }),
{
    lemma_colons(w);
    lemma_hexes(w);
    if w.len() > 0 {
        lemma_no_double(hexes(w));
    }
}

proof fn lemma_zeros(s: Seq<u16>, i: int)
    requires
        0 <= i <= s.len(),
    ensures
        i + zeros_from(s, i) <= s.len(),
        forall|j: int| i <= j < i + zeros_from(s, i) ==> #[trigger] s[j] == 0,
        i + zeros_from(s, i) < s.len() ==> s[i + zeros_from(s, i)] != 0,
    decreases s.len() - i,
{
    if i < s.len() && s[i] == 0 {
        lemma_zeros(s, i + 1);
    }
}

proof fn lemma_longest(s: Seq<u16>, i: int)
    requires
        0 <= i <= s.len(),
    ensures
        ({
            let (start, len) = longest_from(s, i);
            &&& i <= start
            &&& start + len <= s.len()
            &&& len == zeros_from(s, start)
            &&& forall|j: int| i <= j < s.len() ==> #[trigger] zeros_from(s, j) <= len
            &&& forall|j: int| i <= j < start ==> #[trigger] zeros_from(s, j) < len || len == 0
        }),
    decreases s.len() - i,
{
    if i < s.len() {
        lemma_longest(s, i + 1);
        lemma_zeros(s, i);
        let (start, len) = longest_from(s, i + 1);
        assert forall|j: int| i <= j < s.len() implies #[trigger] zeros_from(s, j)
            <= longest_from(s, i).1 by {
            if j > i {
                assert(zeros_from(s, j) <= len);
            }
        }
    }
}

/// The row of zeros that is left out of the text of an address is the longest, and
/// of several the first.
pub proof fn law_longest_row(s: Seq<u16>, j: int)
    requires
        0 <= j < s.len(),
    ensures
        ({
            let (start, len) = longest_from(s, 0);
            &&& 0 <= start
            &&& start + len <= s.len()
            &&& forall|k: int| start <= k < start + len ==> #[trigger] s[k] == 0
            &&& zeros_from(s, j) <= len
            &&& len > 0 && j < start ==> zeros_from(s, j) < len
        }),
{
    lemma_longest(s, 0);
    lemma_zeros(s, longest_from(s, 0).0);
}

/// The eight segments of an address make its number.
proof fn lemma_segment_value(a: Ipv6Addr)
    ensures
        Ipv6Addr::value(crate::address_text::segments(a)) == a.bits,
{
    let b = a.bits as int;
    let k: int = 0x1_0000;
    lemma_div_denominator(b, 0x1_0000, k);
    lemma_div_denominator(b, 0x1_0000_0000, k);
    lemma_div_denominator(b, 0x1_0000_0000_0000, k);
    lemma_div_denominator(b, 0x1_0000_0000_0000_0000, k);
    lemma_div_denominator(b, 0x1_0000_0000_0000_0000_0000, k);
    lemma_div_denominator(b, 0x1_0000_0000_0000_0000_0000_0000, k);
    let b1 = b / 0x1_0000;
    let b2 = b / 0x1_0000_0000;
    let b3 = b / 0x1_0000_0000_0000;
    let b4 = b / 0x1_0000_0000_0000_0000;
    let b5 = b / 0x1_0000_0000_0000_0000_0000;
    let b6 = b / 0x1_0000_0000_0000_0000_0000_0000;
    let b7 = b / 0x1_0000_0000_0000_0000_0000_0000_0000;
    assert(b2 == b1 / k && b3 == b2 / k && b4 == b3 / k && b5 == b4 / k && b6 == b5 / k && b7
        == b6 / k);
    assert(b6 == b7 * k + b6 % k);
    assert(b5 == b6 * k + b5 % k);
    assert(b4 == b5 * k + b4 % k);
    assert(b3 == b4 * k + b3 % k);
    assert(b2 == b3 * k + b2 % k);
    assert(b1 == b2 * k + b1 % k);
    assert(b == b1 * k + b % k);
    assert(0 <= b7 < k);
    let w = crate::address_text::segments(a);
    assert(w[0] == b7 && w[1] == b6 % k && w[2] == b5 % k && w[3] == b4 % k && w[4] == b3 % k
        && w[5] == b2 % k && w[6] == b1 % k && w[7] == b % k);
}

/// The text of an address of the newer kind reads back as that address.
pub proof fn law_ipv6_reads_back(a: Ipv6Addr)
    ensures
        ipv6_text(ipv6_words(a)) == Some(a),
{
    let w = crate::address_text::segments(a);
    let (start, len) = longest_from(w, 0);
    let s = ipv6_words(a);
    lemma_segment_value(a);
    if a.bits / 0x1_0000_0000 == 0xffff {
        lemma_mapped(a);
    } else if len > 1 {
        let (h, t) = (w.subrange(0, start), w.subrange(start + len, 8));
        lemma_longest(w, 0);
        lemma_zeros(w, start);
        reveal_strlit("::");
        assert("::"@ =~= seq![':', ':']);
        let (x, y) = (colons(h), colons(t));
        let n = x.len() as int;
        lemma_colons_single(h);
        assert(s == x + "::"@ + y);
        assert forall|i: int| 0 <= i < n && i + 1 < s.len() implies !(#[trigger] s[i] == ':' && s[i
            + 1] == ':') by {
            assert(s[i] == x[i]);
            if i + 1 < n {
                assert(s[i + 1] == x[i + 1]);
            } else {
                assert(x[i] == x.last());
            }
        }
        assert(s[n] == ':' && s[n + 1] == ':');
        lemma_gap(s, n);
        assert(s.take(n) =~= x);
        assert(s.skip(n + 2) =~= y);
        lemma_words(h);
        lemma_words(t);
        let filled = h + Seq::new((8 - h.len() - t.len()) as nat, |i: int| 0u16) + t;
        assert(filled =~= w) by {
            assert forall|i: int| 0 <= i < 8 implies filled[i] == #[trigger] w[i] by {
                if start <= i < start + len {
                    assert(w[i] == 0);
                }
            }
        }
        assert(crate::address::ipv6_words(s) == Some(w));
    } else {
        lemma_colons_single(w);
        lemma_gap(s, s.len() as int);
        lemma_words(w);
        assert(crate::address::ipv6_words(s) == Some(w));
    }
}

/// An address that stands for one of the older kind reads back too.
proof fn lemma_mapped(a: Ipv6Addr)
    requires
        a.bits / 0x1_0000_0000 == 0xffff,
    ensures
        ipv6_text(ipv6_words(a)) == Some(a),
{
    let low = Ipv4Addr { bits: (a.bits % 0x1_0000_0000) as u32 };
    let s = ipv6_words(a);
    let d = low.dotted();
    reveal_strlit("::ffff:");
    reveal_strlit("ffff");
    let tail = s.skip(2);
    assert(s[0] == ':' && s[1] == ':');
    lemma_gap(s, 0);
    assert(s.take(0) =~= Seq::<char>::empty());
    let p = seq!["ffff"@, d];
    assert(p.drop_first() =~= seq![d]);
    reveal_with_fuel(joined, 3);
    assert(tail =~= joined(p, ':'));
    lemma_dotted(low);
    assert(!d.contains(':')) by {
        lemma_dotted_chars(low);
    }
    assert forall|i: int| 0 <= i < p.len() implies !(#[trigger] p[i]).contains(':') by {
        if i == 0 {
            assert("ffff"@ =~= seq!['f', 'f', 'f', 'f']);
        }
    }
    lemma_pieces_of_joined(p, ':');
    law_ipv4_text(d, low);
    let f = "ffff"@;
    assert forall|i: int| 0 <= i < f.len() implies is_hex_digit(#[trigger] f[i]) by {}
    lemma_read_hex(f);
    assert(hex_number(f) == 0xffff) by {
        reveal_with_fuel(hex_number, 5);
        assert(f.drop_last().drop_last().drop_last().drop_last().len() == 0);
    }
    assert(segment_text(f) == Some(0xffffu16));
    assert(p.drop_last() =~= seq![f]);
    reveal_with_fuel(segments, 3);
    assert(seq![f].drop_last() =~= Seq::<Seq<char>>::empty());
    assert(segments(seq![f]) == Some(seq![0xffffu16])) by {
        assert(Seq::<u16>::empty().push(0xffffu16) =~= seq![0xffffu16]);
    }
    let hi = (low.bits / 0x1_0000) as u16;
    let lo = (low.bits % 0x1_0000) as u16;
    let t = seq![0xffffu16].push(hi).push(lo);
    assert(tail_words(tail) == Some(t));
    let w = Seq::<u16>::empty() + Seq::new(5, |i: int| 0u16) + t;
    assert(crate::address::ipv6_words(s) == Some(w));
    assert(w[5] == 0xffff && w[6] == hi && w[7] == lo);
    assert(a.bits as int == 0xffff * 0x1_0000_0000 + low.bits as int);
    assert(low.bits as int == hi as int * 0x1_0000 + lo as int);
}

/// The text of an address of the older kind is made of digits and dots.
proof fn lemma_dotted_chars(a: Ipv4Addr)
    ensures
        forall|i: int|
            0 <= i < a.dotted().len() ==> is_digit(#[trigger] a.dotted()[i]) || a.dotted()[i]
                == '.',
        a.dotted().len() > 0,
        is_digit(a.dotted()[0]),
{
    law_decimal(a.octet(0) as nat, 255);
    law_decimal(a.octet(1) as nat, 255);
    law_decimal(a.octet(2) as nat, 255);
    law_decimal(a.octet(3) as nat, 255);
    let (p, q, r, s) = (
        decimal(a.octet(0) as nat),
        decimal(a.octet(1) as nat),
        decimal(a.octet(2) as nat),
        decimal(a.octet(3) as nat),
    );
    assert(a.dotted() == p + seq!['.'] + q + seq!['.'] + r + seq!['.'] + s);
    let (i1, i2, i3) = (p.len() as int, p.len() + 1 + q.len(), p.len() + 2 + q.len() + r.len());
    assert forall|i: int| 0 <= i < a.dotted().len() implies is_digit(#[trigger] a.dotted()[i])
        || a.dotted()[i] == '.' by {
        if i < i1 {
            assert(a.dotted()[i] == p[i]);
        } else if i1 < i < i2 {
            assert(a.dotted()[i] == q[i - i1 - 1]);
        } else if i2 < i < i3 {
            assert(a.dotted()[i] == r[i - i2 - 1]);
        } else if i3 < i {
            assert(a.dotted()[i] == s[i - i3 - 1]);
        }
    }
    assert(a.dotted()[0] == p[0]);
}

/// Whether a character can stand in the text of an address.
spec fn in_address(c: char) -> bool {
    is_hex_digit(c) || c == ':' || c == '.'
}

proof fn lemma_joined_chars(p: Seq<Seq<char>>)
    requires
        forall|i: int, j: int|
            0 <= i < p.len() && 0 <= j < p[i].len() ==> in_address(#[trigger] p[i][j]),
    ensures
        forall|i: int| 0 <= i < joined(p, ':').len() ==> in_address(#[trigger] joined(p, ':')[i]),
    decreases p.len(),
{
    let s = joined(p, ':');
    if p.len() > 1 {
        let rest = p.drop_first();
        assert forall|i: int, j: int| 0 <= i < rest.len() && 0 <= j < rest[i].len() implies in_address(
            #[trigger] rest[i][j],
        ) by {
            assert(rest[i][j] == p[i + 1][j]);
        }
        lemma_joined_chars(rest);
        let (a, t) = (p[0], joined(rest, ':'));
        assert forall|i: int| 0 <= i < s.len() implies in_address(#[trigger] s[i]) by {
            if i < a.len() {
                assert(s[i] == p[0][i]);
            } else if i > a.len() {
                assert(s[i] == t[i - a.len() - 1]);
            }
        }
    } else if p.len() == 1 {
        assert forall|i: int| 0 <= i < s.len() implies in_address(#[trigger] s[i]) by {
            assert(s[i] == p[0][i]);
        }
    }
}

proof fn lemma_colons_chars(w: Seq<u16>)
    ensures
        forall|i: int| 0 <= i < colons(w).len() ==> in_address(#[trigger] colons(w)[i]),
{
    lemma_colons(w);
    lemma_hexes(w);
    let p = hexes(w);
    assert forall|i: int, j: int| 0 <= i < p.len() && 0 <= j < p[i].len() implies in_address(
        #[trigger] p[i][j],
    ) by {
        assert(is_hex_digit(p[i][j]));
    }
    lemma_joined_chars(p);
}

/// The text of an address of the newer kind is made of hexadecimal digits, colons
/// and dots, and has a colon.
proof fn lemma_ipv6_chars(a: Ipv6Addr)
    ensures
        forall|i: int| 0 <= i < ipv6_words(a).len() ==> in_address(#[trigger] ipv6_words(a)[i]),
        ipv6_words(a).contains(':'),
{
    let s = ipv6_words(a);
    let w = crate::address_text::segments(a);
    let (start, len) = longest_from(w, 0);
    reveal_strlit("::ffff:");
    reveal_strlit("::");
    if a.bits / 0x1_0000_0000 == 0xffff {
        let low = Ipv4Addr { bits: (a.bits % 0x1_0000_0000) as u32 };
        lemma_dotted_chars(low);
        assert(s[0] == ':');
        assert forall|i: int| 0 <= i < s.len() implies in_address(#[trigger] s[i]) by {
            if i >= 7 {
                assert(s[i] == low.dotted()[i - 7]);
            }
        }
    } else if len > 1 {
        let (h, t) = (w.subrange(0, start), w.subrange(start + len, 8));
        lemma_colons_chars(h);
        lemma_colons_chars(t);
        let n = colons(h).len() as int;
        assert(s[n] == ':');
        assert forall|i: int| 0 <= i < s.len() implies in_address(#[trigger] s[i]) by {
            if i < n {
                assert(s[i] == colons(h)[i]);
            } else if i >= n + 2 {
                assert(s[i] == colons(t)[i - n - 2]);
            }
        }
    } else {
        lemma_colons_chars(w);
        let rest = w.drop_last();
        reveal_strlit(":");
        assert(s[colons(rest).len() as int] == ':');
    }
}

/// The text of an address reads back as that address.
pub proof fn law_ip_reads_back(a: IpAddr)
    ensures
        ip_text(ip_words(a)) == Some(a),
{
    match a {
        IpAddr::V4(v4) => law_ipv4_text(v4.dotted(), v4),
        IpAddr::V6(v6) => {
            let s = ipv6_words(v6);
            law_ipv6_reads_back(v6);
            lemma_ipv6_chars(v6);
            if let Some(v4) = ipv4_text(s) {
                law_ipv4_text(s, v4);
                lemma_dotted_chars(v4);
                let i = s.index_of(':');
                assert(s[i] == ':');
                assert(is_digit(v4.dotted()[i]) || v4.dotted()[i] == '.');
            }
        },
    }
}

// ---------------------------------------------------------------------------
// Addresses with a port
// ---------------------------------------------------------------------------

proof fn lemma_port(n: nat, max: int)
    requires
        n <= max,
    ensures
        digits_text(decimal(n), max) == Some(n as int),
        all_digits(decimal(n)),
        decimal(n).len() > 0,
{
    law_decimal(n, max);
}

/// The text of an address with a port reads back as that address. A flow label is
/// not written, and so has to be 0.
pub proof fn law_socket_reads_back(a: SocketAddr)
    requires
        a matches SocketAddr::V6(v6) ==> v6.flowinfo == 0,
    ensures
        socket_text(socket_words(a)) == Some(a),
{
    let s = socket_words(a);
    reveal_strlit(":");
    match a {
        SocketAddr::V4(v4) => {
            let d = v4.ip.dotted();
            let n = d.len() as int;
            lemma_dotted_chars(v4.ip);
            assert forall|j: int| 0 <= j < n implies s[j] != ':' by {
                assert(s[j] == d[j]);
                assert(is_digit(d[j]) || d[j] == '.');
            }
            lemma_position(s, ':', n);
            assert(s.take(n) =~= d);
            assert(s.skip(n + 1) =~= decimal(v4.port as nat));
            law_ipv4_text(d, v4.ip);
            lemma_port(v4.port as nat, 0xffff);
        },
        SocketAddr::V6(v6) => {
            lemma_not_v4(v6);
            lemma_v6_socket(v6);
        },
    }
}

proof fn lemma_not_v4(a: SocketAddrV6)
    ensures
        socket_v4_text(socket_words(SocketAddr::V6(a))) is None,
{
    let s = socket_words(SocketAddr::V6(a));
    reveal_strlit("[");
    assert(s[0] == '[');
    let p = position(s, ':');
    lemma_position_bounds(s, ':');
    if p < s.len() {
        let t = s.take(p);
        if let Some(v4) = ipv4_text(t) {
            law_ipv4_text(t, v4);
            lemma_dotted_chars(v4);
            assert(t[0] == s[0]);
            assert(is_digit(t[0]));
        }
    }
}

proof fn lemma_v6_socket(a: SocketAddrV6)
    requires
        a.flowinfo == 0,
    ensures
        socket_v6_text(socket_words(SocketAddr::V6(a))) == Some(SocketAddr::V6(a)),
{
    let s = socket_words(SocketAddr::V6(a));
    let w = ipv6_words(a.ip);
    reveal_strlit("[");
    reveal_strlit("]:");
    reveal_strlit("%");
    reveal_strlit("");
    let scope = if a.scope_id == 0 {
        ""@
    } else {
        "%"@ + decimal(a.scope_id as nat)
    };
    let inner = w + scope;
    let port = decimal(a.port as nat);
    lemma_ipv6_chars(a.ip);
    law_ipv6_reads_back(a.ip);
    lemma_port(a.scope_id as nat, 0xffff_ffff);
    lemma_port(a.port as nat, 0xffff);
    let t = s.skip(1);
    let n = inner.len() as int;
    assert(t =~= inner + "]:"@ + port);
    assert forall|j: int| 0 <= j < n implies t[j] != ']' by {
        if j < w.len() {
            assert(t[j] == w[j]);
            assert(in_address(w[j]));
        } else if j > w.len() {
            let z = decimal(a.scope_id as nat);
            assert(t[j] == z[j - w.len() - 1]);
            assert(is_digit(z[j - w.len() - 1]));
        }
    }
    assert(t[n] == ']');
    lemma_position(t, ']', n);
    assert(t.take(n) =~= inner);
    let rest = t.skip(n + 1);
    assert(rest[0] == ':');
    assert(rest.skip(1) =~= port);
    assert forall|j: int| 0 <= j < w.len() implies w[j] != '%' by {
        assert(in_address(w[j]));
    }
    if a.scope_id == 0 {
        assert(inner =~= w);
        lemma_position(inner, '%', w.len() as int);
    } else {
        assert forall|j: int| 0 <= j < w.len() implies inner[j] != '%' by {
            assert(inner[j] == w[j]);
        }
        assert(inner[w.len() as int] == '%');
        lemma_position(inner, '%', w.len() as int);
        assert(inner.take(w.len() as int) =~= w);
        assert(inner.skip(w.len() as int + 1) =~= decimal(a.scope_id as nat));
    }
    assert(scoped_text(inner) == Some((a.ip, a.scope_id as int)));
}

// ---------------------------------------------------------------------------
// Ranges and lists
// ---------------------------------------------------------------------------

proof fn lemma_ip_chars(a: IpAddr)
    ensures
        forall|i: int| 0 <= i < ip_words(a).len() ==> in_address(#[trigger] ip_words(a)[i]),
{
    match a {
        IpAddr::V4(v4) => {
            lemma_dotted_chars(v4);
            assert forall|i: int| 0 <= i < v4.dotted().len() implies in_address(
                #[trigger] v4.dotted()[i],
            ) by {
                assert(is_digit(v4.dotted()[i]) || v4.dotted()[i] == '.');
            }
        },
        IpAddr::V6(v6) => lemma_ipv6_chars(v6),
    }
}

proof fn lemma_ip_holds(a: IpAddr, c: char)
    requires
        !in_address(c),
    ensures
        !ip_words(a).contains(c),
{
    lemma_ip_chars(a);
    if ip_words(a).contains(c) {
        let i = ip_words(a).index_of(c);
        assert(in_address(ip_words(a)[i]));
    }
}

proof fn lemma_two_parts(a: Seq<char>, b: Seq<char>)
    requires
        !a.contains('/'),
        !b.contains('/'),
    ensures
        pieces(a + seq!['/'] + b, '/') == seq![a, b],
{
    let p = seq![a, b];
    assert(p.drop_first() =~= seq![b]);
    reveal_with_fuel(joined, 3);
    lemma_pieces_of_joined(p, '/');
}

/// A text with one slash is a range exactly where an address stands before it and a
/// number of up to 255 behind it; it is then the range of these two. What is wrong
/// is told of the address first.
pub proof fn law_range_of_two_parts(a: Seq<char>, b: Seq<char>)
    requires
        !a.contains('/'),
        !b.contains('/'),
    ensures
        ({
            let s = a + seq!['/'] + b;
            &&& cidr_of(s) is Ok <==> ip_text(a) is Some && read_number(b, 255) is Ok
            &&& cidr_of(s) matches Ok(r) ==> Some(r.0) == ip_text(a) && (read_number(b, 255)
                matches Ok(n) && r.1 as int == n)
            &&& ip_text(a) is None ==> cidr_of(s) == Err::<(IpAddr, u8), Seq<char>>(
                "Invalid IP in CIDR: "@ + "invalid IP address syntax"@,
            )
            &&& destination_of(s) is Some <==> ipv4_text(a) is Some && read_number(b, 255) is Ok
            &&& destination_of(s) matches Some(r) ==> Some(r.0) == ipv4_text(a) && (read_number(
                b,
                255,
            ) matches Ok(n) && r.1 as int == n)
        }),
{
    lemma_two_parts(a, b);
    lemma_read_number_bound(b, 255);
}

/// A text with no slash, or with more than one, is no range.
pub proof fn law_range_has_one_slash(s: Seq<char>)
    requires
        forall|i: int| 0 <= i < s.len() && #[trigger] s[i] == '/' ==> exists|j: int|
            0 <= j < s.len() && j != i && #[trigger] s[j] == '/',
    ensures
        cidr_of(s) == Err::<(IpAddr, u8), Seq<char>>("Invalid CIDR format: "@ + s),
        destination_of(s) is None,
{
    let p = pieces(s, '/');
    law_pieces(s, '/');
    if p.len() == 2 {
        reveal_with_fuel(joined, 3);
        let n = p[0].len() as int;
        assert(s == p[0] + seq!['/'] + p[1]) by {
            assert(p.drop_first() =~= seq![p[1]]);
        }
        assert(!p[0].contains('/') && !p[1].contains('/'));
        assert(s[n] == '/');
        let j = choose|j: int| 0 <= j < s.len() && j != n && #[trigger] s[j] == '/';
        if j < n {
            assert(p[0][j] == s[j]);
        } else {
            assert(p[1][j - n - 1] == s[j]);
        }
    }
}

/// The text of an address, a slash and the text of a length read back as a range.
pub proof fn law_range_reads_back(a: IpAddr, n: u8)
    ensures
        cidr_of(ip_words(a) + seq!['/'] + decimal(n as nat)) == Ok::<(IpAddr, u8), Seq<char>>(
            (a, n),
        ),
        a matches IpAddr::V4(v4) ==> destination_of(
            v4.dotted() + seq!['/'] + decimal(n as nat),
        ) == Some((v4, n)),
{
    let d = decimal(n as nat);
    law_decimal(n as nat, 255);
    law_ip_reads_back(a);
    lemma_ip_holds(a, '/');
    lemma_digits_hold(d, '/');
    law_range_of_two_parts(ip_words(a), d);
    law_numbers_are_read(d, 255);
    assert(d[0] != '+');
    if let IpAddr::V4(v4) = a {
        law_ipv4_text(v4.dotted(), v4);
    }
}

spec fn server_texts(servers: Seq<IpAddr>) -> Seq<Seq<char>> {
    Seq::new(servers.len(), |i: int| ip_words(servers[i]))
}

proof fn lemma_comma_list(servers: Seq<IpAddr>)
    ensures
        comma_list(servers) == joined(server_texts(servers), ','),
    decreases servers.len(),
{
    reveal_strlit(",");
    if servers.len() > 1 {
        let rest = servers.drop_last();
        lemma_comma_list(rest);
        assert(server_texts(servers) =~= server_texts(rest).push(ip_words(servers.last())));
        lemma_joined_push(server_texts(rest), ip_words(servers.last()), ',');
        assert(","@ =~= seq![',']);
    } else if servers.len() == 1 {
        assert(server_texts(servers)[0] == ip_words(servers[0]));
    }
}

/// The setting for some name servers has their addresses, all of them and in their
/// order, with commas between them.
pub proof fn law_name_servers(servers: Seq<IpAddr>, i: int)
    requires
        0 <= i < servers.len(),
    ensures
        ({
            let p = pieces(comma_list(servers), ',');
            &&& p.len() == servers.len()
            &&& ip_text(p[i]) == Some(servers[i])
        }),
{
    let p = server_texts(servers);
    lemma_comma_list(servers);
    assert forall|j: int| 0 <= j < p.len() implies !(#[trigger] p[j]).contains(',') by {
        lemma_ip_holds(servers[j], ',');
    }
    lemma_pieces_of_joined(p, ',');
    law_ip_reads_back(servers[i]);
}

} // verus!
