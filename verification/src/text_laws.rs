//! What trimming, splitting, and writing and reading numbers come to.

use crate::text::{
    decimal, digit, hex_digit, hex_padded, is_digit, is_space, lines, pieces, position, read_digits,
    read_number, signed_decimal, split_once, text_less, trim_end, trim_start, trimmed, NumberFault,
};
use vstd::prelude::*;

verus! {

// ---------------------------------------------------------------------------
// Trimming
// ---------------------------------------------------------------------------

proof fn lemma_trim_start(s: Seq<char>) -> (a: int)
    ensures
        0 <= a <= s.len(),
        trim_start(s) == s.skip(a),
        forall|i: int| 0 <= i < a ==> is_space(#[trigger] s[i]),
        a < s.len() ==> !is_space(s[a]),
    decreases s.len(),
{
    if s.len() > 0 && is_space(s[0]) {
        let rest = s.drop_first();
        let b = lemma_trim_start(rest);
        assert(rest.skip(b) =~= s.skip(b + 1));
        assert forall|i: int| 0 <= i < b + 1 implies is_space(#[trigger] s[i]) by {
            if i > 0 {
                assert(rest[i - 1] == s[i]);
            }
        }
        if b < rest.len() {
            assert(rest[b] == s[b + 1]);
        }
        b + 1
    } else {
        assert(s.skip(0) =~= s);
        0
    }
}

proof fn lemma_trim_end(s: Seq<char>) -> (b: int)
    ensures
        0 <= b <= s.len(),
        trim_end(s) == s.take(b),
        forall|i: int| b <= i < s.len() ==> is_space(#[trigger] s[i]),
        b > 0 ==> !is_space(s[b - 1]),
    decreases s.len(),
{
    if s.len() > 0 && is_space(s.last()) {
        let rest = s.drop_last();
        let b = lemma_trim_end(rest);
        assert(rest.take(b) =~= s.take(b));
        assert forall|i: int| b <= i < s.len() implies is_space(#[trigger] s[i]) by {
            if i < rest.len() {
                assert(rest[i] == s[i]);
            }
        }
        if b > 0 {
            assert(rest[b - 1] == s[b - 1]);
        }
        b
    } else {
        assert(s.take(s.len() as int) =~= s);
        s.len() as int
    }
}

/// Trimming takes off the white space at both ends, and nothing else: what is left
/// is a part of the text that begins and ends with no white space, and all around
/// it is white space.
pub proof fn law_trimming(s: Seq<char>) -> (ends: (int, int))
    ensures
        0 <= ends.0 <= ends.1 <= s.len(),
        trimmed(s) == s.subrange(ends.0, ends.1),
        forall|i: int| 0 <= i < ends.0 || ends.1 <= i < s.len() ==> is_space(#[trigger] s[i]),
        ends.0 < ends.1 ==> !is_space(s[ends.0]) && !is_space(s[ends.1 - 1]),
{
    let a = lemma_trim_start(s);
    let t = s.skip(a);
    let b = lemma_trim_end(t);
    assert(t.take(b) =~= s.subrange(a, a + b));
    assert forall|i: int| 0 <= i < a || a + b <= i < s.len() implies is_space(#[trigger] s[i]) by {
        if i >= a {
            assert(t[i - a] == s[i]);
        }
    }
    if b > 0 {
        assert(t[b - 1] == s[a + b - 1]);
        assert(t[0] == s[a]);
    }
    (a, a + b)
}

// ---------------------------------------------------------------------------
// Splitting
// ---------------------------------------------------------------------------

/// Some texts with a character between them.
pub open spec fn joined(p: Seq<Seq<char>>, c: char) -> Seq<char>
    decreases p.len(),
{
    if p.len() == 0 {
        seq![]
    } else if p.len() == 1 {
        p[0]
    } else {
        p[0] + seq![c] + joined(p.drop_first(), c)
    }
}

/// Some texts with a character behind each.
pub open spec fn ended(p: Seq<Seq<char>>, c: char) -> Seq<char>
    decreases p.len(),
{
    if p.len() == 0 {
        seq![]
    } else {
        p[0] + seq![c] + ended(p.drop_first(), c)
    }
}

proof fn lemma_position_first(s: Seq<char>, c: char)
    ensures
        0 <= position(s, c) <= s.len(),
        forall|i: int| 0 <= i < position(s, c) ==> #[trigger] s[i] != c,
        position(s, c) < s.len() ==> s[position(s, c)] == c,
    decreases s.len(),
{
    if s.len() > 0 && s[0] != c {
        let rest = s.drop_first();
        lemma_position_first(rest, c);
        assert forall|i: int| 0 <= i < position(s, c) implies #[trigger] s[i] != c by {
            if i > 0 {
                assert(rest[i - 1] == s[i]);
            }
        }
    }
}

/// The two sides of the first occurrence of a character: together with it they are
/// the text, and the first side does not hold it. A text that does not hold it has
/// no two sides.
pub proof fn law_two_sides(s: Seq<char>, c: char)
    ensures
        match split_once(s, c) {
            Some((a, b)) => s == a + seq![c] + b && !a.contains(c),
            None => !s.contains(c),
        },
{
    lemma_position_first(s, c);
    let p = position(s, c);
    if p < s.len() {
        assert(s =~= s.take(p) + seq![c] + s.skip(p + 1));
        assert forall|i: int| 0 <= i < p implies #[trigger] s.take(p)[i] != c by {
            assert(s.take(p)[i] == s[i]);
        }
    }
}

/// The pieces of a text do not hold the character that it is split at, and with
/// that character between them they are the text.
pub proof fn law_pieces(s: Seq<char>, c: char)
    ensures
        pieces(s, c).len() > 0,
        joined(pieces(s, c), c) == s,
        forall|i: int| 0 <= i < pieces(s, c).len() ==> !(#[trigger] pieces(s, c)[i]).contains(c),
    decreases s.len(),
{
    lemma_position_first(s, c);
    let p = position(s, c);
    let all = pieces(s, c);
    if p < s.len() {
        let rest = pieces(s.skip(p + 1), c);
        law_pieces(s.skip(p + 1), c);
        assert(all.drop_first() =~= rest);
        assert(all[0] == s.take(p));
        assert(s =~= s.take(p) + seq![c] + s.skip(p + 1));
        assert forall|i: int| 0 <= i < all.len() implies !(#[trigger] all[i]).contains(c) by {
            if i == 0 {
                assert forall|j: int| 0 <= j < p implies #[trigger] s.take(p)[j] != c by {
                    assert(s.take(p)[j] == s[j]);
                }
            } else {
                assert(all[i] == rest[i - 1]);
            }
        }
    } else {
        assert(!s.contains(c));
    }
}

/// The lines of a text hold no line feed. With a line feed behind each they are the
/// text, or the text with one more behind it where its last line has none.
pub proof fn law_lines(s: Seq<char>)
    ensures
        ended(lines(s), '\n') == if s.len() == 0 || s.last() == '\n' {
            s
        } else {
            s.push('\n')
        },
        forall|i: int| 0 <= i < lines(s).len() ==> !(#[trigger] lines(s)[i]).contains('\n'),
    decreases s.len(),
{
    lemma_position_first(s, '\n');
    let p = position(s, '\n');
    let all = lines(s);
    if s.len() == 0 {
        assert(ended(all, '\n') =~= s);
    } else if p < s.len() {
        let tail = s.skip(p + 1);
        let rest = lines(tail);
        law_lines(tail);
        assert(all.drop_first() =~= rest);
        assert(all[0] == s.take(p));
        if tail.len() > 0 {
            assert(tail.last() == s.last());
        }
        if s.last() == '\n' {
            assert(ended(all, '\n') =~= s);
        } else {
            assert(ended(all, '\n') =~= s.push('\n'));
        }
        assert forall|i: int| 0 <= i < all.len() implies !(#[trigger] all[i]).contains('\n') by {
            if i == 0 {
                assert forall|j: int| 0 <= j < p implies #[trigger] s.take(p)[j] != '\n' by {
                    assert(s.take(p)[j] == s[j]);
                }
            } else {
                assert(all[i] == rest[i - 1]);
            }
        }
    } else {
        assert(s[s.len() - 1] != '\n');
        assert(all.drop_first() =~= Seq::<Seq<char>>::empty());
        reveal_with_fuel(ended, 2);
        assert(ended(all, '\n') =~= s.push('\n'));
        assert(!s.contains('\n'));
    }
}

// ---------------------------------------------------------------------------
// Decimal numbers
// ---------------------------------------------------------------------------

/// The number that decimal digits write.
pub open spec fn digits_value(s: Seq<char>) -> int
    decreases s.len(),
{
    if s.len() == 0 {
        0
    } else {
        digits_value(s.drop_last()) * 10 + (s.last() as int - 48)
    }
}

/// Whether a text is made of decimal digits.
pub open spec fn all_digits(s: Seq<char>) -> bool {
    forall|i: int| 0 <= i < s.len() ==> is_digit(#[trigger] s[i])
}

proof fn lemma_value_from_front(s: Seq<char>, acc: int) -> (scale: int)
    requires
        all_digits(s),
        0 <= acc,
    ensures
        scale >= 1,
        forall|t: Seq<char>| #[trigger]
            all_digits(t) ==> digits_value(t + s) == digits_value(t) * scale + digits_value(s),
        acc <= acc * scale + digits_value(s),
        0 <= digits_value(s),
    decreases s.len(),
{
    if s.len() == 0 {
        assert forall|t: Seq<char>| #[trigger] all_digits(t) implies digits_value(t + s)
            == digits_value(t) * 1 + digits_value(s) by {
            assert(t + s =~= t);
        }
        1
    } else {
        let rest = s.drop_last();
        assert(all_digits(rest)) by {
            assert forall|i: int| 0 <= i < rest.len() implies is_digit(#[trigger] rest[i]) by {
                assert(rest[i] == s[i]);
            }
        }
        assert(is_digit(s[s.len() - 1]));
        let m = lemma_value_from_front(rest, acc);
        assert forall|t: Seq<char>| #[trigger] all_digits(t) implies digits_value(t + s)
            == digits_value(t) * (m * 10) + digits_value(s) by {
            assert((t + s).drop_last() =~= t + rest);
            assert((t + s).last() == s.last());
            let (v, r) = (digits_value(t), digits_value(rest));
            assert((v * m + r) * 10 == v * (m * 10) + r * 10) by (nonlinear_arith);
        }
        let r = digits_value(rest);
        assert((acc * m + r) * 10 == acc * (m * 10) + r * 10) by (nonlinear_arith);
        m * 10
    }
}

proof fn lemma_read_digits(t: Seq<char>, s: Seq<char>, max: int)
    requires
        all_digits(t),
        digits_value(t) <= max,
    ensures
        ({
            let r = read_digits(s, digits_value(t), max);
            match r {
                Ok(n) => all_digits(s) && n == digits_value(t + s) && n <= max,
                Err(_) => all_digits(s) ==> digits_value(t + s) > max,
            }
        }),
    decreases s.len(),
{
    let acc = digits_value(t);
    if s.len() == 0 {
        assert(t + s =~= t);
    } else if is_digit(s[0]) {
        let rest = s.drop_first();
        let u = t.push(s[0]);
        assert(u.drop_last() =~= t);
        assert(all_digits(u)) by {
            assert forall|i: int| 0 <= i < u.len() implies is_digit(#[trigger] u[i]) by {
                if i < t.len() {
                    assert(u[i] == t[i]);
                }
            }
        }
        assert(digits_value(u) == acc * 10 + (s[0] as int - 48));
        assert(u + rest =~= t + s);
        if digits_value(u) <= max {
            lemma_read_digits(u, rest, max);
            if all_digits(rest) {
                assert forall|i: int| 0 <= i < s.len() implies is_digit(#[trigger] s[i]) by {
                    if i > 0 {
                        assert(rest[i - 1] == s[i]);
                    }
                }
            }
            if all_digits(s) {
                assert forall|i: int| 0 <= i < rest.len() implies is_digit(#[trigger] rest[i]) by {
                    assert(rest[i] == s[i + 1]);
                }
            }
        } else if all_digits(s) {
            assert(all_digits(rest)) by {
                assert forall|i: int| 0 <= i < rest.len() implies is_digit(#[trigger] rest[i]) by {
                    assert(rest[i] == s[i + 1]);
                }
            }
            lemma_value_not_negative(u);
            let m = lemma_value_from_front(rest, digits_value(u));
            assert(digits_value(u + rest) == digits_value(u) * m + digits_value(rest));
        }
    } else {
        assert(!is_digit(s[0]));
    }
}

proof fn lemma_value_not_negative(s: Seq<char>)
    requires
        all_digits(s),
    ensures
        0 <= digits_value(s),
    decreases s.len(),
{
    if s.len() > 0 {
        let rest = s.drop_last();
        assert forall|i: int| 0 <= i < rest.len() implies is_digit(#[trigger] rest[i]) by {
            assert(rest[i] == s[i]);
        }
        lemma_value_not_negative(rest);
        assert(is_digit(s[s.len() - 1]));
    }
}

/// Digits are read exactly where they are digits and the number they write is not
/// beyond the bound; what is read is that number.
pub proof fn law_digits_are_read(s: Seq<char>, max: int)
    requires
        0 <= max,
    ensures
        read_digits(s, 0, max) is Ok <==> all_digits(s) && digits_value(s) <= max,
        read_digits(s, 0, max) matches Ok(n) ==> n == digits_value(s),
{
    let none = Seq::<char>::empty();
    assert(none + s =~= s);
    lemma_read_digits(none, s, max);
}

/// A number is read exactly where a text writes one that is not beyond the bound, in
/// one or more digits, with a plus sign before them or not; what is read is that
/// number.
pub proof fn law_numbers_are_read(s: Seq<char>, max: int)
    requires
        0 <= max,
    ensures
        ({
            let t = if s.len() > 0 && s[0] == '+' {
                s.skip(1)
            } else {
                s
            };
            &&& read_number(s, max) is Ok <==> t.len() > 0 && all_digits(t) && digits_value(t) <= max
            &&& read_number(s, max) matches Ok(n) ==> n == digits_value(t)
            &&& s.len() == 0 <==> read_number(s, max) == Err::<int, NumberFault>(
                NumberFault::Empty,
            )
            &&& t.len() > 0 && all_digits(t) && digits_value(t) > max ==> (read_number(
                s,
                max,
            ) matches Err(e) && e == NumberFault::TooLarge)
        }),
{
    law_digits_are_read(s, max);
    if s.len() > 0 {
        law_digits_are_read(s.skip(1), max);
        if s.len() == 1 && s[0] == '-' {
            assert(!is_digit(s[0]));
        }
        if s[0] == '+' {
            lemma_never_empty(s.skip(1), 0, max);
        } else {
            lemma_never_empty(s, 0, max);
        }
    }
}

proof fn lemma_never_empty(s: Seq<char>, acc: int, max: int)
    ensures
        read_digits(s, acc, max) != Err::<int, NumberFault>(NumberFault::Empty),
        all_digits(s) ==> read_digits(s, acc, max) != Err::<int, NumberFault>(
            NumberFault::InvalidDigit,
        ),
    decreases s.len(),
{
    if s.len() > 0 {
        let rest = s.drop_first();
        lemma_never_empty(rest, acc * 10 + (s[0] as int - 48), max);
        if all_digits(s) {
            assert(is_digit(s[0]));
            assert forall|i: int| 0 <= i < rest.len() implies is_digit(#[trigger] rest[i]) by {
                assert(rest[i] == s[i + 1]);
            }
        }
    }
}

/// A number in decimal is made of digits that write it, without a needless zero in
/// front; so it reads back as itself wherever it is within the bound.
pub proof fn law_decimal(n: nat, max: int)
    requires
        0 <= max,
    ensures
        decimal(n).len() > 0,
        all_digits(decimal(n)),
        digits_value(decimal(n)) == n,
        decimal(n).len() > 1 ==> decimal(n)[0] != '0',
        n <= max ==> read_number(decimal(n), max) == Ok::<int, NumberFault>(n as int)
            && read_digits(decimal(n), 0, max) == Ok::<int, NumberFault>(n as int),
{
    lemma_decimal(n);
    law_numbers_are_read(decimal(n), max);
    law_digits_are_read(decimal(n), max);
    assert(is_digit(decimal(n)[0]));
}

proof fn lemma_decimal(n: nat)
    ensures
        decimal(n).len() > 0,
        all_digits(decimal(n)),
        digits_value(decimal(n)) == n,
        decimal(n).len() > 1 ==> decimal(n)[0] != '0',
        n > 0 ==> decimal(n)[0] != '0',
    decreases n,
{
    let s = decimal(n);
    reveal_with_fuel(digits_value, 2);
    if n < 10 {
        assert(s.drop_last() =~= Seq::<char>::empty());
    } else {
        lemma_decimal(n / 10);
        let rest = decimal(n / 10);
        assert(s.drop_last() =~= rest);
        assert(s.last() == digit((n % 10) as int));
        assert(s[0] == rest[0]);
        assert forall|i: int| 0 <= i < s.len() implies is_digit(#[trigger] s[i]) by {
            if i < rest.len() {
                assert(rest[i] == s[i]);
            }
        }
    }
}

/// A number with a sign: a minus sign stands before a negative one, and the digits
/// write the number without its sign.
pub proof fn law_signed_decimal(n: int)
    ensures
        n >= 0 ==> signed_decimal(n) == decimal(n as nat),
        n < 0 ==> signed_decimal(n) == seq!['-'] + decimal((-n) as nat),
{
}

// ---------------------------------------------------------------------------
// Hexadecimal numbers
// ---------------------------------------------------------------------------

/// The number that a hexadecimal digit in lower case stands for.
pub open spec fn hex_digit_value(c: char) -> int {
    if c as int <= 57 {
        c as int - 48
    } else {
        c as int - 87
    }
}

/// The number that hexadecimal digits in lower case write.
pub open spec fn hex_number(s: Seq<char>) -> int
    decreases s.len(),
{
    if s.len() == 0 {
        0
    } else {
        hex_number(s.drop_last()) * 16 + hex_digit_value(s.last())
    }
}

/// Whether a character is a hexadecimal digit in lower case.
pub open spec fn is_hex_digit(c: char) -> bool {
    48 <= c as int <= 57 || 97 <= c as int <= 102
}

/// A number in hexadecimal is made of digits that write it; there are as many as the
/// width, or as many more as it takes, and then no needless zero stands in front.
pub proof fn law_hexadecimal(n: nat, width: nat)
    ensures
        hex_padded(n, width).len() > 0,
        hex_padded(n, width).len() >= width,
        hex_padded(n, width).len() > width && hex_padded(n, width).len() > 1 ==> hex_padded(
            n,
            width,
        )[0] != '0',
        forall|i: int|
            0 <= i < hex_padded(n, width).len() ==> is_hex_digit(#[trigger] hex_padded(n, width)[i]),
        hex_number(hex_padded(n, width)) == n,
    decreases n, width,
{
    let s = hex_padded(n, width);
    reveal_with_fuel(hex_number, 2);
    if n < 16 && width <= 1 {
        assert(s.drop_last() =~= Seq::<char>::empty());
    } else {
        let w: nat = if width == 0 {
            0
        } else {
            (width - 1) as nat
        };
        law_hexadecimal(n / 16, w);
        let rest = hex_padded(n / 16, w);
        assert(s.drop_last() =~= rest);
        assert(s.last() == hex_digit((n % 16) as int));
        assert forall|i: int| 0 <= i < s.len() implies is_hex_digit(#[trigger] s[i]) by {
            if i < rest.len() {
                assert(rest[i] == s[i]);
            }
        }
        if s.len() > width {
            assert(s[0] == rest[0]);
            if rest.len() == 1 {
                assert(n >= 16 ==> rest[0] != '0') by {
                    reveal_with_fuel(hex_padded, 2);
                }
            }
        }
    }
}

// ---------------------------------------------------------------------------
// Dictionary order
// ---------------------------------------------------------------------------

/// Texts stand in the order of the first characters in which they differ; a text
/// stands before those that begin with it and go on.
pub proof fn law_dictionary_order(a: Seq<char>, b: Seq<char>, k: int)
    requires
        0 <= k <= a.len(),
        k <= b.len(),
        forall|i: int| 0 <= i < k ==> #[trigger] a[i] == b[i],
        k < a.len() && k < b.len() ==> a[k] != b[k],
    ensures
        k < a.len() && k < b.len() ==> text_less(a, b) == ((a[k] as int) < (b[k] as int)),
        k == a.len() && k < b.len() ==> text_less(a, b),
        k == b.len() ==> !text_less(a, b),
    decreases a.len(),
{
    if k > 0 {
        assert(a[0] == b[0]);
        let (x, y) = (a.drop_first(), b.drop_first());
        assert forall|i: int| 0 <= i < k - 1 implies #[trigger] x[i] == y[i] by {
            assert(a[i + 1] == b[i + 1]);
        }
        law_dictionary_order(x, y, k - 1);
    }
}

} // verus!
