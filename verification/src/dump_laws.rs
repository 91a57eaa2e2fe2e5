//! Where the bytes stand in a dump.

use crate::plain_dump::{digits, plain_lines};
use crate::text::{decimal, hex_padded};
use crate::wireguard_serializer::{
    dump_cell, dump_cells, dump_char, dump_chunk, dump_line, dump_lines, dump_text,
};
use vstd::prelude::*;

verus! {

/// A number of so few digits is written with exactly the width.
proof fn lemma_width(n: nat, width: nat)
    requires
        1 <= width <= 8,
        width == 1 ==> n < 0x10,
        width == 2 ==> n < 0x100,
        width == 3 ==> n < 0x1000,
        width == 4 ==> n < 0x1_0000,
        width == 5 ==> n < 0x10_0000,
        width == 6 ==> n < 0x100_0000,
        width == 7 ==> n < 0x1000_0000,
        width == 8 ==> n < 0x1_0000_0000,
    ensures
        hex_padded(n, width).len() == width,
    decreases width,
{
    if width > 1 {
        lemma_width(n / 16, (width - 1) as nat);
    }
}

// ---------------------------------------------------------------------------
// The plain dump
// ---------------------------------------------------------------------------

proof fn lemma_digits(b: Seq<u8>)
    ensures
        digits(b).len() == 3 * b.len(),
        forall|i: int|
            0 <= i < b.len() ==> digits(b).subrange(3 * i, 3 * i + 2) == hex_padded(
                (#[trigger] b[i]) as nat,
                2,
            ) && digits(b)[3 * i + 2] == ' ',
    decreases b.len(),
{
    if b.len() > 0 {
        let rest = b.drop_last();
        let s = digits(b);
        let tail = hex_padded(b.last() as nat, 2) + " "@;
        lemma_digits(rest);
        lemma_width(b.last() as nat, 2);
        reveal_strlit(" ");
        assert(s == digits(rest) + tail);
        assert forall|i: int| 0 <= i < b.len() implies s.subrange(3 * i, 3 * i + 2) == hex_padded(
            (#[trigger] b[i]) as nat,
            2,
        ) && s[3 * i + 2] == ' ' by {
            if i < rest.len() {
                assert(rest[i] == b[i]);
                assert(s.subrange(3 * i, 3 * i + 2) =~= digits(rest).subrange(3 * i, 3 * i + 2));
                assert(s[3 * i + 2] == digits(rest)[3 * i + 2]);
            } else {
                assert(s.subrange(3 * i, 3 * i + 2) =~= hex_padded(b[i] as nat, 2));
                assert(s[3 * i + 2] == tail[2]);
            }
        }
    }
}

/// Whether a byte stands in a text at a place: two digits and a blank.
pub open spec fn stands_at(s: Seq<char>, at: int, b: u8) -> bool {
    &&& at + 3 <= s.len()
    &&& s.subrange(at, at + 2) == hex_padded(b as nat, 2)
    &&& s[at + 2] == ' '
}

proof fn lemma_plain(data: Seq<u8>, off: int, limit: int, i: int)
    requires
        0 <= off <= i < data.len(),
        i - (i - off) % 16 < limit,
    ensures
        ({
            let s = plain_lines(data, off, limit);
            let at = 3 * (i - off) + (i - off) / 16;
            &&& stands_at(s, at, data[i])
            &&& (i - off) % 16 == 15 || i == data.len() - 1 ==> at + 3 < s.len() && s[at + 3]
                == '\n'
        }),
    decreases data.len() - off,
{
    let s = plain_lines(data, off, limit);
    let end = if off + 16 <= data.len() {
        off + 16
    } else {
        data.len() as int
    };
    let line = data.subrange(off, end);
    let rest = plain_lines(data, off + 16, limit);
    reveal_strlit("\n");
    lemma_digits(line);
    assert(s == digits(line) + "\n"@ + rest);
    if i < off + 16 {
        let j = i - off;
        assert(line[j] == data[i]);
        assert(s.subrange(3 * j, 3 * j + 2) =~= digits(line).subrange(3 * j, 3 * j + 2));
        assert(s[3 * j + 2] == digits(line)[3 * j + 2]);
        if j == 15 || i == data.len() - 1 {
            assert(s[3 * j + 3] == "\n"@[0]);
        }
    } else {
        let d = i - off - 16;
        assert((i - off) % 16 == d % 16 && (i - off) / 16 == d / 16 + 1);
        lemma_plain(data, off + 16, limit, i);
        let at = 3 * d + d / 16;
        assert(digits(line).len() == 48);
        assert(s.subrange(at + 49, at + 51) =~= rest.subrange(at, at + 2));
        assert(s[at + 51] == rest[at + 2]);
        if d % 16 == 15 || i == data.len() - 1 {
            assert(s[at + 52] == rest[at + 3]);
        }
    }
}

/// In a plain dump each byte of a line that begins below the limit stands in its
/// place: two digits and a blank, sixteen to a line, and a line ends behind its last
/// byte.
pub proof fn law_plain_dump(data: Seq<u8>, limit: int, i: int)
    requires
        0 <= i < data.len(),
        i - i % 16 < limit,
    ensures
        ({
            let s = plain_lines(data, 0, limit);
            let at = 3 * i + i / 16;
            &&& stands_at(s, at, data[i])
            &&& i % 16 == 15 || i == data.len() - 1 ==> at + 3 < s.len() && s[at + 3] == '\n'
        }),
{
    lemma_plain(data, 0, limit, i);
}

/// The lines before one that begins at a multiple of sixteen.
proof fn lemma_plain_before(data: Seq<u8>, off: int, limit: int, k: int)
    requires
        0 <= off <= data.len(),
        0 <= k,
        off + 16 * k <= data.len() + 15,
        k > 0 ==> off + 16 * (k - 1) < limit,
        k > 0 ==> off + 16 * (k - 1) < data.len(),
    ensures
        ({
            let shown = if off + 16 * k <= data.len() {
                16 * k
            } else {
                data.len() - off
            };
            let s = plain_lines(data, off, limit);
            &&& s.len() >= 3 * shown + k
            &&& s.skip(3 * shown + k) == plain_lines(data, off + 16 * k, limit)
        }),
    decreases k,
{
    let s = plain_lines(data, off, limit);
    if k == 0 {
        assert(s.skip(0) =~= s);
    } else {
        let end = if off + 16 <= data.len() {
            off + 16
        } else {
            data.len() as int
        };
        let line = data.subrange(off, end);
        let rest = plain_lines(data, off + 16, limit);
        reveal_strlit("\n");
        lemma_digits(line);
        assert(s == digits(line) + "\n"@ + rest);
        if k == 1 {
            assert(s.skip(3 * (end - off) + 1) =~= rest);
        } else {
            lemma_plain_before(data, off + 16, limit, k - 1);
            let n = if off + 16 * k <= data.len() {
                16 * (k - 1)
            } else {
                data.len() - off - 16
            };
            assert(s.skip(3 * (n + 16) + k) =~= rest.skip(3 * n + k - 1));
        }
    }
}

/// A plain dump ends behind its last line where all lines begin below the limit;
/// else three dots take the place of the lines beyond it.
pub proof fn law_plain_dump_ends(data: Seq<u8>, limit: int, k: int)
    requires
        0 <= k,
        k > 0 ==> 16 * (k - 1) < limit && 16 * (k - 1) < data.len(),
        16 * k >= limit || 16 * k >= data.len(),
    ensures
        ({
            let s = plain_lines(data, 0, limit);
            if 16 * k >= data.len() {
                s.len() == 3 * data.len() + k
            } else {
                s.len() == 49 * k + 4 && s.skip(49 * k) == seq!['.', '.', '.', '\n']
            }
        }),
{
    let s = plain_lines(data, 0, limit);
    reveal_strlit("...\n");
    lemma_plain_before(data, 0, limit, k);
    if 16 * k >= data.len() {
        assert(plain_lines(data, 16 * k, limit).len() == 0);
        if 16 * k > data.len() {
            assert(s.skip(3 * data.len() + k).len() == 0);
        }
    } else {
        assert(plain_lines(data, 16 * k, limit) == "...\n"@);
        assert("...\n"@ =~= seq!['.', '.', '.', '\n']);
        assert(s.skip(49 * k).len() == s.len() - 49 * k);
    }
}

// ---------------------------------------------------------------------------
// The dump with offsets
// ---------------------------------------------------------------------------

/// Where the digits of a byte stand in its line.
pub open spec fn column(j: int) -> int {
    10 + 3 * j + if j > 7 {
        1int
    } else {
        0int
    }
}

proof fn lemma_cell(chunk: Seq<u8>, j: int)
    requires
        0 <= j < 16,
    ensures
        dump_cell(chunk, j).len() == if j == 7 {
            4int
        } else {
            3int
        },
        j < chunk.len() ==> dump_cell(chunk, j).subrange(0, 2) == hex_padded(chunk[j] as nat, 2),
{
    reveal_strlit(" ");
    reveal_strlit("   ");
    reveal_strlit("");
    if j < chunk.len() {
        lemma_width(chunk[j] as nat, 2);
        assert(dump_cell(chunk, j).subrange(0, 2) =~= hex_padded(chunk[j] as nat, 2));
    }
}

proof fn lemma_cells(chunk: Seq<u8>, k: int, j: int)
    requires
        0 <= k <= 16,
    ensures
        dump_cells(chunk, k).len() == column(k) - 10,
        0 <= j < k && j < chunk.len() ==> dump_cells(chunk, k).subrange(
            column(j) - 10,
            column(j) - 8,
        ) == hex_padded(chunk[j] as nat, 2),
    decreases k,
{
    if k > 0 {
        let before = dump_cells(chunk, k - 1);
        let cell = dump_cell(chunk, k - 1);
        lemma_cells(chunk, k - 1, j);
        lemma_cell(chunk, k - 1);
        let all = dump_cells(chunk, k);
        assert(all == before + cell);
        if 0 <= j < k && j < chunk.len() {
            let at = column(j) - 10;
            if j < k - 1 {
                assert(all.subrange(at, at + 2) =~= before.subrange(at, at + 2));
            } else {
                assert(all.subrange(at, at + 2) =~= cell.subrange(0, 2));
            }
        }
    }
}

proof fn lemma_line(off: int, chunk: Seq<u8>, j: int)
    requires
        0 <= off < 0x1_0000_0000,
        0 <= j < chunk.len() <= 16,
    ensures
        ({
            let s = dump_line(off, chunk);
            &&& s.len() == 63 + chunk.len()
            &&& s.subrange(0, 8) == hex_padded(off as nat, 8)
            &&& s.subrange(column(j), column(j) + 2) == hex_padded(chunk[j] as nat, 2)
            &&& s[61 + j] == dump_char(chunk[j])
            &&& s.last() == '\n'
        }),
{
    let s = dump_line(off, chunk);
    let head = hex_padded(off as nat, 8);
    let cells = dump_cells(chunk, 16);
    let shown = Seq::new(chunk.len(), |i: int| dump_char(chunk[i]));
    reveal_strlit("  ");
    reveal_strlit(" |");
    reveal_strlit("|\n");
    lemma_width(off as nat, 8);
    lemma_cells(chunk, 16, j);
    assert(s == head + "  "@ + cells + " |"@ + shown + "|\n"@);
    assert(s.subrange(0, 8) =~= head);
    assert(s.subrange(column(j), column(j) + 2) =~= cells.subrange(column(j) - 10, column(j) - 8));
    assert(s[61 + j] == shown[j]);
    assert(s.last() == "|\n"@[1]);
}

proof fn lemma_lines(data: Seq<u8>, off: int, i: int)
    requires
        0 <= off <= i < data.len() < 0x1_0000_0000,
    ensures
        ({
            let s = dump_lines(data, off);
            let (k, j) = ((i - off) / 16, (i - off) % 16);
            &&& 79 * k + 61 + j < s.len()
            &&& s.subrange(79 * k, 79 * k + 8) == hex_padded((off + 16 * k) as nat, 8)
            &&& s.subrange(79 * k + column(j), 79 * k + column(j) + 2) == hex_padded(
                data[i] as nat,
                2,
            )
            &&& s[79 * k + 61 + j] == dump_char(data[i])
        }),
    decreases data.len() - off,
{
    let s = dump_lines(data, off);
    let chunk = dump_chunk(data, off);
    let line = dump_line(off, chunk);
    let rest = dump_lines(data, off + 16);
    assert(s == line + rest);
    if i < off + 16 {
        let j = i - off;
        lemma_line(off, chunk, j);
        assert(s.subrange(0, 8) =~= line.subrange(0, 8));
        assert(s.subrange(column(j), column(j) + 2) =~= line.subrange(column(j), column(j) + 2));
        assert(s[61 + j] == line[61 + j]);
    } else {
        let d = i - off - 16;
        let (k, j) = (d / 16, d % 16);
        assert((i - off) / 16 == k + 1 && (i - off) % 16 == j);
        lemma_line(off, chunk, 0);
        lemma_lines(data, off + 16, i);
        let at = 79 * k;
        assert(s.subrange(at + 79, at + 87) =~= rest.subrange(at, at + 8));
        assert(s.subrange(at + 79 + column(j), at + 79 + column(j) + 2) =~= rest.subrange(
            at + column(j),
            at + column(j) + 2,
        ));
        assert(s[at + 79 + 61 + j] == rest[at + 61 + j]);
    }
}

/// In a dump with offsets the sixteen bytes of a line stand behind its offset, two
/// digits each with a gap in the middle, and again behind these as the characters
/// that they are; a dot stands for what cannot be shown.
pub proof fn law_dump(data: Seq<u8>, max_bytes: int, i: int)
    requires
        0 <= i < data.len() < 0x1_0000_0000,
        i < max_bytes,
    ensures
        ({
            let s = dump_text(data, max_bytes);
            let (k, j) = (i / 16, i % 16);
            &&& 79 * k + 61 + j < s.len()
            &&& s.subrange(79 * k, 79 * k + 8) == hex_padded((16 * k) as nat, 8)
            &&& s.subrange(79 * k + column(j), 79 * k + column(j) + 2) == hex_padded(
                data[i] as nat,
                2,
            )
            &&& s[79 * k + 61 + j] == if 32 <= data[i] <= 126 {
                data[i] as char
            } else {
                '.'
            }
        }),
{
    let s = dump_text(data, max_bytes);
    let (k, j) = (i / 16, i % 16);
    if data.len() > max_bytes {
        let part = data.take(max_bytes);
        let all = dump_lines(part, 0);
        lemma_lines(part, 0, i);
        assert(part[i] == data[i]);
        assert(s.subrange(79 * k, 79 * k + 8) =~= all.subrange(79 * k, 79 * k + 8));
        assert(s.subrange(79 * k + column(j), 79 * k + column(j) + 2) =~= all.subrange(
            79 * k + column(j),
            79 * k + column(j) + 2,
        ));
        assert(s[79 * k + 61 + j] == all[79 * k + 61 + j]);
    } else {
        lemma_lines(data, 0, i);
    }
}

/// A dump that leaves bytes out is that of the bytes that it shows, and says at the
/// end how many more there are.
pub proof fn law_dump_tells_the_rest(data: Seq<u8>, max_bytes: int)
    requires
        0 <= max_bytes < data.len(),
    ensures
        dump_text(data, max_bytes) == dump_text(data.take(max_bytes), max_bytes) + "... ("@
            + decimal((data.len() - max_bytes) as nat) + " more bytes)\n"@,
{
    assert(dump_text(data, max_bytes) =~= dump_text(data.take(max_bytes), max_bytes) + "... ("@
        + decimal((data.len() - max_bytes) as nat) + " more bytes)\n"@);
}

} // verus!
