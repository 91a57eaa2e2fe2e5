//! A plain dump of bytes, without offsets.

use crate::text::{hex_padded, push_hex};
use vstd::prelude::*;

verus! {

/// The digits of some bytes, a blank behind each.
pub open spec fn digits(bytes: Seq<u8>) -> Seq<char>
    decreases bytes.len(),
{
    if bytes.len() == 0 {
        seq![]
    } else {
        digits(bytes.drop_last()) + (hex_padded(bytes.last() as nat, 2) + " "@)
    }
}

/// The dump lines from `off` on; three dots stand for what lies beyond the
/// limit.
pub open spec fn plain_lines(data: Seq<u8>, off: int, limit: int) -> Seq<char>
    decreases
            if off < data.len() {
                data.len() - off
            } else {
                0
            },
{
    if off >= data.len() {
        seq![]
    } else if off >= limit {
        "...\n"@
    } else {
        let end = if off + 16 <= data.len() {
            off + 16
        } else {
            data.len() as int
        };
        digits(data.subrange(off, end)) + "\n"@ + plain_lines(data, off + 16, limit)
    }
}

fn push_digits(out: &mut String, data: &[u8], from: usize, to: usize)
    requires
        from <= to <= data@.len(),
    ensures
        final(out)@ == old(out)@ + digits(data@.subrange(from as int, to as int)),
{
    let mut i: usize = from;
    assert(out@ =~= old(out)@ + digits(data@.subrange(from as int, i as int)));
    while i < to
        invariant
            from <= i <= to <= data@.len(),
            out@ == old(out)@ + digits(data@.subrange(from as int, i as int)),
        decreases to - i,
    {
        push_hex(out, data[i] as u64, 2);
        out.append(" ");
        assert(data@.subrange(from as int, i as int + 1).drop_last() =~= data@.subrange(
            from as int,
            i as int,
        ));
        assert(out@ =~= old(out)@ + digits(data@.subrange(from as int, i as int + 1)));
        i = i + 1;
    }
}

/// The dump of the lines that begin before the limit.
pub fn hexdump(data: &[u8], limit: usize) -> (r: String)
    ensures
        r@ == plain_lines(data@, 0, limit as int),
{
    let mut out = String::new();
    let len: usize = data.len();
    let mut off: usize = 0;
    assert(out@ + plain_lines(data@, 0, limit as int) =~= plain_lines(data@, 0, limit as int));
    while off < len
        invariant
            off <= len == data@.len(),
            out@ + plain_lines(data@, off as int, limit as int) == plain_lines(
                data@,
                0,
                limit as int,
            ),
        decreases len - off,
    {
        if off >= limit {
            out.append("...\n");
            return out;
        }
        let end: usize = if len - off >= 16 {
            off + 16
        } else {
            len
        };
        let ghost before = out@;
        let ghost line = digits(data@.subrange(off as int, end as int)) + "\n"@;
        push_digits(&mut out, data, off, end);
        out.append("\n");
        let ghost rest = plain_lines(data@, off as int + 16, limit as int);
        assert(plain_lines(data@, end as int, limit as int) =~= rest);
        assert(out@ + rest =~= before + (line + rest));
        off = end;
    }
    assert(out@ + plain_lines(data@, off as int, limit as int) =~= out@);
    out
}

} // verus!
