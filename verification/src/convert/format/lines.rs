//! Line numbers for failures.
//!
//! A failure is reported with a line number that is found from a byte offset
//! by taking the lengths of the lines of the text, one after the other, off
//! the offset for as long as it holds out. A line ends at a line feed, or at
//! the end of the text if something follows the last line feed; the line
//! feed, and a carriage return right before it, are not counted.

use vstd::prelude::*;

verus! {

/// The line that the walk ends on. `i` is the byte under inspection, `start`
/// the first byte of the line that holds it, `pos` what remains of the offset
/// and `line` the number of that line.
pub open spec fn line_at(bytes: Seq<u8>, i: int, start: int, pos: int, line: int) -> int
    decreases bytes.len() - i,
{
    if i >= bytes.len() {
        if i > start && pos >= i - start {
            line + 1
        } else {
            line
        }
    } else if bytes[i] == 10 {
        let len = if i > start && bytes[i - 1] == 13 {
            i - start - 1
        } else {
            i - start
        };
        if pos < len {
            line
        } else {
            line_at(bytes, i + 1, i + 1, pos - len, line + 1)
        }
    } else {
        line_at(bytes, i + 1, start, pos, line)
    }
}

/// The 1-based line number that stands for the offset `pos` in `bytes`.
pub open spec fn line_of(bytes: Seq<u8>, pos: int) -> int {
    line_at(bytes, 0, 0, pos, 1)
}

/// The line number is at least the line that the walk is on and exceeds it
/// by no more than the number of lines still to come.
proof fn lemma_line_at_bounds(bytes: Seq<u8>, i: int, start: int, pos: int, line: int)
    requires
        0 <= start <= i <= bytes.len(),
    ensures
        line <= line_at(bytes, i, start, pos, line) <= line + (bytes.len() - i) + if i > start {
            1int
        } else {
            0int
        },
    decreases bytes.len() - i,
{
    if i < bytes.len() {
        if bytes[i] == 10 {
            let len = if i > start && bytes[i - 1] == 13 {
                i - start - 1
            } else {
                i - start
            };
            if pos >= len {
                lemma_line_at_bounds(bytes, i + 1, i + 1, pos - len, line + 1);
            }
        } else {
            lemma_line_at_bounds(bytes, i + 1, start, pos, line);
        }
    }
}

/// Finds the line number that stands for the offset `pos`.
pub fn line_number(bytes: &[u8], pos: usize) -> (r: usize)
    requires
        bytes@.len() < usize::MAX,
    ensures
        r == line_of(bytes@, pos as int),
        1 <= r <= bytes@.len() + 1,
{
    let mut i: usize = 0;
    let mut start: usize = 0;
    let mut rest: usize = pos;
    let mut line: usize = 1;
    proof {
        lemma_line_at_bounds(bytes@, 0, 0, pos as int, 1);
    }
    while i < bytes.len()
        invariant
            0 <= start <= i <= bytes@.len(),
            bytes@.len() < usize::MAX,
            1 <= line <= i + 1,
            line_of(bytes@, pos as int) == line_at(
                bytes@,
                i as int,
                start as int,
                rest as int,
                line as int,
            ),
            1 <= line_of(bytes@, pos as int) <= bytes@.len() + 1,
        decreases bytes@.len() - i,
    {
        if bytes[i] == 10 {
            let len = if i > start && bytes[i - 1] == 13 {
                i - start - 1
            } else {
                i - start
            };
            if rest < len {
                return line;
            }
            rest = rest - len;
            line = line + 1;
            start = i + 1;
        }
        i = i + 1;
    }
    if i > start && rest >= i - start {
        line + 1
    } else {
        line
    }
}

} // verus!
