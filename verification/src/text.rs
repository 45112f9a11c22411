//! Text as bytes: counting and finding line breaks.

use vstd::prelude::*;
use vstd::string::StringSliceAdditionalSpecFns;
use vstd::utf8::{
    encode_utf8, is_char_boundary, length_of_first_scalar, pop_first_scalar, valid_utf8,
};

verus! {

/// The byte that ends a line.
pub const NEWLINE: u8 = 10;

/// How many line breaks `bytes` holds.
pub open spec fn line_breaks(bytes: Seq<u8>) -> nat
    decreases bytes.len(),
{
    if bytes.len() == 0 {
        0
    } else {
        line_breaks(bytes.drop_last()) + (if bytes.last() == NEWLINE {
            1nat
        } else {
            0nat
        })
    }
}

pub proof fn lemma_line_breaks_concat(a: Seq<u8>, b: Seq<u8>)
    ensures
        line_breaks(a + b) == line_breaks(a) + line_breaks(b),
    decreases b.len(),
{
    if b.len() == 0 {
        assert(a + b =~= a);
    } else {
        assert((a + b).drop_last() =~= a + b.drop_last());
        lemma_line_breaks_concat(a, b.drop_last());
    }
}

/// The point `(rows, offset)` of `bytes` that lies `target` rows down at a line's start, or the
/// whole extent where `bytes` has fewer rows.
pub open spec fn is_row_offset(bytes: Seq<u8>, target: int, rows: int, offset: int) -> bool {
    &&& 0 <= offset <= bytes.len()
    &&& rows == line_breaks(bytes.take(offset))
    &&& rows <= target
    &&& rows == target ==> offset == 0 || bytes[offset - 1] == NEWLINE
    &&& rows < target ==> offset == bytes.len()
}

/// Counts the bytes prior to the start of row `target`, and the rows in them. Where the text has
/// fewer rows, both are those of the whole text.
pub fn offset_for_row(s: &str, target: u32) -> (found: (u32, usize))
    ensures
        is_row_offset(s.spec_bytes(), target as int, found.0 as int, found.1 as int),
        is_char_boundary(s.spec_bytes(), found.1 as int),
{
    broadcast use vstd::utf8::encode_utf8_valid_utf8;
    let bytes = s.as_bytes();
    let mut row: u32 = 0;
    let mut offset: usize = 0;
    proof {
        assert(bytes@.take(0) =~= Seq::<u8>::empty());
        vstd::utf8::is_char_boundary_start_end_of_seq(bytes@);
    }
    while row < target && offset < bytes.len()
        invariant
            offset <= bytes@.len(),
            row <= target,
            row == line_breaks(bytes@.take(offset as int)),
            row == target ==> offset == 0 || bytes@[offset - 1] == NEWLINE,
        decreases bytes.len() - offset,
    {
        proof {
            assert(bytes@.take(offset + 1).drop_last() =~= bytes@.take(offset as int));
        }
        if bytes[offset] == NEWLINE {
            row = row + 1;
        }
        offset = offset + 1;
    }
    proof {
        if 0 < offset < bytes@.len() {
            lemma_boundary_after_newline(bytes@, offset - 1);
        }
    }
    (row, offset)
}

/// A character ends where a line does.
pub proof fn lemma_boundary_after_newline(bytes: Seq<u8>, index: int)
    requires
        valid_utf8(bytes),
        0 <= index < bytes.len(),
        bytes[index] == NEWLINE,
    ensures
        is_char_boundary(bytes, index + 1),
    decreases bytes.len(),
{
    reveal_with_fuel(is_char_boundary, 2);
    let first = length_of_first_scalar(bytes);
    if index == 0 {
        assert(first == 1);
    } else {
        vstd::utf8::is_char_boundary_iff_not_is_continuation_byte(bytes, index);
        assert(is_char_boundary(bytes, index));
        assert(index >= first);
        lemma_boundary_after_newline(pop_first_scalar(bytes), index - first);
    }
}

/// Where the first line of `bytes` ends, with its line break if it has one.
pub open spec fn row_end(bytes: Seq<u8>) -> int
    decreases bytes.len(),
{
    if bytes.len() == 0 {
        0
    } else if bytes[0] == NEWLINE {
        1
    } else {
        1 + row_end(bytes.drop_first())
    }
}

/// Where the first `rows` lines of `bytes` end.
pub open spec fn rows_end(bytes: Seq<u8>, rows: int) -> int
    decreases rows,
{
    if rows <= 0 {
        0
    } else {
        row_end(bytes) + rows_end(bytes.skip(row_end(bytes)), rows - 1)
    }
}

/// A line ends with its only line break, or with the text.
pub proof fn lemma_row_end(bytes: Seq<u8>)
    ensures
        0 <= row_end(bytes) <= bytes.len(),
        bytes.len() > 0 ==> row_end(bytes) > 0,
        line_breaks(bytes.take(row_end(bytes))) == (if row_end(bytes) > 0 && bytes[row_end(bytes)
            - 1] == NEWLINE {
            1nat
        } else {
            0
        }),
        row_end(bytes) == 0 || bytes[row_end(bytes) - 1] == NEWLINE || row_end(bytes)
            == bytes.len(),
        forall|k: int| 0 <= k < row_end(bytes) - 1 ==> #[trigger] bytes[k] != NEWLINE,
        forall|k: int|
            0 <= k < row_end(bytes) ==> line_breaks(#[trigger] bytes.take(k)) == 0,
    decreases bytes.len(),
{
    assert(bytes.take(0) =~= Seq::empty());
    if bytes.len() > 0 {
        let first = seq![bytes[0]];
        assert(first.drop_last() =~= Seq::empty());
        assert(line_breaks(Seq::<u8>::empty()) == 0);
        if bytes[0] == NEWLINE {
            assert(bytes.take(1) =~= first);
        } else {
            let rest = bytes.drop_first();
            lemma_row_end(rest);
            let end = row_end(rest);
            assert(bytes.take(1 + end) =~= first + rest.take(end));
            lemma_line_breaks_concat(first, rest.take(end));
            assert forall|k: int| 0 <= k < 1 + end implies line_breaks(#[trigger] bytes.take(k))
                == 0 by {
                if k > 0 {
                    assert(bytes.take(k) =~= first + rest.take(k - 1));
                    lemma_line_breaks_concat(first, rest.take(k - 1));
                }
            }
            assert forall|k: int| 0 <= k < end implies #[trigger] bytes[k] != NEWLINE by {
                if k > 0 {
                    assert(bytes[k] == rest[k - 1]);
                }
            }
        }
    }
}

/// The start of row `target` is where the lines before it end.
pub proof fn lemma_row_offset(bytes: Seq<u8>, target: int, rows: int, offset: int)
    requires
        is_row_offset(bytes, target, rows, offset),
        0 <= target,
    ensures
        offset == rows_end(bytes, target),
    decreases target,
{
    lemma_row_end(bytes);
    if target == 0 {
        if offset > 0 {
            let before = bytes.take(offset);
            assert(before.last() == bytes[offset - 1]);
        }
    } else {
        let end = row_end(bytes);
        let rest = bytes.skip(end);
        if offset < end {
            assert(line_breaks(bytes.take(offset)) == 0);
            assert(false);
        }
        assert(bytes.take(offset) =~= bytes.take(end) + rest.take(offset - end));
        lemma_line_breaks_concat(bytes.take(end), rest.take(offset - end));
        if end > 0 && bytes[end - 1] == NEWLINE {
            if rows == target && offset > end {
                assert(rest[offset - end - 1] == bytes[offset - 1]);
            }
            lemma_row_offset(rest, target - 1, rows - 1, offset - end);
        } else {
            assert(end == bytes.len());
            assert(rest =~= Seq::empty());
            lemma_rows_end_empty(target - 1);
        }
    }
}

proof fn lemma_rows_end_empty(rows: int)
    ensures
        rows_end(Seq::<u8>::empty(), rows) == 0,
    decreases rows,
{
    if rows > 0 {
        let none = Seq::<u8>::empty();
        assert(none.skip(row_end(none)) =~= none);
        lemma_rows_end_empty(rows - 1);
    }
}

/// The bytes of a text put after another.
pub proof fn lemma_encode_concat(a: Seq<char>, b: Seq<char>)
    ensures
        encode_utf8(a + b) == encode_utf8(a) + encode_utf8(b),
    decreases a.len(),
{
    if a.len() == 0 {
        assert(a + b =~= b);
        assert(encode_utf8(a) + encode_utf8(b) =~= encode_utf8(b));
    } else {
        assert((a + b).drop_first() =~= a.drop_first() + b);
        lemma_encode_concat(a.drop_first(), b);
        assert(encode_utf8(a + b) =~= encode_utf8(a) + encode_utf8(b));
    }
}

} // verus!
