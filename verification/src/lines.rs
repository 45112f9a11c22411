//! The text on display line by line, and what it is put together from.

use vstd::prelude::*;
use vstd::utf8::encode_utf8;

use crate::block::BlockId;
use crate::chunks::{
    bytes_of, contents, line_break_bytes, repeated, styled, BlockChunks, Chunk, ChunkStyle,
};
use crate::names::decimal;
use crate::snapshot::BlockSnapshot;
use crate::text::{is_row_offset, line_breaks, row_end, rows_end};
use crate::transforms::{out_start, DisplayRow};
use crate::wrap::WrapSnapshot;

verus! {

broadcast use {vstd::seq_lib::group_to_multiset_ensures, vstd::multiset::group_multiset_axioms};

/// The bytes in a row on display: those of its text, none in a line of a block.
pub open spec fn bytes_in(snapshot: &BlockSnapshot, row: int) -> Seq<u8> {
    match snapshot.rows()[row] {
        DisplayRow::Text { row } => encode_utf8(snapshot.wrap_snapshot.lines@[row].text@),
        DisplayRow::Block { .. } => Seq::empty(),
    }
}

/// Lines with line breaks between them.
pub open spec fn joined(lines: Seq<Seq<u8>>) -> Seq<u8>
    decreases lines.len(),
{
    if lines.len() == 0 {
        Seq::empty()
    } else if lines.len() == 1 {
        lines[0]
    } else {
        lines[0] + seq![10u8] + joined(lines.drop_first())
    }
}

/// The lines in rows `from..to` on display.
pub open spec fn lines_in(snapshot: &BlockSnapshot, from: int, to: int) -> Seq<Seq<u8>> {
    Seq::new((to - from) as nat, |i: int| bytes_in(snapshot, from + i))
}

/// The text in a range of rows is the lines of its rows with line breaks between them. A line break
/// ends the range too, unless it ends with the display or with the last row of the text.
pub proof fn law_text_is_joined(snapshot: &BlockSnapshot, from: int, to: int)
    requires
        snapshot.wf(),
        0 <= from < to <= snapshot.rows().len(),
    ensures
        snapshot.text_between(from, to) == joined(lines_in(snapshot, from, to)) + (
        if to < snapshot.rows().len() && snapshot.rows()[to - 1] != (DisplayRow::Text {
            row: snapshot.wrap_snapshot.lines@.len() - 1,
        }) {
            seq![10u8]
        } else {
            Seq::empty()
        }),
    decreases to - from,
{
    let lines = lines_in(snapshot, from, to);
    let end = if to < snapshot.rows().len() && snapshot.rows()[to - 1] != (DisplayRow::Text {
        row: snapshot.wrap_snapshot.lines@.len() - 1,
    }) {
        seq![10u8]
    } else {
        Seq::empty()
    };
    assert(lines[0] == bytes_in(snapshot, from));
    if from + 1 == to {
        assert(snapshot.text_between(to, to) =~= Seq::empty());
        assert(snapshot.text_between(from, to) =~= joined(lines) + end);
    } else {
        law_text_is_joined(snapshot, from + 1, to);
        assert(lines.drop_first() =~= lines_in(snapshot, from + 1, to));
        assert(snapshot.text_between(from, to) =~= joined(lines) + end);
    }
}

/// A range without rows has no text.
pub proof fn law_no_rows_no_text(snapshot: &BlockSnapshot, from: int, to: int)
    requires
        to <= from,
    ensures
        snapshot.text_between(from, to) == Seq::<u8>::empty(),
{
}

/// The end of a range of rows is where it says, or where the display ends.
pub proof fn law_within(snapshot: &BlockSnapshot, row: u32)
    ensures
        snapshot.within(row) <= row,
        snapshot.within(row) <= snapshot.rows().len(),
        snapshot.within(row) == row || snapshot.within(row) == snapshot.rows().len(),
{
}

/// A row of text takes the next line of the input, in its styles, with the line break where it has
/// one; a plain line break stands in for it where more rows follow. A line of a block is a plain
/// line break, but the last row of all is not.
pub proof fn law_weave(
    snapshot: &BlockSnapshot,
    row: int,
    max: int,
    input: Seq<(u8, ChunkStyle)>,
) -> (end: int)
    requires
        0 <= row < max <= snapshot.rows().len(),
    ensures
        snapshot.rows()[row] is Block ==> snapshot.weave(row, max, input) == (if row + 1
            < snapshot.rows().len() {
            seq![(10u8, ChunkStyle(0))]
        } else {
            Seq::empty()
        }) + snapshot.weave(row + 1, max, input),
        snapshot.rows()[row] is Text ==> {
            let ended = end > 0 && input[end - 1].0 == 10u8;
            &&& 0 <= end <= input.len()
            &&& forall|k: int| 0 <= k < end - 1 ==> (#[trigger] input[k]).0 != 10u8
            &&& end < input.len() ==> ended
            &&& snapshot.weave(row, max, input) == input.take(end) + (if !ended && row + 1 < max {
                seq![(10u8, ChunkStyle(0))]
            } else {
                Seq::empty()
            }) + snapshot.weave(row + 1, max, input.skip(end))
        },
        snapshot.weave(max, max, input).len() == 0,
{
    let bytes = bytes_of(input);
    crate::text::lemma_row_end(bytes);
    let end = row_end(bytes);
    assert forall|k: int| 0 <= k < end - 1 implies (#[trigger] input[k]).0 != 10u8 by {
        assert(bytes[k] == input[k].0);
    }
    if end > 0 {
        assert(bytes[end - 1] == input[end - 1].0);
    }
    end
}

/// The text of rows is that of the first of them with its line break, which the last row of all is
/// without, and that of the others.
pub proof fn law_text_of(wrap: &WrapSnapshot, from: int, to: int)
    ensures
        from < to ==> wrap.text_of(from, to) == encode_utf8(wrap.lines@[from].text@) + (if from + 1
            < wrap.lines@.len() {
            seq![10u8]
        } else {
            Seq::empty()
        }) + wrap.text_of(from + 1, to),
        from >= to ==> wrap.text_of(from, to) == Seq::<u8>::empty(),
{
}

/// What chunks hold is what each of them holds, one after the other: the bytes of its text, all in
/// its style.
pub proof fn law_contents(chunks: Seq<Chunk>)
    ensures
        chunks.len() == 0 ==> contents(chunks).len() == 0,
        chunks.len() > 0 ==> {
            let first = encode_utf8(chunks[0].text@);
            &&& contents(chunks).len() == first.len() + contents(chunks.drop_first()).len()
            &&& forall|k: int|
                0 <= k < first.len() ==> #[trigger] contents(chunks)[k] == (
                    first[k],
                    chunks[0].style,
                )
            &&& contents(chunks).skip(first.len() as int) == contents(chunks.drop_first())
        },
{
    if chunks.len() > 0 {
        let first = encode_utf8(chunks[0].text@);
        assert(contents(chunks).skip(first.len() as int) =~= contents(chunks.drop_first()));
    }
}

/// Bytes with a style, and without it again, are the same bytes.
pub proof fn law_styled(bytes: Seq<u8>, style: ChunkStyle)
    ensures
        bytes_of(styled(bytes, style)) == bytes,
        forall|k: int|
            0 <= k < bytes.len() ==> (#[trigger] styled(bytes, style)[k]) == (bytes[k], style),
{
    assert(bytes_of(styled(bytes, style)) =~= bytes);
}

/// The chunks that are left hold the text that is left.
pub proof fn law_input(chunks: &BlockChunks)
    requires
        chunks.next_input <= chunks.input_chunks@.len(),
    ensures
        chunks.input() == contents(
            seq![chunks.input_chunk] + chunks.input_chunks@.skip(chunks.next_input as int),
        ),
        chunks.rest() == chunks.snapshot.weave(
            chunks.output_row as int,
            chunks.max_output_row as int,
            chunks.input(),
        ),
{
    let left = chunks.input_chunks@.skip(chunks.next_input as int);
    let all = seq![chunks.input_chunk] + left;
    assert(all.drop_first() =~= left);
}

/// Where the first rows of a text end: behind as many line breaks, or at its end.
proof fn lemma_rows_end(bytes: Seq<u8>, rows: int)
    requires
        0 <= rows,
    ensures
        is_row_offset(
            bytes,
            rows,
            line_breaks(bytes.take(rows_end(bytes, rows))) as int,
            rows_end(bytes, rows),
        ),
        rows > 0 && bytes.len() > 0 ==> rows_end(bytes, rows) > 0,
    decreases rows,
{
    if rows == 0 {
        assert(bytes.take(0) =~= Seq::empty());
    } else {
        crate::text::lemma_row_end(bytes);
        let end = row_end(bytes);
        let rest = bytes.skip(end);
        lemma_rows_end(rest, rows - 1);
        let more = rows_end(rest, rows - 1);
        assert(bytes.take(end + more) =~= bytes.take(end) + rest.take(more));
        crate::text::lemma_line_breaks_concat(bytes.take(end), rest.take(more));
        if more > 0 {
            assert(rest[more - 1] == bytes[end + more - 1]);
        }
        if end == 0 || bytes[end - 1] != crate::text::NEWLINE {
            assert(end == bytes.len());
            assert(rest.take(more) =~= Seq::empty());
        }
    }
}

/// The next chunk in a block is a plain line break for each of its lines that are left, up to the
/// last row asked for; for the last row of all there is none.
pub proof fn law_chunk_of_block(chunks: &BlockChunks) -> (count: int)
    requires
        chunks.wf(),
        chunks.output_row < chunks.max_output_row,
        chunks.snapshot.rows()[chunks.output_row as int] is Block,
        chunks.cursor.ix < chunks.snapshot.transforms@.len(),
    ensures
        ({
            let rows = chunks.snapshot.rows();
            let row = chunks.output_row as int;
            &&& 0 <= count
            &&& row + count <= chunks.max_output_row
            &&& row + count < rows.len()
            &&& chunks.piece() == Some((Seq::new(count as nat, |k: int| 10u8), ChunkStyle(0)))
            &&& !chunks.in_text()
            &&& forall|r: int|
                row <= r < row + count ==> (#[trigger] rows[r]) is Block && rows[r]->block
                    == rows[row]->block
            &&& row + count == chunks.max_output_row || row + count + 1 == rows.len() || (rows[row
                + count] is Text || rows[row + count]->block != rows[row]->block)
        }),
{
    let s = chunks.snapshot.transforms@;
    let ix = chunks.cursor.ix as int;
    let rows = chunks.snapshot.rows();
    let row = chunks.output_row as int;
    let max = chunks.max_output_row as int;
    let start = out_start(s, ix);
    chunks.snapshot.lemma_rows();
    crate::transforms::lemma_step(s, ix);
    crate::transforms::lemma_monotone(s, ix + 1, s.len() as int);
    crate::transforms::lemma_whole(s);
    assert(s[ix].ok());
    crate::transforms::lemma_display_at(s, ix, row - start);
    let end = out_start(s, ix + 1);
    let last_line = if end == rows.len() {
        end - 1
    } else {
        end
    };
    let to = if max < last_line {
        max
    } else {
        last_line
    };
    let count = to - row;
    assert forall|r: int| row <= r < row + count implies (#[trigger] rows[r]) is Block
        && rows[r]->block == rows[row]->block by {
        crate::transforms::lemma_display_at(s, ix, r - start);
    }
    assert(line_break_bytes(count as nat) =~= Seq::new(count as nat, |k: int| 10u8));
    if to == end {
        if end < rows.len() && rows[end] is Block && rows[end]->block == rows[row]->block {
            let i = crate::points::lemma_block_line(chunks.snapshot, end);
            if i != ix {
                crate::transforms::lemma_placed_at(s, i);
                crate::transforms::lemma_placed_at(s, ix);
                let (m, n) = (
                    crate::transforms::placed(s.take(i)).len() as int,
                    crate::transforms::placed(s.take(ix)).len() as int,
                );
                crate::laws::law_ids_distinct(chunks.snapshot, m, n);
                if i < ix {
                    crate::transforms::lemma_step(s, i);
                    crate::transforms::lemma_monotone(s, i + 1, ix);
                } else {
                    crate::transforms::lemma_monotone(s, ix + 1, i);
                }
            }
        }
    }
    count
}

/// The next chunk in text is in the style of the next piece of the input, and holds all of it,
/// unless that goes beyond the run of text: then it ends with the line break that ends the run.
/// Where the input is used up, it is the plain line break that the last line of the text is
/// without, if more rows follow.
pub proof fn law_chunk_of_text(chunks: &BlockChunks)
    requires
        chunks.wf(),
        chunks.output_row < chunks.max_output_row,
        chunks.snapshot.rows()[chunks.output_row as int] is Text,
    ensures
        chunks.input_chunk.text@.len() == 0 && chunks.next_input == chunks.input_chunks@.len()
            ==> !chunks.in_text() && chunks.piece() == (if chunks.output_row + 1
            < chunks.max_output_row {
            Some((seq![10u8], ChunkStyle(0)))
        } else {
            None
        }),
        chunks.input_chunk.text@.len() > 0 || chunks.next_input < chunks.input_chunks@.len() ==> {
            let source = if chunks.input_chunk.text@.len() > 0 {
                chunks.input_chunk
            } else {
                chunks.input_chunks@[chunks.next_input as int]
            };
            let bytes = encode_utf8(source.text@);
            let run = out_start(chunks.snapshot.transforms@, chunks.cursor.ix + 1)
                - chunks.output_row;
            &&& chunks.in_text()
            &&& chunks.piece() matches Some(piece)
            &&& piece.1 == source.style
            &&& piece.0.len() <= bytes.len()
            &&& piece.0 == bytes.take(piece.0.len() as int)
            &&& line_breaks(piece.0) <= run
            &&& piece.0.len() < bytes.len() ==> line_breaks(piece.0) == run
            &&& line_breaks(piece.0) == run ==> piece.0.last() == 10u8
            &&& bytes.len() > 0 ==> piece.0.len() > 0
        },
{
    let s = chunks.snapshot.transforms@;
    let ix = chunks.cursor.ix as int;
    let row = chunks.output_row as int;
    chunks.snapshot.lemma_rows();
    crate::transforms::lemma_step(s, ix);
    crate::transforms::lemma_display_at(s, ix, row - out_start(s, ix));
    assert(line_break_bytes(1) =~= seq![10u8]);
    if chunks.input_chunk.text@.len() > 0 || chunks.next_input < chunks.input_chunks@.len() {
        let source = if chunks.input_chunk.text@.len() > 0 {
            chunks.input_chunk
        } else {
            chunks.input_chunks@[chunks.next_input as int]
        };
        let bytes = encode_utf8(source.text@);
        let run = out_start(s, ix + 1) - row;
        lemma_rows_end(bytes, run);
        let end = rows_end(bytes, run);
        let piece = bytes.take(end);
        assert(chunks.piece() == Some((piece, source.style)));
        assert(bytes.take(piece.len() as int) =~= piece);
    }
}

/// Masked text is one bullet for each character.
pub proof fn law_bullets(c: char, count: nat)
    ensures
        repeated(c, count).len() == count,
        forall|k: int| 0 <= k < count ==> #[trigger] repeated(c, count)[k] == c,
{
}

/// Chunks of up to 255 line breaks and up to 128 bullets can be given.
pub proof fn law_chunks_allowed(chunks: &BlockChunks)
    requires
        chunks.piece() matches Some(piece) ==> if chunks.in_text() {
            chunks.masked ==> vstd::utf8::decode_utf8(piece.0).len() <= 128
        } else {
            piece.0.len() <= 255
        },
    ensures
        chunks.piece_fits(),
{
}

/// The whole text can be given where no block has more than 255 lines.
pub proof fn law_text_allowed(snapshot: &BlockSnapshot)
    requires
        snapshot.wf(),
        forall|i: int|
            0 <= i < snapshot.transforms@.len() ==> ((#[trigger] snapshot.transforms@[i]).block
                matches Some(block) ==> block.height_spec() <= 255),
    ensures
        snapshot.heights_fit(),
{
    assert forall|i: int|
        0 <= i < snapshot.transforms@.len() && (#[trigger] snapshot.transforms@[i]).block
            is Some implies snapshot.transforms@[i].summary.output_rows <= 255 by {
        assert(snapshot.transforms@[i].ok());
    }
}

/// The line breaks in bytes are the bytes with the number 10.
pub proof fn law_line_breaks(bytes: Seq<u8>)
    ensures
        line_breaks(bytes) == bytes.to_multiset().count(10u8),
    decreases bytes.len(),
{
    if bytes.len() > 0 {
        law_line_breaks(bytes.drop_last());
        assert(bytes =~= bytes.drop_last().push(bytes.last()));
    } else {
        assert(bytes =~= Seq::empty());
    }
}

/// The offset of a row is behind as many line breaks as there are rows before it, the last of them
/// directly before it. Where there are fewer, it is the end, and the rows are as many as there are
/// line breaks. No other offset is.
pub proof fn law_offset_for_row(
    bytes: Seq<u8>,
    target: int,
    rows: int,
    offset: int,
    other_rows: int,
    other_offset: int,
)
    requires
        0 <= target,
        is_row_offset(bytes, target, rows, offset),
        is_row_offset(bytes, target, other_rows, other_offset),
    ensures
        0 <= offset <= bytes.len(),
        rows == bytes.take(offset).to_multiset().count(10u8),
        bytes.to_multiset().count(10u8) >= target ==> rows == target && (target > 0 ==> offset > 0
            && bytes[offset - 1] == 10u8) && (target == 0 ==> offset == 0),
        bytes.to_multiset().count(10u8) < target ==> offset == bytes.len() && rows
            == bytes.to_multiset().count(10u8),
        offset == other_offset && rows == other_rows,
{
    law_line_breaks(bytes);
    law_line_breaks(bytes.take(offset));
    crate::text::lemma_row_offset(bytes, target, rows, offset);
    crate::text::lemma_row_offset(bytes, target, other_rows, other_offset);
    assert(bytes =~= bytes.take(offset) + bytes.skip(offset));
    crate::text::lemma_line_breaks_concat(bytes.take(offset), bytes.skip(offset));
    assert(bytes.take(bytes.len() as int) =~= bytes);
    if target > 0 && offset == 0 {
        assert(bytes.take(0) =~= Seq::empty());
    }
}

/// The number that decimal digits stand for.
pub open spec fn number_of(digits: Seq<char>) -> nat
    decreases digits.len(),
{
    if digits.len() == 0 {
        0
    } else {
        10 * number_of(digits.drop_last()) + (digits.last() as u32 - '0' as u32) as nat
    }
}

/// A number in decimal digits stands for the number, and does not begin with 0 unless it is 0.
pub proof fn law_decimal(n: nat)
    ensures
        number_of(decimal(n)) == n,
        decimal(n).len() > 0,
        forall|k: int| 0 <= k < decimal(n).len() ==> '0' <= #[trigger] decimal(n)[k] <= '9',
        n > 0 ==> decimal(n)[0] != '0',
        n == 0 ==> decimal(n).len() == 1,
    decreases n,
{
    let last = decimal(n)[decimal(n).len() - 1];
    assert(last as u32 == '0' as u32 + n % 10);
    if n >= 10 {
        law_decimal(n / 10);
        assert(decimal(n).drop_last() =~= decimal(n / 10));
        assert(n == 10 * (n / 10) + n % 10);
    } else {
        assert(decimal(n).drop_last() =~= Seq::empty());
        assert(number_of(decimal(n).drop_last()) == 0);
    }
    assert(number_of(decimal(n)) == 10 * number_of(decimal(n).drop_last()) + (last as u32
        - '0' as u32) as nat);
}

/// The name of a block says what kind of block it is, and its number in decimal digits.
pub proof fn law_names(id: BlockId)
    ensures
        match id {
            BlockId::Custom(custom) => id.name() == "Block(CustomBlockId("@ + decimal(
                custom.0 as nat,
            ) + "))"@,
            BlockId::ExcerptBoundary(Some(next)) => id.name() == "ExcerptHeader(Some(ExcerptId("@
                + decimal(next.0 as nat) + ")))"@,
            BlockId::ExcerptBoundary(None) => id.name() == "ExcerptHeader(None)"@,
        },
{
}

} // verus!
