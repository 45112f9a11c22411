//! The text on display: the rows of text, interleaved with empty lines for blocks.

use std::ops::Range;
use vstd::prelude::*;
use vstd::string::{StrSliceExecFns, StringExecFns, StringSliceAdditionalSpecFns};
use vstd::utf8::encode_utf8;

use crate::point::Bias;
use crate::snapshot::BlockSnapshot;
use crate::text::{line_breaks, row_end, rows_end, NEWLINE};
use crate::transforms::{
    in_start, input_rows, out_start, output_rows, seek_output, summary, texts_before, Cursor,
    DisplayRow, Transform,
};
use crate::wrap::WrapSnapshot;

verus! {

/// The number under which the program keeps how text is drawn. Number 0 is plain.
#[derive(Clone, Copy, Debug, PartialEq, Eq, Hash, Structural)]
pub struct ChunkStyle(pub u64);

impl ChunkStyle {
    pub open spec fn plain_spec() -> Self {
        ChunkStyle(0)
    }

    #[verifier::when_used_as_spec(plain_spec)]
    pub fn plain() -> (style: Self)
        ensures
            style == Self::plain_spec(),
    {
        ChunkStyle(0)
    }
}

/// A piece of text in one style.
pub struct Chunk {
    pub text: String,
    pub style: ChunkStyle,
}

/// Bytes with their style.
pub open spec fn styled(bytes: Seq<u8>, style: ChunkStyle) -> Seq<(u8, ChunkStyle)> {
    bytes.map_values(|byte: u8| (byte, style))
}

/// Styled bytes without their styles.
pub open spec fn bytes_of(text: Seq<(u8, ChunkStyle)>) -> Seq<u8> {
    text.map_values(|item: (u8, ChunkStyle)| item.0)
}

impl Clone for Chunk {
    fn clone(&self) -> (copy: Self)
        ensures
            copy == *self,
    {
        Chunk { text: self.text.clone(), style: self.style }
    }
}

impl Chunk {
    pub open spec fn content(&self) -> Seq<(u8, ChunkStyle)> {
        styled(encode_utf8(self.text@), self.style)
    }
}

/// All that chunks hold, one after the other.
pub open spec fn contents(chunks: Seq<Chunk>) -> Seq<(u8, ChunkStyle)>
    decreases chunks.len(),
{
    if chunks.len() == 0 {
        Seq::empty()
    } else {
        chunks[0].content() + contents(chunks.drop_first())
    }
}

impl WrapSnapshot {
    /// A row with the line break that ends it. The last row has none.
    pub open spec fn line_text(&self, row: int) -> Seq<u8> {
        self.lines@[row].bytes() + (if row + 1 < self.rows() {
            seq![NEWLINE]
        } else {
            Seq::empty()
        })
    }

    /// Rows `from..to` with their line breaks.
    pub open spec fn text_of(&self, from: int, to: int) -> Seq<u8>
        decreases to - from,
    {
        if from >= to {
            Seq::empty()
        } else {
            self.line_text(from) + self.text_of(from + 1, to)
        }
    }
}

impl BlockSnapshot {
    /// Whether a row of text is the last one.
    pub open spec fn is_last_text(&self, row: int) -> bool {
        self.rows()[row] == (DisplayRow::Text { row: self.wrap_snapshot.rows() - 1 })
    }

    /// The rows `row..max` on display, where `input` is the rest of the text from row `row` on.
    ///
    /// A row of text takes its line from the input. Where the input has no line break for the last
    /// row of the text, one is added if more rows follow. Lines of blocks are empty, each with a
    /// line break unless it is the last row of all.
    pub open spec fn weave(
        &self,
        row: int,
        max: int,
        input: Seq<(u8, ChunkStyle)>,
    ) -> Seq<(u8, ChunkStyle)>
        decreases max - row,
    {
        let line_break = seq![(NEWLINE, ChunkStyle::plain())];
        if row >= max {
            Seq::empty()
        } else if self.rows()[row] is Text {
            let end = row_end(bytes_of(input));
            let line = input.take(end);
            let ended = end > 0 && input[end - 1].0 == NEWLINE;
            line + (if !ended && row + 1 < max {
                line_break
            } else {
                Seq::empty()
            }) + self.weave(row + 1, max, input.skip(end))
        } else {
            (if row + 1 < self.rows().len() {
                line_break
            } else {
                Seq::empty()
            }) + self.weave(row + 1, max, input)
        }
    }

    /// The line breaks that the text in rows `row..max` has.
    pub open spec fn breaks_due(&self, row: int, max: int) -> int
        decreases max - row,
    {
        if row >= max {
            0
        } else {
            (if self.rows()[row] is Text && !self.is_last_text(row) {
                1int
            } else {
                0
            }) + self.breaks_due(row + 1, max)
        }
    }

    /// The last row of the text is among rows `row..max`.
    pub open spec fn last_due(&self, row: int, max: int) -> bool
        decreases max - row,
    {
        row < max && (self.is_last_text(row) || self.last_due(row + 1, max))
    }

    /// `input` has the lines that rows `row..max` take, the first of them perhaps in part, and
    /// nothing more.
    pub open spec fn fits(&self, input: Seq<(u8, ChunkStyle)>, row: int, max: int) -> bool {
        &&& line_breaks(bytes_of(input)) == self.breaks_due(row, max)
        &&& !self.last_due(row, max) ==> input.len() == 0 || input.last().0 == NEWLINE
    }

    /// Past the last row of text nothing is due.
    proof fn lemma_none_due(&self, row: int, max: int)
        requires
            self.wf(),
            0 <= row,
            max <= self.rows().len(),
            texts_before(self.rows(), row) == self.wrap_snapshot.rows(),
        ensures
            self.breaks_due(row, max) == 0,
            !self.last_due(row, max),
        decreases max - row,
    {
        if row < max {
            crate::transforms::lemma_text_at(self.transforms@, row);
            assert(!(self.rows()[row] is Text));
            self.lemma_none_due(row + 1, max);
        }
    }

    proof fn lemma_fits_end(&self, input: Seq<(u8, ChunkStyle)>, max: int)
        requires
            self.fits(input, max, max),
        ensures
            input.len() == 0,
    {
        if input.len() > 0 {
            let bytes = bytes_of(input);
            assert(bytes.last() == input.last().0);
        }
    }

    /// One byte of the input is used up.
    proof fn lemma_fits_step(&self, input: Seq<(u8, ChunkStyle)>, row: int, max: int)
        requires
            self.wf(),
            0 <= row < max <= self.rows().len(),
            self.rows()[row] is Text,
            self.fits(input, row, max),
            input.len() > 0,
        ensures
            input[0].0 == NEWLINE ==> self.fits(input.skip(1), row + 1, max),
            input[0].0 != NEWLINE ==> self.fits(input.skip(1), row, max),
    {
        let bytes = bytes_of(input);
        let rest = input.skip(1);
        let first = seq![bytes[0]];
        assert(bytes =~= first + bytes_of(rest));
        crate::text::lemma_line_breaks_concat(first, bytes_of(rest));
        assert(first.drop_last() =~= Seq::empty());
        assert(line_breaks(Seq::<u8>::empty()) == 0);
        if input[0].0 == NEWLINE {
            if self.is_last_text(row) {
                crate::transforms::lemma_text_at(self.transforms@, row);
                assert(texts_before(self.rows(), row + 1) == self.wrap_snapshot.rows());
                self.lemma_none_due(row + 1, max);
                assert(false);
            }
        }
        if rest.len() > 0 {
            assert(rest.last() == input.last());
        }
    }

    /// A part of the input with its line breaks is shown as it is.
    proof fn lemma_weave_input(
        &self,
        input: Seq<(u8, ChunkStyle)>,
        row: int,
        max: int,
        len: int,
    )
        requires
            self.wf(),
            0 <= row <= max <= self.rows().len(),
            self.fits(input, row, max),
            0 <= len <= input.len(),
            forall|r: int|
                row <= r < max && r < row + line_breaks(bytes_of(input).take(len))
                    ==> #[trigger] self.rows()[r] is Text,
            len > 0 && input[len - 1].0 != NEWLINE && row + line_breaks(bytes_of(input).take(len))
                < max ==> self.rows()[row + line_breaks(bytes_of(input).take(len))] is Text,
        ensures
            row + line_breaks(bytes_of(input).take(len)) <= max,
            self.weave(row, max, input) == input.take(len) + self.weave(
                row + line_breaks(bytes_of(input).take(len)),
                max,
                input.skip(len),
            ),
            self.fits(
                input.skip(len),
                row + line_breaks(bytes_of(input).take(len)),
                max,
            ),
        decreases len,
    {
        let bytes = bytes_of(input);
        let breaks = line_breaks(bytes.take(len));
        if len == 0 {
            assert(bytes.take(0) =~= Seq::empty());
            assert(input.take(0) =~= Seq::empty());
            assert(input.skip(0) =~= input);
            assert(input.take(0) + self.weave(row, max, input) =~= self.weave(row, max, input));
        } else {
            if row == max {
                self.lemma_fits_end(input, max);
            }
            let rest = input.skip(1);
            let first = seq![bytes[0]];
            assert(bytes_of(rest) =~= bytes.skip(1));
            assert(bytes.take(len) =~= first + bytes_of(rest).take(len - 1));
            crate::text::lemma_line_breaks_concat(first, bytes_of(rest).take(len - 1));
            assert(first.drop_last() =~= Seq::empty());
            assert(line_breaks(Seq::<u8>::empty()) == 0);
            assert(rest.skip(len - 1) =~= input.skip(len));
            assert(input.take(1) + rest.take(len - 1) =~= input.take(len));
            if len > 1 {
                assert(rest[len - 2] == input[len - 1]);
            }
            if bytes[0] == NEWLINE {
                assert(self.rows()[row] is Text);
                self.lemma_fits_step(input, row, max);
                self.lemma_weave_input(rest, row + 1, max, len - 1);
                let next = row + breaks;
                assert(self.weave(row, max, input) =~= input.take(1) + self.weave(
                    row + 1,
                    max,
                    rest,
                ));
                assert(input.take(1) + (rest.take(len - 1) + self.weave(next, max, input.skip(len)))
                    =~= input.take(len) + self.weave(next, max, input.skip(len)));
            } else {
                assert(self.rows()[row] is Text) by {
                    if breaks == 0 {
                        assert forall|k: int| 0 <= k < len implies #[trigger] bytes[k]
                            != NEWLINE by {
                            lemma_no_breaks(bytes.take(len), k);
                            assert(bytes.take(len)[k] == bytes[k]);
                        }
                        assert(bytes[len - 1] != NEWLINE);
                        assert(input[len - 1].0 == bytes[len - 1]);
                    }
                }
                self.lemma_fits_step(input, row, max);
                self.lemma_weave_input(rest, row, max, len - 1);
                self.lemma_weave_byte(input, row, max);
                let next = row + breaks;
                assert(input.take(1) + (rest.take(len - 1) + self.weave(next, max, input.skip(len)))
                    =~= input.take(len) + self.weave(next, max, input.skip(len)));
            }
        }
    }

    /// A byte within a line comes before the rest of the line.
    proof fn lemma_weave_byte(&self, input: Seq<(u8, ChunkStyle)>, row: int, max: int)
        requires
            0 <= row < max,
            self.rows()[row] is Text,
            input.len() > 0,
            input[0].0 != NEWLINE,
        ensures
            self.weave(row, max, input) == input.take(1) + self.weave(row, max, input.skip(1)),
    {
        let rest = input.skip(1);
        let end = row_end(bytes_of(rest));
        crate::text::lemma_row_end(bytes_of(rest));
        assert(bytes_of(input).drop_first() =~= bytes_of(rest));
        assert(row_end(bytes_of(input)) == 1 + end);
        assert(input.skip(1 + end) =~= rest.skip(end));
        assert(input.take(1 + end) =~= input.take(1) + rest.take(end));
        if end > 0 {
            assert(input[end] == rest[end - 1]);
        }
        assert(self.weave(row, max, input) =~= input.take(1) + self.weave(row, max, rest));
    }
}

proof fn lemma_no_breaks(bytes: Seq<u8>, k: int)
    requires
        line_breaks(bytes) == 0,
        0 <= k < bytes.len(),
    ensures
        bytes[k] != NEWLINE,
    decreases bytes.len(),
{
    if k < bytes.len() - 1 {
        lemma_no_breaks(bytes.drop_last(), k);
    }
}

/// A character, repeated.
pub open spec fn repeated(c: char, count: nat) -> Seq<char> {
    Seq::new(count, |i: int| c)
}

/// `count` line breaks.
pub open spec fn line_break_bytes(count: nat) -> Seq<u8> {
    Seq::new(count, |i: int| NEWLINE)
}

/// The text `part`, `count` times.
fn repeat(part: &str, count: usize, Ghost(c): Ghost<char>) -> (text: String)
    requires
        part@ == seq![c],
    ensures
        text@ == repeated(c, count as nat),
{
    let mut text: String = String::new();
    let mut k: usize = 0;
    while k < count
        invariant
            k <= count,
            part@ == seq![c],
            text@ == repeated(c, k as nat),
        decreases count - k,
    {
        text.append(part);
        k = k + 1;
        proof {
            assert(text@ =~= repeated(c, k as nat));
        }
    }
    text
}

/// `count` line breaks.
fn line_break_text(count: usize) -> (text: String)
    ensures
        encode_utf8(text@) == line_break_bytes(count as nat),
{
    proof {
        reveal_strlit("\n");
        assert("\n"@ =~= seq!['\n']);
    }
    let text: String = repeat("\n", count, Ghost('\n'));
    proof {
        vstd::utf8::is_ascii_chars_encode_utf8(text@);
        assert(encode_utf8(text@) =~= line_break_bytes(count as nat));
    }
    text
}

/// `count` bullets.
fn bullets(count: usize) -> (text: String)
    ensures
        text@ == repeated('*', count as nat),
{
    proof {
        reveal_strlit("*");
        assert("*"@ =~= seq!['*']);
    }
    repeat("*", count, Ghost('*'))
}

/// Walks down rows on display and gives their text in chunks.
///
/// `input_chunks` from `next_input` on, after `input_chunk`, are the text that is left. Where
/// `masked`, text is given as bullets.
pub struct BlockChunks<'a> {
    pub snapshot: &'a BlockSnapshot,
    pub cursor: Cursor,
    pub input_chunks: Vec<Chunk>,
    pub next_input: usize,
    pub input_chunk: Chunk,
    pub output_row: u32,
    pub max_output_row: u32,
    pub masked: bool,
}

/// The most line breaks in a chunk.
pub const MAX_LINE_BREAKS: usize = 255;

/// The most bullets in a chunk.
pub const MAX_BULLETS: usize = 128;

impl<'a> BlockChunks<'a> {
    /// The text that is left.
    pub open spec fn input(&self) -> Seq<(u8, ChunkStyle)> {
        self.input_chunk.content() + contents(self.input_chunks@.skip(self.next_input as int))
    }

    /// All that is left to give.
    pub open spec fn rest(&self) -> Seq<(u8, ChunkStyle)> {
        self.snapshot.weave(self.output_row as int, self.max_output_row as int, self.input())
    }

    /// The cursor is at the transform that shows the row, or the row is the last line of the last
    /// block; the text that is left is that of the rows that are left.
    pub open spec fn wf(&self) -> bool {
        let s = self.snapshot.transforms@;
        let ix = self.cursor.ix as int;
        &&& self.snapshot.wf()
        &&& self.cursor.at(s)
        &&& self.next_input <= self.input_chunks@.len()
        &&& self.max_output_row <= self.snapshot.rows().len()
        &&& self.output_row < self.max_output_row ==> {
            &&& self.snapshot.fits(
                self.input(),
                self.output_row as int,
                self.max_output_row as int,
            )
            &&& if ix < s.len() {
                out_start(s, ix) <= self.output_row < out_start(s, ix + 1)
            } else {
                &&& self.output_row + 1 == self.snapshot.rows().len()
                &&& self.snapshot.rows()[self.output_row as int] is Block
            }
        }
    }

    /// The text from which the next chunk comes.
    pub open spec fn source(&self) -> Chunk {
        if self.input_chunk.text@.len() == 0 {
            self.input_chunks@[self.next_input as int]
        } else {
            self.input_chunk
        }
    }

    /// The next chunk comes from the text.
    pub open spec fn in_text(&self) -> bool {
        let s = self.snapshot.transforms@;
        let ix = self.cursor.ix as int;
        &&& self.output_row < self.max_output_row
        &&& ix < s.len()
        &&& s[ix].block is None
        &&& self.input_chunk.text@.len() > 0 || self.next_input < self.input_chunks@.len()
    }

    /// The next chunk, before it is masked: the lines of a block up to the last row asked for; text
    /// up to the next block; or the line break that the last line of the text is without.
    pub open spec fn piece(&self) -> Option<(Seq<u8>, ChunkStyle)> {
        let s = self.snapshot.transforms@;
        let ix = self.cursor.ix as int;
        let end = out_start(s, ix + 1);
        let max = self.max_output_row as int;
        if self.output_row >= max || ix >= s.len() {
            None
        } else if s[ix].block is Some {
            let last_line = if end == self.snapshot.rows().len() {
                end - 1
            } else {
                end
            };
            let count = (if max < last_line {
                max
            } else {
                last_line
            }) - self.output_row;
            Some((line_break_bytes(count as nat), ChunkStyle::plain()))
        } else if self.in_text() {
            let bytes = encode_utf8(self.source().text@);
            Some((bytes.take(rows_end(bytes, end - self.output_row)), self.source().style))
        } else if self.output_row + 1 < max {
            Some((line_break_bytes(1), ChunkStyle::plain()))
        } else {
            None
        }
    }

    /// The next chunk is no longer than chunks can be.
    pub open spec fn piece_fits(&self) -> bool {
        self.piece() matches Some(piece) ==> if self.in_text() {
            self.masked ==> vstd::utf8::decode_utf8(piece.0).len() <= MAX_BULLETS
        } else {
            piece.0.len() <= MAX_LINE_BREAKS
        }
    }

    /// More than the number of chunks that are left.
    pub open spec fn steps(&self) -> int {
        (self.snapshot.transforms@.len() - self.cursor.ix) + 2 * (self.input_chunks@.len()
            - self.next_input) + (if self.input_chunk.text@.len() > 0 {
            1int
        } else {
            0
        })
    }

    /// Goes on to the next transform that shows something.
    fn advance(&mut self)
        requires
            old(self).snapshot.wf(),
            old(self).cursor.at(old(self).snapshot.transforms@),
            old(self).cursor.ix < old(self).snapshot.transforms@.len(),
        ensures
            *final(self).snapshot == *old(self).snapshot,
            final(self).input_chunks == old(self).input_chunks,
            final(self).next_input == old(self).next_input,
            final(self).input_chunk == old(self).input_chunk,
            final(self).output_row == old(self).output_row,
            final(self).max_output_row == old(self).max_output_row,
            final(self).masked == old(self).masked,
            final(self).cursor.at(old(self).snapshot.transforms@),
            final(self).cursor.ix > old(self).cursor.ix,
            final(self).cursor.output == out_start(
                old(self).snapshot.transforms@,
                old(self).cursor.ix + 1,
            ),
            final(self).cursor.ix < old(self).snapshot.transforms@.len() ==> final(
                self).cursor.output < out_start(
                old(self).snapshot.transforms@,
                final(self).cursor.ix + 1,
            ),
            final(self).cursor.ix == old(self).snapshot.transforms@.len() <==> out_start(
                old(self).snapshot.transforms@,
                old(self).cursor.ix + 1,
            ) == old(self).snapshot.rows().len(),
    {
        let snapshot: &'a BlockSnapshot = self.snapshot;
        let transforms: &Vec<Transform> = &snapshot.transforms;
        let ghost s = transforms@;
        let ghost from = self.cursor.ix as int;
        proof {
            snapshot.lemma_rows();
        }
        self.cursor.next(transforms);
        while self.cursor.ix < transforms.len() && transforms[self.cursor.ix].is_empty()
            invariant
                *transforms == snapshot.transforms,
                s == transforms@,
                snapshot.wf(),
                input_rows(s) <= u32::MAX,
                output_rows(s) <= u32::MAX,
                *self.snapshot == *snapshot,
                *snapshot == *old(self).snapshot,
                self.input_chunks == old(self).input_chunks,
                self.next_input == old(self).next_input,
                self.input_chunk == old(self).input_chunk,
                self.output_row == old(self).output_row,
                self.max_output_row == old(self).max_output_row,
                self.masked == old(self).masked,
                self.cursor.at(s),
                from < self.cursor.ix <= s.len(),
                self.cursor.output == out_start(s, from + 1),
            decreases s.len() - self.cursor.ix,
        {
            proof {
                crate::transforms::lemma_step(s, self.cursor.ix as int);
                assert(s[self.cursor.ix as int].ok());
            }
            self.cursor.next(transforms);
        }
        proof {
            crate::transforms::lemma_whole(s);
            snapshot.lemma_rows();
            if self.cursor.ix < s.len() {
                crate::transforms::lemma_step(s, self.cursor.ix as int);
                crate::transforms::lemma_monotone(s, self.cursor.ix + 1, s.len() as int);
                assert(s[self.cursor.ix as int].ok());
            }
        }
    }

    /// Whether the next chunk is no longer than chunks can be.
    pub fn next_fits(&self) -> (fits: bool)
        requires
            self.wf(),
        ensures
            fits == self.piece_fits(),
    {
        let transforms: &Vec<Transform> = &self.snapshot.transforms;
        let ghost s = transforms@;
        let ghost ix = self.cursor.ix as int;
        if self.output_row >= self.max_output_row || self.cursor.ix == transforms.len() {
            return true;
        }
        proof {
            self.snapshot.lemma_rows();
            crate::transforms::lemma_step(s, ix);
            crate::transforms::lemma_monotone(s, ix + 1, s.len() as int);
            crate::transforms::lemma_whole(s);
        }
        let end: u32 = self.cursor.output + transforms[self.cursor.ix].summary.output_rows;
        if !transforms[self.cursor.ix].is_isomorphic() {
            let last_line: u32 = if end == summary(transforms).output_rows {
                end - 1
            } else {
                end
            };
            let to: u32 = if self.max_output_row < last_line {
                self.max_output_row
            } else {
                last_line
            };
            return (to - self.output_row) as usize <= MAX_LINE_BREAKS;
        }
        if self.input_chunk.text.as_str().is_empty() && self.next_input
            == self.input_chunks.len() {
            return true;
        }
        if !self.masked {
            return true;
        }
        let text: &str = if self.input_chunk.text.as_str().is_empty() {
            self.input_chunks[self.next_input].text.as_str()
        } else {
            self.input_chunk.text.as_str()
        };
        let (prefix_rows, prefix_bytes): (u32, usize) = crate::text::offset_for_row(
            text,
            end - self.output_row,
        );
        let (prefix, _): (&str, &str) = text.split_at(prefix_bytes);
        proof {
            let bytes = encode_utf8(text@);
            crate::text::lemma_row_offset(
                bytes,
                end - self.output_row,
                prefix_rows as int,
                prefix_bytes as int,
            );
            assert(encode_utf8(prefix@) =~= bytes.take(prefix_bytes as int));
            vstd::utf8::encode_utf8_decode_utf8(prefix@);
        }
        prefix.unicode_len() <= MAX_BULLETS
    }

    /// The next chunk, if rows are left.
    pub fn next(&mut self) -> (found: Option<Chunk>)
        requires
            old(self).wf(),
            old(self).piece_fits(),
        ensures
            final(self).wf(),
            *final(self).snapshot == *old(self).snapshot,
            final(self).max_output_row == old(self).max_output_row,
            final(self).masked == old(self).masked,
            found is Some <==> old(self).piece() is Some,
            found matches Some(chunk) ==> {
                let piece = old(self).piece()->0;
                &&& chunk.style == piece.1
                &&& if old(self).masked && old(self).in_text() {
                    chunk.text@ == repeated('*', vstd::utf8::decode_utf8(piece.0).len())
                } else {
                    encode_utf8(chunk.text@) == piece.0
                }
                &&& old(self).rest() == styled(piece.0, piece.1) + final(self).rest()
                &&& final(self).steps() < old(self).steps()
            },
            found is None ==> old(self).rest().len() == 0 && final(self).rest().len() == 0
                && final(self).piece() is None,
    {
        let ghost before = *self;
        if self.output_row >= self.max_output_row {
            return None;
        }
        if self.cursor.ix == self.snapshot.transforms.len() {
            proof {
                reveal_with_fuel(BlockSnapshot::weave, 2);
            }
            return None;
        }
        if !self.snapshot.transforms[self.cursor.ix].is_isomorphic() {
            return Some(self.next_in_block());
        }
        if self.input_chunk.text.as_str().is_empty() {
            if self.next_input < self.input_chunks.len() {
                let ghost left = self.input_chunks@.skip(self.next_input as int);
                self.input_chunk = self.input_chunks[self.next_input].clone();
                self.next_input = self.next_input + 1;
                proof {
                    assert(left.drop_first() =~= self.input_chunks@.skip(self.next_input as int));
                    assert(before.input_chunk.content() =~= Seq::empty());
                    assert(self.input() =~= before.input());
                }
            } else {
                return self.next_after_text();
            }
        }
        Some(self.next_in_text())
    }

    /// The lines of a block.
    fn next_in_block(&mut self) -> (chunk: Chunk)
        requires
            old(self).wf(),
            old(self).output_row < old(self).max_output_row,
            old(self).cursor.ix < old(self).snapshot.transforms@.len(),
            old(self).snapshot.transforms@[old(self).cursor.ix as int].block is Some,
        ensures
            final(self).wf(),
            *final(self).snapshot == *old(self).snapshot,
            final(self).max_output_row == old(self).max_output_row,
            final(self).masked == old(self).masked,
            old(self).piece() == Some((encode_utf8(chunk.text@), chunk.style)),
            old(self).rest() == chunk.content() + final(self).rest(),
            final(self).steps() < old(self).steps(),
    {
        let ghost before = *self;
        let ghost s = self.snapshot.transforms@;
        let ghost ix = self.cursor.ix as int;
        proof {
            self.snapshot.lemma_rows();
            crate::transforms::lemma_step(s, ix);
            crate::transforms::lemma_monotone(s, ix + 1, s.len() as int);
            crate::transforms::lemma_whole(s);
            assert(s[ix].ok());
        }
        let mut block_end: u32 = self.cursor.output
            + self.snapshot.transforms[self.cursor.ix].summary.output_rows;
        self.advance();
        if self.cursor.ix == self.snapshot.transforms.len() {
            block_end = block_end - 1;
        }
        let end: u32 = if self.max_output_row < block_end {
            self.max_output_row
        } else {
            block_end
        };
        let line_count: u32 = end - self.output_row;
        self.output_row = self.output_row + line_count;
        let chunk: Chunk = Chunk {
            text: line_break_text(line_count as usize),
            style: ChunkStyle::plain(),
        };
        proof {
            let row = before.output_row as int;
            let max = before.max_output_row as int;
            assert forall|r: int| row <= r < row + line_count implies (
            #[trigger] before.snapshot.rows()[r]) is Block by {
                crate::transforms::lemma_display_at(s, ix, r - out_start(s, ix));
            }
            before.snapshot.lemma_weave_block(before.input(), row, max, line_count as int);
            assert(self.input() == before.input());
            if self.output_row < self.max_output_row
                && self.cursor.ix == self.snapshot.transforms@.len() {
                crate::transforms::lemma_display_at(s, ix, end - out_start(s, ix));
            }
        }
        chunk
    }

    /// What comes after the last line of the text.
    fn next_after_text(&mut self) -> (found: Option<Chunk>)
        requires
            old(self).wf(),
            old(self).output_row < old(self).max_output_row,
            old(self).cursor.ix < old(self).snapshot.transforms@.len(),
            old(self).snapshot.transforms@[old(self).cursor.ix as int].block is None,
            !old(self).in_text(),
        ensures
            final(self).wf(),
            *final(self).snapshot == *old(self).snapshot,
            final(self).max_output_row == old(self).max_output_row,
            final(self).masked == old(self).masked,
            found matches Some(chunk) ==> old(self).piece() == Some(
                (encode_utf8(chunk.text@), chunk.style),
            ) && old(self).rest() == chunk.content() + final(self).rest() && final(self).steps()
                < old(self).steps(),
            found is None ==> old(self).piece() is None && old(self).rest().len() == 0 && final(
                self).rest().len() == 0 && final(self).piece() is None,
    {
        let ghost before = *self;
        let ghost s = self.snapshot.transforms@;
        let ghost ix = self.cursor.ix as int;
        let ghost row = self.output_row as int;
        let ghost max = self.max_output_row as int;
        proof {
            self.snapshot.lemma_rows();
            assert(self.input_chunks@.skip(self.next_input as int) =~= Seq::empty());
            assert(self.input() =~= Seq::empty());
            assert(bytes_of(self.input()) =~= Seq::empty());
            crate::transforms::lemma_step(s, ix);
            crate::transforms::lemma_monotone(s, ix + 1, s.len() as int);
            crate::transforms::lemma_whole(s);
            assert(s[ix].ok());
            crate::transforms::lemma_display_at(s, ix, row - out_start(s, ix));
            // The row is the last one of the text, and so of its run.
            self.snapshot.lemma_nothing_left(row, max);
            assert(in_start(s, ix) + (row - out_start(s, ix)) == self.snapshot.wrap_snapshot.rows()
                - 1);
            self.snapshot.lemma_weave_last(row, max);
        }
        self.output_row = self.output_row + 1;
        if self.output_row < self.max_output_row {
            self.advance();
            let chunk: Chunk = Chunk { text: line_break_text(1), style: ChunkStyle::plain() };
            proof {
                assert(line_break_bytes(1) =~= seq![NEWLINE]);
                assert(chunk.content() =~= seq![(NEWLINE, ChunkStyle::plain())]);
                assert(self.input() =~= Seq::empty());
            }
            Some(chunk)
        } else {
            None
        }
    }

    /// Text up to the next block.
    fn next_in_text(&mut self) -> (chunk: Chunk)
        requires
            old(self).wf(),
            old(self).output_row < old(self).max_output_row,
            old(self).cursor.ix < old(self).snapshot.transforms@.len(),
            old(self).snapshot.transforms@[old(self).cursor.ix as int].block is None,
        ensures
            final(self).wf(),
            *final(self).snapshot == *old(self).snapshot,
            final(self).max_output_row == old(self).max_output_row,
            final(self).masked == old(self).masked,
            chunk.style == old(self).input_chunk.style,
            ({
                let s = old(self).snapshot.transforms@;
                let bytes = encode_utf8(old(self).input_chunk.text@);
                let end = out_start(s, old(self).cursor.ix + 1);
                let piece = bytes.take(rows_end(bytes, end - old(self).output_row));
                &&& if old(self).masked {
                    chunk.text@ == repeated('*', vstd::utf8::decode_utf8(piece).len())
                } else {
                    encode_utf8(chunk.text@) == piece
                }
                &&& old(self).rest() == styled(piece, chunk.style) + final(self).rest()
            }),
            final(self).next_input == old(self).next_input,
            final(self).input_chunks == old(self).input_chunks,
            final(self).cursor.ix > old(self).cursor.ix || (final(self).cursor.ix == old(
                self).cursor.ix && final(self).input_chunk.text@.len() == 0),
    {
        let ghost s = self.snapshot.transforms@;
        let ghost ix = self.cursor.ix as int;
        let ghost row = self.output_row as int;
        let ghost max = self.max_output_row as int;
        let ghost bytes = encode_utf8(self.input_chunk.text@);
        let ghost input = self.input();
        proof {
            self.snapshot.lemma_rows();
            crate::transforms::lemma_step(s, ix);
            crate::transforms::lemma_monotone(s, ix + 1, s.len() as int);
            crate::transforms::lemma_whole(s);
        }
        let transform_end: u32 = self.cursor.output
            + self.snapshot.transforms[self.cursor.ix].summary.output_rows;
        let text: &str = self.input_chunk.text.as_str();
        let (prefix_rows, prefix_bytes): (u32, usize) = crate::text::offset_for_row(
            text,
            transform_end - self.output_row,
        );
        let (prefix, suffix): (&str, &str) = text.split_at(prefix_bytes);
        let prefix: String = prefix.to_owned();
        let suffix: String = suffix.to_owned();
        let ghost piece = bytes.take(prefix_bytes as int);
        proof {
            let target = transform_end - row;
            crate::text::lemma_row_offset(bytes, target, prefix_rows as int, prefix_bytes as int);
            assert(encode_utf8(prefix@) =~= piece);
            assert(bytes_of(input).take(prefix_bytes as int) =~= piece);
            assert forall|r: int| row <= r < transform_end implies (
            #[trigger] self.snapshot.rows()[r]) is Text by {
                crate::transforms::lemma_display_at(s, ix, r - out_start(s, ix));
            }
            if prefix_bytes > 0 {
                assert(input[prefix_bytes - 1].0 == bytes[prefix_bytes - 1]);
            }
            self.snapshot.lemma_weave_input(input, row, max, prefix_bytes as int);
            assert(input.take(prefix_bytes as int) =~= styled(piece, self.input_chunk.style));
        }
        let style: ChunkStyle = self.input_chunk.style;
        self.output_row = self.output_row + prefix_rows;
        self.input_chunk = Chunk { text: suffix, style };
        proof {
            assert(encode_utf8(suffix@) =~= bytes.skip(prefix_bytes as int));
            assert(self.input() =~= input.skip(prefix_bytes as int));
            if prefix_rows < transform_end - row {
                assert(prefix_bytes == bytes.len());
                lemma_empty_text(suffix@);
            }
        }
        if self.output_row == transform_end {
            self.advance();
        }
        let text: String = if self.masked {
            let chars: usize = prefix.as_str().unicode_len();
            proof {
                vstd::utf8::encode_utf8_decode_utf8(prefix@);
            }
            bullets(chars)
        } else {
            prefix
        };
        Chunk { text, style }
    }
}

/// A text without bytes has no characters.
proof fn lemma_empty_text(text: Seq<char>)
    requires
        encode_utf8(text).len() == 0,
    ensures
        text.len() == 0,
{
    vstd::utf8::encode_utf8_decode_utf8(text);
}

impl BlockSnapshot {
    /// Lines of blocks are empty.
    proof fn lemma_weave_block(
        &self,
        input: Seq<(u8, ChunkStyle)>,
        row: int,
        max: int,
        count: int,
    )
        requires
            0 <= count,
            0 <= row,
            row + count <= max,
            row + count < self.rows().len(),
            forall|r: int|
                row <= r < row + count ==> (#[trigger] self.rows()[r]) is Block,
        ensures
            self.weave(row, max, input) == styled(
                line_break_bytes(count as nat),
                ChunkStyle::plain(),
            ) + self.weave(row + count, max, input),
            self.breaks_due(row, max) == self.breaks_due(row + count, max),
            self.last_due(row, max) == self.last_due(row + count, max),
        decreases count,
    {
        let breaks = styled(line_break_bytes(count as nat), ChunkStyle::plain());
        if count == 0 {
            assert(breaks + self.weave(row, max, input) =~= self.weave(row, max, input));
        } else {
            assert(self.rows()[row] is Block);
            self.lemma_weave_block(input, row + 1, max, count - 1);
            let fewer = styled(line_break_bytes((count - 1) as nat), ChunkStyle::plain());
            let one = seq![(NEWLINE, ChunkStyle::plain())];
            let after = self.weave(row + count, max, input);
            assert(breaks =~= one + fewer);
            assert(one + (fewer + after) =~= breaks + after);
        }
    }

    /// Where no text is left for a row of text, it is the last one.
    proof fn lemma_nothing_left(&self, row: int, max: int)
        requires
            self.wf(),
            0 <= row < max <= self.rows().len(),
            self.rows()[row] is Text,
            self.fits(Seq::empty(), row, max),
        ensures
            self.is_last_text(row),
            self.fits(Seq::empty(), row + 1, max),
    {
        assert(bytes_of(Seq::<(u8, ChunkStyle)>::empty()) =~= Seq::empty());
        self.lemma_breaks_not_negative(row + 1, max);
    }

    proof fn lemma_breaks_not_negative(&self, row: int, max: int)
        ensures
            self.breaks_due(row, max) >= 0,
        decreases max - row,
    {
        if row < max {
            self.lemma_breaks_not_negative(row + 1, max);
        }
    }

    proof fn lemma_weave_last(&self, row: int, max: int)
        requires
            0 <= row < max,
            self.rows()[row] is Text,
        ensures
            self.weave(row, max, Seq::empty()) == (if row + 1 < max {
                seq![(NEWLINE, ChunkStyle::plain())]
            } else {
                Seq::empty()
            }) + self.weave(row + 1, max, Seq::empty()),
    {
        let none = Seq::<(u8, ChunkStyle)>::empty();
        assert(bytes_of(none) =~= Seq::empty());
        assert(none.take(0) =~= none);
        assert(none.skip(0) =~= none);
    }

    /// A row on display as it is in a range that ends with row `max`: the text of the row, and a
    /// line break. The last row of all has none, and neither has the last row of the text where
    /// the range ends with it.
    pub open spec fn row_text(&self, row: int, max: int) -> Seq<u8> {
        let line = match self.rows()[row] {
            DisplayRow::Text { row } => self.wrap_snapshot.lines@[row].bytes(),
            DisplayRow::Block { .. } => Seq::empty(),
        };
        let ended = row + 1 < max || (row + 1 < self.rows().len() && !self.is_last_text(row));
        line + (if ended {
            seq![NEWLINE]
        } else {
            Seq::empty()
        })
    }

    /// The rows `row..max` on display.
    pub open spec fn text_between(&self, row: int, max: int) -> Seq<u8>
        decreases max - row,
    {
        if row >= max {
            Seq::empty()
        } else {
            self.row_text(row, max) + self.text_between(row + 1, max)
        }
    }

    /// The text of the rows of text in rows `row..max` fits them, and is shown between the lines of
    /// blocks.
    pub proof fn lemma_weave_text(&self, input: Seq<(u8, ChunkStyle)>, row: int, max: int)
        requires
            self.wf(),
            0 <= row <= max <= self.rows().len(),
            bytes_of(input) == self.wrap_snapshot.text_of(
                texts_before(self.rows(), row),
                texts_before(self.rows(), max),
            ),
        ensures
            self.fits(input, row, max),
            bytes_of(self.weave(row, max, input)) == self.text_between(row, max),
        decreases max - row,
    {
        let wrap = self.wrap_snapshot;
        let from = texts_before(self.rows(), row);
        let to = texts_before(self.rows(), max);
        let bytes = bytes_of(input);
        if row == max {
            assert(input =~= Seq::empty()) by {
                assert(bytes.len() == input.len());
            }
            assert(bytes_of(self.weave(row, max, input)) =~= Seq::empty());
        } else {
            crate::transforms::lemma_text_at(self.transforms@, row);
            self.lemma_rows();
            lemma_texts_ascend(self.rows(), row + 1, max);
            let after = self.weave(row + 1, max, input);
            if self.rows()[row] is Text {
                let line = wrap.lines@[from].bytes();
                assert(wrap.row_ok(from));
                let later = wrap.text_of(from + 1, to);
                assert(bytes == wrap.line_text(from) + later);
                let last = from + 1 == wrap.rows();
                if last {
                    crate::transforms::lemma_text_bound(self.transforms@, max);
                    assert(later =~= Seq::empty());
                    assert(bytes =~= line);
                    lemma_line_end(line, Seq::empty());
                } else {
                    assert(bytes =~= line + (seq![NEWLINE] + later));
                    lemma_line_end(line, later);
                }
                let end = row_end(bytes);
                let rest = input.skip(end);
                assert(bytes.skip(end) =~= later);
                assert(bytes_of(rest) =~= bytes.skip(end));
                crate::transforms::lemma_texts_total(self.transforms@);
                assert(self.is_last_text(row) == last);
                assert(!last ==> row + 1 < self.rows().len());
                self.lemma_weave_text(rest, row + 1, max);
                crate::text::lemma_line_breaks_concat(wrap.line_text(from), later);
                lemma_line_breaks_of(line, !last);
                if rest.len() > 0 {
                    assert(rest.last() == input.last());
                } else if !last {
                    assert(input.last().0 == bytes[end - 1]);
                }
                if end > 0 {
                    assert(input[end - 1].0 == bytes[end - 1]);
                }
                assert(bytes_of(input.take(end)) =~= bytes.take(end));
                let ended = end > 0 && bytes[end - 1] == NEWLINE;
                let added = if !ended && row + 1 < max {
                    seq![(NEWLINE, ChunkStyle::plain())]
                } else {
                    Seq::empty()
                };
                let woven = self.weave(row + 1, max, rest);
                assert(self.weave(row, max, input) == input.take(end) + added + woven);
                assert(bytes_of(input.take(end) + added + woven) =~= bytes_of(input.take(end))
                    + bytes_of(added) + bytes_of(woven));
                assert(bytes_of(input.take(end)) + bytes_of(added) =~= self.row_text(row, max)) by {
                    if last {
                        assert(bytes.take(end) =~= line);
                        if end > 0 {
                            assert(line[end - 1] != NEWLINE);
                        }
                    } else {
                        assert(bytes.take(end) =~= line + seq![NEWLINE]);
                    }
                }
            } else {
                self.lemma_weave_text(input, row + 1, max);
                assert(bytes_of(self.weave(row, max, input)) =~= self.row_text(row, max)
                    + bytes_of(after));
            }
        }
    }
}

/// A line ends with its line break, or with the text where it has none.
proof fn lemma_line_end(line: Seq<u8>, later: Seq<u8>)
    requires
        forall|k: int| 0 <= k < line.len() ==> #[trigger] line[k] != NEWLINE,
    ensures
        row_end(line + (seq![NEWLINE] + later)) == line.len() + 1,
        row_end(line) == line.len(),
    decreases line.len(),
{
    let bytes = line + (seq![NEWLINE] + later);
    if line.len() > 0 {
        lemma_line_end(line.drop_first(), later);
        assert(bytes.drop_first() =~= line.drop_first() + (seq![NEWLINE] + later));
    }
}

/// A line has the line break that ends it, and no other.
pub proof fn lemma_line_breaks_of(line: Seq<u8>, ended: bool)
    requires
        forall|k: int| 0 <= k < line.len() ==> #[trigger] line[k] != NEWLINE,
    ensures
        line_breaks(
            line + (if ended {
                seq![NEWLINE]
            } else {
                Seq::empty()
            }),
        ) == (if ended {
            1nat
        } else {
            0
        }),
    decreases
            line.len(),
            if ended {
                1int
            } else {
                0
            },
{
    if ended {
        lemma_line_breaks_of(line, false);
        assert((line + seq![NEWLINE]).drop_last() =~= line + Seq::empty());
    } else {
        assert(line + Seq::empty() =~= line);
        if line.len() > 0 {
            lemma_line_breaks_of(line.drop_last(), false);
            assert(line.drop_last() + Seq::empty() =~= line.drop_last());
        }
    }
}

/// Further down come no fewer rows of text before a row.
pub proof fn lemma_texts_ascend(rows: Seq<DisplayRow>, a: int, b: int)
    requires
        a <= b,
    ensures
        texts_before(rows, a) <= texts_before(rows, b),
    decreases b - a,
{
    if a < b {
        lemma_texts_ascend(rows, a, b - 1);
    }
}

/// A chunk more.
proof fn lemma_contents_push(chunks: Seq<Chunk>, chunk: Chunk)
    ensures
        contents(chunks.push(chunk)) == contents(chunks) + chunk.content(),
    decreases chunks.len(),
{
    let more = chunks.push(chunk);
    if chunks.len() == 0 {
        reveal_with_fuel(contents, 2);
        assert(more.drop_first() =~= Seq::empty());
        assert(contents(more) =~= contents(chunks) + chunk.content());
    } else {
        lemma_contents_push(chunks.drop_first(), chunk);
        assert(more.drop_first() =~= chunks.drop_first().push(chunk));
        assert(contents(more) =~= contents(chunks) + chunk.content());
    }
}

impl WrapSnapshot {
    /// A row more.
    proof fn lemma_text_push(&self, from: int, to: int)
        requires
            from <= to,
        ensures
            self.text_of(from, to + 1) == self.text_of(from, to) + self.line_text(to),
        decreases to - from,
    {
        if from < to {
            self.lemma_text_push(from + 1, to);
            assert(self.text_of(from, to + 1) =~= self.text_of(from, to) + self.line_text(to));
        } else {
            assert(self.text_of(from + 1, to + 1) =~= Seq::empty());
            assert(self.text_of(from, to + 1) =~= self.text_of(from, to) + self.line_text(to));
        }
    }

    /// The text of rows `from..to`, plain.
    pub fn chunks(&self, from: u32, to: u32) -> (chunks: Vec<Chunk>)
        requires
            self.wf(),
            from <= to <= self.rows(),
        ensures
            bytes_of(contents(chunks@)) == self.text_of(from as int, to as int),
            forall|k: int|
                0 <= k < chunks@.len() ==> (#[trigger] chunks@[k]).style == ChunkStyle::plain(),
    {
        let mut chunks: Vec<Chunk> = Vec::new();
        let mut row: u32 = from;
        proof {
            reveal_strlit("\n");
            assert("\n"@ =~= repeated('\n', 1));
            vstd::utf8::is_ascii_chars_encode_utf8("\n"@);
            assert(encode_utf8("\n"@) =~= seq![NEWLINE]);
            assert(bytes_of(contents(chunks@)) =~= Seq::empty());
        }
        while row < to
            invariant
                self.wf(),
                from <= row <= to <= self.rows(),
                encode_utf8("\n"@) == seq![NEWLINE],
                bytes_of(contents(chunks@)) == self.text_of(from as int, row as int),
                forall|k: int|
                    0 <= k < chunks@.len() ==> (#[trigger] chunks@[k]).style == ChunkStyle::plain(),
            decreases to - row,
        {
            let ghost before = chunks@;
            let mut text: String = self.lines[row as usize].text.clone();
            if row + 1 < self.row_count() {
                let ghost line = text@;
                text.append("\n");
                proof {
                    crate::text::lemma_encode_concat(line, "\n"@);
                }
            }
            let chunk: Chunk = Chunk { text, style: ChunkStyle::plain() };
            proof {
                lemma_contents_push(before, chunk);
                self.lemma_text_push(from as int, row as int);
                assert(bytes_of(chunk.content()) =~= self.line_text(row as int));
                assert(bytes_of(contents(before) + chunk.content()) =~= bytes_of(contents(before))
                    + bytes_of(chunk.content()));
            }
            chunks.push(chunk);
            row = row + 1;
        }
        chunks
    }
}

impl BlockSnapshot {
    /// A row, or the end of the display where it is beyond.
    pub open spec fn within(&self, row: u32) -> int {
        if row < self.rows().len() {
            row as int
        } else {
            self.rows().len() as int
        }
    }

    /// How many rows of text come before a row.
    fn texts_above(&self, row: u32) -> (count: u32)
        requires
            self.wf(),
        ensures
            count == texts_before(self.rows(), self.within(row)),
            count <= self.wrap_snapshot.rows(),
    {
        let ghost s = self.transforms@;
        proof {
            self.lemma_rows();
            crate::transforms::lemma_whole(s);
            crate::transforms::lemma_texts_total(s);
        }
        let cursor: Cursor = seek_output(&self.transforms, row, Bias::Right);
        let ghost ix = cursor.ix as int;
        proof {
            crate::transforms::lemma_found_output(s, ix, row as int);
            if ix < s.len() {
                crate::transforms::lemma_step(s, ix);
                crate::transforms::lemma_monotone(s, ix + 1, s.len() as int);
                crate::transforms::lemma_texts_at(s, ix, row - out_start(s, ix));
                assert(s[ix].ok());
            }
        }
        if cursor.ix < self.transforms.len() && self.transforms[cursor.ix].is_isomorphic() {
            cursor.input + (row - cursor.output)
        } else {
            cursor.input
        }
    }

    /// The rows of text among rows on display.
    pub fn input_range(&self, rows: Range<u32>) -> (range: (u32, u32))
        requires
            self.wf(),
        ensures
            range.0 == texts_before(self.rows(), self.within(rows.start)),
            range.1 == texts_before(self.rows(), self.within(rows.end)),
            range.0 <= self.wrap_snapshot.rows(),
            range.1 <= self.wrap_snapshot.rows(),
            rows.start <= rows.end ==> range.0 <= range.1,
    {
        let end: u32 = self.texts_above(rows.end);
        let start: u32 = self.texts_above(rows.start);
        proof {
            if rows.start <= rows.end {
                lemma_texts_ascend(self.rows(), self.within(rows.start), self.within(rows.end));
            }
        }
        (start, end)
    }

    /// The text on display in some rows, where `input_chunks` is the text of the rows of text
    /// among them.
    pub fn chunks(&self, rows: Range<u32>, masked: bool, input_chunks: Vec<Chunk>) -> (chunks:
        BlockChunks)
        requires
            self.wf(),
            bytes_of(contents(input_chunks@)) == self.wrap_snapshot.text_of(
                texts_before(self.rows(), self.within(rows.start)),
                texts_before(self.rows(), self.within(rows.end)),
            ),
        ensures
            chunks.wf(),
            *chunks.snapshot == *self,
            chunks.masked == masked,
            chunks.max_output_row == self.within(rows.end),
            chunks.rest() == self.weave(
                rows.start as int,
                self.within(rows.end),
                contents(input_chunks@),
            ),
            bytes_of(chunks.rest()) == self.text_between(
                rows.start as int,
                self.within(rows.end),
            ),
    {
        let ghost s = self.transforms@;
        proof {
            self.lemma_rows();
        }
        let total: u32 = summary(&self.transforms).output_rows;
        let max_output_row: u32 = if rows.end < total {
            rows.end
        } else {
            total
        };
        let cursor: Cursor = seek_output(&self.transforms, rows.start, Bias::Right);
        let chunks: BlockChunks = BlockChunks {
            snapshot: self,
            cursor,
            input_chunks,
            next_input: 0,
            input_chunk: Chunk { text: String::new(), style: ChunkStyle::plain() },
            output_row: rows.start,
            max_output_row,
            masked,
        };
        proof {
            assert(input_chunks@.skip(0) =~= input_chunks@);
            assert(chunks.input_chunk.content() =~= Seq::empty());
            assert(chunks.input() =~= contents(input_chunks@));
            crate::transforms::lemma_found_output(s, cursor.ix as int, rows.start as int);
            if rows.start < max_output_row {
                self.lemma_weave_text(
                    contents(input_chunks@),
                    rows.start as int,
                    max_output_row as int,
                );
            } else {
                assert(bytes_of(chunks.rest()) =~= Seq::empty());
            }
        }
        chunks
    }

    /// Blocks are no higher than chunks are long.
    pub open spec fn heights_fit(&self) -> bool {
        forall|i: int|
            0 <= i < self.transforms@.len() && (#[trigger] self.transforms@[i]).block is Some
                ==> self.transforms@[i].summary.output_rows - (if out_start(self.transforms@, i + 1)
                == self.rows().len() {
                1int
            } else {
                0
            }) <= MAX_LINE_BREAKS
    }

    /// All text on display.
    pub fn text(&self) -> (text: String)
        requires
            self.wf(),
            self.heights_fit(),
        ensures
            encode_utf8(text@) == self.text_between(0, self.rows().len() as int),
    {
        let ghost s = self.transforms@;
        proof {
            self.lemma_rows();
        }
        let total: u32 = summary(&self.transforms).output_rows;
        let (start, end): (u32, u32) = self.input_range(0..total);
        let mut chunks: BlockChunks = self.chunks(
            0..total,
            false,
            self.wrap_snapshot.chunks(start, end),
        );
        let mut text: String = String::new();
        proof {
            assert(encode_utf8(text@) + bytes_of(chunks.rest()) =~= bytes_of(chunks.rest()));
        }
        loop
            invariant
                self.wf(),
                self.heights_fit(),
                s == self.transforms@,
                chunks.wf(),
                !chunks.masked,
                *chunks.snapshot == *self,
                encode_utf8(text@) + bytes_of(chunks.rest()) == self.text_between(
                    0,
                    self.rows().len() as int,
                ),
            decreases chunks.steps(),
        {
            let ghost before = chunks;
            proof {
                let ix = chunks.cursor.ix as int;
                if chunks.output_row < chunks.max_output_row && ix < s.len() {
                    crate::transforms::lemma_step(s, ix);
                    assert(s[ix].ok());
                }
            }
            match chunks.next() {
                Some(chunk) => {
                    let ghost so_far = text@;
                    text.append(chunk.text.as_str());
                    proof {
                        let piece = before.piece()->0;
                        crate::text::lemma_encode_concat(so_far, chunk.text@);
                        assert(bytes_of(styled(piece.0, piece.1) + chunks.rest()) =~= piece.0
                            + bytes_of(chunks.rest()));
                        assert(encode_utf8(text@) + bytes_of(chunks.rest()) =~= encode_utf8(so_far)
                            + bytes_of(before.rest()));
                    }
                },
                None => {
                    proof {
                        assert(encode_utf8(text@) + bytes_of(before.rest()) =~= encode_utf8(
                            text@,
                        ));
                    }
                    return text;
                },
            }
        }
    }
}

} // verus!
