//! A layout at one moment: what is shown on which row, and where text and display meet.

use std::ops::Range;
use vstd::prelude::*;

use crate::block::{Block, BlockDisposition, BlockId, BlockLike, CustomBlockId};
use crate::buffer::{ExcerptId, MultiBufferSnapshot};
use crate::layout::{
    all_entries, blocks_known, boundary_block, boundary_row, custom_entries, header_entries,
    is_layout, layout_fits, shown_boundaries, total_height, HeaderConfig,
};
use crate::point::{Bias, BlockPoint, BlockRow, Point, WrapPoint};
use crate::table::{ids_ascend, BlockTable};
use crate::transforms::{
    block_row, copy_transforms, display, in_start, input_rows, out_start, output_rows, placed,
    seek_input, seek_output, shown, summary, Cursor, DisplayRow, Transform,
};
use crate::wrap::WrapSnapshot;

verus! {

broadcast use {vstd::seq_lib::group_to_multiset_ensures, vstd::multiset::group_multiset_axioms};

/// Transform `i` is the custom block with the id.
pub open spec fn shows_custom(s: Seq<Transform>, i: int, id: CustomBlockId) -> bool {
    0 <= i < s.len() && (s[i].block matches Some(block) && block.is_custom(id))
}

/// Soft-wrapped text with blocks between its lines.
pub struct BlockSnapshot {
    pub wrap_snapshot: WrapSnapshot,
    pub transforms: Vec<Transform>,
    pub custom_blocks_by_id: BlockTable,
    pub headers: HeaderConfig,
}

impl Clone for BlockSnapshot {
    fn clone(&self) -> (copy: Self)
        ensures
            copy.wrap_snapshot == self.wrap_snapshot,
            copy.transforms@ == self.transforms@,
            copy.custom_blocks_by_id.0@ == self.custom_blocks_by_id.0@,
            copy.headers == self.headers,
    {
        BlockSnapshot {
            wrap_snapshot: self.wrap_snapshot.clone(),
            transforms: copy_transforms(&self.transforms),
            custom_blocks_by_id: self.custom_blocks_by_id.clone(),
            headers: self.headers,
        }
    }
}

impl BlockSnapshot {
    /// The transforms lay out the text with its blocks, and fit.
    pub open spec fn wf(&self) -> bool {
        &&& self.wrap_snapshot.wf()
        &&& ids_ascend(self.custom_blocks_by_id.0@)
        &&& blocks_known(&*self.wrap_snapshot.buffer, self.custom_blocks_by_id.0@)
        &&& layout_fits(&self.wrap_snapshot, self.headers, self.custom_blocks_by_id.0@)
        &&& is_layout(
            self.transforms@,
            &self.wrap_snapshot,
            self.headers,
            self.custom_blocks_by_id.0@,
        )
    }

    /// Text and display have no more rows than a row number can count.
    pub proof fn lemma_rows(&self)
        requires
            self.wf(),
        ensures
            0 < input_rows(self.transforms@) == self.wrap_snapshot.rows() <= u32::MAX,
            0 < output_rows(self.transforms@) <= u32::MAX,
            output_rows(self.transforms@) == self.wrap_snapshot.rows() + total_height(
                placed(self.transforms@),
            ),
            input_rows(self.transforms@) <= output_rows(self.transforms@),
            display(self.transforms@).len() == output_rows(self.transforms@),
    {
        crate::layout::lemma_layout_rows(
            self.transforms@,
            &self.wrap_snapshot,
            self.headers,
            self.custom_blocks_by_id.0@,
        );
        crate::layout::lemma_output_rows(self.transforms@);
        crate::layout::lemma_height_not_negative(placed(self.transforms@));
        crate::transforms::lemma_display_len(self.transforms@);
    }

    /// A custom block is shown by a transform in its place.
    pub(crate) proof fn lemma_custom_shown(&self, n: int) -> (at: int)
        requires
            self.wf(),
            0 <= n < self.custom_blocks_by_id.0@.len(),
        ensures
            shows_custom(self.transforms@, at, self.custom_blocks_by_id.0@[n].id),
            self.transforms@[at].block == Some(Block::Custom(self.custom_blocks_by_id.0@[n])),
            0 <= at < self.transforms@.len(),
            in_start(self.transforms@, at) == crate::layout::custom_row(
                &self.wrap_snapshot,
                &*self.custom_blocks_by_id.0@[n],
            ) + (if self.custom_blocks_by_id.0@[n].disposition is Below {
                1int
            } else {
                0
            }),
            self.wrap_snapshot.buffer.knows(self.custom_blocks_by_id.0@[n].position),
            input_rows(self.transforms@) <= u32::MAX,
            output_rows(self.transforms@) <= u32::MAX,
    {
        let block = self.custom_blocks_by_id.0@[n];
        let entries = all_entries(
            &self.wrap_snapshot,
            self.headers,
            self.custom_blocks_by_id.0@,
        );
        let shown = placed(self.transforms@);
        let x = (
            crate::layout::custom_row(&self.wrap_snapshot, &*block),
            Block::Custom(block),
        );
        self.lemma_rows();
        assert(entries[n] == x);
        assert(entries.contains(x));
        assert(entries.to_multiset().count(x) > 0);
        assert(shown.contains(x));
        let m = shown.index_of(x);
        crate::transforms::lemma_placed_from(self.transforms@, m)
    }

    /// The rows on display.
    pub open spec fn rows(&self) -> Seq<DisplayRow> {
        display(self.transforms@)
    }

    /// The length of a row on display: lines of blocks are empty.
    pub open spec fn row_len(&self, row: int) -> u32 {
        match self.rows()[row] {
            DisplayRow::Text { row } => self.wrap_snapshot.line_len_spec(row as u32),
            DisplayRow::Block { .. } => 0,
        }
    }

    pub open spec fn max_point_spec(&self) -> BlockPoint {
        let row = self.rows().len() - 1;
        BlockPoint(Point { row: row as u32, column: self.row_len(row) })
    }

    /// Blocks belong to rows of the text.
    pub(crate) proof fn lemma_block_on_row(&self, ix: int)
        requires
            self.wf(),
            0 <= ix < self.transforms@.len(),
            self.transforms@[ix].block is Some,
        ensures
            0 <= block_row(in_start(self.transforms@, ix), self.transforms@[ix].block->0)
                < self.wrap_snapshot.rows(),
    {
        let shown = placed(self.transforms@);
        let n = placed(self.transforms@.take(ix)).len() as int;
        crate::transforms::lemma_placed_at(self.transforms@, ix);
        let x = shown[n];
        crate::sync::lemma_entries_on_rows(
            &self.wrap_snapshot,
            self.headers,
            self.custom_blocks_by_id.0@,
        );
        assert(shown.contains(x));
        assert(shown.to_multiset().count(x) > 0);
    }

    /// The length of a row.
    pub fn line_len(&self, row: BlockRow) -> (len: u32)
        requires
            self.wf(),
            row.0 < self.rows().len(),
        ensures
            len == self.row_len(row.0 as int),
    {
        proof {
            self.lemma_rows();
        }
        let cursor: Cursor = seek_output(&self.transforms, row.0, Bias::Right);
        proof {
            crate::transforms::lemma_found_output(
                self.transforms@,
                cursor.ix as int,
                row.0 as int,
            );
            crate::transforms::lemma_step(self.transforms@, cursor.ix as int);
            crate::transforms::lemma_monotone(
                self.transforms@,
                cursor.ix + 1,
                self.transforms@.len() as int,
            );
            crate::transforms::lemma_whole(self.transforms@);
            assert(self.transforms@[cursor.ix as int].ok());
        }
        let overshoot: u32 = row.0 - cursor.output;
        if self.transforms[cursor.ix].is_isomorphic() {
            self.wrap_snapshot.line_len(cursor.input + overshoot)
        } else {
            0
        }
    }

    /// Whether a row is a line of a block.
    pub fn is_block_line(&self, row: BlockRow) -> (is_block: bool)
        requires
            self.wf(),
        ensures
            is_block == (row.0 < self.rows().len() && self.rows()[row.0 as int] is Block),
    {
        proof {
            self.lemma_rows();
        }
        let cursor: Cursor = seek_output(&self.transforms, row.0, Bias::Right);
        proof {
            crate::transforms::lemma_found_output(
                self.transforms@,
                cursor.ix as int,
                row.0 as int,
            );
        }
        cursor.ix < self.transforms.len() && !self.transforms[cursor.ix].is_isomorphic()
    }

    /// The end of the last row.
    pub fn max_point(&self) -> (point: BlockPoint)
        requires
            self.wf(),
        ensures
            point == self.max_point_spec(),
    {
        proof {
            self.lemma_rows();
        }
        let row: u32 = summary(&self.transforms).output_rows - 1;
        BlockPoint::new(row, self.line_len(BlockRow(row)))
    }

    /// `point` shows `wrap_point`: it is in the row that shows that row of the text, in the same
    /// column.
    pub open spec fn shows(&self, point: BlockPoint, wrap_point: WrapPoint) -> bool {
        &&& point.0.row < self.rows().len()
        &&& self.rows()[point.0.row as int] == DisplayRow::Text { row: wrap_point.0.row as int }
        &&& point.0.column == wrap_point.0.column
    }

    /// Where a point of the text is on display.
    pub fn to_block_point(&self, wrap_point: WrapPoint) -> (point: BlockPoint)
        requires
            self.wf(),
        ensures
            wrap_point.0.row < self.wrap_snapshot.rows() ==> self.shows(point, wrap_point),
            wrap_point.0.row >= self.wrap_snapshot.rows() ==> point == self.max_point_spec(),
    {
        proof {
            self.lemma_rows();
        }
        let cursor: Cursor = seek_input(&self.transforms, wrap_point.0.row, Bias::Right);
        let ghost ix = cursor.ix as int;
        proof {
            crate::transforms::lemma_found_input(self.transforms@, ix, wrap_point.0.row as int);
        }
        if cursor.ix == self.transforms.len() {
            return self.max_point();
        }
        proof {
            crate::transforms::lemma_step(self.transforms@, ix);
            crate::transforms::lemma_monotone(
                self.transforms@,
                ix + 1,
                self.transforms@.len() as int,
            );
            crate::transforms::lemma_whole(self.transforms@);
            assert(self.transforms@[ix].ok());
            crate::transforms::lemma_display_at(
                self.transforms@,
                ix,
                wrap_point.0.row - cursor.input,
            );
        }
        let input_start: Point = Point::new(cursor.input, 0);
        let output_start: Point = Point::new(cursor.output, 0);
        let overshoot: Point = wrap_point.0.extent_from(input_start);
        BlockPoint(output_start.advanced_by(overshoot))
    }

    /// The point of the text that a point on display stands for: lines of a block above a row
    /// stand for its start, lines of a block below one for its end.
    pub open spec fn wrap_point_spec(&self, point: BlockPoint) -> WrapPoint {
        if point.0.row >= self.rows().len() {
            self.wrap_snapshot.max_point_spec()
        } else {
            match self.rows()[point.0.row as int] {
                DisplayRow::Text { row } => WrapPoint(
                    Point { row: row as u32, column: point.0.column },
                ),
                DisplayRow::Block { row, block, .. } => WrapPoint(
                    Point {
                        row: row as u32,
                        column: if block.below() {
                            self.wrap_snapshot.line_len_spec(row as u32)
                        } else {
                            0
                        },
                    },
                ),
            }
        }
    }

    pub fn to_wrap_point(&self, block_point: BlockPoint) -> (point: WrapPoint)
        requires
            self.wf(),
        ensures
            point == self.wrap_point_spec(block_point),
    {
        proof {
            self.lemma_rows();
        }
        let cursor: Cursor = seek_output(&self.transforms, block_point.0.row, Bias::Right);
        let ghost ix = cursor.ix as int;
        proof {
            crate::transforms::lemma_found_output(
                self.transforms@,
                ix,
                block_point.0.row as int,
            );
        }
        if cursor.ix == self.transforms.len() {
            return self.wrap_snapshot.max_point();
        }
        proof {
            crate::transforms::lemma_step(self.transforms@, ix);
            crate::transforms::lemma_monotone(
                self.transforms@,
                ix + 1,
                self.transforms@.len() as int,
            );
            crate::transforms::lemma_whole(self.transforms@);
            assert(self.transforms@[ix].ok());
            if self.transforms@[ix].block is Some {
                self.lemma_block_on_row(ix);
            }
        }
        match &self.transforms[cursor.ix].block {
            Some(block) => match block.disposition() {
                BlockDisposition::Above => WrapPoint::new(cursor.input, 0),
                BlockDisposition::Below => {
                    let wrap_row: u32 = cursor.input - 1;
                    WrapPoint::new(wrap_row, self.wrap_snapshot.line_len(wrap_row))
                },
            },
            None => {
                let overshoot: u32 = block_point.0.row - cursor.output;
                WrapPoint::new(cursor.input + overshoot, block_point.0.column)
            },
        }
    }

    /// The row that shows the longest row of the text.
    pub fn longest_row(&self) -> (row: u32)
        requires
            self.wf(),
        ensures
            row < self.rows().len(),
            self.rows()[row as int] == (DisplayRow::Text {
                row: self.wrap_snapshot.longest_row as int,
            }),
    {
        let input_row: u32 = self.wrap_snapshot.longest_row();
        self.to_block_point(WrapPoint::new(input_row, 0)).0.row
    }

    /// The place in the text that a point on display is clipped to: for a row of text, the place
    /// that its text clips to; for a line of a block, the end of the text above the block or the
    /// start of the text below it, by the bias where there is text on both sides.
    pub open spec fn clip_source(&self, point: BlockPoint, bias: Bias) -> WrapPoint {
        let wrap = self.wrap_snapshot;
        match self.rows()[point.0.row as int] {
            DisplayRow::Text { row } => wrap.clip(
                WrapPoint(Point { row: row as u32, column: point.0.column }),
                bias,
            ),
            DisplayRow::Block { row, block, .. } => {
                let next_row = if block.below() {
                    row + 1
                } else {
                    row
                };
                if (bias is Left && next_row > 0) || next_row == wrap.rows() {
                    let last_row = (next_row - 1) as u32;
                    wrap.clip(
                        WrapPoint(
                            Point { row: last_row, column: wrap.line_len_spec(last_row) },
                        ),
                        bias,
                    )
                } else {
                    wrap.clip(WrapPoint(Point { row: next_row as u32, column: 0 }), bias)
                }
            },
        }
    }

    /// Where the search for a place ends if the transform at which it begins has none: in the run
    /// of text next to it on one side.
    spec fn beside(&self, ix: int, left: bool, source: WrapPoint, bias: Bias) -> bool {
        let s = self.transforms@;
        let wrap = self.wrap_snapshot;
        if left {
            let end = in_start(s, ix);
            let last_row = (end - 1) as u32;
            &&& end > 0
            &&& source == wrap.clip(
                WrapPoint(Point { row: last_row, column: wrap.line_len_spec(last_row) }),
                bias,
            )
            &&& source.0.row == end - 1
        } else {
            let start = in_start(s, ix + 1);
            &&& start < wrap.rows()
            &&& source == wrap.clip(WrapPoint(Point { row: start as u32, column: 0 }), bias)
            &&& source.0.row == start
        }
    }

    /// A block, or a run of text from which clipping leads out, leads to the run beside it.
    proof fn lemma_beside(&self, point: BlockPoint, bias: Bias, ix: int)
        requires
            self.wf(),
            0 <= ix < self.transforms@.len(),
            out_start(self.transforms@, ix) <= point.0.row < out_start(self.transforms@, ix + 1),
            self.rows()[point.0.row as int] == shown(
                self.transforms@[ix],
                in_start(self.transforms@, ix),
            )[point.0.row - out_start(self.transforms@, ix)],
            self.transforms@[ix].block is None ==> !(in_start(self.transforms@, ix)
                <= self.clip_source(point, bias).0.row < in_start(self.transforms@, ix + 1)),
        ensures
            self.beside(
                ix,
                (bias is Left && in_start(self.transforms@, ix) > 0) || in_start(
                    self.transforms@,
                    ix + 1,
                ) == self.wrap_snapshot.rows(),
                self.clip_source(point, bias),
                bias,
            ),
    {
        let s = self.transforms@;
        let wrap = self.wrap_snapshot;
        let source = self.clip_source(point, bias);
        self.lemma_rows();
        crate::transforms::lemma_step(s, ix);
        crate::transforms::lemma_monotone(s, 0, ix);
        crate::transforms::lemma_monotone(s, ix + 1, s.len() as int);
        crate::transforms::lemma_whole(s);
        assert(s[ix].ok());
        let start = in_start(s, ix);
        match s[ix].block {
            None => {
                let row = start + (point.0.row - out_start(s, ix));
                let text = WrapPoint(Point { row: row as u32, column: point.0.column });
                assert(source == wrap.clip(text, bias));
                wrap.lemma_clip(text, bias);
                if bias is Left {
                    assert(row == start);
                    wrap.lemma_clip_end((start - 1) as u32, bias);
                } else {
                    assert(row + 1 == in_start(s, ix + 1));
                    wrap.lemma_clip_start((row + 1) as u32, bias);
                }
            },
            Some(block) => {
                self.lemma_block_on_row(ix);
                if (bias is Left && start > 0) || start == wrap.rows() {
                    wrap.lemma_clip_end((start - 1) as u32, bias);
                } else {
                    wrap.lemma_clip_start(start as u32, bias);
                }
            },
        }
    }

    /// A place for a cursor near a point.
    pub fn clip_point(&self, point: BlockPoint, bias: Bias) -> (clipped: BlockPoint)
        requires
            self.wf(),
        ensures
            point.0.row < self.rows().len() ==> self.shows(clipped, self.clip_source(point, bias)),
            point.0.row >= self.rows().len() ==> clipped == self.max_point_spec(),
    {
        proof {
            self.lemma_rows();
        }
        let transforms: &Vec<Transform> = &self.transforms;
        let wrap: &WrapSnapshot = &self.wrap_snapshot;
        let ghost s = transforms@;
        let mut cursor: Cursor = seek_output(transforms, point.0.row, Bias::Right);
        let ghost from = cursor.ix as int;
        let ghost source = self.clip_source(point, bias);
        proof {
            crate::transforms::lemma_found_output(s, from, point.0.row as int);
        }
        if cursor.ix == transforms.len() {
            return self.max_point();
        }
        let max_input_row: u32 = summary(transforms).input_rows;
        proof {
            crate::transforms::lemma_step(s, from);
            crate::transforms::lemma_monotone(s, from + 1, s.len() as int);
            crate::transforms::lemma_whole(s);
        }
        let end_row: u32 = cursor.input + transforms[cursor.ix].summary.input_rows;
        let search_left: bool = (bias == Bias::Left && cursor.input > 0) || end_row
            == max_input_row;
        loop
            invariant
                self.wf(),
                *transforms == self.transforms,
                *wrap == self.wrap_snapshot,
                s == transforms@,
                source == self.clip_source(point, bias),
                input_rows(s) == wrap.rows() <= u32::MAX,
                output_rows(s) <= u32::MAX,
                0 <= from < s.len(),
                point.0.row < self.rows().len(),
                out_start(s, from) <= point.0.row < out_start(s, from + 1),
                self.rows()[point.0.row as int] == shown(s[from], in_start(s, from))[point.0.row
                    - out_start(s, from)],
                search_left == ((bias is Left && in_start(s, from) > 0) || in_start(s, from + 1)
                    == wrap.rows()),
                cursor.at(s),
                cursor.ix < s.len(),
                cursor.ix != from ==> self.beside(from, search_left, source, bias),
                search_left ==> cursor.ix <= from && (cursor.ix < from ==> in_start(
                    s,
                    cursor.ix + 1,
                ) == in_start(s, from)),
                !search_left ==> cursor.ix >= from && (cursor.ix > from ==> cursor.input
                    == in_start(s, from + 1)),
            decreases
                    if search_left {
                        cursor.ix as int
                    } else {
                        s.len() - cursor.ix
                    },
        {
            let ghost ix = cursor.ix as int;
            proof {
                crate::transforms::lemma_step(s, ix);
                crate::transforms::lemma_monotone(s, ix + 1, s.len() as int);
                crate::transforms::lemma_whole(s);
                assert(s[ix].ok());
                if ix < from {
                    crate::transforms::lemma_monotone(s, ix + 1, from);
                }
                if ix > from {
                    crate::transforms::lemma_monotone(s, from + 1, ix);
                }
            }
            if transforms[cursor.ix].is_isomorphic() {
                let output_end: u32 = cursor.output + transforms[cursor.ix].summary.output_rows;
                let input_end: u32 = cursor.input + transforms[cursor.ix].summary.input_rows;
                let output_start: Point = Point::new(cursor.output, 0);
                let input_start: Point = Point::new(cursor.input, 0);
                let input_point: WrapPoint = if point.0.row >= output_end {
                    let line_len: u32 = wrap.line_len(input_end - 1);
                    wrap.clip_point(WrapPoint::new(input_end - 1, line_len), bias)
                } else {
                    let overshoot: Point = point.0.saturating_sub(output_start);
                    wrap.clip_point(WrapPoint(input_start.advanced_by(overshoot)), bias)
                };
                proof {
                    assert(input_point == source);
                }
                if cursor.input <= input_point.0.row && input_point.0.row < input_end {
                    proof {
                        crate::transforms::lemma_display_at(
                            s,
                            ix,
                            input_point.0.row - cursor.input,
                        );
                    }
                    let overshoot: Point = input_point.0.saturating_sub(input_start);
                    return BlockPoint(output_start.advanced_by(overshoot));
                }
                proof {
                    assert(ix == from);
                }
            }
            proof {
                if ix == from {
                    self.lemma_beside(point, bias, from);
                }
            }
            if search_left {
                cursor.prev(transforms);
            } else {
                cursor.next(transforms);
            }
        }
    }

    /// The blocks that have lines in a range of rows, each with the row it begins at. Blocks
    /// without lines count where they stand within the range or at its end.
    pub fn blocks_in_range(&self, rows: Range<u32>) -> (blocks: Vec<(u32, &Block)>)
        requires
            self.wf(),
            rows.start <= self.rows().len(),
        ensures
            blocks@.len() == blocks_between(
                self.transforms@,
                rows.start as int,
                rows.end as int,
            ).len(),
            forall|k: int|
                0 <= k < blocks@.len() ==> (
                    (#[trigger] blocks@[k]).0 as int,
                    *blocks@[k].1,
                ) == blocks_between(self.transforms@, rows.start as int, rows.end as int)[k],
    {
        proof {
            self.lemma_rows();
            crate::transforms::lemma_whole(self.transforms@);
        }
        let transforms: &Vec<Transform> = &self.transforms;
        let ghost s = transforms@;
        let ghost (start, end) = (rows.start as int, rows.end as int);
        let mut blocks: Vec<(u32, &Block)> = Vec::new();
        let mut cursor: Cursor = seek_output(transforms, rows.start, Bias::Left);
        proof {
            assert forall|i: int| 0 <= i < cursor.ix implies !block_between(s, i, start, end) by {
                crate::transforms::lemma_step(s, i);
                assert(!crate::transforms::stops_at(out_start(s, i + 1), start, Bias::Left));
            }
            if cursor.ix < s.len() {
                crate::transforms::lemma_step(s, cursor.ix as int);
                crate::transforms::lemma_monotone(s, cursor.ix + 1, s.len() as int);
            }
        }
        while cursor.ix < transforms.len() && cursor.output < rows.start && cursor.output
            + transforms[cursor.ix].summary.output_rows <= rows.start
            invariant
                s == transforms@,
                self.wf(),
                *transforms == self.transforms,
                input_rows(s) <= u32::MAX,
                output_rows(s) <= u32::MAX,
                start == rows.start,
                cursor.at(s),
                cursor.ix < s.len() ==> cursor.output + s[cursor.ix as int].summary.output_rows
                    <= u32::MAX,
                forall|i: int| 0 <= i < cursor.ix ==> !#[trigger] block_between(s, i, start, end),
            decreases s.len() - cursor.ix,
        {
            proof {
                crate::transforms::lemma_step(s, cursor.ix as int);
                assert(s[cursor.ix as int].ok());
                assert(!block_between(s, cursor.ix as int, start, end));
            }
            cursor.next(transforms);
            proof {
                if cursor.ix < s.len() {
                    crate::transforms::lemma_step(s, cursor.ix as int);
                    crate::transforms::lemma_monotone(s, cursor.ix + 1, s.len() as int);
                    crate::transforms::lemma_whole(s);
                }
            }
        }
        proof {
            lemma_none_between(s, cursor.ix as int, start, end);
        }
        while cursor.ix < transforms.len()
            invariant
                s == transforms@,
                self.wf(),
                *transforms == self.transforms,
                input_rows(s) <= u32::MAX,
                output_rows(s) <= u32::MAX,
                start == rows.start,
                end == rows.end,
                cursor.at(s),
                cursor.ix < s.len() ==> cursor.output >= start || cursor.output
                    + s[cursor.ix as int].summary.output_rows > start,
                blocks@.len() == blocks_between(s.take(cursor.ix as int), start, end).len(),
                forall|k: int|
                    0 <= k < blocks@.len() ==> (
                        (#[trigger] blocks@[k]).0 as int,
                        *blocks@[k].1,
                    ) == blocks_between(s.take(cursor.ix as int), start, end)[k],
            decreases s.len() - cursor.ix,
        {
            let ghost ix = cursor.ix as int;
            let transform: &Transform = &transforms[cursor.ix];
            let start_row: u32 = cursor.output;
            proof {
                crate::transforms::lemma_step(s, ix);
                assert(s[ix].ok());
                assert(s.take(ix + 1).drop_last() =~= s.take(ix));
            }
            let has_lines: bool = match &transform.block {
                Some(block) => block.height() > 0,
                None => false,
            };
            let past: bool = start_row > rows.end || (start_row == rows.end && has_lines);
            if past {
                proof {
                    assert forall|i: int| ix <= i < s.len() implies !block_between(
                        s,
                        i,
                        start,
                        end,
                    ) by {
                        if i > ix {
                            crate::transforms::lemma_monotone(s, ix + 1, i);
                        }
                        assert(s[i].ok());
                    }
                    lemma_rest_between(s, ix, start, end);
                }
                return blocks;
            }
            if let Some(block) = &transform.block {
                blocks.push((start_row, block));
            }
            cursor.next(transforms);
        }
        proof {
            assert(s.take(s.len() as int) =~= s);
        }
        blocks
    }

    /// The block with an id.
    pub fn block_for_id(&self, block_id: BlockId) -> (found: Option<Block>)
        requires
            self.wf(),
        ensures
            match found {
                Some(block) => block.id_spec() == block_id && exists|k: int|
                    0 <= k < placed(self.transforms@).len() && (#[trigger] placed(
                        self.transforms@,
                    )[k]).1 == block,
                None => forall|k: int|
                    0 <= k < placed(self.transforms@).len() ==> (#[trigger] placed(
                        self.transforms@,
                    )[k]).1.id_spec() != block_id,
            },
    {
        match block_id {
            BlockId::Custom(custom_block_id) => {
                match self.custom_blocks_by_id.get(custom_block_id) {
                    Some(custom_block) => {
                        proof {
                            let n = self.custom_blocks_by_id.0@.index_of(*custom_block);
                            let at = self.lemma_custom_shown(n);
                            crate::transforms::lemma_placed_at(self.transforms@, at);
                        }
                        Some(Block::Custom(custom_block.clone()))
                    },
                    None => {
                        proof {
                            assert forall|k: int|
                                0 <= k < placed(self.transforms@).len() implies (#[trigger] placed(
                                self.transforms@,
                            )[k]).1.id_spec() != block_id by {
                                self.lemma_placed_source(k);
                            }
                        }
                        None
                    },
                }
            },
            BlockId::ExcerptBoundary(next_excerpt_id) => self.boundary_for_id(next_excerpt_id),
        }
    }

    /// Each block on display is a custom block or a boundary of the buffer.
    pub(crate) proof fn lemma_placed_source(&self, k: int)
        requires
            self.wf(),
            0 <= k < placed(self.transforms@).len(),
        ensures
            match placed(self.transforms@)[k].1 {
                Block::Custom(block) => self.custom_blocks_by_id.0@.contains(block),
                Block::ExcerptBoundary { .. } => exists|n: int|
                    0 <= n < self.wrap_snapshot.buffer.boundaries@.len() && placed(
                        self.transforms@,
                    )[k] == (
                        boundary_row(
                            &self.wrap_snapshot,
                            #[trigger] self.wrap_snapshot.buffer.boundaries@[n],
                        ),
                        boundary_block(
                            self.headers,
                            self.wrap_snapshot.buffer.boundaries@[n],
                        ),
                    ),
            },
    {
        let wrap = &self.wrap_snapshot;
        let shown = placed(self.transforms@);
        let x = shown[k];
        let customs = custom_entries(wrap, self.custom_blocks_by_id.0@);
        let headers = header_entries(wrap, self.headers, shown_boundaries(&*wrap.buffer));
        assert(shown.contains(x));
        assert(shown.to_multiset().count(x) > 0);
        assert((customs + headers).contains(x));
        let m = (customs + headers).index_of(x);
        if m < customs.len() {
            assert(customs[m] == x);
            assert(self.custom_blocks_by_id.0@.contains(self.custom_blocks_by_id.0@[m]));
        } else {
            assert(headers[m - customs.len()] == x);
            let n = crate::layout::lemma_header_source(
                wrap,
                self.headers,
                shown_boundaries(&*wrap.buffer),
                m - customs.len(),
            );
            assert(wrap.buffer.boundaries@[n] == shown_boundaries(&*wrap.buffer)[n]);
        }
    }

    /// The boundary before an excerpt, or the one after the last.
    fn boundary_for_id(&self, next_excerpt_id: Option<ExcerptId>) -> (found: Option<Block>)
        requires
            self.wf(),
        ensures
            match found {
                Some(block) => block.id_spec() == BlockId::ExcerptBoundary(next_excerpt_id)
                    && exists|k: int|
                    0 <= k < placed(self.transforms@).len() && (#[trigger] placed(
                        self.transforms@,
                    )[k]).1 == block,
                None => forall|k: int|
                    0 <= k < placed(self.transforms@).len() ==> (#[trigger] placed(
                        self.transforms@,
                    )[k]).1.id_spec() != BlockId::ExcerptBoundary(next_excerpt_id),
            },
    {
        let wrap: &WrapSnapshot = &self.wrap_snapshot;
        let buffer: &MultiBufferSnapshot = wrap.buffer_snapshot();
        let transforms: &Vec<Transform> = &self.transforms;
        let ghost s = transforms@;
        let ghost id = BlockId::ExcerptBoundary(next_excerpt_id);
        let row: u32 = match next_excerpt_id {
            Some(excerpt_id) => match buffer.excerpt_start(excerpt_id) {
                Some(point) => {
                    proof {
                        let n = choose|n: int|
                            0 <= n < buffer.boundaries@.len() && (
                            #[trigger] buffer.boundaries@[n]).next_id() == Some(excerpt_id)
                                && point.row == buffer.boundaries@[n].row && point.column == 0;
                        assert(buffer.boundary_ok(n));
                    }
                    wrap.line_first_row(point.row)
                },
                None => {
                    proof {
                        assert forall|k: int| 0 <= k < placed(s).len() implies (
                        #[trigger] placed(s)[k]).1.id_spec() != id by {
                            self.lemma_placed_source(k);
                        }
                    }
                    return None;
                },
            },
            None => wrap.line_last_row(buffer.max_point().row),
        };
        proof {
            self.lemma_rows();
        }
        let mut cursor: Cursor = seek_input(transforms, row, Bias::Left);
        proof {
            assert forall|i: int| 0 <= i < cursor.ix implies !has_id(s[i], id) by {
                if has_id(s[i], id) {
                    self.lemma_boundary_at(i, next_excerpt_id, row as int);
                    crate::transforms::lemma_step(s, i);
                    assert(!crate::transforms::stops_at(
                        in_start(s, i + 1),
                        row as int,
                        Bias::Left,
                    ));
                }
            }
        }
        while cursor.ix < transforms.len()
            invariant
                self.wf(),
                *transforms == self.transforms,
                *wrap == self.wrap_snapshot,
                s == transforms@,
                id == BlockId::ExcerptBoundary(next_excerpt_id),
                input_rows(s) <= u32::MAX,
                output_rows(s) <= u32::MAX,
                cursor.at(s),
                next_excerpt_id is None ==> row == wrap.last_row(
                    wrap.buffer.line_lens@.len() - 1,
                ),
                next_excerpt_id matches Some(excerpt_id) ==> exists|n: int|
                    0 <= n < wrap.buffer.boundaries@.len() && (
                    #[trigger] wrap.buffer.boundaries@[n]).next_id() == Some(excerpt_id) && row
                        == wrap.first_row(wrap.buffer.boundaries@[n].row as int),
                forall|i: int| 0 <= i < cursor.ix ==> !has_id(#[trigger] s[i], id),
            ensures
                forall|i: int| 0 <= i < s.len() ==> !has_id(#[trigger] s[i], id),
            decreases s.len() - cursor.ix,
        {
            let ghost ix = cursor.ix as int;
            proof {
                crate::transforms::lemma_step(s, ix);
                assert(s[ix].ok());
            }
            if let Some(block) = &transforms[cursor.ix].block {
                if same_id(block.id(), BlockId::ExcerptBoundary(next_excerpt_id)) {
                    proof {
                        crate::transforms::lemma_placed_at(s, ix);
                    }
                    return Some(block.clone());
                }
            } else if cursor.input > row {
                proof {
                    assert forall|i: int| ix <= i < s.len() implies !has_id(
                        #[trigger] s[i],
                        id,
                    ) by {
                        if has_id(s[i], id) {
                            self.lemma_boundary_at(i, next_excerpt_id, row as int);
                            crate::transforms::lemma_monotone(s, ix + 1, i);
                        }
                    }
                }
                break;
            }
            cursor.next(transforms);
        }
        proof {
            assert forall|k: int| 0 <= k < placed(s).len() implies (
            #[trigger] placed(s)[k]).1.id_spec() != id by {
                let i = crate::transforms::lemma_placed_from(s, k);
                assert(!has_id(s[i], id));
            }
        }
        None
    }

    /// A boundary stands where its excerpt begins, or at the end of the buffer.
    proof fn lemma_boundary_at(&self, i: int, next_excerpt_id: Option<ExcerptId>, row: int)
        requires
            self.wf(),
            0 <= i < self.transforms@.len(),
            has_id(self.transforms@[i], BlockId::ExcerptBoundary(next_excerpt_id)),
            next_excerpt_id is None ==> row == self.wrap_snapshot.last_row(
                self.wrap_snapshot.buffer.line_lens@.len() - 1,
            ),
            next_excerpt_id matches Some(excerpt_id) ==> exists|n: int|
                0 <= n < self.wrap_snapshot.buffer.boundaries@.len() && (
                #[trigger] self.wrap_snapshot.buffer.boundaries@[n]).next_id() == Some(excerpt_id)
                    && row == self.wrap_snapshot.first_row(
                    self.wrap_snapshot.buffer.boundaries@[n].row as int,
                ),
        ensures
            in_start(self.transforms@, i) == row + (
            if next_excerpt_id is None {
                1int
            } else {
                0
            }),
    {
        let buffer = *self.wrap_snapshot.buffer;
        let n = placed(self.transforms@.take(i)).len() as int;
        crate::transforms::lemma_placed_at(self.transforms@, i);
        self.lemma_placed_source(n);
        let m = choose|m: int|
            0 <= m < buffer.boundaries@.len() && placed(self.transforms@)[n] == (
                boundary_row(&self.wrap_snapshot, #[trigger] buffer.boundaries@[m]),
                boundary_block(self.headers, buffer.boundaries@[m]),
            );
        assert(buffer.boundary_ok(m));
        assert(buffer.boundaries@[m].next_id() == next_excerpt_id);
        if let Some(excerpt_id) = next_excerpt_id {
            let first = choose|first: int|
                0 <= first < buffer.boundaries@.len() && (
                #[trigger] buffer.boundaries@[first]).next_id() == Some(excerpt_id) && row
                    == self.wrap_snapshot.first_row(buffer.boundaries@[first].row as int);
            assert(buffer.boundary_ok(first));
            assert(first == m);
        }
    }
}

/// The transform is a block with the id.
spec fn has_id(t: Transform, id: BlockId) -> bool {
    t.block matches Some(block) && block.id_spec() == id
}

/// Whether two ids are the same.
fn same_id(a: BlockId, b: BlockId) -> (same: bool)
    ensures
        same == (a == b),
{
    match (a, b) {
        (BlockId::Custom(a), BlockId::Custom(b)) => a == b,
        (BlockId::ExcerptBoundary(None), BlockId::ExcerptBoundary(None)) => true,
        (BlockId::ExcerptBoundary(Some(a)), BlockId::ExcerptBoundary(Some(b))) => a == b,
        _ => false,
    }
}

/// A block of `height` lines from row `start` on has lines in rows `from..to`, or stands there
/// without any.
pub open spec fn touches_rows(start: int, height: u32, from: int, to: int) -> bool {
    &&& start >= from || start + height > from
    &&& start < to || (start == to && height == 0)
}

/// Transform `i` is a block with lines in rows `from..to`.
spec fn block_between(s: Seq<Transform>, i: int, from: int, to: int) -> bool {
    s[i].block matches Some(block) && touches_rows(out_start(s, i), block.height_spec(), from, to)
}

/// The blocks that have lines in rows `from..to`, in order, each with the row it begins at.
pub open spec fn blocks_between(s: Seq<Transform>, from: int, to: int) -> Seq<(int, Block)>
    decreases s.len(),
{
    if s.len() == 0 {
        Seq::empty()
    } else {
        let before = blocks_between(s.drop_last(), from, to);
        let start = output_rows(s.drop_last());
        match s.last().block {
            Some(block) => if touches_rows(start, block.height_spec(), from, to) {
                before.push((start, block))
            } else {
                before
            },
            None => before,
        }
    }
}

proof fn lemma_none_between(s: Seq<Transform>, ix: int, from: int, to: int)
    requires
        0 <= ix <= s.len(),
        forall|i: int| 0 <= i < ix ==> !#[trigger] block_between(s, i, from, to),
    ensures
        blocks_between(s.take(ix), from, to) == Seq::<(int, Block)>::empty(),
    decreases ix,
{
    if ix > 0 {
        lemma_none_between(s, ix - 1, from, to);
        assert(s.take(ix).drop_last() =~= s.take(ix - 1));
        assert(!block_between(s, ix - 1, from, to));
    }
}

proof fn lemma_rest_between(s: Seq<Transform>, ix: int, from: int, to: int)
    requires
        0 <= ix <= s.len(),
        forall|i: int| ix <= i < s.len() ==> !#[trigger] block_between(s, i, from, to),
    ensures
        blocks_between(s, from, to) == blocks_between(s.take(ix), from, to),
    decreases s.len() - ix,
{
    if ix < s.len() {
        lemma_rest_between(s, ix + 1, from, to);
        assert(s.take(ix + 1).drop_last() =~= s.take(ix));
        assert(!block_between(s, ix, from, to));
    } else {
        assert(s.take(ix) =~= s);
    }
}

} // verus!
