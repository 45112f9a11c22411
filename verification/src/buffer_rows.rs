//! The row numbers beside the rows on display.

use vstd::prelude::*;

use crate::point::{Bias, BlockRow};
use crate::snapshot::BlockSnapshot;
use crate::transforms::{in_start, out_start, seek_output, Cursor, DisplayRow, Transform};
use crate::wrap::WrapLine;

verus! {

/// Walks down the rows on display and gives the number to show beside each.
#[derive(Clone, Copy)]
pub struct BlockBufferRows<'a> {
    pub snapshot: &'a BlockSnapshot,
    pub cursor: Cursor,
    pub input_row: u32,
    pub output_row: BlockRow,
    pub started: bool,
}

impl BlockSnapshot {
    /// The number beside a row on display: that of the row of text, none beside lines of blocks.
    pub open spec fn row_number(&self, row: int) -> Option<BlockRow> {
        match self.rows()[row] {
            DisplayRow::Text { row } => match self.wrap_snapshot.lines@[row].buffer_row {
                Some(number) => Some(BlockRow(number)),
                None => None,
            },
            DisplayRow::Block { .. } => None,
        }
    }

    /// The numbers beside the rows from `start_row` on.
    pub fn buffer_rows(&self, start_row: BlockRow) -> (rows: BlockBufferRows)
        requires
            self.wf(),
        ensures
            rows.wf(),
            *rows.snapshot == *self,
            rows.next_row() == start_row.0,
    {
        proof {
            self.lemma_rows();
        }
        let cursor: Cursor = seek_output(&self.transforms, start_row.0, Bias::Right);
        let ghost s = self.transforms@;
        proof {
            crate::transforms::lemma_found_output(s, cursor.ix as int, start_row.0 as int);
            if cursor.ix < s.len() {
                crate::transforms::lemma_step(s, cursor.ix as int);
                crate::transforms::lemma_monotone(s, cursor.ix + 1, s.len() as int);
                assert(s[cursor.ix as int].ok());
            }
            crate::transforms::lemma_whole(s);
        }
        let overshoot: u32 = if cursor.ix < self.transforms.len()
            && self.transforms[cursor.ix].is_isomorphic() {
            start_row.0 - cursor.output
        } else {
            0
        };
        BlockBufferRows {
            snapshot: self,
            cursor,
            input_row: cursor.input + overshoot,
            output_row: start_row,
            started: false,
        }
    }
}

impl<'a> BlockBufferRows<'a> {
    /// The row whose number comes next.
    pub open spec fn next_row(&self) -> int {
        if self.started {
            self.output_row.0 + 1
        } else {
            self.output_row.0 as int
        }
    }

    /// The cursor is at the transform of the row, and the rows of text before it are counted.
    pub open spec fn wf(&self) -> bool {
        let s = self.snapshot.transforms@;
        let ix = self.cursor.ix as int;
        &&& self.snapshot.wf()
        &&& self.cursor.at(s)
        &&& out_start(s, ix) <= self.output_row.0
        &&& ix < s.len() ==> {
            &&& self.output_row.0 < out_start(s, ix + 1)
            &&& self.input_row == in_start(s, ix) + (if s[ix].block is None {
                self.next_row() - out_start(s, ix)
            } else {
                0
            })
        }
    }

    /// The number beside the next row, as long as there is one.
    pub fn next(&mut self) -> (number: Option<Option<BlockRow>>)
        requires
            old(self).wf(),
        ensures
            final(self).wf(),
            *final(self).snapshot == *old(self).snapshot,
            old(self).next_row() < old(self).snapshot.rows().len() ==> number == Some(
                old(self).snapshot.row_number(old(self).next_row()),
            ) && final(self).next_row() == old(self).next_row() + 1,
            old(self).next_row() >= old(self).snapshot.rows().len() ==> number is None
                && final(self).next_row() >= old(self).snapshot.rows().len(),
    {
        let snapshot: &'a BlockSnapshot = self.snapshot;
        let transforms: &Vec<Transform> = &snapshot.transforms;
        let ghost s = transforms@;
        let ghost row = self.next_row();
        proof {
            snapshot.lemma_rows();
            crate::transforms::lemma_whole(s);
        }
        if self.cursor.ix == transforms.len() {
            return None;
        }
        let ghost from = self.cursor.ix as int;
        proof {
            crate::transforms::lemma_step(s, from);
            crate::transforms::lemma_monotone(s, from + 1, s.len() as int);
            assert(s[from].ok());
        }
        if self.started {
            self.output_row = BlockRow(self.output_row.0 + 1);
        } else {
            self.started = true;
        }
        if self.output_row.0 >= self.cursor.output
            + transforms[self.cursor.ix].summary.output_rows {
            self.cursor.next(transforms);
            while self.cursor.ix < transforms.len() && transforms[self.cursor.ix].is_empty()
                invariant
                    *transforms == snapshot.transforms,
                    s == transforms@,
                    snapshot.wf(),
                    crate::transforms::input_rows(s) <= u32::MAX,
                    crate::transforms::output_rows(s) <= u32::MAX,
                    *self.snapshot == *snapshot,
                    self.cursor.at(s),
                    self.cursor.output == row,
                    self.cursor.input == self.input_row,
                    self.output_row.0 == row,
                    self.started,
                decreases s.len() - self.cursor.ix,
            {
                proof {
                    crate::transforms::lemma_step(s, self.cursor.ix as int);
                    assert(s[self.cursor.ix as int].ok());
                }
                self.cursor.next(transforms);
            }
        }
        if self.cursor.ix == transforms.len() {
            return None;
        }
        let ghost ix = self.cursor.ix as int;
        proof {
            crate::transforms::lemma_step(s, ix);
            crate::transforms::lemma_monotone(s, ix + 1, s.len() as int);
            assert(s[ix].ok());
            crate::transforms::lemma_display_at(s, ix, row - out_start(s, ix));
        }
        if transforms[self.cursor.ix].is_isomorphic() {
            let lines: &Vec<WrapLine> = &snapshot.wrap_snapshot.lines;
            let number: Option<u32> = lines[self.input_row as usize].buffer_row;
            self.input_row = self.input_row + 1;
            match number {
                Some(number) => Some(Some(BlockRow(number))),
                None => Some(None),
            }
        } else {
            Some(None)
        }
    }
}

} // verus!
