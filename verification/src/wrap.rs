//! What the layout of blocks reads of soft-wrapped text: its rows, and how they map to a buffer.

use vstd::prelude::*;
use std::sync::Arc;
use vstd::string::{StrSliceExecFns, StringSliceAdditionalSpecFns};

use crate::buffer::MultiBufferSnapshot;
use crate::point::{Bias, Point, WrapPoint};

verus! {

/// One row of soft-wrapped text.
///
/// `line` is the line of the buffer that the row begins with; a row that continues the row above
/// it has none. `stops` are the columns at which a cursor can stand. `buffer_row` is the row number
/// to show beside the row, if any; a row that continues another has none.
pub struct WrapLine {
    pub text: String,
    pub line: Option<u32>,
    pub stops: Vec<u32>,
    pub buffer_row: Option<u32>,
}

/// The rows that show the start and the end of a line of the buffer.
#[derive(Clone, Copy, Debug, PartialEq, Eq, Structural)]
pub struct LineRows {
    pub first: u32,
    pub last: u32,
}

impl WrapLine {
    pub open spec fn bytes(&self) -> Seq<u8> {
        vstd::utf8::encode_utf8(self.text@)
    }

    /// The text is one line, and the stops ascend within it.
    pub open spec fn wf(&self) -> bool {
        &&& self.bytes().len() <= u32::MAX
        &&& forall|k: int|
            0 <= k < self.bytes().len() ==> #[trigger] self.bytes()[k] != crate::text::NEWLINE
        &&& self.stops@.len() > 0
        &&& ascending(self.stops@)
        &&& self.stops@.last() <= self.bytes().len()
    }
}

impl WrapLine {
    /// Whether the text is one line and the stops ascend within it.
    pub fn is_wf(&self) -> (valid: bool)
        ensures
            valid == self.wf(),
    {
        let bytes: &[u8] = self.text.as_str().as_bytes();
        let len: usize = bytes.len();
        if len > u32::MAX as usize {
            return false;
        }
        let mut k: usize = 0;
        while k < len
            invariant
                bytes@ == self.bytes(),
                len == bytes@.len(),
                k <= len,
                forall|n: int| 0 <= n < k ==> #[trigger] self.bytes()[n] != crate::text::NEWLINE,
            decreases len - k,
        {
            if bytes[k] == crate::text::NEWLINE {
                proof {
                    assert(self.bytes()[k as int] == crate::text::NEWLINE);
                }
                return false;
            }
            k = k + 1;
        }
        if self.stops.len() == 0 {
            return false;
        }
        let mut i: usize = 1;
        while i < self.stops.len()
            invariant
                1 <= i <= self.stops@.len(),
                ascending(self.stops@.take(i as int)),
            decreases self.stops@.len() - i,
        {
            let ghost stops = self.stops@;
            if self.stops[i - 1] >= self.stops[i] {
                proof {
                    assert(stops[i - 1] >= stops[i as int]);
                    assert(!ascending(stops));
                }
                return false;
            }
            proof {
                let before = stops.take(i as int);
                let more = stops.take(i + 1);
                assert forall|a: int, b: int| 0 <= a < b < more.len() implies #[trigger] more[a]
                    < #[trigger] more[b] by {
                    assert(more[a] == before[a]);
                    if b < i {
                        assert(more[b] == before[b]);
                    } else if a < i - 1 {
                        assert(before[a] < before[i - 1]);
                    }
                }
            }
            i = i + 1;
        }
        proof {
            assert(self.stops@.take(i as int) =~= self.stops@);
        }
        self.stops[self.stops.len() - 1] as usize <= len
    }
}

/// The first of ascending `stops` that is not below `column`.
pub open spec fn first_stop_from(stops: Seq<u32>, column: u32) -> Option<u32>
    decreases stops.len(),
{
    if stops.len() == 0 {
        None
    } else if stops[0] >= column {
        Some(stops[0])
    } else {
        first_stop_from(stops.drop_first(), column)
    }
}

/// The last of ascending `stops` that is not above `column`.
pub open spec fn last_stop_to(stops: Seq<u32>, column: u32) -> Option<u32>
    decreases stops.len(),
{
    if stops.len() == 0 {
        None
    } else if stops.last() <= column {
        Some(stops.last())
    } else {
        last_stop_to(stops.drop_last(), column)
    }
}

/// Columns that ascend.
pub open spec fn ascending(stops: Seq<u32>) -> bool {
    forall|i: int, j: int| 0 <= i < j < stops.len() ==> #[trigger] stops[i] < #[trigger] stops[j]
}

/// What `last_stop_to` finds.
pub proof fn lemma_last_stop(stops: Seq<u32>, column: u32)
    requires
        ascending(stops),
    ensures
        match last_stop_to(stops, column) {
            Some(stop) => stops.contains(stop) && stop <= column && forall|i: int|
                0 <= i < stops.len() && #[trigger] stops[i] <= column ==> stops[i] <= stop,
            None => forall|i: int| 0 <= i < stops.len() ==> #[trigger] stops[i] > column,
        },
    decreases stops.len(),
{
    if stops.len() > 0 {
        let last = stops[stops.len() - 1];
        if last > column {
            let before = stops.drop_last();
            lemma_last_stop(before, column);
            assert forall|i: int| 0 <= i < stops.len() - 1 implies #[trigger] stops[i]
                == before[i] by {}
            if let Some(stop) = last_stop_to(before, column) {
                let k = before.index_of(stop);
                assert(stops[k] == stop);
            }
        } else {
            assert(stops.contains(last));
        }
    }
}

/// What `first_stop_from` finds.
pub proof fn lemma_first_stop(stops: Seq<u32>, column: u32)
    requires
        ascending(stops),
    ensures
        match first_stop_from(stops, column) {
            Some(stop) => stops.contains(stop) && stop >= column && forall|i: int|
                0 <= i < stops.len() && #[trigger] stops[i] >= column ==> stops[i] >= stop,
            None => forall|i: int| 0 <= i < stops.len() ==> #[trigger] stops[i] < column,
        },
    decreases stops.len(),
{
    if stops.len() > 0 {
        if stops[0] < column {
            let rest = stops.drop_first();
            lemma_first_stop(rest, column);
            assert forall|i: int| 1 <= i < stops.len() implies #[trigger] stops[i] == rest[i
                - 1] by {}
            if let Some(stop) = first_stop_from(rest, column) {
                let k = rest.index_of(stop);
                assert(stops[k + 1] == stop);
            }
        } else {
            assert(stops.contains(stops[0]));
        }
    }
}

/// Soft-wrapped text at one moment, over a buffer at the same moment.
///
/// `line_rows` says for each line of the buffer where it is shown. Lines that are folded away are
/// shown where the fold is.
pub struct WrapSnapshot {
    pub lines: Arc<Vec<WrapLine>>,
    pub line_rows: Arc<Vec<LineRows>>,
    pub longest_row: u32,
    pub buffer: Arc<MultiBufferSnapshot>,
}

impl Clone for WrapSnapshot {
    fn clone(&self) -> (copy: Self)
        ensures
            copy == *self,
    {
        WrapSnapshot {
            lines: self.lines.clone(),
            line_rows: self.line_rows.clone(),
            longest_row: self.longest_row,
            buffer: self.buffer.clone(),
        }
    }
}

impl WrapSnapshot {
    pub open spec fn rows(&self) -> int {
        self.lines@.len() as int
    }

    /// Row `row` continues the row above it.
    pub open spec fn soft(&self, row: int) -> bool {
        self.lines@[row].line is None
    }

    /// The row that shows the start of a line.
    pub open spec fn first_row(&self, line: int) -> int {
        self.line_rows@[line].first as int
    }

    /// The row that shows the end of a line.
    pub open spec fn last_row(&self, line: int) -> int {
        self.line_rows@[line].last as int
    }

    /// A row begins with a line of the buffer, which no line before it reaches, or continues the
    /// row above and has no number; where no row continues it, a cursor can stand at its end.
    pub open spec fn row_ok(&self, row: int) -> bool {
        &&& self.lines@[row].wf()
        &&& self.lines@[row].line matches Some(line) ==> {
            &&& line < self.line_rows@.len()
            &&& self.first_row(line as int) >= row
            &&& line > 0 ==> self.last_row(line - 1) < row
            &&& self.lines@[row].stops@[0] == 0
        }
        &&& self.soft(row) ==> self.lines@[row].buffer_row is None
        &&& (row + 1 == self.rows() || !self.soft(row + 1)) ==> self.lines@[row].stops@.last()
            == self.lines@[row].bytes().len()
        &&& self.lines@[row].text@.len() <= self.lines@[self.longest_row as int].text@.len()
    }

    /// Each line of the buffer is shown in rows of the text, the lines in order.
    pub open spec fn line_rows_ok(&self) -> bool {
        &&& self.line_rows@.len() == self.buffer.line_lens@.len()
        &&& forall|line: int|
            0 <= line < self.line_rows@.len() ==> (#[trigger] self.line_rows@[line]).first
                <= self.line_rows@[line].last < self.rows()
        &&& forall|a: int, b: int|
            0 <= a < b < self.line_rows@.len() ==> (#[trigger] self.line_rows@[a]).last <= (
            #[trigger] self.line_rows@[b]).first
    }

    /// The buffer is well formed and shown; there is a row; the first begins the buffer.
    pub open spec fn wf(&self) -> bool {
        &&& self.buffer.wf()
        &&& 0 < self.rows() <= u32::MAX
        &&& self.longest_row < self.rows()
        &&& self.lines@[0].line == Some(0u32)
        &&& self.line_rows_ok()
        &&& forall|row: int| 0 <= row < self.rows() ==> #[trigger] self.row_ok(row)
    }

    /// Row `row` does not continue the row above it, or is the end of the text.
    pub open spec fn is_boundary(&self, row: int) -> bool {
        0 <= row <= self.rows() && (row < self.rows() ==> !self.soft(row))
    }

    /// The row that begins the line that `row` is part of.
    pub open spec fn line_start_row(&self, row: int) -> int
        decreases row,
    {
        if row > 0 && self.soft(row) {
            self.line_start_row(row - 1)
        } else {
            row
        }
    }

    /// `start..end` are the rows of the line, or of the folded lines, that `row` is part of.
    pub open spec fn is_line_range(&self, row: int, start: int, end: int) -> bool {
        &&& 0 <= start <= row < end <= self.rows()
        &&& self.is_boundary(start)
        &&& self.is_boundary(end)
        &&& forall|k: int| start < k < end ==> #[trigger] self.soft(k)
    }

    pub open spec fn line_len_spec(&self, row: u32) -> u32 {
        self.lines@[row as int].bytes().len() as u32
    }

    pub open spec fn max_point_spec(&self) -> WrapPoint {
        WrapPoint(
            Point {
                row: (self.rows() - 1) as u32,
                column: self.line_len_spec((self.rows() - 1) as u32),
            },
        )
    }

    /// `point` is a place where a cursor can stand.
    pub open spec fn is_stop(&self, point: WrapPoint) -> bool {
        point.0.row < self.rows() && self.lines@[point.0.row as int].stops@.contains(
            point.0.column,
        )
    }

    /// The place for a cursor nearest to `point`: to the left, the last one not after it. To the
    /// right, the first one in the row not before it; past those, the first one of the row that
    /// continues the line, or the end of the line.
    pub open spec fn clip(&self, point: WrapPoint, bias: Bias) -> WrapPoint {
        let row = point.0.row as int;
        if row >= self.rows() {
            self.max_point_spec()
        } else {
            let stops = self.lines@[row].stops@;
            match bias {
                Bias::Left => match last_stop_to(stops, point.0.column) {
                    Some(column) => WrapPoint(Point { row: row as u32, column }),
                    None => WrapPoint(
                        Point {
                            row: (row - 1) as u32,
                            column: self.lines@[row - 1].stops@.last(),
                        },
                    ),
                },
                Bias::Right => match first_stop_from(stops, point.0.column) {
                    Some(column) => WrapPoint(Point { row: row as u32, column }),
                    None => if row + 1 < self.rows() && self.soft(row + 1) {
                        WrapPoint(
                            Point { row: (row + 1) as u32, column: self.lines@[row + 1].stops@[0] },
                        )
                    } else {
                        WrapPoint(Point { row: row as u32, column: stops.last() })
                    },
                },
            }
        }
    }

    /// Soft-wrapped text, if its parts go together.
    pub fn new(
        lines: Vec<WrapLine>,
        line_rows: Vec<LineRows>,
        longest_row: u32,
        buffer: MultiBufferSnapshot,
    ) -> (wrap: Option<Self>)
        ensures
            ({
                let whole = WrapSnapshot {
                    lines: Arc::new(lines),
                    line_rows: Arc::new(line_rows),
                    longest_row,
                    buffer: Arc::new(buffer),
                };
                wrap == (if whole.wf() {
                    Some(whole)
                } else {
                    None
                })
            }),
    {
        let wrap: WrapSnapshot = WrapSnapshot {
            lines: Arc::new(lines),
            line_rows: Arc::new(line_rows),
            longest_row,
            buffer: Arc::new(buffer),
        };
        if wrap.is_wf() {
            Some(wrap)
        } else {
            None
        }
    }

    /// Whether the parts of soft-wrapped text go together.
    pub fn is_wf(&self) -> (valid: bool)
        ensures
            valid == self.wf(),
    {
        let rows: usize = self.lines.len();
        if !self.buffer.is_wf() || rows == 0 || rows > u32::MAX as usize
            || self.longest_row as usize >= rows {
            return false;
        }
        let begins: bool = match self.lines[0].line {
            Some(line) => line == 0,
            None => false,
        };
        if !begins || !self.line_rows_are_ok() {
            return false;
        }
        let longest: usize = self.lines[self.longest_row as usize].text.as_str().unicode_len();
        let mut row: usize = 0;
        while row < rows
            invariant
                rows == self.rows(),
                row <= rows <= u32::MAX,
                self.longest_row < rows,
                self.line_rows_ok(),
                longest == self.lines@[self.longest_row as int].text@.len(),
                forall|k: int| 0 <= k < row ==> #[trigger] self.row_ok(k),
            decreases rows - row,
        {
            if !self.row_is_ok(row, longest) {
                return false;
            }
            row = row + 1;
        }
        true
    }

    fn line_rows_are_ok(&self) -> (valid: bool)
        requires
            0 < self.rows() <= u32::MAX,
        ensures
            valid == self.line_rows_ok(),
    {
        if self.line_rows.len() != self.buffer.line_lens.len() {
            return false;
        }
        let rows: usize = self.lines.len();
        let mut line: usize = 0;
        while line < self.line_rows.len()
            invariant
                rows == self.rows(),
                line <= self.line_rows@.len(),
                forall|k: int|
                    0 <= k < line ==> (#[trigger] self.line_rows@[k]).first
                        <= self.line_rows@[k].last < self.rows(),
                forall|a: int, b: int|
                    0 <= a < b < line ==> (#[trigger] self.line_rows@[a]).last <= (
                    #[trigger] self.line_rows@[b]).first,
            decreases self.line_rows@.len() - line,
        {
            let shown: LineRows = self.line_rows[line];
            if shown.first > shown.last || shown.last as usize >= rows {
                return false;
            }
            if line > 0 && self.line_rows[line - 1].last > shown.first {
                proof {
                    assert(self.line_rows@[line - 1].last > self.line_rows@[line as int].first);
                }
                return false;
            }
            proof {
                assert forall|a: int, b: int| 0 <= a < b < line + 1 implies (
                #[trigger] self.line_rows@[a]).last <= (#[trigger] self.line_rows@[b]).first by {
                    if b == line && a < line - 1 {
                        assert(self.line_rows@[a].last <= self.line_rows@[line - 1].first);
                    }
                }
            }
            line = line + 1;
        }
        true
    }

    fn row_is_ok(&self, row: usize, longest: usize) -> (valid: bool)
        requires
            row < self.rows() <= u32::MAX,
            self.longest_row < self.rows(),
            self.line_rows_ok(),
            longest == self.lines@[self.longest_row as int].text@.len(),
        ensures
            valid == self.row_ok(row as int),
    {
        let rows: usize = self.lines.len();
        let line: &WrapLine = &self.lines[row];
        if !line.is_wf() {
            return false;
        }
        let stops: &Vec<u32> = &line.stops;
        let len: usize = line.text.as_str().as_bytes().len();
        let shown: &Vec<LineRows> = &self.line_rows;
        let starts: bool = match line.line {
            Some(line) => {
                let ix: usize = line as usize;
                ix < shown.len() && shown[ix].first as usize >= row && (ix == 0 || (
                shown[ix - 1].last as usize) < row) && stops[0] == 0
            },
            None => line.buffer_row.is_none(),
        };
        let continued: bool = row < rows - 1 && self.lines[row + 1].line.is_none();
        let ends: bool = continued || stops[stops.len() - 1] as usize == len;
        starts && ends && line.text.as_str().unicode_len() <= longest
    }

    pub fn buffer_snapshot(&self) -> (buffer: &MultiBufferSnapshot)
        ensures
            *buffer == *self.buffer,
    {
        &self.buffer
    }

    pub fn row_count(&self) -> (count: u32)
        requires
            self.wf(),
        ensures
            count == self.rows(),
    {
        self.lines.len() as u32
    }

    pub fn line_len(&self, row: u32) -> (len: u32)
        requires
            self.wf(),
            row < self.rows(),
        ensures
            len == self.line_len_spec(row),
            len == self.lines@[row as int].bytes().len(),
    {
        proof {
            assert(self.row_ok(row as int));
        }
        self.lines[row as usize].text.as_str().as_bytes().len() as u32
    }

    pub fn max_point(&self) -> (point: WrapPoint)
        requires
            self.wf(),
        ensures
            point == self.max_point_spec(),
    {
        let row: u32 = self.row_count() - 1;
        WrapPoint::new(row, self.line_len(row))
    }

    pub fn longest_row(&self) -> (row: u32)
        ensures
            row == self.longest_row,
    {
        self.longest_row
    }

    /// The place in the buffer at which a row begins that does not continue another.
    pub open spec fn start_of(&self, row: int) -> Point {
        Point { row: self.lines@[row].line->0, column: 0 }
    }

    pub fn row_start(&self, row: u32) -> (point: Point)
        requires
            row < self.rows(),
            !self.soft(row as int),
        ensures
            point == self.start_of(row as int),
    {
        match self.lines[row as usize].line {
            Some(line) => Point::new(line, 0),
            None => Point::new(0, 0),
        }
    }

    /// The row that shows the start of a line.
    pub fn line_first_row(&self, line: u32) -> (row: u32)
        requires
            self.wf(),
            line < self.buffer.line_lens@.len(),
        ensures
            row == self.first_row(line as int),
            row < self.rows(),
    {
        self.line_rows[line as usize].first
    }

    /// The row that shows the end of a line.
    pub fn line_last_row(&self, line: u32) -> (row: u32)
        requires
            self.wf(),
            line < self.buffer.line_lens@.len(),
        ensures
            row == self.last_row(line as int),
            row < self.rows(),
    {
        self.line_rows[line as usize].last
    }

    /// The row that begins the line of `point`.
    pub fn prev_row_boundary(&self, point: WrapPoint) -> (boundary: u32)
        requires
            self.wf(),
            point.0.row < self.rows(),
        ensures
            boundary == self.line_start_row(point.0.row as int),
            boundary <= point.0.row,
            self.is_boundary(boundary as int),
            forall|k: int| boundary < k <= point.0.row ==> #[trigger] self.soft(k),
    {
        let mut row: u32 = point.0.row;
        while self.lines[row as usize].line.is_none()
            invariant
                self.wf(),
                row <= point.0.row < self.rows(),
                self.line_start_row(point.0.row as int) == self.line_start_row(row as int),
                forall|k: int| row < k <= point.0.row ==> #[trigger] self.soft(k),
            ensures
                row <= point.0.row,
                self.line_start_row(point.0.row as int) == self.line_start_row(row as int),
                !self.soft(row as int),
                forall|k: int| row < k <= point.0.row ==> #[trigger] self.soft(k),
            decreases row,
        {
            proof {
                assert(self.soft(row as int));
            }
            row = row - 1;
        }
        row
    }

    /// The row that begins the line after that of `point`.
    pub fn next_row_boundary(&self, point: WrapPoint) -> (boundary: Option<u32>)
        requires
            self.wf(),
            point.0.row < self.rows(),
        ensures
            match boundary {
                Some(row) => point.0.row < row < self.rows() && self.is_boundary(row as int)
                    && forall|k: int| point.0.row < k < row ==> #[trigger] self.soft(k),
                None => forall|k: int|
                    point.0.row < k < self.rows() ==> #[trigger] self.soft(k),
            },
    {
        let mut row: u32 = point.0.row + 1;
        while row < self.row_count()
            invariant
                self.wf(),
                point.0.row < row <= self.rows(),
                forall|k: int| point.0.row < k < row ==> #[trigger] self.soft(k),
            decreases self.rows() - row,
        {
            if self.lines[row as usize].line.is_some() {
                return Some(row);
            }
            proof {
                assert(self.soft(row as int));
            }
            row = row + 1;
        }
        None
    }

    /// The rows of the line that `row` is part of.
    pub fn line_range(&self, row: u32) -> (range: (u32, u32))
        requires
            self.wf(),
            row < self.rows(),
        ensures
            self.is_line_range(row as int, range.0 as int, range.1 as int),
    {
        let start: u32 = self.prev_row_boundary(WrapPoint::new(row, 0));
        let end: u32 = match self.next_row_boundary(WrapPoint::new(row, 0)) {
            Some(end) => end,
            None => self.max_point().row() + 1,
        };
        (start, end)
    }

    /// The line that a row begins with separates the buffer: lines before it are shown above that
    /// row, others are not.
    pub proof fn lemma_boundary_splits(&self, row: int, line: int)
        requires
            self.wf(),
            0 <= row < self.rows(),
            self.is_boundary(row),
            0 <= line < self.buffer.line_lens@.len(),
        ensures
            line < self.start_of(row).row ==> self.first_row(line) <= self.last_row(line) < row,
            line >= self.start_of(row).row ==> row <= self.first_row(line) <= self.last_row(line),
    {
        assert(self.row_ok(row));
        let start = self.start_of(row).row as int;
        assert(self.line_rows@[line].first <= self.line_rows@[line].last);
        if line < start - 1 {
            assert(self.line_rows@[line].last <= self.line_rows@[start - 1].first);
            assert(self.line_rows@[start - 1].first <= self.line_rows@[start - 1].last);
        } else if line > start {
            assert(self.line_rows@[start].first <= self.line_rows@[start].last);
            assert(self.line_rows@[start].last <= self.line_rows@[line].first);
        }
    }

    /// All rows of one line of the buffer belong to one range of rows.
    pub proof fn lemma_line_in_range(&self, line: int, start: int, end: int)
        requires
            self.wf(),
            0 <= line < self.buffer.line_lens@.len(),
            self.is_line_range(self.first_row(line), start, end),
        ensures
            start <= self.last_row(line) < end,
    {
        assert(self.line_rows@[line].first <= self.line_rows@[line].last);
        if end < self.rows() {
            self.lemma_boundary_splits(end, line);
        }
    }

    /// The place for a cursor nearest to `point`.
    pub fn clip_point(&self, point: WrapPoint, bias: Bias) -> (clipped: WrapPoint)
        requires
            self.wf(),
        ensures
            clipped == self.clip(point, bias),
    {
        let row: u32 = point.0.row;
        if row >= self.row_count() {
            return self.max_point();
        }
        proof {
            assert(self.row_ok(row as int));
        }
        let stops: &Vec<u32> = &self.lines[row as usize].stops;
        match bias {
            Bias::Left => {
                let mut ix: usize = stops.len();
                proof {
                    assert(stops@.take(ix as int) =~= stops@);
                }
                while ix > 0
                    invariant
                        ix <= stops@.len(),
                        last_stop_to(stops@, point.0.column) == last_stop_to(
                            stops@.take(ix as int),
                            point.0.column,
                        ),
                        stops@ == self.lines@[row as int].stops@,
                        row < self.rows(),
                        row == point.0.row,
                        bias == Bias::Left,
                        forall|k: int|
                            ix <= k < stops@.len() ==> #[trigger] stops@[k] > point.0.column,
                    decreases ix,
                {
                    if stops[ix - 1] <= point.0.column {
                        return WrapPoint::new(row, stops[ix - 1]);
                    }
                    proof {
                        assert(stops@.take(ix as int).drop_last() =~= stops@.take(ix - 1));
                    }
                    ix = ix - 1;
                }
                proof {
                    assert(stops@[0] > 0);
                    assert(row > 0);
                    assert(self.row_ok(row - 1));
                }
                let above: &Vec<u32> = &self.lines[(row - 1) as usize].stops;
                WrapPoint::new(row - 1, above[above.len() - 1])
            },
            Bias::Right => {
                let mut ix: usize = 0;
                proof {
                    assert(stops@.skip(0) =~= stops@);
                }
                while ix < stops.len()
                    invariant
                        ix <= stops@.len(),
                        first_stop_from(stops@, point.0.column) == first_stop_from(
                            stops@.skip(ix as int),
                            point.0.column,
                        ),
                        stops@ == self.lines@[row as int].stops@,
                        row < self.rows(),
                        row == point.0.row,
                        bias == Bias::Right,
                    decreases stops@.len() - ix,
                {
                    if stops[ix] >= point.0.column {
                        return WrapPoint::new(row, stops[ix]);
                    }
                    proof {
                        assert(stops@.skip(ix as int).drop_first() =~= stops@.skip(ix + 1));
                    }
                    ix = ix + 1;
                }
                if row + 1 < self.row_count() && self.lines[(row + 1) as usize].line.is_none() {
                    proof {
                        assert(self.row_ok(row + 1));
                    }
                    WrapPoint::new(row + 1, self.lines[(row + 1) as usize].stops[0])
                } else {
                    WrapPoint::new(row, stops[stops.len() - 1])
                }
            },
        }
    }

    /// Clipping ends at a place for a cursor: in the row itself, else to the left at the end of the
    /// row above, which the row continues, or to the right at the start of the row that continues
    /// it.
    pub proof fn lemma_clip(&self, point: WrapPoint, bias: Bias)
        requires
            self.wf(),
            point.0.row < self.rows(),
        ensures
            self.is_stop(self.clip(point, bias)),
            self.clip(point, bias).0.row == point.0.row || (bias is Left && self.soft(
                point.0.row as int,
            ) && self.clip(point, bias) == WrapPoint(
                Point {
                    row: (point.0.row - 1) as u32,
                    column: self.lines@[point.0.row - 1].stops@.last(),
                },
            ) && point.0.row > 0) || (bias is Right && point.0.row + 1 < self.rows() && self.soft(
                point.0.row + 1,
            ) && self.clip(point, bias) == WrapPoint(
                Point {
                    row: (point.0.row + 1) as u32,
                    column: self.lines@[point.0.row + 1].stops@[0],
                },
            )),
    {
        let row = point.0.row as int;
        assert(self.row_ok(row));
        let stops = self.lines@[row].stops@;
        lemma_last_stop(stops, point.0.column);
        lemma_first_stop(stops, point.0.column);
        match bias {
            Bias::Left => {
                if last_stop_to(stops, point.0.column) is None {
                    assert(stops[0] > point.0.column);
                    assert(self.soft(row));
                    assert(self.row_ok(row - 1));
                    let above = self.lines@[row - 1].stops@;
                    assert(above.contains(above[above.len() - 1]));
                }
            },
            Bias::Right => {
                if first_stop_from(stops, point.0.column) is None {
                    if row + 1 < self.rows() && self.soft(row + 1) {
                        assert(self.row_ok(row + 1));
                        let below = self.lines@[row + 1].stops@;
                        assert(below.contains(below[0]));
                    } else {
                        assert(stops.contains(stops[stops.len() - 1]));
                    }
                }
            },
        }
    }

    /// The end of a row is clipped to the last place in it; to the right this holds where no row
    /// continues it.
    pub proof fn lemma_clip_end(&self, row: u32, bias: Bias)
        requires
            self.wf(),
            row < self.rows(),
            bias is Left || row + 1 == self.rows(),
        ensures
            self.clip(WrapPoint(Point { row, column: self.line_len_spec(row) }), bias) == WrapPoint(
                Point { row, column: self.lines@[row as int].stops@.last() },
            ),
    {
        assert(self.row_ok(row as int));
        let stops = self.lines@[row as int].stops@;
        let len = self.line_len_spec(row);
        lemma_last_stop(stops, len);
        lemma_first_stop(stops, len);
        let last = stops[stops.len() - 1];
        assert(last <= len);
        assert forall|i: int| 0 <= i < stops.len() implies #[trigger] stops[i] <= last by {}
    }

    /// The start of a row is clipped to the first place in it; to the left this holds in the first
    /// row.
    pub proof fn lemma_clip_start(&self, row: u32, bias: Bias)
        requires
            self.wf(),
            row < self.rows(),
            bias is Right || row == 0,
        ensures
            self.clip(WrapPoint(Point { row, column: 0 }), bias) == WrapPoint(
                Point { row, column: self.lines@[row as int].stops@[0] },
            ),
    {
        assert(self.row_ok(row as int));
        let stops = self.lines@[row as int].stops@;
        lemma_last_stop(stops, 0);
        lemma_first_stop(stops, 0);
        let first = stops[0];
        assert forall|i: int| 0 <= i < stops.len() implies #[trigger] stops[i] >= first by {}
    }

    /// A place for a cursor stays where it is.
    pub proof fn lemma_stop_stays(&self, point: WrapPoint, bias: Bias)
        requires
            self.wf(),
            self.is_stop(point),
        ensures
            self.clip(point, bias) == point,
    {
        assert(self.row_ok(point.0.row as int));
        let stops = self.lines@[point.0.row as int].stops@;
        lemma_last_stop(stops, point.0.column);
        lemma_first_stop(stops, point.0.column);
        let k = stops.index_of(point.0.column);
        assert(stops[k] == point.0.column);
    }
}

} // verus!
