//! Where points on display and points of the text lead, told by what is on display.

use vstd::prelude::*;

use crate::block::{BlockDisposition, BlockLike};
use crate::buffer::{Anchor, MultiBufferSnapshot};
use crate::point::{Bias, BlockPoint, Point, WrapPoint};
use crate::snapshot::BlockSnapshot;
use crate::transforms::{
    found_input, found_output, in_start, out_start, stops_at, texts_before, DisplayRow, Transform,
};
use crate::wrap::WrapSnapshot;

verus! {

/// Row `at` is the nearest row of text above row `row`.
pub open spec fn nearest_above(rows: Seq<DisplayRow>, row: int, at: int) -> bool {
    &&& 0 <= at < row <= rows.len()
    &&& rows[at] is Text
    &&& forall|r: int| at < r < row ==> (#[trigger] rows[r]) is Block
}

/// Row `at` is the nearest row of text below row `row`.
pub open spec fn nearest_below(rows: Seq<DisplayRow>, row: int, at: int) -> bool {
    &&& 0 <= row < at < rows.len()
    &&& rows[at] is Text
    &&& forall|r: int| row < r < at ==> (#[trigger] rows[r]) is Block
}

/// There is text above row `row`.
pub open spec fn text_above(rows: Seq<DisplayRow>, row: int) -> bool {
    exists|r: int| 0 <= r < row && (#[trigger] rows[r]) is Text
}

/// There is text below row `row`.
pub open spec fn text_below(rows: Seq<DisplayRow>, row: int) -> bool {
    exists|r: int| row < r < rows.len() && (#[trigger] rows[r]) is Text
}

/// The row of text on display in a row.
pub open spec fn text_in(rows: Seq<DisplayRow>, row: int) -> int {
    rows[row]->Text_row
}

/// The rows of text above a row are the first ones, those below it are the others.
pub(crate) proof fn lemma_text_sides(snapshot: &BlockSnapshot, row: int)
    requires
        snapshot.wf(),
        0 <= row <= snapshot.rows().len(),
    ensures
        0 <= texts_before(snapshot.rows(), row) <= snapshot.wrap_snapshot.rows(),
        forall|r: int|
            0 <= r < row && (#[trigger] snapshot.rows()[r]) is Text ==> 0 <= text_in(
                snapshot.rows(),
                r,
            ) < texts_before(snapshot.rows(), row),
        forall|r: int|
            row <= r < snapshot.rows().len() && (#[trigger] snapshot.rows()[r]) is Text
                ==> texts_before(snapshot.rows(), row) <= text_in(snapshot.rows(), r)
                < snapshot.wrap_snapshot.rows(),
{
    let rows = snapshot.rows();
    crate::transforms::lemma_text_bound(snapshot.transforms@, row);
    snapshot.lemma_rows();
    assert forall|r: int| 0 <= r < row && (#[trigger] rows[r]) is Text implies 0 <= text_in(
        rows,
        r,
    ) < texts_before(rows, row) by {
        crate::transforms::lemma_text_at(snapshot.transforms@, r);
        crate::chunks::lemma_texts_ascend(rows, r + 1, row);
    }
    assert forall|r: int|
        row <= r < rows.len() && (#[trigger] rows[r]) is Text implies texts_before(rows, row)
        <= text_in(rows, r) < snapshot.wrap_snapshot.rows() by {
        crate::transforms::lemma_text_at(snapshot.transforms@, r);
        crate::chunks::lemma_texts_ascend(rows, row, r);
    }
}

/// Where the last of the rows of text above a row, and the first of those below it, are on display.
pub(crate) proof fn lemma_neighbours(snapshot: &BlockSnapshot, row: int) -> (found: (int, int))
    requires
        snapshot.wf(),
        0 <= row <= snapshot.rows().len(),
    ensures
        texts_before(snapshot.rows(), row) > 0 ==> nearest_above(snapshot.rows(), row, found.0)
            && text_in(snapshot.rows(), found.0) == texts_before(snapshot.rows(), row) - 1,
        texts_before(snapshot.rows(), row) < snapshot.wrap_snapshot.rows() ==> {
            &&& row <= found.1 < snapshot.rows().len()
            &&& snapshot.rows()[found.1] == (DisplayRow::Text {
                row: texts_before(snapshot.rows(), row),
            })
            &&& forall|r: int| row <= r < found.1 ==> (#[trigger] snapshot.rows()[r]) is Block
        },
        texts_before(snapshot.rows(), row) > 0 <==> text_above(snapshot.rows(), row),
        texts_before(snapshot.rows(), row) == snapshot.wrap_snapshot.rows() ==> !text_below(
            snapshot.rows(),
            row,
        ) && (row < snapshot.rows().len() ==> snapshot.rows()[row] is Block),
{
    let rows = snapshot.rows();
    let n = texts_before(rows, row);
    lemma_text_sides(snapshot, row);
    let above = if n > 0 {
        let at = crate::laws::law_text_shown_once(snapshot, n - 1);
        assert(rows[at] == (DisplayRow::Text { row: n - 1 }));
        assert(at < row);
        assert forall|r: int| at < r < row implies (#[trigger] rows[r]) is Block by {
            if rows[r] is Text {
                crate::laws::law_text_in_order(snapshot, at, r);
            }
        }
        at
    } else {
        0
    };
    let below = if n < snapshot.wrap_snapshot.rows() {
        let at = crate::laws::law_text_shown_once(snapshot, n);
        assert(rows[at] == (DisplayRow::Text { row: n }));
        assert(row <= at);
        assert forall|r: int| row <= r < at implies (#[trigger] rows[r]) is Block by {
            if rows[r] is Text {
                crate::laws::law_text_in_order(snapshot, r, at);
            }
        }
        at
    } else {
        0
    };
    (above, below)
}

/// The text that comes before a line of a block, counted by the row of text it belongs to.
pub(crate) proof fn lemma_block_line(snapshot: &BlockSnapshot, row: int) -> (i: int)
    requires
        snapshot.wf(),
        0 <= row < snapshot.rows().len(),
        snapshot.rows()[row] is Block,
    ensures
        0 <= i < snapshot.transforms@.len(),
        snapshot.transforms@[i].block == Some(snapshot.rows()[row]->block),
        row == out_start(snapshot.transforms@, i) + snapshot.rows()[row]->line,
        0 <= snapshot.rows()[row]->line < snapshot.rows()[row]->block.height_spec(),
        texts_before(snapshot.rows(), row) == in_start(snapshot.transforms@, i),
        texts_before(snapshot.rows(), row) == snapshot.rows()[row]->Block_row + (
        if snapshot.rows()[row]->block.disposition_spec() is Below {
            1int
        } else {
            0
        }),
        0 <= snapshot.rows()[row]->Block_row < snapshot.wrap_snapshot.rows(),
{
    let s = snapshot.transforms@;
    snapshot.lemma_rows();
    let i = crate::transforms::lemma_transform_at(s, row);
    let line = row - out_start(s, i);
    crate::transforms::lemma_step(s, i);
    crate::transforms::lemma_display_at(s, i, line);
    crate::transforms::lemma_texts_at(s, i, line);
    assert(s[i].ok());
    snapshot.lemma_block_on_row(i);
    i
}

/// A line of a block, whatever the kind of the block, clips to the nearest text: to the left to the
/// last place for a cursor in the text above it, to the right to the first one in the text below
/// it. Where there is text on one side only, it clips to that side.
pub proof fn law_clip_line_of_block(
    snapshot: &BlockSnapshot,
    point: BlockPoint,
    bias: Bias,
    clipped: BlockPoint,
)
    requires
        snapshot.wf(),
        point.0.row < snapshot.rows().len(),
        snapshot.rows()[point.0.row as int] is Block,
        snapshot.shows(clipped, snapshot.clip_source(point, bias)),
    ensures
        ({
            let rows = snapshot.rows();
            let (row, at) = (point.0.row as int, clipped.0.row as int);
            let stops = snapshot.wrap_snapshot.lines@[text_in(rows, at)].stops@;
            if (bias is Left && text_above(rows, row)) || !text_below(rows, row) {
                nearest_above(rows, row, at) && clipped.0.column == stops[stops.len() - 1]
            } else {
                nearest_below(rows, row, at) && clipped.0.column == stops[0]
            }
        }),
{
    let rows = snapshot.rows();
    let wrap = snapshot.wrap_snapshot;
    let row = point.0.row as int;
    let i = lemma_block_line(snapshot, row);
    let (above, below) = lemma_neighbours(snapshot, row);
    let n = texts_before(rows, row);
    snapshot.lemma_rows();
    if n < wrap.rows() {
        assert(row < below);
        assert(rows[below] is Text);
        assert(text_below(rows, row));
    }
    let at = crate::laws::law_text_shown_once(
        snapshot,
        if (bias is Left && n > 0) || n == wrap.rows() {
            n - 1
        } else {
            n
        },
    );
    if (bias is Left && n > 0) || n == wrap.rows() {
        assert(wrap.row_ok(n - 1));
        wrap.lemma_clip_end((n - 1) as u32, bias);
        assert(rows[clipped.0.row as int] == (DisplayRow::Text { row: n - 1 }));
        assert(rows[above] == (DisplayRow::Text { row: n - 1 }));
    } else {
        assert(wrap.row_ok(n));
        wrap.lemma_clip_start(n as u32, bias);
        assert(rows[clipped.0.row as int] == (DisplayRow::Text { row: n }));
        assert(rows[below] == (DisplayRow::Text { row: n }));
    }
}

/// A point in a row of text that is a place for a cursor stays. Any other clips to the next place
/// on the side of the bias: the greatest column before it or the least one after it. Where its row
/// has none there, it goes over to the row above that it continues, or to the row that continues
/// it, or to the end of the line.
pub proof fn law_clip_in_text(
    snapshot: &BlockSnapshot,
    point: BlockPoint,
    bias: Bias,
    clipped: BlockPoint,
)
    requires
        snapshot.wf(),
        point.0.row < snapshot.rows().len(),
        snapshot.rows()[point.0.row as int] is Text,
        snapshot.shows(clipped, snapshot.clip_source(point, bias)),
    ensures
        ({
            let rows = snapshot.rows();
            let lines = snapshot.wrap_snapshot.lines@;
            let t = text_in(rows, point.0.row as int);
            let stops = lines[t].stops@;
            let (column, found) = (point.0.column, clipped.0.column);
            let stays = clipped.0.row == point.0.row && stops.contains(found);
            &&& stops.contains(column) ==> clipped == point
            &&& bias is Left ==> if exists|k: int| 0 <= k < stops.len() && stops[k] <= column {
                stays && found <= column && forall|k: int|
                    0 <= k < stops.len() && stops[k] <= column ==> stops[k] <= found
            } else {
                &&& lines[t].line is None
                &&& clipped.0.row < point.0.row
                &&& rows[clipped.0.row as int] == (DisplayRow::Text { row: t - 1 })
                &&& found == lines[t - 1].stops@[lines[t - 1].stops@.len() - 1]
            }
            &&& bias is Right ==> if exists|k: int| 0 <= k < stops.len() && stops[k] >= column {
                stays && found >= column && forall|k: int|
                    0 <= k < stops.len() && stops[k] >= column ==> stops[k] >= found
            } else if t + 1 < lines.len() && lines[t + 1].line is None {
                &&& clipped.0.row > point.0.row
                &&& rows[clipped.0.row as int] == (DisplayRow::Text { row: t + 1 })
                &&& found == lines[t + 1].stops@[0]
            } else {
                clipped.0.row == point.0.row && found == stops[stops.len() - 1]
            }
        }),
{
    let rows = snapshot.rows();
    let wrap = snapshot.wrap_snapshot;
    let row = point.0.row as int;
    let t = text_in(rows, row);
    lemma_text_sides(snapshot, row);
    snapshot.lemma_rows();
    assert(0 <= t < wrap.rows());
    assert(wrap.row_ok(t));
    let stops = wrap.lines@[t].stops@;
    let text = WrapPoint(Point { row: t as u32, column: point.0.column });
    wrap.lemma_clip(text, bias);
    crate::wrap::lemma_last_stop(stops, point.0.column);
    crate::wrap::lemma_first_stop(stops, point.0.column);
    let at = crate::laws::law_text_shown_once(snapshot, t);
    assert(rows[row] == (DisplayRow::Text { row: t }));
    if stops.contains(point.0.column) {
        wrap.lemma_stop_stays(text, bias);
    }
    if clipped.0.row != point.0.row {
        let c = clipped.0.row as int;
        if c < row {
            crate::laws::law_text_in_order(snapshot, c, row);
        } else {
            crate::laws::law_text_in_order(snapshot, row, c);
        }
    }
}

/// The end of the display is the end of its last row: that of the last line of the text, or the
/// empty last line of a block.
pub proof fn law_max_point(snapshot: &BlockSnapshot)
    requires
        snapshot.wf(),
    ensures
        ({
            let rows = snapshot.rows();
            let lines = snapshot.wrap_snapshot.lines@;
            let end = snapshot.max_point_spec();
            &&& end.0.row + 1 == rows.len()
            &&& if rows[rows.len() - 1] is Text {
                &&& rows[rows.len() - 1] == (DisplayRow::Text { row: lines.len() - 1 })
                &&& end.0.column == lines[lines.len() - 1].bytes().len()
            } else {
                end.0.column == 0
            }
        }),
{
    let rows = snapshot.rows();
    let wrap = snapshot.wrap_snapshot;
    let last = rows.len() - 1;
    snapshot.lemma_rows();
    lemma_text_sides(snapshot, last);
    assert(wrap.row_ok(wrap.rows() - 1));
    if rows[last] is Text {
        let at = crate::laws::law_text_shown_once(snapshot, wrap.rows() - 1);
        if at < last {
            crate::laws::law_text_in_order(snapshot, at, last);
        }
    }
}

/// The length of a row is that of its text in bytes; lines of blocks are empty.
pub proof fn law_row_len(snapshot: &BlockSnapshot, row: int)
    requires
        snapshot.wf(),
        0 <= row < snapshot.rows().len(),
    ensures
        snapshot.rows()[row] is Text ==> snapshot.row_len(row)
            == snapshot.wrap_snapshot.lines@[text_in(snapshot.rows(), row)].bytes().len(),
        snapshot.rows()[row] is Block ==> snapshot.row_len(row) == 0,
{
    lemma_text_sides(snapshot, row);
    snapshot.lemma_rows();
    if snapshot.rows()[row] is Text {
        assert(snapshot.wrap_snapshot.row_ok(text_in(snapshot.rows(), row)));
    }
}

/// A point in a row of text stands for the same column of that row. A line of a block above a row
/// stands for the start of that row, which is the nearest text below; a line of a block below a row
/// for the end of that row, which is the nearest text above. A point beyond the display stands for
/// the end of the text.
pub proof fn law_to_wrap_point(snapshot: &BlockSnapshot, point: BlockPoint)
    requires
        snapshot.wf(),
    ensures
        ({
            let rows = snapshot.rows();
            let lines = snapshot.wrap_snapshot.lines@;
            let row = point.0.row as int;
            let found = snapshot.wrap_point_spec(point).0;
            if row >= rows.len() {
                &&& found.row == lines.len() - 1
                &&& found.column == lines[lines.len() - 1].bytes().len()
            } else {
                match rows[row] {
                    DisplayRow::Text { row: t } => found.row == t && found.column
                        == point.0.column,
                    DisplayRow::Block { row: t, block, .. } => {
                        &&& found.row == t
                        &&& match block.disposition_spec() {
                            BlockDisposition::Above => found.column == 0 && exists|at: int|
                                nearest_below(rows, row, at) && (#[trigger] rows[at])
                                    == (DisplayRow::Text { row: t }),
                            BlockDisposition::Below => found.column == lines[t].bytes().len()
                                && exists|at: int|
                                nearest_above(rows, row, at) && (#[trigger] rows[at])
                                    == (DisplayRow::Text { row: t }),
                        }
                    },
                }
            }
        }),
{
    let rows = snapshot.rows();
    let wrap = snapshot.wrap_snapshot;
    let row = point.0.row as int;
    snapshot.lemma_rows();
    assert(wrap.row_ok(wrap.rows() - 1));
    if row < rows.len() {
        lemma_text_sides(snapshot, row);
        if rows[row] is Block {
            let i = lemma_block_line(snapshot, row);
            let (above, below) = lemma_neighbours(snapshot, row);
            let t = rows[row]->Block_row;
            assert(wrap.row_ok(t));
            if rows[row]->block.disposition_spec() is Below {
                assert(rows[above] == (DisplayRow::Text { row: t }));
            } else {
                assert(rows[below] == (DisplayRow::Text { row: t }));
                assert(nearest_below(rows, row, below));
            }
        }
    }
}

/// Points of the text keep their columns on display, and their order.
pub proof fn law_to_block_point(
    snapshot: &BlockSnapshot,
    a: WrapPoint,
    shown_a: BlockPoint,
    b: WrapPoint,
    shown_b: BlockPoint,
)
    requires
        snapshot.wf(),
        snapshot.shows(shown_a, a),
        snapshot.shows(shown_b, b),
    ensures
        shown_a.0.row < snapshot.rows().len(),
        snapshot.rows()[shown_a.0.row as int] == (DisplayRow::Text { row: a.0.row as int }),
        shown_a.0.column == a.0.column,
        a.0.row < b.0.row <==> shown_a.0.row < shown_b.0.row,
        a.0.row == b.0.row <==> shown_a.0.row == shown_b.0.row,
        b.0.row - a.0.row <= shown_b.0.row - shown_a.0.row || b.0.row < a.0.row,
{
    let (p, q) = (shown_a.0.row as int, shown_b.0.row as int);
    if p < q {
        crate::laws::law_text_in_order(snapshot, p, q);
        lemma_texts_within(snapshot.rows(), p, q);
        crate::transforms::lemma_text_at(snapshot.transforms@, p);
        crate::transforms::lemma_text_at(snapshot.transforms@, q);
    } else if q < p {
        crate::laws::law_text_in_order(snapshot, q, p);
    }
}

/// There are no more rows of text between two rows than rows.
proof fn lemma_texts_within(rows: Seq<DisplayRow>, a: int, b: int)
    requires
        0 <= a <= b,
    ensures
        texts_before(rows, b) <= texts_before(rows, a) + (b - a),
    decreases b - a,
{
    if a < b {
        lemma_texts_within(rows, a, b - 1);
    }
}

/// The rows of text before a row are counted: a row of text comes after as many as its number says,
/// a line of a block adds none, and all rows of the text come before the end of the display.
pub proof fn law_texts_before(snapshot: &BlockSnapshot, row: int)
    requires
        snapshot.wf(),
        0 <= row < snapshot.rows().len(),
    ensures
        texts_before(snapshot.rows(), 0) == 0,
        match snapshot.rows()[row] {
            DisplayRow::Text { row: t } => texts_before(snapshot.rows(), row) == t && texts_before(
                snapshot.rows(),
                row + 1,
            ) == t + 1,
            DisplayRow::Block { .. } => texts_before(snapshot.rows(), row + 1) == texts_before(
                snapshot.rows(),
                row,
            ),
        },
        texts_before(snapshot.rows(), snapshot.rows().len() as int)
            == snapshot.wrap_snapshot.lines@.len(),
{
    snapshot.lemma_rows();
    crate::transforms::lemma_text_at(snapshot.transforms@, row);
    crate::transforms::lemma_texts_total(snapshot.transforms@);
}

/// Points are in order by their rows, and within a row by their columns.
pub proof fn law_point_order(a: Point, b: Point)
    ensures
        a.lt(b) <==> a.le(b) && a != b,
        a.row < b.row ==> a.lt(b),
        a.row == b.row ==> (a.lt(b) <==> a.column < b.column),
        a.row > b.row ==> !a.le(b),
        a.le(a),
{
}

/// The extent from one point to a later one leads from the first to the second. There is none from
/// a later point to an earlier one.
pub proof fn law_extent_leads(a: Point, b: Point)
    ensures
        a.le(b) ==> a.plus(b.minus(a)) == b && b.saturating_minus(a) == b.minus(a),
        b.lt(a) ==> b.saturating_minus(a) == (Point { row: 0, column: 0 }),
        a.row == b.row && a.le(b) ==> b.minus(a).row == 0,
        a.row < b.row ==> b.minus(a).row + a.row == b.row,
        a.row == b.row && a.le(b) ==> b.minus(a).column + a.column == b.column,
        a.row < b.row ==> b.minus(a).column == b.column,
{
}

/// The end of a text is the end of its last row. Points beyond it clip to it.
pub proof fn law_wrap_end(wrap: &WrapSnapshot, point: WrapPoint, bias: Bias)
    requires
        wrap.wf(),
    ensures
        wrap.max_point_spec().0.row + 1 == wrap.lines@.len(),
        wrap.max_point_spec().0.column == wrap.lines@[wrap.lines@.len() - 1].bytes().len(),
        point.0.row >= wrap.lines@.len() ==> wrap.clip(point, bias) == wrap.max_point_spec(),
{
    assert(wrap.row_ok(wrap.rows() - 1));
}

/// The rows of a line begin with a row that begins a line and go on with those that continue it, up
/// to the next row that begins one, or to the end.
pub proof fn law_rows_of_line(wrap: &WrapSnapshot, row: int, start: int, end: int)
    requires
        wrap.wf(),
        wrap.is_line_range(row, start, end),
    ensures
        0 <= start <= row < end <= wrap.lines@.len(),
        wrap.lines@[start].line is Some,
        forall|k: int| start < k < end ==> (#[trigger] wrap.lines@[k]).line is None,
        end < wrap.lines@.len() ==> wrap.lines@[end].line is Some,
        wrap.line_start_row(row) == start,
{
    assert forall|k: int| start < k < end implies (#[trigger] wrap.lines@[k]).line is None by {
        assert(wrap.soft(k));
    }
    lemma_start_of_line(wrap, row, start);
}

proof fn lemma_start_of_line(wrap: &WrapSnapshot, row: int, start: int)
    requires
        0 <= start <= row,
        !wrap.soft(start),
        forall|k: int| start < k <= row ==> #[trigger] wrap.soft(k),
    ensures
        wrap.line_start_row(row) == start,
    decreases row - start,
{
    if start < row {
        assert(wrap.soft(row));
        lemma_start_of_line(wrap, row - 1, start);
    }
}

/// A line is shown from the row that shows its start to the row that shows its end; a row that
/// begins a line begins it at its start.
pub proof fn law_line_in_rows(wrap: &WrapSnapshot, line: int, row: int)
    requires
        wrap.wf(),
        0 <= line < wrap.line_rows@.len(),
        0 <= row < wrap.lines@.len(),
    ensures
        wrap.first_row(line) == wrap.line_rows@[line].first,
        wrap.last_row(line) == wrap.line_rows@[line].last,
        wrap.lines@[row].line matches Some(line) ==> wrap.start_of(row) == (Point {
            row: line,
            column: 0,
        }),
        wrap.soft(row) <==> wrap.lines@[row].line is None,
        wrap.is_boundary(row) <==> wrap.lines@[row].line is Some,
        wrap.is_boundary(wrap.lines@.len() as int),
{
}

/// An anchor that a buffer knows has a rank, and the rank has the point where the anchor stands.
pub proof fn law_anchors(buffer: &MultiBufferSnapshot, anchor: Anchor)
    ensures
        buffer.knows(anchor) <==> anchor.0 < buffer.anchor_ranks@.len(),
        buffer.rank(anchor) == buffer.anchor_ranks@[anchor.0 as int],
        buffer.point(anchor) == buffer.ranked_points@[buffer.anchor_ranks@[anchor.0 as int] as int],
{
}

/// The end of a buffer is the end of its last line.
pub proof fn law_buffer_end(buffer: &MultiBufferSnapshot)
    requires
        buffer.wf(),
    ensures
        buffer.max_point_spec().row + 1 == buffer.line_lens@.len(),
        buffer.max_point_spec().column == buffer.line_lens@[buffer.line_lens@.len() - 1],
{
}

/// A search for a row of the text ends at the first transform that ends behind it, or, to the left,
/// at it.
pub proof fn law_seek_input(s: Seq<Transform>, ix: int, target: int, bias: Bias)
    requires
        found_input(s, ix, target, bias),
    ensures
        0 <= ix <= s.len(),
        forall|j: int|
            0 <= j < ix ==> match bias {
                Bias::Left => #[trigger] in_start(s, j + 1) < target,
                Bias::Right => in_start(s, j + 1) <= target,
            },
        ix < s.len() ==> match bias {
            Bias::Left => target <= in_start(s, ix + 1),
            Bias::Right => target < in_start(s, ix + 1),
        },
{
    assert forall|j: int| 0 <= j < ix implies match bias {
        Bias::Left => #[trigger] in_start(s, j + 1) < target,
        Bias::Right => in_start(s, j + 1) <= target,
    } by {
        assert(!stops_at(in_start(s, j + 1), target, bias));
    }
}

/// A search for a row of the display ends at the first transform that ends behind it, or, to the
/// left, at it.
pub proof fn law_seek_output(s: Seq<Transform>, ix: int, target: int, bias: Bias)
    requires
        found_output(s, ix, target, bias),
    ensures
        0 <= ix <= s.len(),
        forall|j: int|
            0 <= j < ix ==> match bias {
                Bias::Left => #[trigger] out_start(s, j + 1) < target,
                Bias::Right => out_start(s, j + 1) <= target,
            },
        ix < s.len() ==> match bias {
            Bias::Left => target <= out_start(s, ix + 1),
            Bias::Right => target < out_start(s, ix + 1),
        },
{
    assert forall|j: int| 0 <= j < ix implies match bias {
        Bias::Left => #[trigger] out_start(s, j + 1) < target,
        Bias::Right => out_start(s, j + 1) <= target,
    } by {
        assert(!stops_at(out_start(s, j + 1), target, bias));
    }
}

} // verus!
