//! What a buffer, a soft-wrapped text and edits have to be to be taken.

use std::sync::Arc;
use vstd::prelude::*;

use crate::block::{Block, CustomBlock};
use crate::buffer::{ExcerptBoundary, MultiBufferSnapshot};
use crate::effects::heights_of;
use crate::layout::{header_entries, layout_fits, shown_boundaries, total_height, HeaderConfig};
use crate::map::{same_last_excerpt, settled_rows, BlockMap};
use crate::patch::{clamped, edits_valid, Edit};
use crate::shown::lines_due;
use crate::snapshot::BlockSnapshot;
use crate::transforms::placed;
use crate::wrap::WrapSnapshot;

verus! {

broadcast use {vstd::seq_lib::group_to_multiset_ensures, vstd::multiset::group_multiset_axioms};

/// The excerpts that begin at two boundaries are different ones, and no two are the last.
pub open spec fn begin_differently(a: ExcerptBoundary, b: ExcerptBoundary) -> bool {
    match (a.next, b.next) {
        (Some(a), Some(b)) => a.id != b.id,
        (None, None) => false,
        _ => true,
    }
}

/// The buffer has a line, its anchors have ranks, the ranks have points in the buffer in order, and
/// its boundaries are in it: each excerpt begins once, and the last ends in the last line.
pub open spec fn parts_fit(buffer: &MultiBufferSnapshot) -> bool {
    let ranks = buffer.anchor_ranks@;
    let points = buffer.ranked_points@;
    let lens = buffer.line_lens@;
    let boundaries = buffer.boundaries@;
    &&& 0 < lens.len() <= u32::MAX
    &&& forall|a: int| 0 <= a < ranks.len() ==> #[trigger] ranks[a] < points.len()
    &&& forall|i: int| 0 <= i < points.len() ==> (#[trigger] points[i]).row < lens.len()
    &&& forall|i: int, j: int|
        0 <= i <= j < points.len() ==> (#[trigger] points[i]).row < (#[trigger] points[j]).row || (
        points[i].row == points[j].row && points[i].column <= points[j].column)
    &&& forall|n: int|
        0 <= n < boundaries.len() ==> (#[trigger] boundaries[n]).row < lens.len() && (
        boundaries[n].next is None ==> boundaries[n].row == lens.len() - 1)
    &&& forall|m: int, n: int|
        0 <= m < n < boundaries.len() ==> begin_differently(
            #[trigger] boundaries[m],
            #[trigger] boundaries[n],
        )
}

/// A buffer is taken if its parts fit together, and only then.
pub proof fn law_buffer_taken(buffer: &MultiBufferSnapshot)
    ensures
        buffer.wf() <==> parts_fit(buffer),
{
    let points = buffer.ranked_points@;
    let lens = buffer.line_lens@;
    let boundaries = buffer.boundaries@;
    if buffer.wf() {
        assert forall|i: int, j: int| 0 <= i <= j < points.len() implies (#[trigger] points[i]).row
            < (#[trigger] points[j]).row || (points[i].row == points[j].row && points[i].column
            <= points[j].column) by {
            assert(points[i].le(points[j]));
        }
        assert forall|n: int| 0 <= n < boundaries.len() implies (#[trigger] boundaries[n]).row
            < lens.len() && (boundaries[n].next is None ==> boundaries[n].row == lens.len()
            - 1) by {
            assert(buffer.boundary_ok(n));
        }
        assert forall|m: int, n: int| 0 <= m < n < boundaries.len() implies begin_differently(
            #[trigger] boundaries[m],
            #[trigger] boundaries[n],
        ) by {
            assert(buffer.boundary_ok(n));
            assert(boundaries[m].next_id() != boundaries[n].next_id());
        }
    }
    if parts_fit(buffer) {
        assert forall|i: int, j: int| 0 <= i <= j < points.len() implies (#[trigger] points[i]).le(
            #[trigger] points[j],
        ) by {
            assert(points[i].row < points[j].row || (points[i].row == points[j].row
                && points[i].column <= points[j].column));
        }
        assert forall|n: int| 0 <= n < boundaries.len() implies #[trigger] buffer.boundary_ok(
            n,
        ) by {
            assert(boundaries[n].row < lens.len());
            assert forall|m: int| 0 <= m < n implies (#[trigger] boundaries[m]).next_id()
                != boundaries[n].next_id() by {
                assert(begin_differently(boundaries[m], boundaries[n]));
            }
        }
    }
}

/// A row of soft-wrapped text is taken if it is one line with places for a cursor in it, in order;
/// if it begins with a line of the buffer that is first shown there or later, and the line before
/// is shown above it, or continues another row and has no number; and if a cursor can stand at its
/// end, where no row continues it.
pub open spec fn row_taken(wrap: &WrapSnapshot, row: int) -> bool {
    let (lines, shown) = (wrap.lines@, wrap.line_rows@);
    let bytes = vstd::utf8::encode_utf8(lines[row].text@);
    let stops = lines[row].stops@;
    &&& bytes.len() <= u32::MAX
    &&& forall|k: int| 0 <= k < bytes.len() ==> #[trigger] bytes[k] != 10u8
    &&& stops.len() > 0
    &&& forall|i: int, j: int|
        0 <= i < j < stops.len() ==> #[trigger] stops[i] < #[trigger] stops[j]
    &&& stops[stops.len() - 1] <= bytes.len()
    &&& match lines[row].line {
        Some(line) => {
            &&& line < shown.len()
            &&& row <= shown[line as int].first
            &&& line > 0 ==> shown[line - 1].last < row
            &&& stops[0] == 0
        },
        None => lines[row].buffer_row is None,
    }
    &&& !(row + 1 < lines.len() && lines[row + 1].line is None) ==> stops[stops.len() - 1]
        == bytes.len()
    &&& lines[row].text@.len() <= lines[wrap.longest_row as int].text@.len()
}

/// A soft-wrapped text is taken if its buffer is, it has rows, the first begins the buffer, the
/// lines of the buffer are shown in rows in order, and each row is taken.
pub proof fn law_wrap_taken(wrap: &WrapSnapshot)
    ensures
        ({
            let (lines, shown) = (wrap.lines@, wrap.line_rows@);
            wrap.wf() <==> {
                &&& wrap.buffer.wf()
                &&& 0 < lines.len() <= u32::MAX
                &&& wrap.longest_row < lines.len()
                &&& lines[0].line == Some(0u32)
                &&& shown.len() == wrap.buffer.line_lens@.len()
                &&& forall|line: int|
                    0 <= line < shown.len() ==> (#[trigger] shown[line]).first <= shown[line].last
                        < lines.len()
                &&& forall|a: int, b: int|
                    0 <= a < b < shown.len() ==> (#[trigger] shown[a]).last <= (
                    #[trigger] shown[b]).first
                &&& forall|row: int| 0 <= row < lines.len() ==> #[trigger] row_taken(wrap, row)
            }
        }),
{
    let lines = wrap.lines@;
    if lines.len() > 0 {
        assert forall|row: int| 0 <= row < lines.len() implies (#[trigger] row_taken(wrap, row)
            <==> wrap.row_ok(row)) by {
            let bytes = vstd::utf8::encode_utf8(lines[row].text@);
            assert(bytes == lines[row].bytes());
            assert(wrap.lines@[row].wf() <==> {
                &&& bytes.len() <= u32::MAX
                &&& forall|k: int| 0 <= k < bytes.len() ==> #[trigger] bytes[k] != 10u8
                &&& lines[row].stops@.len() > 0
                &&& crate::wrap::ascending(lines[row].stops@)
                &&& lines[row].stops@[lines[row].stops@.len() - 1] <= bytes.len()
            });
        }
        if wrap.wf() {
            assert forall|row: int| 0 <= row < lines.len() implies #[trigger] row_taken(
                wrap,
                row,
            ) by {
                assert(wrap.row_ok(row));
            }
        }
        if forall|row: int| 0 <= row < lines.len() ==> #[trigger] row_taken(wrap, row) {
            assert forall|row: int| 0 <= row < wrap.rows() implies #[trigger] wrap.row_ok(row) by {
                assert(row_taken(wrap, row));
            }
        }
    }
}

/// The lines due at all boundaries.
pub open spec fn all_lines_due(headers: HeaderConfig, boundaries: Seq<ExcerptBoundary>) -> int
    decreases boundaries.len(),
{
    if boundaries.len() == 0 {
        0
    } else {
        all_lines_due(headers, boundaries.drop_last()) + lines_due(
            headers,
            boundaries.last().prev,
            boundaries.last().next,
        )
    }
}

proof fn lemma_all_lines_due(
    wrap: &WrapSnapshot,
    headers: HeaderConfig,
    boundaries: Seq<ExcerptBoundary>,
)
    requires
        forall|n: int|
            0 <= n < boundaries.len() ==> lines_due(
                headers,
                (#[trigger] boundaries[n]).prev,
                boundaries[n].next,
            ) <= u32::MAX,
    ensures
        total_height(header_entries(wrap, headers, boundaries)) == all_lines_due(
            headers,
            boundaries,
        ),
    decreases boundaries.len(),
{
    if boundaries.len() > 0 {
        let before = boundaries.drop_last();
        let last = boundaries[boundaries.len() - 1];
        assert forall|n: int| 0 <= n < before.len() implies lines_due(
            headers,
            (#[trigger] before[n]).prev,
            before[n].next,
        ) <= u32::MAX by {
            assert(before[n] == boundaries[n]);
        }
        lemma_all_lines_due(wrap, headers, before);
        crate::shown::law_boundary_height(headers, last);
        let fewer = header_entries(wrap, headers, before);
        let more = header_entries(wrap, headers, boundaries);
        if more.len() > fewer.len() {
            assert(more.drop_last() =~= fewer);
        }
    }
}

/// Text and blocks fit if each boundary has a number of lines, and so have all rows of text, custom
/// blocks and boundaries that are shown, added up.
pub proof fn law_layout_fits(
    wrap: &WrapSnapshot,
    headers: HeaderConfig,
    blocks: Seq<Arc<CustomBlock>>,
)
    requires
        forall|n: int|
            0 <= n < wrap.buffer.boundaries@.len() ==> lines_due(
                headers,
                (#[trigger] wrap.buffer.boundaries@[n]).prev,
                wrap.buffer.boundaries@[n].next,
            ) <= u32::MAX,
        wrap.lines@.len() + heights_of(blocks) + (if wrap.buffer.show_headers {
            all_lines_due(headers, wrap.buffer.boundaries@)
        } else {
            0
        }) <= u32::MAX,
    ensures
        layout_fits(wrap, headers, blocks),
{
    let all = wrap.buffer.boundaries@;
    let shown = shown_boundaries(&*wrap.buffer);
    lemma_all_lines_due(wrap, headers, shown);
    crate::changes::lemma_all_height(wrap, headers, blocks);
    crate::effects::lemma_custom_heights(wrap, blocks);
    assert forall|n: int| 0 <= n < all.len() implies crate::layout::boundary_height(
        headers,
        #[trigger] all[n],
    ) <= u32::MAX by {
        assert(lines_due(headers, all[n].prev, all[n].next) <= u32::MAX);
    }
}

/// A layout has the rows of the text, the lines of the custom blocks, and the lines due at the
/// boundaries if headers are shown, and no others.
pub proof fn law_all_rows(snapshot: &BlockSnapshot)
    requires
        snapshot.wf(),
    ensures
        snapshot.rows().len() == snapshot.wrap_snapshot.lines@.len() + heights_of(
            snapshot.custom_blocks_by_id.0@,
        ) + (if snapshot.wrap_snapshot.buffer.show_headers {
            all_lines_due(snapshot.headers, snapshot.wrap_snapshot.buffer.boundaries@)
        } else {
            0
        }),
{
    let wrap = &snapshot.wrap_snapshot;
    let shown = shown_boundaries(&*wrap.buffer);
    assert forall|n: int| 0 <= n < shown.len() implies lines_due(
        snapshot.headers,
        (#[trigger] shown[n]).prev,
        shown[n].next,
    ) <= u32::MAX by {
        crate::shown::lemma_lines_fit(wrap, snapshot.headers, n);
    }
    lemma_all_lines_due(wrap, snapshot.headers, shown);
    crate::effects::law_rows_by_part(snapshot);
}

/// The rows between edits, and before the first and after the last, are as many in both versions;
/// between two edits there is one at least.
pub open spec fn edits_lead(edits: Seq<Edit>, old_rows: int, new_rows: int) -> bool {
    let last = edits.len() - 1;
    &&& forall|i: int|
        0 <= i < edits.len() ==> (#[trigger] edits[i]).old.start <= edits[i].old.end
            && edits[i].new.start <= edits[i].new.end
    &&& edits.len() > 0 ==> edits[0].old.start == edits[0].new.start
    &&& forall|i: int|
        0 < i < edits.len() ==> (#[trigger] edits[i]).new.start - edits[i - 1].new.end
            == edits[i].old.start - edits[i - 1].old.end && edits[i].new.start > edits[i
            - 1].new.end
    &&& if edits.len() > 0 {
        0 <= new_rows - edits[last].new.end == old_rows - edits[last].old.end
    } else {
        old_rows == new_rows
    }
}

/// The edits begin and end with lines of the text.
pub open spec fn edits_by_lines(edits: Seq<Edit>, wrap: &WrapSnapshot) -> bool {
    forall|i: int|
        0 <= i < edits.len() ==> {
            let (start, end) = ((#[trigger] edits[i]).new.start as int, edits[i].new.end as int);
            &&& start < wrap.lines@.len()
            &&& wrap.lines@[start].line is Some
            &&& end < wrap.lines@.len() ==> wrap.lines@[end].line is Some
        }
}

/// A row after the first `g` edits and before the next comes from the row as far before the next
/// edit, or as far after the last, in the earlier version.
pub open spec fn row_before(edits: Seq<Edit>, g: int, row: int) -> int {
    if g == 0 {
        row
    } else {
        row - edits[g - 1].new.end + edits[g - 1].old.end
    }
}

/// A text can take the place of another if it has the blocks in their order, text and blocks fit,
/// the edits lead to it line by line, and the blocks on rows away from the edits move with their
/// rows. One that replaces nothing at the top may do so where no block stands above the first row.
pub proof fn law_edits_taken(map: &BlockMap, wrap: &WrapSnapshot, edits: Seq<Edit>)
    requires
        map.wf(),
        wrap.wf(),
        layout_fits(wrap, map.headers, map.custom_blocks@),
        forall|i: int|
            0 <= i < map.custom_blocks@.len() ==> (#[trigger] map.custom_blocks@[i]).position.0
                < wrap.buffer.anchor_ranks@.len(),
        forall|i: int, j: int|
            0 <= i <= j < map.custom_blocks@.len() ==> wrap.buffer.anchor_ranks@[(
            #[trigger] map.custom_blocks@[i]).position.0 as int] <= wrap.buffer.anchor_ranks@[(
            #[trigger] map.custom_blocks@[j]).position.0 as int],
        edits_lead(edits, map.wrap_snapshot.lines@.len() as int, wrap.lines@.len() as int),
        edits_by_lines(edits, wrap),
        forall|i: int, k: int|
            0 <= i < edits.len() && 0 <= k < placed(map.transforms@).len() && (
            #[trigger] edits[i]).old.end == 0 ==> (#[trigger] placed(map.transforms@)[k]).0 != 0
                || placed(map.transforms@)[k].1.below(),
        forall|g: int, row: int, block: Block|
            0 <= g <= edits.len() && (g > 0 ==> edits[g - 1].new.end <= row) && (g < edits.len()
                ==> row < edits[g].new.start) && 0 <= row < wrap.lines@.len()
                ==> #[trigger] map.entries(wrap).count((row, block)) == placed(
                map.transforms@,
            ).to_multiset().count((#[trigger] row_before(edits, g, row), block)),
    ensures
        map.follows(wrap, edits),
{
    let (old_rows, new_rows) = (map.wrap_snapshot.rows(), wrap.rows());
    let old = map.entries(&map.wrap_snapshot);
    let new = map.entries(wrap);
    let shown = placed(map.transforms@);
    assert(shown.to_multiset() == old);
    assert(edits_valid(edits, old_rows, new_rows)) by {
        assert forall|i: int| 0 <= i < edits.len() implies #[trigger] crate::patch::edit_follows(
            edits,
            i,
        ) by {
            assert(edits[i].old.start <= edits[i].old.end);
        }
    }
    crate::patch::lemma_valid_clamped(edits, old_rows as u32, new_rows as u32);
    assert(clamped(edits, old_rows as u32, new_rows as u32) == edits);
    assert forall|i: int| 0 <= i < edits.len() implies {
        &&& (#[trigger] edits[i]).new.start < wrap.rows()
        &&& wrap.is_boundary(edits[i].new.start as int)
        &&& wrap.is_boundary(edits[i].new.end as int)
        &&& edits[i].old.end == 0 ==> forall|x: (int, Block)|
            #[trigger] old.count(x) > 0 ==> crate::sync::key(x) != 0
    } by {
        crate::patch::lemma_old_end_bounded(edits, old_rows, new_rows, i + 1);
        if edits[i].old.end == 0 {
            assert forall|x: (int, Block)| #[trigger] old.count(x) > 0 implies crate::sync::key(x)
                != 0 by {
                assert(shown.contains(x));
                let k = shown.index_of(x);
                assert(shown[k].0 != 0 || shown[k].1.below());
            }
        }
    }
    assert forall|row: int, block: Block|
        0 <= row < crate::map::settled_rows(&map.wrap_snapshot, wrap) && crate::patch::source_row(
            edits,
            row,
        ) is Some implies #[trigger] new.count((row, block)) == old.count(
        (crate::patch::source_row(edits, row)->0, block),
    ) by {
        crate::laws::lemma_line_start_row(wrap, new_rows - 1);
        let (inside, g) = crate::patch::lemma_locate(edits, old_rows, new_rows, row);
        if inside {
            assert(crate::patch::changed(edits, row));
        } else {
            crate::patch::lemma_gap_source(edits, old_rows, new_rows, g, row);
            assert(row_before(edits, g, row) == crate::patch::source_row(edits, row)->0);
        }
    }
}

/// Edits tell of all rows, unless the last excerpt was replaced: then of those above the last line.
pub proof fn law_last_excerpt(old: &WrapSnapshot, new: &WrapSnapshot)
    requires
        new.wf(),
    ensures
        ({
            let replaced = old.buffer.trailing_excerpt_update_count
                != new.buffer.trailing_excerpt_update_count;
            let settled = settled_rows(old, new);
            &&& same_last_excerpt(old, new) <==> !replaced
            &&& !replaced ==> settled == new.lines@.len()
            &&& replaced ==> {
                &&& 0 <= settled < new.lines@.len()
                &&& new.lines@[settled].line is Some
                &&& forall|row: int|
                    settled < row < new.lines@.len() ==> (#[trigger] new.lines@[row]).line is None
            }
        }),
{
    lemma_last_line(new, new.rows() - 1);
}

proof fn lemma_last_line(wrap: &WrapSnapshot, row: int)
    requires
        wrap.wf(),
        0 <= row < wrap.rows(),
    ensures
        0 <= wrap.line_start_row(row) <= row,
        wrap.lines@[wrap.line_start_row(row)].line is Some,
        forall|r: int|
            wrap.line_start_row(row) < r <= row ==> (#[trigger] wrap.lines@[r]).line is None,
    decreases row,
{
    if row > 0 && wrap.soft(row) {
        lemma_last_line(wrap, row - 1);
    }
}

/// Clamped edits are the edits, each ended where it ended or where the rows do.
pub proof fn law_clamped(edits: Seq<Edit>, old_rows: u32, new_rows: u32, i: int)
    requires
        0 <= i < edits.len(),
    ensures
        ({
            let (before, after) = (edits[i], clamped(edits, old_rows, new_rows)[i]);
            &&& clamped(edits, old_rows, new_rows).len() == edits.len()
            &&& after.old.start == before.old.start && after.new.start == before.new.start
            &&& before.old.end <= old_rows ==> after.old.end == before.old.end
            &&& before.old.end > old_rows ==> after.old.end == old_rows
            &&& before.new.end <= new_rows ==> after.new.end == before.new.end
            &&& before.new.end > new_rows ==> after.new.end == new_rows
        }),
{
}

} // verus!
