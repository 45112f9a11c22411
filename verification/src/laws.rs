//! What holds of maps and layouts as a whole.

use std::sync::Arc;
use vstd::prelude::*;
use vstd::utf8::{encode_utf8, is_ascii_chars};

use crate::block::{Block, BlockId, BlockLike, CustomBlock};
use crate::buffer::ExcerptBoundary;
use crate::changes::{resized, resized_block, without};
use crate::chunks::repeated;
use crate::layout::{
    all_entries, blocks_resolve, boundary_block, boundary_row, custom_entries, custom_row,
    header_entries, layout_fits, shown_boundaries, total_height, HeaderConfig,
};
use crate::likeness::{boundaries_apart, shows_same};
use crate::map::{earlier_blocks, BlockMap};
use crate::order::block_le;
use crate::patch::{clamped, edits_valid, Edit};
use crate::point::{Bias, BlockPoint, BlockRow, Point, WrapPoint};
use crate::snapshot::{blocks_between, shows_custom, BlockSnapshot};
use crate::text::line_breaks;
use crate::transforms::{
    display, in_order, in_start, input_rows, out_start, output_rows, placed, DisplayRow, Transform,
};
use crate::wrap::WrapSnapshot;

verus! {

broadcast use {vstd::seq_lib::group_to_multiset_ensures, vstd::multiset::group_multiset_axioms};

/// Every row of the text is on display, in exactly one row.
pub proof fn law_text_shown_once(snapshot: &BlockSnapshot, row: int) -> (at: int)
    requires
        snapshot.wf(),
        0 <= row < snapshot.wrap_snapshot.rows(),
    ensures
        0 <= at < snapshot.rows().len(),
        forall|r: int|
            0 <= r < snapshot.rows().len() ==> (#[trigger] snapshot.rows()[r]
                == (DisplayRow::Text { row }) <==> r == at),
{
    let s = snapshot.transforms@;
    snapshot.lemma_rows();
    let i = lemma_run_at(s, row);
    crate::transforms::lemma_step(s, i);
    assert(s[i].ok());
    crate::transforms::lemma_display_at(s, i, row - in_start(s, i));
    let at = out_start(s, i) + (row - in_start(s, i));
    assert forall|r: int| 0 <= r < snapshot.rows().len() implies (#[trigger] snapshot.rows()[r]
        == (DisplayRow::Text { row }) <==> r == at) by {
        if snapshot.rows()[r] == (DisplayRow::Text { row }) {
            crate::transforms::lemma_text_at(s, r);
            crate::transforms::lemma_text_at(s, at);
            if r < at {
                crate::chunks::lemma_texts_ascend(snapshot.rows(), r + 1, at);
            } else if at < r {
                crate::chunks::lemma_texts_ascend(snapshot.rows(), at + 1, r);
            }
        }
    }
    at
}

/// The run of text that a row is in.
proof fn lemma_run_at(s: Seq<Transform>, row: int) -> (i: int)
    requires
        crate::transforms::items_ok(s),
        0 <= row < input_rows(s),
    ensures
        0 <= i < s.len(),
        s[i].block is None,
        in_start(s, i) <= row < in_start(s, i + 1),
    decreases s.len(),
{
    let before = s.drop_last();
    assert(s.take(s.len() - 1) =~= before);
    assert(s.take(s.len() as int) =~= s);
    if row < input_rows(before) {
        assert forall|i: int| 0 <= i < before.len() implies (#[trigger] before[i]).ok() by {
            assert(before[i] == s[i]);
        }
        let i = lemma_run_at(before, row);
        assert(s.take(i) =~= before.take(i));
        assert(s.take(i + 1) =~= before.take(i + 1));
        i
    } else {
        assert(s[s.len() - 1].ok());
        s.len() - 1
    }
}

/// Rows of text are on display in their order.
pub proof fn law_text_in_order(snapshot: &BlockSnapshot, a: int, b: int)
    requires
        snapshot.wf(),
        0 <= a < b < snapshot.rows().len(),
        snapshot.rows()[a] is Text,
        snapshot.rows()[b] is Text,
    ensures
        snapshot.rows()[a]->Text_row < snapshot.rows()[b]->Text_row,
{
    crate::transforms::lemma_text_at(snapshot.transforms@, a);
    crate::transforms::lemma_text_at(snapshot.transforms@, b);
    crate::chunks::lemma_texts_ascend(snapshot.rows(), a + 1, b);
}

/// A point of the text that is taken to the display and back is the same point.
pub proof fn law_wrap_round_trip(
    snapshot: &BlockSnapshot,
    wrap_point: WrapPoint,
    block_point: BlockPoint,
)
    requires
        snapshot.wf(),
        snapshot.shows(block_point, wrap_point),
    ensures
        snapshot.wrap_point_spec(block_point) == wrap_point,
{
}

/// A point in a row of text that is taken to the text and back is the same point.
pub proof fn law_block_round_trip(
    snapshot: &BlockSnapshot,
    block_point: BlockPoint,
    back: BlockPoint,
)
    requires
        snapshot.wf(),
        block_point.0.row < snapshot.rows().len(),
        snapshot.rows()[block_point.0.row as int] is Text,
        snapshot.shows(back, snapshot.wrap_point_spec(block_point)),
    ensures
        back == block_point,
{
    let row = snapshot.rows()[block_point.0.row as int]->Text_row;
    crate::transforms::lemma_text_at(snapshot.transforms@, block_point.0.row as int);
    snapshot.lemma_rows();
    let at = law_text_shown_once(snapshot, row);
}

/// Clipping ends in a row of text, at a place for a cursor.
pub proof fn law_clip_is_stop(snapshot: &BlockSnapshot, point: BlockPoint, bias: Bias)
    requires
        snapshot.wf(),
        point.0.row < snapshot.rows().len(),
    ensures
        snapshot.wrap_snapshot.is_stop(snapshot.clip_source(point, bias)),
{
    let wrap = snapshot.wrap_snapshot;
    let s = snapshot.transforms@;
    let row = point.0.row as int;
    snapshot.lemma_rows();
    crate::transforms::lemma_text_at(s, row);
    match snapshot.rows()[row] {
        DisplayRow::Text { row: text_row } => {
            wrap.lemma_clip(
                WrapPoint(Point { row: text_row as u32, column: point.0.column }),
                bias,
            );
        },
        DisplayRow::Block { row: block_row, block, .. } => {
            let i = crate::transforms::lemma_transform_at(s, row);
            crate::transforms::lemma_step(s, i);
            crate::transforms::lemma_display_at(s, i, row - out_start(s, i));
            snapshot.lemma_block_on_row(i);
            let next_row = if block.below() {
                block_row + 1
            } else {
                block_row
            };
            if (bias is Left && next_row > 0) || next_row == wrap.rows() {
                let last_row = (next_row - 1) as u32;
                wrap.lemma_clip(
                    WrapPoint(Point { row: last_row, column: wrap.line_len_spec(last_row) }),
                    bias,
                );
            } else {
                wrap.lemma_clip(WrapPoint(Point { row: next_row as u32, column: 0 }), bias);
            }
        },
    }
}

/// A clipped point that is taken to the text and back is the same point.
pub proof fn law_clip_round_trip(
    snapshot: &BlockSnapshot,
    point: BlockPoint,
    bias: Bias,
    clipped: BlockPoint,
    back: BlockPoint,
)
    requires
        snapshot.wf(),
        point.0.row < snapshot.rows().len(),
        snapshot.shows(clipped, snapshot.clip_source(point, bias)),
        snapshot.shows(back, snapshot.wrap_point_spec(clipped)),
    ensures
        back == clipped,
{
    law_block_round_trip(snapshot, clipped, back);
}

/// A clipped point stays where it is when it is clipped again, whichever way.
pub proof fn law_clip_twice(
    snapshot: &BlockSnapshot,
    point: BlockPoint,
    bias: Bias,
    clipped: BlockPoint,
    again_bias: Bias,
    again: BlockPoint,
)
    requires
        snapshot.wf(),
        point.0.row < snapshot.rows().len(),
        snapshot.shows(clipped, snapshot.clip_source(point, bias)),
        snapshot.shows(again, snapshot.clip_source(clipped, again_bias)),
    ensures
        again == clipped,
{
    let source = snapshot.clip_source(point, bias);
    law_clip_is_stop(snapshot, point, bias);
    snapshot.wrap_snapshot.lemma_stop_stays(source, again_bias);
    law_block_round_trip(snapshot, clipped, again);
}

/// No row on display is longer, in characters, than the one that shows the longest row of the
/// text.
pub proof fn law_longest_row(snapshot: &BlockSnapshot, longest: int, row: int)
    requires
        snapshot.wf(),
        0 <= longest < snapshot.rows().len(),
        snapshot.rows()[longest] == (DisplayRow::Text {
            row: snapshot.wrap_snapshot.longest_row as int,
        }),
        0 <= row < snapshot.rows().len(),
    ensures
        chars_in(snapshot, row) <= chars_in(snapshot, longest),
{
    crate::transforms::lemma_text_at(snapshot.transforms@, row);
    snapshot.lemma_rows();
    if let DisplayRow::Text { row: text_row } = snapshot.rows()[row] {
        assert(snapshot.wrap_snapshot.row_ok(text_row));
    }
}

/// The characters in a row on display.
pub open spec fn chars_in(snapshot: &BlockSnapshot, row: int) -> nat {
    match snapshot.rows()[row] {
        DisplayRow::Text { row } => snapshot.wrap_snapshot.lines@[row].text@.len(),
        DisplayRow::Block { .. } => 0,
    }
}

/// A layout has as many rows as the text has, and as the blocks have lines.
pub proof fn law_row_count(snapshot: &BlockSnapshot)
    requires
        snapshot.wf(),
    ensures
        snapshot.rows().len() == snapshot.wrap_snapshot.rows() + total_height(
            all_entries(
                &snapshot.wrap_snapshot,
                snapshot.headers,
                snapshot.custom_blocks_by_id.0@,
            ),
        ),
        input_rows(snapshot.transforms@) == snapshot.wrap_snapshot.rows(),
{
    snapshot.lemma_rows();
    crate::layout::lemma_layout_rows(
        snapshot.transforms@,
        &snapshot.wrap_snapshot,
        snapshot.headers,
        snapshot.custom_blocks_by_id.0@,
    );
}

/// The length of a row is the length of its line in the text on display, without the line break.
pub proof fn law_line_len(snapshot: &BlockSnapshot, row: int, max: int)
    requires
        snapshot.wf(),
        0 <= row < max <= snapshot.rows().len(),
    ensures
        snapshot.row_text(row, max).len() == snapshot.row_len(row) + line_breaks(
            snapshot.row_text(row, max),
        ),
{
    crate::transforms::lemma_text_at(snapshot.transforms@, row);
    snapshot.lemma_rows();
    let line = match snapshot.rows()[row] {
        DisplayRow::Text { row: text_row } => {
            assert(snapshot.wrap_snapshot.row_ok(text_row));
            snapshot.wrap_snapshot.lines@[text_row].bytes()
        },
        DisplayRow::Block { .. } => Seq::empty(),
    };
    let ended = row + 1 < max || (row + 1 < snapshot.rows().len() && !snapshot.is_last_text(row));
    crate::chunks::lemma_line_breaks_of(line, ended);
}

/// The text from a row on is the end of the text from an earlier row on.
pub proof fn law_text_suffix(snapshot: &BlockSnapshot, from: int, to: int, max: int)
    requires
        from <= to,
    ensures
        snapshot.text_between(to, max).len() <= snapshot.text_between(from, max).len(),
        snapshot.text_between(from, max).skip(
            snapshot.text_between(from, max).len() - snapshot.text_between(to, max).len(),
        ) == snapshot.text_between(to, max),
    decreases to - from,
{
    let whole = snapshot.text_between(from, max);
    let end = snapshot.text_between(to, max);
    if from < to && from < max {
        law_text_suffix(snapshot, from + 1, to, max);
        let later = snapshot.text_between(from + 1, max);
        assert(whole.skip(whole.len() - end.len()) =~= later.skip(later.len() - end.len()));
    } else {
        assert(whole.skip(whole.len() - end.len()) =~= end);
    }
}

/// The text on display has a line for each row.
pub proof fn law_text_lines(snapshot: &BlockSnapshot, from: int)
    requires
        snapshot.wf(),
        0 <= from < snapshot.rows().len(),
    ensures
        line_breaks(snapshot.text_between(from, snapshot.rows().len() as int))
            == snapshot.rows().len() - from - 1,
    decreases snapshot.rows().len() - from,
{
    let max = snapshot.rows().len() as int;
    crate::transforms::lemma_text_at(snapshot.transforms@, from);
    snapshot.lemma_rows();
    let line = match snapshot.rows()[from] {
        DisplayRow::Text { row: text_row } => {
            assert(snapshot.wrap_snapshot.row_ok(text_row));
            snapshot.wrap_snapshot.lines@[text_row].bytes()
        },
        DisplayRow::Block { .. } => Seq::empty(),
    };
    let ended = from + 1 < max;
    crate::chunks::lemma_line_breaks_of(line, ended);
    assert(line_breaks(snapshot.row_text(from, max)) == if ended {
        1nat
    } else {
        0
    });
    crate::text::lemma_line_breaks_concat(
        snapshot.row_text(from, max),
        snapshot.text_between(from + 1, max),
    );
    if ended {
        law_text_lines(snapshot, from + 1);
    } else {
        assert(snapshot.text_between(from + 1, max) =~= Seq::empty());
    }
}

/// The blocks in all rows are all the blocks, in their order.
pub proof fn law_all_blocks_in_range(snapshot: &BlockSnapshot)
    requires
        snapshot.wf(),
    ensures
        blocks_between(snapshot.transforms@, 0, snapshot.rows().len() as int).len() == placed(
            snapshot.transforms@,
        ).len(),
        forall|k: int|
            0 <= k < placed(snapshot.transforms@).len() ==> (#[trigger] blocks_between(
                snapshot.transforms@,
                0,
                snapshot.rows().len() as int,
            )[k]).1 == placed(snapshot.transforms@)[k].1,
{
    snapshot.lemma_rows();
    lemma_blocks_all(snapshot.transforms@, output_rows(snapshot.transforms@));
}

proof fn lemma_blocks_all(s: Seq<Transform>, to: int)
    requires
        crate::transforms::items_ok(s),
        output_rows(s) <= to,
    ensures
        blocks_between(s, 0, to).len() == placed(s).len(),
        forall|k: int|
            0 <= k < placed(s).len() ==> (#[trigger] blocks_between(s, 0, to)[k]).1 == placed(
                s,
            )[k].1,
    decreases s.len(),
{
    if s.len() > 0 {
        let before = s.drop_last();
        assert forall|i: int| 0 <= i < before.len() implies (#[trigger] before[i]).ok() by {
            assert(before[i] == s[i]);
        }
        lemma_blocks_all(before, to);
        assert(s[s.len() - 1].ok());
        crate::transforms::lemma_whole(before);
        assert forall|k: int| 0 <= k < placed(s).len() implies (#[trigger] blocks_between(
            s,
            0,
            to,
        )[k]).1 == placed(s)[k].1 by {
            if k < placed(before).len() {
                assert(blocks_between(before, 0, to)[k].1 == placed(before)[k].1);
            }
        }
    }
}

/// The blocks on display are all different.
proof fn lemma_entries_distinct(snapshot: &BlockSnapshot)
    requires
        snapshot.wf(),
    ensures
        placed(snapshot.transforms@).no_duplicates(),
{
    let wrap = &snapshot.wrap_snapshot;
    let by_id = snapshot.custom_blocks_by_id.0@;
    let boundaries = shown_boundaries(&*wrap.buffer);
    let customs = custom_entries(wrap, by_id);
    let bounds = header_entries(wrap, snapshot.headers, boundaries);
    assert forall|i: int, j: int| 0 <= i < customs.len() && 0 <= j < customs.len() && i
        != j implies customs[i] != customs[j] by {
        if i < j {
            assert(by_id[i].id.0 < by_id[j].id.0);
        } else {
            assert(by_id[j].id.0 < by_id[i].id.0);
        }
    }
    assert forall|i: int, j: int| 0 <= i < boundaries.len() && 0 <= j < i implies (
    #[trigger] boundaries[i]).next_id() != (#[trigger] boundaries[j]).next_id() by {
        assert(wrap.buffer.boundary_ok(i));
    }
    lemma_headers_distinct(wrap, snapshot.headers, boundaries);
    let all = customs + bounds;
    assert forall|i: int, j: int| 0 <= i < all.len() && 0 <= j < all.len() && i != j implies all[i]
        != all[j] by {
        if i < customs.len() && j < customs.len() {
            assert(customs[i] != customs[j]);
        } else if i >= customs.len() && j >= customs.len() {
            assert(bounds[i - customs.len()] != bounds[j - customs.len()]);
        } else if i < customs.len() {
            let n = crate::layout::lemma_header_source(
                wrap,
                snapshot.headers,
                boundaries,
                j - customs.len(),
            );
        } else {
            let n = crate::layout::lemma_header_source(
                wrap,
                snapshot.headers,
                boundaries,
                i - customs.len(),
            );
        }
    }
    all.lemma_multiset_has_no_duplicates();
    placed(snapshot.transforms@).lemma_multiset_has_no_duplicates_conv();
}

proof fn lemma_headers_distinct(
    wrap: &WrapSnapshot,
    headers: HeaderConfig,
    boundaries: Seq<ExcerptBoundary>,
)
    requires
        forall|i: int, j: int|
            0 <= i < boundaries.len() && 0 <= j < i ==> (#[trigger] boundaries[i]).next_id() != (
            #[trigger] boundaries[j]).next_id(),
    ensures
        header_entries(wrap, headers, boundaries).no_duplicates(),
    decreases boundaries.len(),
{
    if boundaries.len() > 0 {
        let before = boundaries.drop_last();
        let last = boundaries[boundaries.len() - 1];
        assert forall|i: int, j: int| 0 <= i < before.len() && 0 <= j < i implies (
        #[trigger] before[i]).next_id() != (#[trigger] before[j]).next_id() by {
            assert(before[i] == boundaries[i] && before[j] == boundaries[j]);
        }
        lemma_headers_distinct(wrap, headers, before);
        let fewer = header_entries(wrap, headers, before);
        let more = header_entries(wrap, headers, boundaries);
        assert forall|i: int, j: int| 0 <= i < more.len() && 0 <= j < more.len() && i
            != j implies more[i] != more[j] by {
            if i < fewer.len() && j < fewer.len() {
                assert(fewer[i] != fewer[j]);
            } else {
                let k = if i < fewer.len() {
                    i
                } else {
                    j
                };
                let n = crate::layout::lemma_header_source(wrap, headers, before, k);
                assert(more[k] == fewer[k]);
                assert(before[n] == boundaries[n]);
                assert(last.next_id() != boundaries[n].next_id());
                assert(boundary_block(headers, last).id_spec() == BlockId::ExcerptBoundary(
                    last.next_id(),
                ));
                assert(boundary_block(headers, before[n]).id_spec() == BlockId::ExcerptBoundary(
                    before[n].next_id(),
                ));
            }
        }
    }
}

/// No two blocks on display have the same id.
pub proof fn law_ids_distinct(snapshot: &BlockSnapshot, k: int, m: int)
    requires
        snapshot.wf(),
        0 <= k < placed(snapshot.transforms@).len(),
        0 <= m < placed(snapshot.transforms@).len(),
        placed(snapshot.transforms@)[k].1.id_spec() == placed(snapshot.transforms@)[m].1.id_spec(),
    ensures
        k == m,
{
    let shown = placed(snapshot.transforms@);
    let wrap = &snapshot.wrap_snapshot;
    let by_id = snapshot.custom_blocks_by_id.0@;
    let boundaries = wrap.buffer.boundaries@;
    lemma_entries_distinct(snapshot);
    snapshot.lemma_placed_source(k);
    snapshot.lemma_placed_source(m);
    match shown[k].1 {
        Block::Custom(block) => {
            let other = shown[m].1->Custom_0;
            let i = by_id.index_of(block);
            let j = by_id.index_of(other);
            if i < j {
                assert(by_id[i].id.0 < by_id[j].id.0);
            } else if j < i {
                assert(by_id[j].id.0 < by_id[i].id.0);
            }
            lemma_custom_entry(snapshot, k);
            lemma_custom_entry(snapshot, m);
            assert(shown[k] == shown[m]);
        },
        Block::ExcerptBoundary { .. } => {
            let i = choose|n: int|
                0 <= n < boundaries.len() && shown[k] == (
                    boundary_row(wrap, #[trigger] boundaries[n]),
                    boundary_block(snapshot.headers, boundaries[n]),
                );
            let j = choose|n: int|
                0 <= n < boundaries.len() && shown[m] == (
                    boundary_row(wrap, #[trigger] boundaries[n]),
                    boundary_block(snapshot.headers, boundaries[n]),
                );
            assert(shown[k].1.id_spec() == BlockId::ExcerptBoundary(boundaries[i].next_id()));
            assert(shown[m].1.id_spec() == BlockId::ExcerptBoundary(boundaries[j].next_id()));
            assert(wrap.buffer.boundary_ok(i));
            assert(wrap.buffer.boundary_ok(j));
            assert(i == j);
            assert(shown[k] == shown[m]);
        },
    }
}

/// A custom block on display is on its row.
pub(crate) proof fn lemma_custom_entry(snapshot: &BlockSnapshot, k: int)
    requires
        snapshot.wf(),
        0 <= k < placed(snapshot.transforms@).len(),
        placed(snapshot.transforms@)[k].1 is Custom,
    ensures
        placed(snapshot.transforms@)[k].0 == custom_row(
            &snapshot.wrap_snapshot,
            &*placed(snapshot.transforms@)[k].1->Custom_0,
        ),
{
    let wrap = &snapshot.wrap_snapshot;
    let by_id = snapshot.custom_blocks_by_id.0@;
    let x = placed(snapshot.transforms@)[k];
    let customs = custom_entries(wrap, by_id);
    let bounds = header_entries(wrap, snapshot.headers, shown_boundaries(&*wrap.buffer));
    assert(placed(snapshot.transforms@).contains(x));
    assert(placed(snapshot.transforms@).to_multiset().count(x) > 0);
    assert((customs + bounds).contains(x));
    let m = (customs + bounds).index_of(x);
    if m < customs.len() {
        assert(customs[m] == x);
    } else {
        let n = crate::layout::lemma_header_source(
            wrap,
            snapshot.headers,
            shown_boundaries(&*wrap.buffer),
            m - customs.len(),
        );
        assert(bounds[m - customs.len()] == x);
    }
}

/// Each custom block is on display exactly once: above the first row of its line, or below the
/// last one.
pub proof fn law_custom_block_shown_once(snapshot: &BlockSnapshot, n: int) -> (at: int)
    requires
        snapshot.wf(),
        0 <= n < snapshot.custom_blocks_by_id.0@.len(),
    ensures
        0 <= at < snapshot.transforms@.len(),
        snapshot.transforms@[at].block == Some(
            Block::Custom(snapshot.custom_blocks_by_id.0@[n]),
        ),
        in_start(snapshot.transforms@, at) == custom_row(
            &snapshot.wrap_snapshot,
            &*snapshot.custom_blocks_by_id.0@[n],
        ) + (if snapshot.custom_blocks_by_id.0@[n].disposition is Below {
            1int
        } else {
            0
        }),
        forall|i: int|
            #[trigger] shows_custom(
                snapshot.transforms@,
                i,
                snapshot.custom_blocks_by_id.0@[n].id,
            ) <==> i == at,
{
    let s = snapshot.transforms@;
    let id = snapshot.custom_blocks_by_id.0@[n].id;
    let at = snapshot.lemma_custom_shown(n);
    crate::transforms::lemma_placed_at(s, at);
    assert forall|i: int| #[trigger] shows_custom(s, i, id) <==> i == at by {
        if shows_custom(s, i, id) && i != at {
            crate::transforms::lemma_placed_at(s, i);
            let (k, m) = (placed(s.take(i)).len() as int, placed(s.take(at)).len() as int);
            law_ids_distinct(snapshot, k, m);
            if i < at {
                crate::transforms::lemma_step(s, i);
                crate::transforms::lemma_monotone(s, i + 1, at);
            } else {
                crate::transforms::lemma_step(s, at);
                crate::transforms::lemma_monotone(s, at + 1, i);
            }
        }
    }
    at
}

/// On one side of a row, excerpt headers and footers come before custom blocks.
pub proof fn law_headers_first(snapshot: &BlockSnapshot, i: int, j: int)
    requires
        snapshot.wf(),
        0 <= i < placed(snapshot.transforms@).len(),
        0 <= j < placed(snapshot.transforms@).len(),
        placed(snapshot.transforms@)[i].0 == placed(snapshot.transforms@)[j].0,
        placed(snapshot.transforms@)[i].1.disposition_spec() == placed(
            snapshot.transforms@,
        )[j].1.disposition_spec(),
        placed(snapshot.transforms@)[i].1 is ExcerptBoundary,
        placed(snapshot.transforms@)[j].1 is Custom,
    ensures
        i < j,
{
    let shown = placed(snapshot.transforms@);
    if j < i {
        assert(block_le(shown[j].0, shown[j].1, shown[i].0, shown[i].1));
    }
}

/// On one side of a row, a custom block with a higher priority comes first; among equals, the
/// older one does.
pub proof fn law_custom_order(snapshot: &BlockSnapshot, i: int, j: int)
    requires
        snapshot.wf(),
        0 <= i < j < placed(snapshot.transforms@).len(),
        placed(snapshot.transforms@)[i].0 == placed(snapshot.transforms@)[j].0,
        placed(snapshot.transforms@)[i].1.disposition_spec() == placed(
            snapshot.transforms@,
        )[j].1.disposition_spec(),
        placed(snapshot.transforms@)[i].1 is Custom,
        placed(snapshot.transforms@)[j].1 is Custom,
    ensures
        ({
            let a = placed(snapshot.transforms@)[i].1->Custom_0;
            let b = placed(snapshot.transforms@)[j].1->Custom_0;
            a.priority > b.priority || (a.priority == b.priority && a.id.0 < b.id.0)
        }),
{
    let shown = placed(snapshot.transforms@);
    assert(block_le(shown[i].0, shown[i].1, shown[j].0, shown[j].1));
    let a = shown[i].1->Custom_0;
    let b = shown[j].1->Custom_0;
    if a.id == b.id {
        law_ids_distinct(snapshot, i, j);
    }
}

/// Blocks in order that are the same, in either order, are in the same order, unless two different
/// ones may come in either order.
pub(crate) proof fn lemma_order_unique(a: Seq<(int, Block)>, b: Seq<(int, Block)>)
    requires
        in_order(a),
        in_order(b),
        a.to_multiset() == b.to_multiset(),
        forall|i: int, j: int|
            0 <= i < a.len() && 0 <= j < a.len() && block_le(
                (#[trigger] a[i]).0,
                a[i].1,
                (#[trigger] a[j]).0,
                a[j].1,
            ) && block_le(a[j].0, a[j].1, a[i].0, a[i].1) ==> a[i] == a[j],
    ensures
        a == b,
    decreases a.len(),
{
    assert(a.len() == a.to_multiset().len());
    assert(b.len() == b.to_multiset().len());
    if a.len() > 0 {
        let x = a.last();
        let y = b.last();
        assert(a.contains(x));
        assert(a.to_multiset().count(x) > 0);
        assert(b.contains(x));
        assert(b.contains(y));
        assert(b.to_multiset().count(y) > 0);
        assert(a.contains(y));
        let i = a.index_of(y);
        let j = b.index_of(x);
        assert(block_le(a[i].0, a[i].1, a[a.len() - 1].0, a[a.len() - 1].1));
        assert(block_le(b[j].0, b[j].1, b[b.len() - 1].0, b[b.len() - 1].1));
        assert(x == y);
        let fewer_a = a.drop_last();
        let fewer_b = b.drop_last();
        assert(fewer_a =~= a.remove(a.len() - 1));
        assert(fewer_b =~= b.remove(b.len() - 1));
        assert(fewer_a.to_multiset() =~= a.to_multiset().remove(x));
        assert(fewer_b.to_multiset() =~= b.to_multiset().remove(x));
        assert forall|m: int, n: int|
            0 <= m < fewer_a.len() && 0 <= n < fewer_a.len() && block_le(
                (#[trigger] fewer_a[m]).0,
                fewer_a[m].1,
                (#[trigger] fewer_a[n]).0,
                fewer_a[n].1,
            ) && block_le(
                fewer_a[n].0,
                fewer_a[n].1,
                fewer_a[m].0,
                fewer_a[m].1,
            ) implies fewer_a[m] == fewer_a[n] by {
            assert(fewer_a[m] == a[m] && fewer_a[n] == a[n]);
        }
        assert(in_order(fewer_a)) by {
            lemma_in_order_prefix(a);
        }
        assert(in_order(fewer_b)) by {
            lemma_in_order_prefix(b);
        }
        lemma_order_unique(fewer_a, fewer_b);
        assert(a =~= fewer_a.push(x));
        assert(b =~= fewer_b.push(x));
    } else {
        assert(a =~= b);
    }
}

proof fn lemma_in_order_prefix(a: Seq<(int, Block)>)
    requires
        in_order(a),
        a.len() > 0,
    ensures
        in_order(a.drop_last()),
{
    let fewer = a.drop_last();
    assert forall|i: int| 0 <= i < fewer.len() implies (#[trigger] fewer[i]).0 >= 0 by {
        assert(fewer[i] == a[i]);
    }
    assert forall|i: int, j: int| 0 <= i <= j < fewer.len() implies block_le(
        (#[trigger] fewer[i]).0,
        fewer[i].1,
        (#[trigger] fewer[j]).0,
        fewer[j].1,
    ) by {
        assert(fewer[i] == a[i] && fewer[j] == a[j]);
        assert(block_le(a[i].0, a[i].1, a[j].0, a[j].1));
    }
}

/// Rows `from..to` of the text.
pub open spec fn text_rows(from: int, to: int) -> Seq<DisplayRow> {
    Seq::new((to - from) as nat, |i: int| DisplayRow::Text { row: from + i })
}

/// The lines of a block that belongs to `row`.
pub open spec fn block_lines(row: int, block: Block) -> Seq<DisplayRow> {
    Seq::new(
        block.height_spec() as nat,
        |line: int| DisplayRow::Block { row, block, line },
    )
}

/// The rows of the text that come before a block that belongs to `row`.
pub open spec fn rows_before(row: int, block: Block) -> int {
    if block.below() {
        row + 1
    } else {
        row
    }
}

/// A text of `rows` rows with blocks in order: each block after the rows that come before it.
pub open spec fn interleaved(blocks: Seq<(int, Block)>, rows: int) -> Seq<DisplayRow>
    decreases blocks.len(),
{
    if blocks.len() == 0 {
        text_rows(0, rows)
    } else {
        let (row, block) = blocks.last();
        interleaved(blocks.drop_last(), rows_before(row, block)) + block_lines(row, block)
            + text_rows(rows_before(row, block), rows)
    }
}

/// The display is the text interleaved with the blocks.
pub proof fn law_rows_interleave(snapshot: &BlockSnapshot)
    requires
        snapshot.wf(),
    ensures
        snapshot.rows() == interleaved(
            placed(snapshot.transforms@),
            snapshot.wrap_snapshot.rows(),
        ),
{
    lemma_display_interleaved(snapshot.transforms@);
}

pub(crate) proof fn lemma_display_interleaved(s: Seq<Transform>)
    requires
        crate::transforms::items_ok(s),
    ensures
        display(s) == interleaved(placed(s), input_rows(s)),
        placed(s).len() > 0 ==> rows_before(placed(s).last().0, placed(s).last().1) <= input_rows(
            s,
        ),
    decreases s.len(),
{
    if s.len() == 0 {
        assert(display(s) =~= interleaved(placed(s), input_rows(s)));
    } else {
        let before = s.drop_last();
        let last = s[s.len() - 1];
        assert forall|i: int| 0 <= i < before.len() implies (#[trigger] before[i]).ok() by {
            assert(before[i] == s[i]);
        }
        lemma_display_interleaved(before);
        crate::transforms::lemma_whole(before);
        assert(last.ok());
        let rows = input_rows(before);
        match last.block {
            Some(block) => {
                assert(placed(s).drop_last() =~= placed(before));
                assert(display(s) =~= interleaved(placed(s), input_rows(s)));
            },
            None => {
                let n = last.summary.input_rows as int;
                if placed(before).len() == 0 {
                    assert(text_rows(0, rows + n) =~= text_rows(0, rows) + text_rows(
                        rows,
                        rows + n,
                    ));
                } else {
                    let (row, block) = placed(before).last();
                    let from = rows_before(row, block);
                    assert(text_rows(from, rows + n) =~= text_rows(from, rows) + text_rows(
                        rows,
                        rows + n,
                    ));
                }
                assert(display(s) =~= display(before) + text_rows(rows, rows + n));
                assert(display(s) =~= interleaved(placed(s), input_rows(s)));
            },
        }
    }
}

/// A layout depends on the text, the header heights and the blocks alone, not on the edits by which
/// it came about. Two boundaries on one side of one row may come in either order, so boundaries
/// have to be apart.
pub proof fn law_layout_is_unique(a: &BlockSnapshot, b: &BlockSnapshot)
    requires
        a.wf(),
        b.wf(),
        a.wrap_snapshot == b.wrap_snapshot,
        a.headers == b.headers,
        a.custom_blocks_by_id.0@ == b.custom_blocks_by_id.0@,
        boundaries_apart(&a.wrap_snapshot, a.headers),
    ensures
        shows_same(a, b),
{
    let shown = placed(a.transforms@);
    assert forall|i: int, j: int|
        0 <= i < shown.len() && 0 <= j < shown.len() && block_le(
            (#[trigger] shown[i]).0,
            shown[i].1,
            (#[trigger] shown[j]).0,
            shown[j].1,
        ) && block_le(shown[j].0, shown[j].1, shown[i].0, shown[i].1) implies shown[i]
        == shown[j] by {
        crate::likeness::lemma_order_strict(a, i, j);
    }
    lemma_order_unique(shown, placed(b.transforms@));
    crate::likeness::lemma_shows_same(a, b);
}

/// Layouts of the same text by the same transforms show the same, as those do that are read one
/// after the other without edits between.
pub proof fn law_same_transforms(a: &BlockSnapshot, b: &BlockSnapshot)
    requires
        a.wf(),
        a.wrap_snapshot == b.wrap_snapshot,
        a.transforms@ == b.transforms@,
    ensures
        shows_same(a, b),
{
    crate::likeness::lemma_shows_same(a, b);
}

/// A row of text has the number that the text has for it; a row that continues another has none,
/// nor does a line of a block.
pub proof fn law_row_numbers(snapshot: &BlockSnapshot, row: int)
    requires
        snapshot.wf(),
        0 <= row < snapshot.rows().len(),
    ensures
        match snapshot.rows()[row] {
            DisplayRow::Text { row: text_row } => snapshot.row_number(row)
                == match snapshot.wrap_snapshot.lines@[text_row].buffer_row {
                Some(number) => Some(BlockRow(number)),
                None => None,
            } && (snapshot.wrap_snapshot.soft(text_row) ==> snapshot.row_number(row) is None),
            DisplayRow::Block { .. } => snapshot.row_number(row) is None,
        },
{
    crate::transforms::lemma_text_at(snapshot.transforms@, row);
    snapshot.lemma_rows();
    if let DisplayRow::Text { row: text_row } = snapshot.rows()[row] {
        assert(snapshot.wrap_snapshot.row_ok(text_row));
    }
}

/// Without the lines of blocks, the display is the text.
pub proof fn law_text_kept(snapshot: &BlockSnapshot)
    requires
        snapshot.wf(),
    ensures
        snapshot.rows().filter(|row: DisplayRow| row is Text) == text_rows(
            0,
            snapshot.wrap_snapshot.rows(),
        ),
{
    lemma_texts_filtered(snapshot.transforms@);
}

proof fn lemma_texts_filtered(s: Seq<Transform>)
    requires
        crate::transforms::items_ok(s),
    ensures
        display(s).filter(|row: DisplayRow| row is Text) == text_rows(0, input_rows(s)),
    decreases s.len(),
{
    let is_text = |row: DisplayRow| row is Text;
    if s.len() == 0 {
        reveal(Seq::filter);
        assert(display(s).filter(is_text) =~= text_rows(0, input_rows(s)));
    } else {
        let before = s.drop_last();
        assert forall|i: int| 0 <= i < before.len() implies (#[trigger] before[i]).ok() by {
            assert(before[i] == s[i]);
        }
        lemma_texts_filtered(before);
        crate::transforms::lemma_whole(before);
        assert(s[s.len() - 1].ok());
        let last = crate::transforms::shown(s.last(), input_rows(before));
        Seq::filter_distributes_over_add(display(before), last, is_text);
        lemma_filter_uniform(last, is_text, s.last().block is None);
        assert(display(s).filter(is_text) =~= text_rows(0, input_rows(s)));
    }
}

/// Where all items meet a test, or none does, all are kept, or none.
proof fn lemma_filter_uniform(
    rows: Seq<DisplayRow>,
    test: spec_fn(DisplayRow) -> bool,
    kept: bool,
)
    requires
        forall|i: int| 0 <= i < rows.len() ==> test(#[trigger] rows[i]) == kept,
    ensures
        rows.filter(test) == if kept {
            rows
        } else {
            Seq::empty()
        },
    decreases rows.len(),
{
    reveal(Seq::filter);
    if rows.len() > 0 {
        let before = rows.drop_last();
        assert forall|i: int| 0 <= i < before.len() implies test(#[trigger] before[i])
            == kept by {
            assert(before[i] == rows[i]);
        }
        lemma_filter_uniform(before, test, kept);
        assert(test(rows[rows.len() - 1]) == kept);
        assert(rows =~= before.push(rows.last()));
    } else {
        assert(rows =~= Seq::empty());
    }
}

/// Taking out the blocks that were just put in leaves the blocks that were there before.
pub proof fn law_remove_undoes_insert(
    before: Seq<Arc<CustomBlock>>,
    after: Seq<Arc<CustomBlock>>,
    first_id: usize,
    next_id: usize,
    ids: Set<usize>,
)
    requires
        earlier_blocks(after, first_id) == before,
        forall|i: int| 0 <= i < after.len() ==> (#[trigger] after[i]).id.0 < next_id,
        forall|id: usize| #[trigger] ids.contains(id) <==> first_id <= id < next_id,
    ensures
        without(after, ids) == before,
{
    lemma_filters_agree(
        after,
        |block: Arc<CustomBlock>| block.id.0 < first_id,
        |block: Arc<CustomBlock>| !ids.contains(block.id.0),
    );
}

proof fn lemma_filters_agree(
    blocks: Seq<Arc<CustomBlock>>,
    a: spec_fn(Arc<CustomBlock>) -> bool,
    b: spec_fn(Arc<CustomBlock>) -> bool,
)
    requires
        forall|i: int| 0 <= i < blocks.len() ==> a(#[trigger] blocks[i]) == b(blocks[i]),
    ensures
        blocks.filter(a) == blocks.filter(b),
    decreases blocks.len(),
{
    reveal(Seq::filter);
    if blocks.len() > 0 {
        let before = blocks.drop_last();
        assert forall|i: int| 0 <= i < before.len() implies a(#[trigger] before[i]) == b(
            before[i],
        ) by {
            assert(before[i] == blocks[i]);
        }
        lemma_filters_agree(before, a, b);
        assert(a(blocks[blocks.len() - 1]) == b(blocks[blocks.len() - 1]));
    }
}

/// A map can always be read again as it is.
pub proof fn law_unchanged_follows(map: &BlockMap)
    requires
        map.wf(),
    ensures
        map.follows(&map.wrap_snapshot, Seq::empty()),
{
    let none = Seq::<Edit>::empty();
    let rows = map.wrap_snapshot.rows() as u32;
    assert(clamped(none, rows, rows) =~= none);
    assert(edits_valid(none, rows as int, rows as int));
    let entries = map.entries(&map.wrap_snapshot);
    assert forall|row: int, block: Block|
        0 <= row < rows && crate::patch::source_row(none, row) is Some implies (
    #[trigger] entries.count((row, block))) == entries.count(
        (crate::patch::source_row(none, row)->0, block),
    ) by {
        assert(crate::patch::source_row(none, row) == Some(row));
    }
}

/// One edit of all rows leads from any text to any other that the blocks are in.
pub proof fn law_full_edit_follows(map: &BlockMap, wrap: &WrapSnapshot, edit: Edit)
    requires
        map.wf(),
        wrap.wf(),
        blocks_resolve(&*wrap.buffer, map.custom_blocks@),
        layout_fits(wrap, map.headers, map.custom_blocks@),
        edit.old.start == 0,
        edit.old.end == map.wrap_snapshot.rows(),
        edit.new.start == 0,
        edit.new.end == wrap.rows(),
    ensures
        map.follows(wrap, seq![edit]),
{
    let edits = seq![edit];
    let (old_rows, new_rows) = (map.wrap_snapshot.rows(), wrap.rows());
    assert(crate::patch::edit_follows(edits, 0));
    assert(edits_valid(edits, old_rows, new_rows));
    crate::patch::lemma_valid_clamped(edits, old_rows as u32, new_rows as u32);
    assert forall|row: int| 0 <= row < new_rows implies crate::patch::changed(edits, row) by {
        assert(edits[0].new.start <= row < edits[0].new.end);
    }
    lemma_line_start_row(wrap, new_rows - 1);
}

pub(crate) proof fn lemma_line_start_row(wrap: &WrapSnapshot, row: int)
    requires
        row >= 0,
    ensures
        0 <= wrap.line_start_row(row) <= row,
    decreases row,
{
    if row > 0 && wrap.soft(row) {
        lemma_line_start_row(wrap, row - 1);
    }
}

/// Blocks that are resized and then given their heights back are as they were.
pub proof fn law_resize_undone(
    blocks: Seq<Arc<CustomBlock>>,
    heights: Map<usize, u32>,
    before: Map<usize, u32>,
)
    requires
        forall|i: int|
            0 <= i < blocks.len() && heights.contains_key((#[trigger] blocks[i]).id.0)
                ==> before.contains_key(blocks[i].id.0),
        forall|i: int|
            0 <= i < blocks.len() && before.contains_key((#[trigger] blocks[i]).id.0)
                ==> before[blocks[i].id.0] == blocks[i].height,
    ensures
        resized(resized(blocks, heights), before) == blocks,
{
    let back = resized(resized(blocks, heights), before);
    assert forall|i: int| 0 <= i < blocks.len() implies #[trigger] back[i] == blocks[i] by {
        assert(resized(blocks, heights)[i] == resized_block(blocks[i], heights));
        assert(back[i] == resized_block(resized(blocks, heights)[i], before));
    }
    assert(back =~= blocks);
}

/// Masked text without characters outside ASCII has as many bytes as the text.
pub proof fn law_masked_len(text: Seq<char>)
    requires
        is_ascii_chars(text),
    ensures
        encode_utf8(repeated('*', text.len())).len() == encode_utf8(text).len(),
{
    vstd::utf8::is_ascii_chars_encode_utf8(text);
    vstd::utf8::is_ascii_chars_encode_utf8(repeated('*', text.len()));
}

} // verus!
