//! When two layouts show the same.

use std::sync::Arc;
use vstd::prelude::*;

use crate::block::{Block, BlockLike, CustomBlock};
use crate::layout::{
    all_entries, custom_entries, custom_row, header_entries, shown_boundaries, total_height,
    HeaderConfig,
};
use crate::laws::{block_lines, interleaved, rows_before, text_rows};
use crate::order::block_le;
use crate::snapshot::{blocks_between, touches_rows, BlockSnapshot};
use crate::transforms::{in_order, input_rows, items_ok, placed, DisplayRow, Transform};
use crate::wrap::WrapSnapshot;

verus! {

broadcast use {vstd::seq_lib::group_to_multiset_ensures, vstd::multiset::group_multiset_axioms};

/// No two headers or footers stand on the same side of the same row, where they could come in
/// either order.
pub open spec fn boundaries_apart(wrap: &WrapSnapshot, headers: HeaderConfig) -> bool {
    let entries = header_entries(wrap, headers, shown_boundaries(&*wrap.buffer));
    forall|i: int, j: int|
        0 <= i < j < entries.len() ==> (#[trigger] entries[i]).0 != (#[trigger] entries[j]).0
            || entries[i].1.disposition_spec() != entries[j].1.disposition_spec()
}

/// The layouts show the same: the same rows, and so the same text and the same numbers beside it,
/// and the same blocks from the same rows on, those without lines among them.
pub open spec fn shows_same(a: &BlockSnapshot, b: &BlockSnapshot) -> bool {
    &&& a.rows() == b.rows()
    &&& placed(a.transforms@) == placed(b.transforms@)
    &&& forall|from: int, to: int| #[trigger]
        blocks_between(a.transforms@, from, to) == blocks_between(b.transforms@, from, to)
    &&& forall|from: int, to: int| #[trigger] a.text_between(from, to) == b.text_between(from, to)
    &&& forall|row: int| #[trigger] a.row_number(row) == b.row_number(row)
}

/// Blocks that differ in no more than their anchors and callbacks.
pub open spec fn alike(a: Block, b: Block) -> bool {
    match (a, b) {
        (Block::Custom(a), Block::Custom(b)) => custom_alike(&*a, &*b),
        (Block::ExcerptBoundary { .. }, Block::ExcerptBoundary { .. }) => a == b,
        _ => false,
    }
}

pub open spec fn custom_alike(a: &CustomBlock, b: &CustomBlock) -> bool {
    &&& a.id == b.id
    &&& a.height == b.height
    &&& a.style == b.style
    &&& a.disposition == b.disposition
    &&& a.priority == b.priority
}

/// Blocks that are alike, each with the same row.
pub open spec fn all_alike(a: Seq<(int, Block)>, b: Seq<(int, Block)>) -> bool {
    &&& a.len() == b.len()
    &&& forall|i: int|
        0 <= i < a.len() ==> (#[trigger] a[i]).0 == b[i].0 && alike(a[i].1, b[i].1)
}

/// The same row of text, or the same lines of blocks that are alike.
pub open spec fn row_alike(a: DisplayRow, b: DisplayRow) -> bool {
    match (a, b) {
        (DisplayRow::Text { row: a }, DisplayRow::Text { row: b }) => a == b,
        (
            DisplayRow::Block { row: row_a, block: a, line: line_a },
            DisplayRow::Block { row: row_b, block: b, line: line_b },
        ) => row_a == row_b && line_a == line_b && alike(a, b),
        _ => false,
    }
}

pub open spec fn rows_alike(a: Seq<DisplayRow>, b: Seq<DisplayRow>) -> bool {
    &&& a.len() == b.len()
    &&& forall|row: int| 0 <= row < a.len() ==> row_alike(#[trigger] a[row], b[row])
}

/// The layouts show the same but for the anchors and callbacks of their blocks: the same text, the
/// same numbers beside it, and blocks with the same ids from the same rows on.
pub open spec fn shows_alike(a: &BlockSnapshot, b: &BlockSnapshot) -> bool {
    &&& rows_alike(a.rows(), b.rows())
    &&& all_alike(placed(a.transforms@), placed(b.transforms@))
    &&& forall|from: int, to: int|
        all_alike(
            #[trigger] blocks_between(a.transforms@, from, to),
            blocks_between(b.transforms@, from, to),
        )
    &&& forall|from: int, to: int|
        0 <= from <= to <= a.rows().len() ==> #[trigger] a.text_between(from, to)
            == b.text_between(from, to)
    &&& forall|row: int|
        0 <= row < a.rows().len() ==> #[trigger] a.row_number(row) == b.row_number(row)
}

/// The blocks in order that have lines in rows `from..to` of the display, each with the row it
/// begins at: after the text that comes before it and the lines of the blocks before it.
spec fn starts_between(blocks: Seq<(int, Block)>, from: int, to: int) -> Seq<(int, Block)>
    decreases blocks.len(),
{
    if blocks.len() == 0 {
        Seq::empty()
    } else {
        let before = starts_between(blocks.drop_last(), from, to);
        let (row, block) = blocks.last();
        let start = rows_before(row, block) + total_height(blocks.drop_last());
        if touches_rows(start, block.height_spec(), from, to) {
            before.push((start, block))
        } else {
            before
        }
    }
}

proof fn lemma_starts(s: Seq<Transform>, from: int, to: int)
    requires
        items_ok(s),
    ensures
        blocks_between(s, from, to) == starts_between(placed(s), from, to),
    decreases s.len(),
{
    if s.len() > 0 {
        let before = s.drop_last();
        assert forall|i: int| 0 <= i < before.len() implies (#[trigger] before[i]).ok() by {
            assert(before[i] == s[i]);
        }
        lemma_starts(before, from, to);
        crate::layout::lemma_output_rows(before);
        if s.last().block is Some {
            assert(placed(s).drop_last() =~= placed(before));
        }
    }
}

/// Rows that are alike hold the same text.
proof fn lemma_text_alike(a: &BlockSnapshot, b: &BlockSnapshot, from: int, to: int)
    requires
        a.wrap_snapshot == b.wrap_snapshot,
        a.rows() == b.rows() || (rows_alike(a.rows(), b.rows()) && 0 <= from && to
            <= a.rows().len()),
    ensures
        a.text_between(from, to) == b.text_between(from, to),
    decreases to - from,
{
    if from < to {
        lemma_text_alike(a, b, from + 1, to);
        if a.rows() != b.rows() {
            assert(row_alike(a.rows()[from], b.rows()[from]));
        }
        assert(a.row_text(from, to) == b.row_text(from, to));
    }
}

/// The rows of the text and the blocks in their order make up what a layout shows.
pub proof fn lemma_shows_same(a: &BlockSnapshot, b: &BlockSnapshot)
    requires
        items_ok(a.transforms@),
        items_ok(b.transforms@),
        a.wrap_snapshot == b.wrap_snapshot,
        placed(a.transforms@) == placed(b.transforms@),
        input_rows(a.transforms@) == input_rows(b.transforms@),
    ensures
        shows_same(a, b),
{
    crate::laws::lemma_display_interleaved(a.transforms@);
    crate::laws::lemma_display_interleaved(b.transforms@);
    assert forall|from: int, to: int| #[trigger]
        blocks_between(a.transforms@, from, to) == blocks_between(b.transforms@, from, to) by {
        lemma_starts(a.transforms@, from, to);
        lemma_starts(b.transforms@, from, to);
    }
    assert forall|from: int, to: int| #[trigger]
        a.text_between(from, to) == b.text_between(from, to) by {
        lemma_text_alike(a, b, from, to);
    }
}

/// Blocks in either order that a layout may have are the same block, where boundaries are apart.
pub(crate) proof fn lemma_order_strict(snapshot: &BlockSnapshot, i: int, j: int)
    requires
        snapshot.wf(),
        boundaries_apart(&snapshot.wrap_snapshot, snapshot.headers),
        0 <= i < placed(snapshot.transforms@).len(),
        0 <= j < placed(snapshot.transforms@).len(),
        ({
            let (row_i, block_i) = placed(snapshot.transforms@)[i];
            let (row_j, block_j) = placed(snapshot.transforms@)[j];
            block_le(row_i, block_i, row_j, block_j) && block_le(row_j, block_j, row_i, block_i)
        }),
    ensures
        placed(snapshot.transforms@)[i] == placed(snapshot.transforms@)[j],
{
    let shown = placed(snapshot.transforms@);
    if shown[i].1 is Custom {
        crate::laws::law_ids_distinct(snapshot, i, j);
    } else {
        let m = lemma_boundary_entry(snapshot, i);
        let n = lemma_boundary_entry(snapshot, j);
        if m < n || n < m {
            assert(shown[i].0 != shown[j].0 || shown[i].1.disposition_spec()
                != shown[j].1.disposition_spec());
        }
    }
}

/// A boundary on display is one of those that have something to show.
pub(crate) proof fn lemma_boundary_entry(snapshot: &BlockSnapshot, k: int) -> (n: int)
    requires
        snapshot.wf(),
        0 <= k < placed(snapshot.transforms@).len(),
        placed(snapshot.transforms@)[k].1 is ExcerptBoundary,
    ensures
        0 <= n < header_entries(
            &snapshot.wrap_snapshot,
            snapshot.headers,
            shown_boundaries(&*snapshot.wrap_snapshot.buffer),
        ).len(),
        header_entries(
            &snapshot.wrap_snapshot,
            snapshot.headers,
            shown_boundaries(&*snapshot.wrap_snapshot.buffer),
        )[n] == placed(snapshot.transforms@)[k],
{
    let wrap = &snapshot.wrap_snapshot;
    let shown = placed(snapshot.transforms@);
    let customs = custom_entries(wrap, snapshot.custom_blocks_by_id.0@);
    let bounds = header_entries(wrap, snapshot.headers, shown_boundaries(&*wrap.buffer));
    let x = shown[k];
    assert(shown.contains(x));
    assert(shown.to_multiset().count(x) > 0);
    assert((customs + bounds).contains(x));
    let m = (customs + bounds).index_of(x);
    if m < customs.len() {
        assert(customs[m] == x);
    }
    m - customs.len()
}

/// The custom block with the anchor and the callback of another.
spec fn moved_custom(block: CustomBlock, other: Arc<CustomBlock>) -> CustomBlock {
    CustomBlock { position: other.position, render: other.render, ..block }
}

/// The block; a custom one with the anchor and the callback of another.
spec fn moved_block(block: Block, other: Arc<CustomBlock>) -> Block {
    match block {
        Block::Custom(custom) => Block::Custom(Arc::new(moved_custom(*custom, other))),
        Block::ExcerptBoundary { .. } => block,
    }
}

/// Layouts of one text show the same but for anchors and callbacks where their custom blocks are
/// alike and stand on the same lines of the buffer, whatever the columns there.
pub proof fn law_line_decides(a: &BlockSnapshot, b: &BlockSnapshot)
    requires
        a.wf(),
        b.wf(),
        a.wrap_snapshot == b.wrap_snapshot,
        a.headers == b.headers,
        boundaries_apart(&a.wrap_snapshot, a.headers),
        a.custom_blocks_by_id.0@.len() == b.custom_blocks_by_id.0@.len(),
        forall|i: int|
            0 <= i < a.custom_blocks_by_id.0@.len() ==> {
                let (block_a, block_b) = (
                    #[trigger] a.custom_blocks_by_id.0@[i],
                    b.custom_blocks_by_id.0@[i],
                );
                &&& custom_alike(&*block_a, &*block_b)
                &&& a.wrap_snapshot.buffer.point(block_a.position).row
                    == a.wrap_snapshot.buffer.point(block_b.position).row
            },
    ensures
        shows_alike(a, b),
{
    let wrap = &a.wrap_snapshot;
    let (by_id_a, by_id_b) = (a.custom_blocks_by_id.0@, b.custom_blocks_by_id.0@);
    let (shown_a, shown_b) = (placed(a.transforms@), placed(b.transforms@));
    let other = by_id_a[0];
    let f = |x: (int, Block)| (x.0, moved_block(x.1, other));
    let entries_a = all_entries(wrap, a.headers, by_id_a);
    let entries_b = all_entries(wrap, a.headers, by_id_b);
    assert forall|i: int| 0 <= i < entries_a.len() implies f(#[trigger] entries_a[i]) == f(
        entries_b[i],
    ) by {
        if i < by_id_a.len() {
            let (block_a, block_b) = (by_id_a[i], by_id_b[i]);
            assert(custom_alike(&*block_a, &*block_b));
            assert(entries_a[i] == (custom_row(wrap, &*block_a), Block::Custom(block_a)));
            assert(entries_b[i] == (custom_row(wrap, &*block_b), Block::Custom(block_b)));
        }
    }
    assert(entries_a.map_values(f) =~= entries_b.map_values(f));
    crate::changes::lemma_images_reordered(shown_a, entries_a, f);
    crate::changes::lemma_images_reordered(shown_b, entries_b, f);
    let (plain_a, plain_b) = (shown_a.map_values(f), shown_b.map_values(f));
    lemma_moved_in_order(shown_a, other);
    lemma_moved_in_order(shown_b, other);
    assert forall|i: int, j: int|
        0 <= i < plain_a.len() && 0 <= j < plain_a.len() && block_le(
            (#[trigger] plain_a[i]).0,
            plain_a[i].1,
            (#[trigger] plain_a[j]).0,
            plain_a[j].1,
        ) && block_le(plain_a[j].0, plain_a[j].1, plain_a[i].0, plain_a[i].1) implies plain_a[i]
        == plain_a[j] by {
        assert(plain_a[i] == f(shown_a[i]) && plain_a[j] == f(shown_a[j]));
        lemma_order_strict(a, i, j);
    }
    crate::laws::lemma_order_unique(plain_a, plain_b);
    assert forall|i: int| 0 <= i < shown_a.len() implies (#[trigger] shown_a[i]).0 == shown_b[i].0
        && alike(shown_a[i].1, shown_b[i].1) by {
        assert(plain_a[i] == f(shown_a[i]) && plain_b[i] == f(shown_b[i]));
        lemma_moved_alike(shown_a[i].1, shown_b[i].1, other);
    }
    assert(shown_a.len() == plain_a.len() && shown_b.len() == plain_b.len());
    lemma_shows_alike(a, b);
}

proof fn lemma_moved_alike(a: Block, b: Block, other: Arc<CustomBlock>)
    requires
        moved_block(a, other) == moved_block(b, other),
    ensures
        alike(a, b),
{
    if let (Block::Custom(x), Block::Custom(y)) = (a, b) {
        assert(moved_custom(*x, other) == moved_custom(*y, other));
    }
}

proof fn lemma_moved_in_order(blocks: Seq<(int, Block)>, other: Arc<CustomBlock>)
    requires
        in_order(blocks),
    ensures
        in_order(blocks.map_values(|x: (int, Block)| (x.0, moved_block(x.1, other)))),
{
    let moved = blocks.map_values(|x: (int, Block)| (x.0, moved_block(x.1, other)));
    assert forall|i: int| 0 <= i < moved.len() implies (#[trigger] moved[i]).0 >= 0 by {
        assert(blocks[i].0 >= 0);
    }
    assert forall|i: int, j: int| 0 <= i <= j < moved.len() implies block_le(
        (#[trigger] moved[i]).0,
        moved[i].1,
        (#[trigger] moved[j]).0,
        moved[j].1,
    ) by {
        assert(block_le(blocks[i].0, blocks[i].1, blocks[j].0, blocks[j].1));
    }
}

/// Layouts of one text whose blocks are alike, in their order, show the same.
proof fn lemma_shows_alike(a: &BlockSnapshot, b: &BlockSnapshot)
    requires
        items_ok(a.transforms@),
        items_ok(b.transforms@),
        a.wrap_snapshot == b.wrap_snapshot,
        all_alike(placed(a.transforms@), placed(b.transforms@)),
        input_rows(a.transforms@) == input_rows(b.transforms@),
    ensures
        shows_alike(a, b),
{
    let (shown_a, shown_b) = (placed(a.transforms@), placed(b.transforms@));
    crate::laws::lemma_display_interleaved(a.transforms@);
    crate::laws::lemma_display_interleaved(b.transforms@);
    lemma_interleaved_alike(shown_a, shown_b, input_rows(a.transforms@));
    assert forall|from: int, to: int|
        all_alike(
            #[trigger] blocks_between(a.transforms@, from, to),
            blocks_between(b.transforms@, from, to),
        ) by {
        lemma_starts(a.transforms@, from, to);
        lemma_starts(b.transforms@, from, to);
        lemma_starts_alike(shown_a, shown_b, from, to);
    }
    assert forall|from: int, to: int|
        0 <= from <= to <= a.rows().len() implies #[trigger] a.text_between(from, to)
        == b.text_between(from, to) by {
        lemma_text_alike(a, b, from, to);
    }
    assert forall|row: int| 0 <= row < a.rows().len() implies #[trigger] a.row_number(row)
        == b.row_number(row) by {
        assert(row_alike(a.rows()[row], b.rows()[row]));
    }
}

proof fn lemma_fewer_alike(a: Seq<(int, Block)>, b: Seq<(int, Block)>)
    requires
        all_alike(a, b),
        a.len() > 0,
    ensures
        all_alike(a.drop_last(), b.drop_last()),
        a.last().0 == b.last().0,
        alike(a.last().1, b.last().1),
{
    let (fewer_a, fewer_b) = (a.drop_last(), b.drop_last());
    assert forall|i: int| 0 <= i < fewer_a.len() implies (#[trigger] fewer_a[i]).0 == fewer_b[i].0
        && alike(fewer_a[i].1, fewer_b[i].1) by {
        assert(a[i].0 == b[i].0);
    }
    assert(a[a.len() - 1].0 == b[a.len() - 1].0);
}

proof fn lemma_heights_alike(a: Seq<(int, Block)>, b: Seq<(int, Block)>)
    requires
        all_alike(a, b),
    ensures
        total_height(a) == total_height(b),
    decreases a.len(),
{
    if a.len() > 0 {
        lemma_fewer_alike(a, b);
        lemma_heights_alike(a.drop_last(), b.drop_last());
    }
}

proof fn lemma_starts_alike(a: Seq<(int, Block)>, b: Seq<(int, Block)>, from: int, to: int)
    requires
        all_alike(a, b),
    ensures
        all_alike(starts_between(a, from, to), starts_between(b, from, to)),
    decreases a.len(),
{
    if a.len() > 0 {
        lemma_fewer_alike(a, b);
        lemma_starts_alike(a.drop_last(), b.drop_last(), from, to);
        lemma_heights_alike(a.drop_last(), b.drop_last());
    }
}

proof fn lemma_interleaved_alike(a: Seq<(int, Block)>, b: Seq<(int, Block)>, rows: int)
    requires
        all_alike(a, b),
    ensures
        rows_alike(interleaved(a, rows), interleaved(b, rows)),
    decreases a.len(),
{
    if a.len() > 0 {
        lemma_fewer_alike(a, b);
        let (row, x) = a.last();
        let y = b.last().1;
        let from = rows_before(row, x);
        lemma_interleaved_alike(a.drop_last(), b.drop_last(), from);
        let (start_a, start_b) = (
            interleaved(a.drop_last(), from),
            interleaved(b.drop_last(), from),
        );
        let (lines_a, lines_b) = (block_lines(row, x), block_lines(row, y));
        let (all_a, all_b) = (interleaved(a, rows), interleaved(b, rows));
        assert(all_a == start_a + lines_a + text_rows(from, rows));
        assert(all_b == start_b + lines_b + text_rows(from, rows));
        assert forall|r: int| 0 <= r < all_a.len() implies row_alike(
            #[trigger] all_a[r],
            all_b[r],
        ) by {
            if r < start_a.len() {
                assert(row_alike(start_a[r], start_b[r]));
            }
        }
    }
}

} // verus!
