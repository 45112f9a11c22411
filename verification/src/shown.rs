//! Which blocks are on display, where, and in which ranges of rows, told by what they were made
//! from.

use vstd::prelude::*;

use crate::block::{Block, BlockDisposition, BlockId, BlockLike, BlockType, CustomBlockId};
use crate::buffer::{ExcerptBoundary, ExcerptInfo};
use crate::layout::{
    boundaries_in_range, boundary_block, boundary_height, header_entries, headers_fit, in_range,
    lifted, shown_boundaries, HeaderConfig,
};
use crate::order::blocks_sorted;
use crate::point::Point;
use crate::points::{lemma_block_line, lemma_neighbours};
use crate::snapshot::{blocks_between, shows_custom, touches_rows, BlockSnapshot};
use crate::transforms::{in_start, out_start, placed, DisplayRow, Transform};
use crate::wrap::WrapSnapshot;

verus! {

broadcast use {vstd::seq_lib::group_to_multiset_ensures, vstd::multiset::group_multiset_axioms};

/// The next excerpt is not from the buffer of the one before it.
pub open spec fn other_buffer(prev: Option<ExcerptInfo>, next: ExcerptInfo) -> bool {
    !(prev matches Some(prev) && prev.buffer_id == next.buffer_id)
}

/// The lines between two excerpts: a footer for the one that ends, if controls are shown; for the
/// one that begins a header of its buffer, if it is from another one, and a header of its own, but
/// with the header of its buffer only if controls are shown.
pub open spec fn lines_due(
    headers: HeaderConfig,
    prev: Option<ExcerptInfo>,
    next: Option<ExcerptInfo>,
) -> int {
    let controls = headers.show_excerpt_controls;
    let footer: int = if prev is Some && controls {
        headers.excerpt_footer_height as int
    } else {
        0
    };
    let buffer_header: int = if next matches Some(next) && other_buffer(prev, next) {
        headers.buffer_header_height as int
    } else {
        0
    };
    let excerpt_header: int = if next matches Some(next) && (controls || !other_buffer(
        prev,
        next,
    )) {
        headers.excerpt_header_height as int
    } else {
        0
    };
    footer + buffer_header + excerpt_header
}

/// The entry is the header and footer at a boundary: with its excerpts, as high as what it shows,
/// on the first row of the line where the next excerpt begins, or on the last row of the last one.
pub open spec fn stands_for(
    wrap: &WrapSnapshot,
    headers: HeaderConfig,
    boundary: ExcerptBoundary,
    entry: (int, Block),
) -> bool {
    &&& entry.1 == Block::ExcerptBoundary {
        prev_excerpt: boundary.prev,
        next_excerpt: boundary.next,
        height: lines_due(headers, boundary.prev, boundary.next) as u32,
        starts_new_buffer: boundary.next matches Some(next) && other_buffer(boundary.prev, next),
        show_excerpt_controls: headers.show_excerpt_controls,
    }
    &&& entry.1.height_spec() == lines_due(headers, boundary.prev, boundary.next)
    &&& entry.0 == (match boundary.next {
        Some(_) => wrap.line_rows@[boundary.row as int].first as int,
        None => wrap.line_rows@[boundary.row as int].last as int,
    })
}

/// A boundary shows a footer, the header of a new buffer and the header of an excerpt, each as high
/// as it was asked for and only where it is due.
pub proof fn law_boundary_height(headers: HeaderConfig, boundary: ExcerptBoundary)
    requires
        lines_due(headers, boundary.prev, boundary.next) <= u32::MAX,
    ensures
        boundary_block(headers, boundary).height_spec() == lines_due(
            headers,
            boundary.prev,
            boundary.next,
        ),
        boundary.next matches Some(next) && other_buffer(boundary.prev, next)
            ==> headers.buffer_header_height <= boundary_block(headers, boundary).height_spec(),
{
}

/// An excerpt before another one from a new buffer adds its footer, and that only if controls are
/// shown.
pub proof fn law_footer_alone(headers: HeaderConfig, first: ExcerptBoundary, later: ExcerptBoundary)
    requires
        first.next == later.next,
        first.next matches Some(next) && other_buffer(later.prev, next),
        first.prev is None,
        later.prev is Some,
        lines_due(headers, later.prev, later.next) <= u32::MAX,
    ensures
        boundary_block(headers, later).height_spec() - boundary_block(headers, first).height_spec()
            == (if headers.show_excerpt_controls {
            headers.excerpt_footer_height as int
        } else {
            0
        }),
{
}

/// The boundaries that meet a test and have lines, by their places in the buffer, are the ones that
/// become entries, in their order.
proof fn lemma_entries_from(
    wrap: &WrapSnapshot,
    headers: HeaderConfig,
    all: Seq<ExcerptBoundary>,
    test: spec_fn(ExcerptBoundary) -> bool,
) -> (from: Seq<int>)
    requires
        forall|n: int|
            0 <= n < all.len() ==> lines_due(headers, (#[trigger] all[n]).prev, all[n].next)
                <= u32::MAX,
    ensures
        ({
            let entries = header_entries(wrap, headers, all.filter(test));
            &&& from.len() == entries.len()
            &&& forall|k: int|
                0 <= k < from.len() ==> {
                    &&& 0 <= (#[trigger] from[k]) < all.len()
                    &&& test(all[from[k]])
                    &&& stands_for(wrap, headers, all[from[k]], entries[k])
                    &&& entries[k].1.height_spec() > 0
                }
            &&& forall|j: int, k: int|
                0 <= j < k < from.len() ==> (#[trigger] from[j]) < (#[trigger] from[k])
            &&& forall|n: int|
                0 <= n < all.len() && test(#[trigger] all[n]) && lines_due(
                    headers,
                    all[n].prev,
                    all[n].next,
                ) > 0 ==> from.contains(n)
        }),
    decreases all.len(),
{
    reveal(Seq::filter);
    if all.len() == 0 {
        Seq::empty()
    } else {
        let before = all.drop_last();
        let last = all.len() - 1;
        let boundary = all[last];
        assert forall|n: int| 0 <= n < before.len() implies lines_due(
            headers,
            (#[trigger] before[n]).prev,
            before[n].next,
        ) <= u32::MAX by {
            assert(before[n] == all[n]);
        }
        let fewer = lemma_entries_from(wrap, headers, before, test);
        let entries = header_entries(wrap, headers, before.filter(test));
        let kept = before.filter(test);
        if test(boundary) {
            assert(all.filter(test) == kept.push(boundary));
            assert(kept.push(boundary).drop_last() =~= kept);
        } else {
            assert(all.filter(test) == kept);
        }
        assert(lines_due(headers, boundary.prev, boundary.next) <= u32::MAX);
        let from = if test(boundary) && lines_due(headers, boundary.prev, boundary.next) > 0 {
            fewer.push(last)
        } else {
            fewer
        };
        let more = header_entries(wrap, headers, all.filter(test));
        assert forall|k: int| 0 <= k < from.len() implies {
            &&& 0 <= (#[trigger] from[k]) < all.len()
            &&& test(all[from[k]])
            &&& stands_for(wrap, headers, all[from[k]], more[k])
            &&& more[k].1.height_spec() > 0
        } by {
            if k < fewer.len() {
                assert(from[k] == fewer[k]);
                assert(before[fewer[k]] == all[fewer[k]]);
            }
        }
        assert forall|j: int, k: int| 0 <= j < k < from.len() implies (#[trigger] from[j]) < (
        #[trigger] from[k]) by {
            assert(0 <= fewer[j] < before.len());
            if k < fewer.len() {
                assert(fewer[j] < fewer[k]);
            }
        }
        assert forall|n: int|
            0 <= n < all.len() && test(#[trigger] all[n]) && lines_due(
                headers,
                all[n].prev,
                all[n].next,
            ) > 0 implies from.contains(n) by {
            if n < last {
                assert(before[n] == all[n]);
                assert(fewer.contains(n));
                let k = fewer.index_of(n);
                assert(from[k] == n);
            } else {
                assert(from[fewer.len() as int] == n);
            }
        }
        from
    }
}

pub(crate) proof fn lemma_filter_all<A>(items: Seq<A>, test: spec_fn(A) -> bool)
    requires
        forall|i: int| 0 <= i < items.len() ==> test(#[trigger] items[i]),
    ensures
        items.filter(test) == items,
    decreases items.len(),
{
    reveal(Seq::filter);
    if items.len() > 0 {
        let before = items.drop_last();
        assert forall|i: int| 0 <= i < before.len() implies test(#[trigger] before[i]) by {
            assert(before[i] == items[i]);
        }
        lemma_filter_all(before, test);
        assert(test(items[items.len() - 1]));
        assert(items =~= before.push(items.last()));
    } else {
        assert(items.filter(test) =~= items);
    }
}

pub(crate) proof fn lemma_lines_fit(wrap: &WrapSnapshot, headers: HeaderConfig, n: int)
    requires
        headers_fit(wrap, headers),
        0 <= n < wrap.buffer.boundaries@.len(),
    ensures
        lines_due(
            headers,
            wrap.buffer.boundaries@[n].prev,
            wrap.buffer.boundaries@[n].next,
        ) <= u32::MAX,
{
    assert(boundary_height(headers, wrap.buffer.boundaries@[n]) <= u32::MAX);
}

/// A boundary is within a range: where the next excerpt begins, or where the buffer ends, is not
/// before the start and, if there is an end, before it.
pub open spec fn boundary_within(
    wrap: &WrapSnapshot,
    boundary: ExcerptBoundary,
    start: Point,
    end: Option<Point>,
) -> bool {
    let row = boundary.row;
    let column = if boundary.next is Some {
        0
    } else {
        wrap.buffer.line_lens@[row as int]
    };
    &&& row > start.row || (row == start.row && column >= start.column)
    &&& end matches Some(end) ==> row < end.row || (row == end.row && column < end.column)
}

/// Between two positions, the boundaries that have lines become headers and footers, one for each,
/// in the order of the boundaries; no others do. `from` says which boundary each one is for.
pub proof fn law_headers_in_range(
    wrap: &WrapSnapshot,
    headers: HeaderConfig,
    start: Point,
    end: Option<Point>,
    entries: Seq<(u32, Block)>,
) -> (from: Seq<int>)
    requires
        wrap.wf(),
        headers_fit(wrap, headers),
        lifted(entries) == header_entries(
            wrap,
            headers,
            boundaries_in_range(&*wrap.buffer, wrap.buffer.boundaries@, start, end),
        ),
    ensures
        ({
            let all = wrap.buffer.boundaries@;
            &&& from.len() == entries.len()
            &&& forall|k: int|
                0 <= k < from.len() ==> {
                    &&& 0 <= (#[trigger] from[k]) < all.len()
                    &&& boundary_within(wrap, all[from[k]], start, end)
                    &&& stands_for(
                        wrap,
                        headers,
                        all[from[k]],
                        (entries[k].0 as int, entries[k].1),
                    )
                    &&& entries[k].1.height_spec() > 0
                }
            &&& forall|j: int, k: int|
                0 <= j < k < from.len() ==> (#[trigger] from[j]) < (#[trigger] from[k])
            &&& forall|n: int|
                0 <= n < all.len() && boundary_within(wrap, #[trigger] all[n], start, end)
                    && lines_due(headers, all[n].prev, all[n].next) > 0 ==> from.contains(n)
        }),
{
    let all = wrap.buffer.boundaries@;
    let buffer = wrap.buffer;
    let test = |b: ExcerptBoundary| in_range(buffer.boundary_point(b), start, end);
    assert forall|n: int| 0 <= n < all.len() implies lines_due(
        headers,
        (#[trigger] all[n]).prev,
        all[n].next,
    ) <= u32::MAX by {
        lemma_lines_fit(wrap, headers, n);
    }
    assert(boundaries_in_range(&*wrap.buffer, all, start, end) == all.filter(test));
    let from = lemma_entries_from(wrap, headers, all, test);
    assert(lifted(entries).len() == entries.len());
    assert forall|k: int| 0 <= k < from.len() implies {
        &&& 0 <= (#[trigger] from[k]) < all.len()
        &&& boundary_within(wrap, all[from[k]], start, end)
        &&& stands_for(wrap, headers, all[from[k]], (entries[k].0 as int, entries[k].1))
        &&& entries[k].1.height_spec() > 0
    } by {
        assert(lifted(entries)[k] == (entries[k].0 as int, entries[k].1));
        assert(test(all[from[k]]));
    }
    assert forall|n: int|
        0 <= n < all.len() && boundary_within(wrap, #[trigger] all[n], start, end) && lines_due(
            headers,
            all[n].prev,
            all[n].next,
        ) > 0 implies from.contains(n) by {
        assert(test(all[n]));
    }
    from
}

/// Where headers are shown, each boundary with lines is on display, as high as what it shows.
pub proof fn law_header_shown(snapshot: &BlockSnapshot, n: int) -> (k: int)
    requires
        snapshot.wf(),
        0 <= n < snapshot.wrap_snapshot.buffer.boundaries@.len(),
        snapshot.wrap_snapshot.buffer.show_headers,
        lines_due(
            snapshot.headers,
            snapshot.wrap_snapshot.buffer.boundaries@[n].prev,
            snapshot.wrap_snapshot.buffer.boundaries@[n].next,
        ) > 0,
    ensures
        0 <= k < placed(snapshot.transforms@).len(),
        stands_for(
            &snapshot.wrap_snapshot,
            snapshot.headers,
            snapshot.wrap_snapshot.buffer.boundaries@[n],
            placed(snapshot.transforms@)[k],
        ),
{
    let wrap = &snapshot.wrap_snapshot;
    let all = wrap.buffer.boundaries@;
    let test = |b: ExcerptBoundary| true;
    lemma_filter_all(all, test);
    assert forall|n: int| 0 <= n < all.len() implies lines_due(
        snapshot.headers,
        (#[trigger] all[n]).prev,
        all[n].next,
    ) <= u32::MAX by {
        lemma_lines_fit(wrap, snapshot.headers, n);
    }
    let from = lemma_entries_from(wrap, snapshot.headers, all, test);
    assert(from.contains(n));
    let j = from.index_of(n);
    let entries = header_entries(wrap, snapshot.headers, shown_boundaries(&*wrap.buffer));
    let customs = crate::layout::custom_entries(wrap, snapshot.custom_blocks_by_id.0@);
    let x = entries[j];
    let shown = placed(snapshot.transforms@);
    assert((customs + entries)[customs.len() + j] == x);
    assert((customs + entries).contains(x));
    assert((customs + entries).to_multiset().count(x) > 0);
    assert(shown.contains(x));
    shown.index_of(x)
}

/// A header or footer on display is that of a boundary with lines, and headers are shown.
pub proof fn law_header_source(snapshot: &BlockSnapshot, k: int) -> (n: int)
    requires
        snapshot.wf(),
        0 <= k < placed(snapshot.transforms@).len(),
        placed(snapshot.transforms@)[k].1 is ExcerptBoundary,
    ensures
        snapshot.wrap_snapshot.buffer.show_headers,
        0 <= n < snapshot.wrap_snapshot.buffer.boundaries@.len(),
        stands_for(
            &snapshot.wrap_snapshot,
            snapshot.headers,
            snapshot.wrap_snapshot.buffer.boundaries@[n],
            placed(snapshot.transforms@)[k],
        ),
        placed(snapshot.transforms@)[k].1.height_spec() > 0,
{
    let wrap = &snapshot.wrap_snapshot;
    let all = wrap.buffer.boundaries@;
    let shown = placed(snapshot.transforms@);
    let test = |b: ExcerptBoundary| true;
    lemma_filter_all(all, test);
    assert forall|n: int| 0 <= n < all.len() implies lines_due(
        snapshot.headers,
        (#[trigger] all[n]).prev,
        all[n].next,
    ) <= u32::MAX by {
        lemma_lines_fit(wrap, snapshot.headers, n);
    }
    let from = lemma_entries_from(wrap, snapshot.headers, all, test);
    let j = crate::likeness::lemma_boundary_entry(snapshot, k);
    from[j]
}

/// Where the block of a transform is: from its first row on, its lines one after the other; above
/// the text that comes after it, or below the text that comes before it.
pub open spec fn lines_from(rows: Seq<DisplayRow>, block: Block, start: int) -> bool {
    &&& 0 <= start
    &&& start + block.height_spec() <= rows.len()
    &&& forall|line: int|
        0 <= line < block.height_spec() ==> (#[trigger] rows[start + line]) is Block && rows[start
            + line]->block == block && rows[start + line]->line == line
}

/// The block stands directly above or below a row of text: between them are lines of blocks alone.
pub open spec fn stands_by(rows: Seq<DisplayRow>, block: Block, start: int, row: int) -> bool {
    match block.disposition_spec() {
        BlockDisposition::Above => exists|at: int|
            {
                &&& start + block.height_spec() <= at < rows.len()
                &&& (#[trigger] rows[at]) == (DisplayRow::Text { row })
                &&& forall|r: int| start <= r < at ==> (#[trigger] rows[r]) is Block
            },
        BlockDisposition::Below => exists|at: int|
            {
                &&& 0 <= at < start
                &&& (#[trigger] rows[at]) == (DisplayRow::Text { row })
                &&& forall|r: int|
                    at < r < start + block.height_spec() ==> (#[trigger] rows[r]) is Block
            },
    }
}

pub(crate) proof fn lemma_block_place(snapshot: &BlockSnapshot, i: int)
    requires
        snapshot.wf(),
        0 <= i < snapshot.transforms@.len(),
        snapshot.transforms@[i].block is Some,
    ensures
        ({
            let block = snapshot.transforms@[i].block->0;
            let start = out_start(snapshot.transforms@, i);
            let row = in_start(snapshot.transforms@, i) - (
            if block.disposition_spec() is Below {
                1int
            } else {
                0
            });
            &&& lines_from(snapshot.rows(), block, start)
            &&& stands_by(snapshot.rows(), block, start, row)
            &&& placed(snapshot.transforms@).contains((row, block))
        }),
{
    let s = snapshot.transforms@;
    let rows = snapshot.rows();
    let block = s[i].block->0;
    let start = out_start(s, i);
    snapshot.lemma_rows();
    crate::transforms::lemma_step(s, i);
    crate::transforms::lemma_monotone(s, 0, i);
    crate::transforms::lemma_monotone(s, i + 1, s.len() as int);
    crate::transforms::lemma_whole(s);
    assert(s[i].ok());
    assert forall|line: int| 0 <= line < block.height_spec() implies (
    #[trigger] rows[start + line]) is Block && rows[start + line]->block == block && rows[start
        + line]->line == line by {
        crate::transforms::lemma_display_at(s, i, line);
    }
    crate::transforms::lemma_texts_at(s, i, 0);
    snapshot.lemma_block_on_row(i);
    crate::transforms::lemma_placed_at(s, i);
    let (above, below) = lemma_neighbours(snapshot, start);
    if block.disposition_spec() is Below {
        assert(rows[above] == (DisplayRow::Text { row: in_start(s, i) - 1 }));
        assert forall|r: int| above < r < start + block.height_spec() implies (
        #[trigger] rows[r]) is Block by {
            if r >= start {
                assert(rows[start + (r - start)] is Block);
            }
        }
    } else {
        assert(rows[below] == (DisplayRow::Text { row: in_start(s, i) }));
        if below < start + block.height_spec() {
            assert(rows[start + (below - start)] is Block);
        }
    }
}

/// A custom block is on display once, with all its lines together: directly above the first row of
/// the line that its anchor is in, or directly below the last one. The lines of one block are on
/// display nowhere else.
pub proof fn law_custom_block_place(snapshot: &BlockSnapshot, n: int) -> (start: int)
    requires
        snapshot.wf(),
        0 <= n < snapshot.custom_blocks_by_id.0@.len(),
    ensures
        ({
            let rows = snapshot.rows();
            let wrap = snapshot.wrap_snapshot;
            let block = snapshot.custom_blocks_by_id.0@[n];
            let rank = wrap.buffer.anchor_ranks@[block.position.0 as int] as int;
            let line = wrap.buffer.ranked_points@[rank].row as int;
            let row = match block.disposition {
                BlockDisposition::Above => wrap.line_rows@[line].first as int,
                BlockDisposition::Below => wrap.line_rows@[line].last as int,
            };
            &&& lines_from(rows, Block::Custom(block), start)
            &&& stands_by(rows, Block::Custom(block), start, row)
            &&& forall|r: int|
                0 <= r < rows.len() && (#[trigger] rows[r]) is Block && rows[r]->block.id_spec()
                    == BlockId::Custom(block.id) ==> start <= r < start + block.height
                    && rows[r]->block == Block::Custom(block)
        }),
{
    let s = snapshot.transforms@;
    let rows = snapshot.rows();
    let block = snapshot.custom_blocks_by_id.0@[n];
    let at = crate::laws::law_custom_block_shown_once(snapshot, n);
    let start = out_start(s, at);
    lemma_block_place(snapshot, at);
    assert forall|r: int|
        0 <= r < rows.len() && (#[trigger] rows[r]) is Block && rows[r]->block.id_spec()
            == BlockId::Custom(block.id) implies start <= r < start + block.height
        && rows[r]->block == Block::Custom(block) by {
        let i = lemma_block_line(snapshot, r);
        assert(shows_custom(s, i, block.id));
    }
    start
}

/// The header and footer at a boundary with lines are on display with all their lines together:
/// directly above the first row of the line where the next excerpt begins, or below the last row.
pub proof fn law_header_place(snapshot: &BlockSnapshot, n: int) -> (start: int)
    requires
        snapshot.wf(),
        0 <= n < snapshot.wrap_snapshot.buffer.boundaries@.len(),
        snapshot.wrap_snapshot.buffer.show_headers,
        lines_due(
            snapshot.headers,
            snapshot.wrap_snapshot.buffer.boundaries@[n].prev,
            snapshot.wrap_snapshot.buffer.boundaries@[n].next,
        ) > 0,
    ensures
        ({
            let rows = snapshot.rows();
            let wrap = snapshot.wrap_snapshot;
            let boundary = wrap.buffer.boundaries@[n];
            let height = lines_due(snapshot.headers, boundary.prev, boundary.next);
            let block = Block::ExcerptBoundary {
                prev_excerpt: boundary.prev,
                next_excerpt: boundary.next,
                height: height as u32,
                starts_new_buffer: boundary.next matches Some(next) && other_buffer(
                    boundary.prev,
                    next,
                ),
                show_excerpt_controls: snapshot.headers.show_excerpt_controls,
            };
            &&& block.height_spec() == height
            &&& lines_from(rows, block, start)
            &&& stands_by(
                rows,
                block,
                start,
                match boundary.next {
                    Some(_) => wrap.line_rows@[boundary.row as int].first as int,
                    None => wrap.line_rows@[boundary.row as int].last as int,
                },
            )
            &&& block.disposition_spec() is Below <==> boundary.next is None
        }),
{
    let k = law_header_shown(snapshot, n);
    let i = crate::transforms::lemma_placed_from(snapshot.transforms@, k);
    lemma_block_place(snapshot, i);
    out_start(snapshot.transforms@, i)
}

/// A line of a block is one of its lines, and all of them are around it.
pub proof fn law_lines_together(snapshot: &BlockSnapshot, row: int)
    requires
        snapshot.wf(),
        0 <= row < snapshot.rows().len(),
        snapshot.rows()[row] is Block,
    ensures
        ({
            let block = snapshot.rows()[row]->block;
            let line = snapshot.rows()[row]->line;
            &&& 0 <= line < block.height_spec()
            &&& lines_from(snapshot.rows(), block, row - line)
            &&& stands_by(snapshot.rows(), block, row - line, snapshot.rows()[row]->Block_row)
        }),
{
    let i = lemma_block_line(snapshot, row);
    lemma_block_place(snapshot, i);
}

/// The transforms that blocks in a range of rows come from.
proof fn lemma_between_from(s: Seq<Transform>, from: int, to: int) -> (places: Seq<int>)
    requires
        crate::transforms::items_ok(s),
    ensures
        ({
            let listed = blocks_between(s, from, to);
            &&& places.len() == listed.len()
            &&& forall|k: int|
                0 <= k < places.len() ==> {
                    &&& 0 <= (#[trigger] places[k]) < s.len()
                    &&& s[places[k]].block == Some(listed[k].1)
                    &&& listed[k].0 == out_start(s, places[k])
                    &&& touches_rows(listed[k].0, listed[k].1.height_spec(), from, to)
                }
            &&& forall|j: int, k: int|
                0 <= j < k < places.len() ==> (#[trigger] places[j]) < (#[trigger] places[k])
            &&& forall|i: int|
                0 <= i < s.len() && (#[trigger] s[i]).block is Some && touches_rows(
                    out_start(s, i),
                    s[i].block->0.height_spec(),
                    from,
                    to,
                ) ==> places.contains(i)
        }),
    decreases s.len(),
{
    if s.len() == 0 {
        Seq::empty()
    } else {
        let before = s.drop_last();
        let last = s.len() - 1;
        assert forall|i: int| 0 <= i < before.len() implies (#[trigger] before[i]).ok() by {
            assert(before[i] == s[i]);
        }
        let fewer = lemma_between_from(before, from, to);
        assert(s.take(last) =~= before);
        let places = if s[last].block is Some && touches_rows(
            out_start(s, last),
            s[last].block->0.height_spec(),
            from,
            to,
        ) {
            fewer.push(last)
        } else {
            fewer
        };
        let listed = blocks_between(s, from, to);
        assert forall|k: int| 0 <= k < places.len() implies {
            &&& 0 <= (#[trigger] places[k]) < s.len()
            &&& s[places[k]].block == Some(listed[k].1)
            &&& listed[k].0 == out_start(s, places[k])
            &&& touches_rows(listed[k].0, listed[k].1.height_spec(), from, to)
        } by {
            if k < fewer.len() {
                assert(places[k] == fewer[k]);
                assert(0 <= fewer[k] < before.len());
                assert(before.take(fewer[k]) =~= s.take(fewer[k]));
                assert(listed[k] == blocks_between(before, from, to)[k]);
            }
        }
        assert forall|j: int, k: int| 0 <= j < k < places.len() implies (#[trigger] places[j]) < (
        #[trigger] places[k]) by {
            assert(0 <= fewer[j] < before.len());
            if k < fewer.len() {
                assert(fewer[j] < fewer[k]);
            }
        }
        assert forall|i: int|
            0 <= i < s.len() && (#[trigger] s[i]).block is Some && touches_rows(
                out_start(s, i),
                s[i].block->0.height_spec(),
                from,
                to,
            ) implies places.contains(i) by {
            if i < last {
                assert(before[i] == s[i]);
                assert(before.take(i) =~= s.take(i));
                assert(fewer.contains(i));
                let k = fewer.index_of(i);
                assert(places[k] == i);
            } else {
                assert(places[fewer.len() as int] == i);
            }
        }
        places
    }
}

/// The blocks in a range of rows are all those that have a line in it, each with the row of its
/// first line, though that may be above the range.
pub proof fn law_range_is_complete(snapshot: &BlockSnapshot, from: int, to: int, row: int)
    requires
        snapshot.wf(),
        0 <= from <= row < to,
        row < snapshot.rows().len(),
        snapshot.rows()[row] is Block,
    ensures
        blocks_between(snapshot.transforms@, from, to).contains(
            (row - snapshot.rows()[row]->line, snapshot.rows()[row]->block),
        ),
{
    let s = snapshot.transforms@;
    let i = lemma_block_line(snapshot, row);
    let places = lemma_between_from(s, from, to);
    assert(places.contains(i));
    let k = places.index_of(i);
    assert(blocks_between(s, from, to)[k] == (
        row - snapshot.rows()[row]->line,
        snapshot.rows()[row]->block,
    ));
}

/// A block without lines is among the blocks in a range of rows where it stands in the range or at
/// its end.
pub proof fn law_range_has_empty_blocks(snapshot: &BlockSnapshot, from: int, to: int, i: int)
    requires
        snapshot.wf(),
        0 <= i < snapshot.transforms@.len(),
        snapshot.transforms@[i].block matches Some(block) && block.height_spec() == 0,
        from <= out_start(snapshot.transforms@, i) <= to,
    ensures
        blocks_between(snapshot.transforms@, from, to).contains(
            (out_start(snapshot.transforms@, i), snapshot.transforms@[i].block->0),
        ),
{
    let s = snapshot.transforms@;
    let places = lemma_between_from(s, from, to);
    assert(places.contains(i));
    let k = places.index_of(i);
    assert(blocks_between(s, from, to)[k] == (out_start(s, i), s[i].block->0));
}

/// A block among those in a range of rows begins where it says, with all its lines. It begins
/// before the range ends and ends after the range begins, or stands in the range or at its end
/// without lines; in a range that has rows, a block with lines has one of them there.
pub proof fn law_range_is_sound(snapshot: &BlockSnapshot, from: int, to: int, k: int)
    requires
        snapshot.wf(),
        0 <= k < blocks_between(snapshot.transforms@, from, to).len(),
    ensures
        ({
            let rows = snapshot.rows();
            let (start, block) = blocks_between(snapshot.transforms@, from, to)[k];
            let height = block.height_spec();
            &&& lines_from(rows, block, start)
            &&& height > 0 ==> start < to && start + height > from
            &&& height == 0 ==> from <= start <= to
            &&& height > 0 && from < to ==> exists|r: int|
                from <= r < to && start <= r < start + height && (#[trigger] rows[r]) is Block
                    && rows[r]->block == block
        }),
{
    let s = snapshot.transforms@;
    let rows = snapshot.rows();
    let places = lemma_between_from(s, from, to);
    lemma_block_place(snapshot, places[k]);
    let (start, block) = blocks_between(s, from, to)[k];
    let height = block.height_spec();
    if height > 0 && from < to {
        let r = if start >= from {
            start
        } else {
            from
        };
        assert(rows[start + (r - start)] is Block);
        assert(rows[r] is Block);
    }
}

/// The blocks in a range of rows are listed from the top down, each behind the lines of the one
/// before, and none twice.
pub proof fn law_range_in_order(snapshot: &BlockSnapshot, from: int, to: int, j: int, k: int)
    requires
        snapshot.wf(),
        0 <= j < k < blocks_between(snapshot.transforms@, from, to).len(),
    ensures
        ({
            let (start_j, block_j) = blocks_between(snapshot.transforms@, from, to)[j];
            let (start_k, block_k) = blocks_between(snapshot.transforms@, from, to)[k];
            start_j + block_j.height_spec() <= start_k && block_j.id_spec() != block_k.id_spec()
        }),
{
    let s = snapshot.transforms@;
    let places = lemma_between_from(s, from, to);
    let (a, b) = (places[j], places[k]);
    assert(a < b);
    assert(s[a].ok() && s[b].ok());
    crate::transforms::lemma_step(s, a);
    crate::transforms::lemma_monotone(s, a + 1, b);
    crate::transforms::lemma_placed_at(s, a);
    crate::transforms::lemma_placed_at(s, b);
    let (m, n) = (placed(s.take(a)).len() as int, placed(s.take(b)).len() as int);
    if s[a].block->0.id_spec() == s[b].block->0.id_spec() {
        crate::laws::law_ids_distinct(snapshot, m, n);
    }
}

/// Blocks are on display in the order of the rows they belong to; on one row, those above it come
/// before those below it.
pub proof fn law_placed_in_order(snapshot: &BlockSnapshot, j: int, k: int)
    requires
        snapshot.wf(),
        0 <= j < k < placed(snapshot.transforms@).len(),
    ensures
        ({
            let (row_j, block_j) = placed(snapshot.transforms@)[j];
            let (row_k, block_k) = placed(snapshot.transforms@)[k];
            &&& row_j <= row_k
            &&& row_j == row_k ==> !(block_j.disposition_spec() is Below
                && block_k.disposition_spec() is Above)
        }),
{
    let shown = placed(snapshot.transforms@);
    assert(crate::order::block_le(shown[j].0, shown[j].1, shown[k].0, shown[k].1));
}

/// Sorted blocks are in the order of their rows; on one row, those above it come before those below
/// it; on one side of it, headers and footers before custom blocks, and among these those with the
/// higher priority first, then those with the lower id.
pub proof fn law_sorted<B: BlockLike>(blocks: Seq<(u32, B)>, j: int, k: int)
    requires
        blocks_sorted(blocks),
        0 <= j < k < blocks.len(),
    ensures
        ({
            let ((row_j, a), (row_k, b)) = (blocks[j], blocks[k]);
            let same_side = row_j == row_k && a.disposition_spec() == b.disposition_spec();
            &&& row_j <= row_k
            &&& row_j == row_k ==> !(a.disposition_spec() is Below && b.disposition_spec() is Above)
            &&& same_side && b.block_type_spec() is ExcerptBoundary ==> a.block_type_spec()
                is ExcerptBoundary
            &&& same_side && a.block_type_spec() is Custom && b.block_type_spec() is Custom ==> {
                let (id_a, id_b) = (a.block_type_spec()->Custom_0, b.block_type_spec()->Custom_0);
                a.priority_spec() > b.priority_spec() || (a.priority_spec() == b.priority_spec()
                    && id_a.0 <= id_b.0)
            }
        }),
{
    let (a, b) = (blocks[j], blocks[k]);
    assert(crate::order::block_le(a.0 as int, a.1, b.0 as int, b.1));
}

/// What is read of a block: of a custom block what it was made with; of a boundary its height, the
/// excerpt that follows it, and its side, which is above that excerpt or below the last one.
pub proof fn law_block_parts(block: Block)
    ensures
        match block {
            Block::Custom(custom) => {
                &&& block.id_spec() == BlockId::Custom(custom.id)
                &&& block.block_type_spec() == BlockType::Custom(custom.id)
                &&& block.height_spec() == custom.height
                &&& block.disposition_spec() == custom.disposition
                &&& block.priority_spec() == custom.priority
                &&& block.below() <==> custom.disposition is Below
                &&& forall|id: CustomBlockId| #[trigger] block.is_custom(id) <==> id == custom.id
            },
            Block::ExcerptBoundary { next_excerpt, height: lines, .. } => {
                &&& next_excerpt matches Some(next) ==> block.id_spec()
                    == BlockId::ExcerptBoundary(Some(next.id))
                &&& next_excerpt is None ==> block.id_spec() == BlockId::ExcerptBoundary(None)
                &&& block.block_type_spec() == BlockType::ExcerptBoundary
                &&& block.height_spec() == lines
                &&& block.disposition_spec() is Below <==> next_excerpt is None
                &&& block.below() <==> next_excerpt is None
                &&& block.priority_spec() == usize::MAX
                &&& forall|id: CustomBlockId| !#[trigger] block.is_custom(id)
            },
        },
{
}

/// A custom block on display is one of the blocks of the layout, on the first row of the line that
/// its anchor is in if it stands above, on the last one if it stands below.
pub proof fn law_custom_source(snapshot: &BlockSnapshot, k: int)
    requires
        snapshot.wf(),
        0 <= k < placed(snapshot.transforms@).len(),
        placed(snapshot.transforms@)[k].1 is Custom,
    ensures
        ({
            let wrap = snapshot.wrap_snapshot;
            let (row, block) = placed(snapshot.transforms@)[k];
            let custom = block->Custom_0;
            let rank = wrap.buffer.anchor_ranks@[custom.position.0 as int] as int;
            let line = wrap.buffer.ranked_points@[rank].row as int;
            &&& snapshot.custom_blocks_by_id.0@.contains(custom)
            &&& row == (match custom.disposition {
                BlockDisposition::Above => wrap.line_rows@[line].first as int,
                BlockDisposition::Below => wrap.line_rows@[line].last as int,
            })
        }),
{
    snapshot.lemma_placed_source(k);
    crate::laws::lemma_custom_entry(snapshot, k);
}

/// The row at which a custom block begins is that of its first line.
pub proof fn law_row_of_block(snapshot: &BlockSnapshot, i: int, id: CustomBlockId) -> (n: int)
    requires
        snapshot.wf(),
        shows_custom(snapshot.transforms@, i, id),
    ensures
        0 <= n < snapshot.custom_blocks_by_id.0@.len(),
        snapshot.custom_blocks_by_id.0@[n].id == id,
        lines_from(
            snapshot.rows(),
            Block::Custom(snapshot.custom_blocks_by_id.0@[n]),
            out_start(snapshot.transforms@, i),
        ),
{
    let s = snapshot.transforms@;
    lemma_block_place(snapshot, i);
    crate::transforms::lemma_placed_at(s, i);
    let k = placed(s.take(i)).len() as int;
    snapshot.lemma_placed_source(k);
    let block = s[i].block->0->Custom_0;
    snapshot.custom_blocks_by_id.0@.index_of(block)
}

} // verus!
