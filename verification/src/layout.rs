//! Which blocks stand where: the rows that custom blocks and excerpt boundaries belong to.

use std::sync::Arc;
use vstd::prelude::*;

use crate::block::{Block, BlockDisposition, CustomBlock};
use crate::buffer::{ExcerptBoundary, MultiBufferSnapshot};
use crate::point::Point;
use crate::transforms::{input_rows, items_ok, output_rows, placed, transforms_wf, Transform};
use crate::wrap::WrapSnapshot;

verus! {

broadcast use {vstd::seq_lib::group_to_multiset_ensures, vstd::multiset::group_multiset_axioms};

/// What is shown between excerpts, and how high it is.
#[derive(Clone, Copy, Debug, PartialEq, Eq, Structural)]
pub struct HeaderConfig {
    pub show_excerpt_controls: bool,
    pub buffer_header_height: u32,
    pub excerpt_header_height: u32,
    pub excerpt_footer_height: u32,
}

/// The row of text that a custom block belongs to: the first of its line where it stands above,
/// the last where it stands below.
pub open spec fn custom_row(wrap: &WrapSnapshot, block: &CustomBlock) -> int {
    let line = wrap.buffer.point(block.position).row as int;
    match block.disposition {
        BlockDisposition::Above => wrap.first_row(line),
        BlockDisposition::Below => wrap.last_row(line),
    }
}

pub open spec fn custom_entries(wrap: &WrapSnapshot, blocks: Seq<Arc<CustomBlock>>) -> Seq<
    (int, Block),
> {
    blocks.map_values(|block: Arc<CustomBlock>| (custom_row(wrap, &*block), Block::Custom(block)))
}

/// The next excerpt is from another buffer than the one before.
pub open spec fn starts_new_buffer(boundary: ExcerptBoundary) -> bool {
    match (boundary.prev, boundary.next) {
        (_, None) => false,
        (None, Some(_)) => true,
        (Some(prev), Some(next)) => prev.buffer_id != next.buffer_id,
    }
}

/// A footer below the excerpt that ends, and a header above the one that begins.
pub open spec fn boundary_height(headers: HeaderConfig, boundary: ExcerptBoundary) -> int {
    let footer: int = if boundary.prev is Some && headers.show_excerpt_controls {
        headers.excerpt_footer_height as int
    } else {
        0
    };
    let header: int = if boundary.next is None {
        0
    } else if !starts_new_buffer(boundary) {
        headers.excerpt_header_height as int
    } else if headers.show_excerpt_controls {
        headers.buffer_header_height + headers.excerpt_header_height
    } else {
        headers.buffer_header_height as int
    };
    footer + header
}

pub open spec fn boundary_block(headers: HeaderConfig, boundary: ExcerptBoundary) -> Block {
    Block::ExcerptBoundary {
        prev_excerpt: boundary.prev,
        next_excerpt: boundary.next,
        height: boundary_height(headers, boundary) as u32,
        starts_new_buffer: starts_new_buffer(boundary),
        show_excerpt_controls: headers.show_excerpt_controls,
    }
}

/// The row of text that a boundary belongs to: the one with the start of the line where the next
/// excerpt begins, or the one with the end of the last line.
pub open spec fn boundary_row(wrap: &WrapSnapshot, boundary: ExcerptBoundary) -> int {
    if boundary.next is Some {
        wrap.first_row(boundary.row as int)
    } else {
        wrap.last_row(boundary.row as int)
    }
}

/// The boundaries that have something to show, each as a block with its row.
pub open spec fn header_entries(
    wrap: &WrapSnapshot,
    headers: HeaderConfig,
    boundaries: Seq<ExcerptBoundary>,
) -> Seq<(int, Block)>
    decreases boundaries.len(),
{
    if boundaries.len() == 0 {
        Seq::empty()
    } else {
        let before = header_entries(wrap, headers, boundaries.drop_last());
        if boundary_height(headers, boundaries.last()) == 0 {
            before
        } else {
            before.push(
                (boundary_row(wrap, boundaries.last()), boundary_block(headers, boundaries.last())),
            )
        }
    }
}

pub open spec fn shown_boundaries(buffer: &MultiBufferSnapshot) -> Seq<ExcerptBoundary> {
    if buffer.show_headers {
        buffer.boundaries@
    } else {
        Seq::empty()
    }
}

/// All blocks on display, each with the row of text it belongs to.
pub open spec fn all_entries(
    wrap: &WrapSnapshot,
    headers: HeaderConfig,
    blocks: Seq<Arc<CustomBlock>>,
) -> Seq<(int, Block)> {
    custom_entries(wrap, blocks) + header_entries(wrap, headers, shown_boundaries(&*wrap.buffer))
}

/// The lines that blocks take up.
pub open spec fn total_height(entries: Seq<(int, Block)>) -> int
    decreases entries.len(),
{
    if entries.len() == 0 {
        0
    } else {
        total_height(entries.drop_last()) + entries.last().1.height_spec()
    }
}

pub proof fn lemma_height_not_negative(entries: Seq<(int, Block)>)
    ensures
        total_height(entries) >= 0,
    decreases entries.len(),
{
    if entries.len() > 0 {
        lemma_height_not_negative(entries.drop_last());
    }
}

/// The heights of headers and footers, added up, are numbers of rows.
pub open spec fn headers_fit(wrap: &WrapSnapshot, headers: HeaderConfig) -> bool {
    forall|ix: int|
        0 <= ix < wrap.buffer.boundaries@.len() ==> boundary_height(
            headers,
            #[trigger] wrap.buffer.boundaries@[ix],
        ) <= u32::MAX
}

/// Text and blocks together have no more rows than a row number can count.
pub open spec fn layout_fits(
    wrap: &WrapSnapshot,
    headers: HeaderConfig,
    blocks: Seq<Arc<CustomBlock>>,
) -> bool {
    &&& headers_fit(wrap, headers)
    &&& wrap.rows() + total_height(all_entries(wrap, headers, blocks)) <= u32::MAX
}

/// The buffer knows where each block is.
pub open spec fn blocks_known(
    buffer: &MultiBufferSnapshot,
    blocks: Seq<Arc<CustomBlock>>,
) -> bool {
    forall|i: int| 0 <= i < blocks.len() ==> buffer.knows((#[trigger] blocks[i]).position)
}

/// The buffer knows where each block is, and has the blocks in this order.
pub open spec fn blocks_resolve(
    buffer: &MultiBufferSnapshot,
    blocks: Seq<Arc<CustomBlock>>,
) -> bool {
    &&& blocks_known(buffer, blocks)
    &&& forall|i: int, j: int|
        0 <= i <= j < blocks.len() ==> buffer.rank((#[trigger] blocks[i]).position)
            <= buffer.rank((#[trigger] blocks[j]).position)
}

/// The transforms show all of the text, and each block once, where it belongs and in order.
pub open spec fn is_layout(
    transforms: Seq<Transform>,
    wrap: &WrapSnapshot,
    headers: HeaderConfig,
    blocks: Seq<Arc<CustomBlock>>,
) -> bool {
    &&& transforms_wf(transforms)
    &&& input_rows(transforms) == wrap.rows()
    &&& placed(transforms).to_multiset() == all_entries(wrap, headers, blocks).to_multiset()
}

/// Blocks with their rows as plain numbers.
pub open spec fn lifted(blocks: Seq<(u32, Block)>) -> Seq<(int, Block)> {
    blocks.map_values(|b: (u32, Block)| (b.0 as int, b.1))
}

/// The rows of all blocks are rows of the text.
pub proof fn lemma_entry_rows(
    wrap: &WrapSnapshot,
    headers: HeaderConfig,
    blocks: Seq<Arc<CustomBlock>>,
)
    requires
        wrap.wf(),
        blocks_known(&*wrap.buffer, blocks),
    ensures
        forall|i: int|
            0 <= i < all_entries(wrap, headers, blocks).len() ==> 0 <= (#[trigger] all_entries(
                wrap,
                headers,
                blocks,
            )[i]).0 < wrap.rows(),
{
    let shown = shown_boundaries(&*wrap.buffer);
    assert forall|i: int| 0 <= i < shown.len() implies (#[trigger] shown[i]).row
        < wrap.buffer.line_lens@.len() by {
        assert(wrap.buffer.boundary_ok(i));
    }
    lemma_header_rows(wrap, headers, shown);
    let customs = custom_entries(wrap, blocks);
    assert forall|i: int| 0 <= i < all_entries(wrap, headers, blocks).len() implies 0 <= (
    #[trigger] all_entries(wrap, headers, blocks)[i]).0 < wrap.rows() by {
        if i < customs.len() {
            lemma_custom_row(wrap, &*blocks[i]);
        } else {
            assert(all_entries(wrap, headers, blocks)[i] == header_entries(wrap, headers, shown)[i
                - customs.len()]);
        }
    }
}

/// A custom block stands on a row of the text.
pub proof fn lemma_custom_row(wrap: &WrapSnapshot, block: &CustomBlock)
    requires
        wrap.wf(),
        wrap.buffer.knows(block.position),
    ensures
        wrap.buffer.point(block.position).row < wrap.buffer.line_lens@.len(),
        0 <= custom_row(wrap, block) < wrap.rows(),
{
    let rank = wrap.buffer.anchor_ranks@[block.position.0 as int] as int;
    let line = wrap.buffer.ranked_points@[rank].row as int;
    assert(wrap.line_rows@[line].first <= wrap.line_rows@[line].last < wrap.rows());
}

proof fn lemma_header_rows(
    wrap: &WrapSnapshot,
    headers: HeaderConfig,
    boundaries: Seq<ExcerptBoundary>,
)
    requires
        wrap.wf(),
        forall|i: int|
            0 <= i < boundaries.len() ==> (#[trigger] boundaries[i]).row
                < wrap.buffer.line_lens@.len(),
    ensures
        forall|i: int|
            0 <= i < header_entries(wrap, headers, boundaries).len() ==> 0 <= (
            #[trigger] header_entries(wrap, headers, boundaries)[i]).0 < wrap.rows(),
    decreases boundaries.len(),
{
    if boundaries.len() > 0 {
        let before = header_entries(wrap, headers, boundaries.drop_last());
        let fewer = boundaries.drop_last();
        assert forall|i: int| 0 <= i < fewer.len() implies (#[trigger] fewer[i]).row
            < wrap.buffer.line_lens@.len() by {
            assert(fewer[i] == boundaries[i]);
        }
        lemma_header_rows(wrap, headers, fewer);
        let line = boundaries[boundaries.len() - 1].row as int;
        assert(wrap.line_rows@[line].first <= wrap.line_rows@[line].last < wrap.rows());
        assert forall|i: int|
            0 <= i < header_entries(wrap, headers, boundaries).len() implies 0 <= (
        #[trigger] header_entries(wrap, headers, boundaries)[i]).0 < wrap.rows() by {
            if i < before.len() {
                assert(header_entries(wrap, headers, boundaries)[i] == before[i]);
            }
        }
    }
}

/// Each header or footer comes from a boundary.
pub proof fn lemma_header_source(
    wrap: &WrapSnapshot,
    headers: HeaderConfig,
    boundaries: Seq<ExcerptBoundary>,
    i: int,
) -> (n: int)
    requires
        0 <= i < header_entries(wrap, headers, boundaries).len(),
    ensures
        0 <= n < boundaries.len(),
        header_entries(wrap, headers, boundaries)[i] == (
            boundary_row(wrap, boundaries[n]),
            boundary_block(headers, boundaries[n]),
        ),
    decreases boundaries.len(),
{
    let before = boundaries.drop_last();
    if i < header_entries(wrap, headers, before).len() {
        lemma_header_source(wrap, headers, before, i)
    } else {
        boundaries.len() - 1
    }
}

/// Transforms show their text and their blocks.
pub proof fn lemma_output_rows(s: Seq<Transform>)
    requires
        items_ok(s),
    ensures
        output_rows(s) == input_rows(s) + total_height(placed(s)),
    decreases s.len(),
{
    if s.len() > 0 {
        let before = s.drop_last();
        assert(items_ok(before)) by {
            assert forall|i: int| 0 <= i < before.len() implies (#[trigger] before[i]).ok() by {
                assert(before[i] == s[i]);
            }
        }
        lemma_output_rows(before);
        assert(s.last().ok()) by {
            assert(s[s.len() - 1].ok());
        }
        if s.last().block is Some {
            assert(placed(s).drop_last() =~= placed(before));
        }
    }
}

/// Without one of the blocks, the rest take up as many lines less as it is high.
pub proof fn lemma_total_height_remove(entries: Seq<(int, Block)>, k: int)
    requires
        0 <= k < entries.len(),
    ensures
        total_height(entries) == total_height(entries.remove(k)) + entries[k].1.height_spec(),
    decreases entries.len(),
{
    if k < entries.len() - 1 {
        lemma_total_height_remove(entries.drop_last(), k);
        assert(entries.remove(k).drop_last() =~= entries.drop_last().remove(k));
        assert(entries.remove(k).last() == entries.last());
    } else {
        assert(entries.remove(k) =~= entries.drop_last());
    }
}

/// Blocks take up the same lines in any order.
pub proof fn lemma_total_height_reordered(a: Seq<(int, Block)>, b: Seq<(int, Block)>)
    requires
        a.to_multiset() == b.to_multiset(),
    ensures
        total_height(a) == total_height(b),
    decreases a.len(),
{
    assert(a.len() == a.to_multiset().len());
    assert(b.len() == b.to_multiset().len());
    if a.len() > 0 {
        let x = a.last();
        assert(a.contains(x));
        assert(a.to_multiset().count(x) > 0);
        assert(b.contains(x));
        let k = b.index_of(x);
        let rest = b.remove(k);
        assert(a.drop_last() =~= a.remove(a.len() - 1));
        assert(a.remove(a.len() - 1).to_multiset() =~= a.to_multiset().remove(x));
        assert(rest.to_multiset() =~= b.to_multiset().remove(x));
        lemma_total_height_reordered(a.drop_last(), rest);
        lemma_total_height_remove(b, k);
    }
}

/// A layout that fits has as many rows as text and blocks together.
pub proof fn lemma_layout_rows(
    transforms: Seq<Transform>,
    wrap: &WrapSnapshot,
    headers: HeaderConfig,
    blocks: Seq<Arc<CustomBlock>>,
)
    requires
        is_layout(transforms, wrap, headers, blocks),
    ensures
        output_rows(transforms) == wrap.rows() + total_height(all_entries(wrap, headers, blocks)),
{
    lemma_output_rows(transforms);
    lemma_total_height_reordered(placed(transforms), all_entries(wrap, headers, blocks));
}

/// A position between `start` and `end`, or not before `start` where there is no `end`.
pub open spec fn in_range(point: Point, start: Point, end: Option<Point>) -> bool {
    !point.lt(start) && (end matches Some(end) ==> point.lt(end))
}

pub open spec fn boundaries_in_range(
    buffer: &MultiBufferSnapshot,
    boundaries: Seq<ExcerptBoundary>,
    start: Point,
    end: Option<Point>,
) -> Seq<ExcerptBoundary> {
    boundaries.filter(|b: ExcerptBoundary| in_range(buffer.boundary_point(b), start, end))
}

/// The boundaries between two positions that have something to show.
pub fn header_and_footer_blocks(
    headers: HeaderConfig,
    start: Point,
    end: Option<Point>,
    wrap: &WrapSnapshot,
) -> (entries: Vec<(u32, Block)>)
    requires
        wrap.wf(),
        headers_fit(wrap, headers),
    ensures
        lifted(entries@) == header_entries(
            wrap,
            headers,
            boundaries_in_range(&*wrap.buffer, wrap.buffer.boundaries@, start, end),
        ),
{
    let buffer: &MultiBufferSnapshot = wrap.buffer_snapshot();
    let ghost within = |b: ExcerptBoundary| in_range(buffer.boundary_point(b), start, end);
    let ghost all = buffer.boundaries@;
    let mut entries: Vec<(u32, Block)> = Vec::new();
    let mut ix: usize = 0;
    proof {
        assert(all.take(0).filter(within) =~= Seq::empty()) by {
            reveal(Seq::filter);
        }
        assert(lifted(entries@) =~= Seq::empty());
    }
    while ix < buffer.boundaries.len()
        invariant
            wrap.wf(),
            headers_fit(wrap, headers),
            *buffer == *wrap.buffer,
            all == buffer.boundaries@,
            ix <= all.len(),
            within == (|b: ExcerptBoundary| in_range(buffer.boundary_point(b), start, end)),
            lifted(entries@) == header_entries(wrap, headers, all.take(ix as int).filter(within)),
        decreases all.len() - ix,
    {
        let boundary: ExcerptBoundary = buffer.boundaries[ix];
        let ghost so_far = all.take(ix as int).filter(within);
        let ghost entries_before = entries@;
        proof {
            assert(buffer.boundary_ok(ix as int));
            assert(all.take(ix + 1).drop_last() =~= all.take(ix as int));
            assert(all.take(ix + 1).filter(within) == if within(boundary) {
                so_far.push(boundary)
            } else {
                so_far
            }) by {
                reveal(Seq::filter);
            }
            assert(so_far.push(boundary).drop_last() =~= so_far);
        }
        let column: u32 = if boundary.next.is_some() {
            0
        } else {
            buffer.line_len(boundary.row)
        };
        let point: Point = Point::new(boundary.row, column);
        let before_end: bool = match end {
            Some(end) => point.is_before(end),
            None => true,
        };
        if !point.is_before(start) && before_end {
            let starts_new_buffer: bool = match (boundary.prev, boundary.next) {
                (_, None) => false,
                (None, Some(_)) => true,
                (Some(prev), Some(next)) => prev.buffer_id != next.buffer_id,
            };
            let mut height: u32 = 0;
            if boundary.prev.is_some() {
                if headers.show_excerpt_controls {
                    height = height + headers.excerpt_footer_height;
                }
            }
            if boundary.next.is_some() {
                if starts_new_buffer {
                    height = height + headers.buffer_header_height;
                    if headers.show_excerpt_controls {
                        height = height + headers.excerpt_header_height;
                    }
                } else {
                    height = height + headers.excerpt_header_height;
                }
            }
            if height != 0 {
                let row: u32 = if boundary.next.is_some() {
                    wrap.line_first_row(boundary.row)
                } else {
                    wrap.line_last_row(boundary.row)
                };
                entries.push(
                    (
                        row,
                        Block::ExcerptBoundary {
                            prev_excerpt: boundary.prev,
                            next_excerpt: boundary.next,
                            height,
                            starts_new_buffer,
                            show_excerpt_controls: headers.show_excerpt_controls,
                        },
                    ),
                );
                proof {
                    assert(lifted(entries@) =~= lifted(entries_before).push(
                        (boundary_row(wrap, boundary), boundary_block(headers, boundary)),
                    ));
                }
            }
        }
        ix = ix + 1;
    }
    proof {
        assert(all.take(ix as int) =~= all);
    }
    entries
}

} // verus!
