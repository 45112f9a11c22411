//! Edge cases, one by one.

use block_map::block::{
    Block, BlockDisposition, BlockId, BlockProperties, BlockStyle, CustomBlockId,
};
use block_map::buffer::{
    Anchor, BufferId, ExcerptBoundary, ExcerptId, ExcerptInfo, MultiBufferSnapshot,
};
use block_map::chunks::{Chunk, ChunkStyle};
use block_map::map::{replacements, BlockMap};
use block_map::patch::{Edit, Patch};
use block_map::point::{Bias, BlockPoint, BlockRow, Point, WrapPoint};
use block_map::render::RenderBlock;
use block_map::snapshot::BlockSnapshot;
use block_map::text::offset_for_row;
use block_map::wrap::{LineRows, WrapLine, WrapSnapshot};
use std::collections::{HashMap, HashSet};

/// A row that begins with a line of the buffer, or continues another; the next row may continue it.
fn row(text: &str, line: Option<u32>, continued: bool) -> WrapLine {
    let mut stops: Vec<u32> = text.char_indices().map(|(at, _)| at as u32).collect();
    if !continued {
        stops.push(text.len() as u32);
    }
    WrapLine {
        text: text.to_string(),
        line,
        stops,
        buffer_row: line,
    }
}

fn buffer(line_lens: &[u32], anchors: &[Point]) -> MultiBufferSnapshot {
    MultiBufferSnapshot::new(
        line_lens.to_vec(),
        (0..anchors.len()).collect(),
        anchors.to_vec(),
        Vec::new(),
        false,
        0,
    )
    .unwrap()
}

/// Lines that are not wrapped. The anchors have to ascend.
fn plain(lines: &[&str], anchors: &[Point]) -> WrapSnapshot {
    let lens: Vec<u32> = lines.iter().map(|line| line.len() as u32).collect();
    let rows: Vec<WrapLine> = lines
        .iter()
        .enumerate()
        .map(|(ix, line)| row(line, Some(ix as u32), false))
        .collect();
    let longest = (0..lines.len())
        .max_by_key(|ix| (lines[*ix].chars().count(), lines.len() - ix))
        .unwrap();
    let shown = one_row_each(lines.len());
    WrapSnapshot::new(rows, shown, longest as u32, buffer(&lens, anchors)).unwrap()
}

fn shown_in(rows: &[(u32, u32)]) -> Vec<LineRows> {
    rows.iter()
        .map(|(first, last)| LineRows {
            first: *first,
            last: *last,
        })
        .collect()
}

fn one_row_each(lines: usize) -> Vec<LineRows> {
    shown_in(&(0..lines as u32).map(|row| (row, row)).collect::<Vec<_>>())
}

/// "abcd" wrapped after two characters, and "ef".
fn wrapped(anchors: &[Point]) -> WrapSnapshot {
    let rows = vec![
        row("ab", Some(0), true),
        row("cd", None, false),
        row("ef", Some(1), false),
    ];
    WrapSnapshot::new(rows, shown_in(&[(0, 1), (2, 2)]), 0, buffer(&[4, 2], anchors)).unwrap()
}

fn properties(
    anchor: usize,
    height: u32,
    disposition: BlockDisposition,
    priority: usize,
) -> BlockProperties<Anchor> {
    BlockProperties {
        style: BlockStyle::Flex,
        position: Anchor(anchor),
        height,
        disposition,
        render: RenderBlock(40 + anchor as u64),
        priority,
    }
}

fn above(anchor: usize, height: u32) -> BlockProperties<Anchor> {
    properties(anchor, height, BlockDisposition::Above, 0)
}

fn below(anchor: usize, height: u32) -> BlockProperties<Anchor> {
    properties(anchor, height, BlockDisposition::Below, 0)
}

fn map_with(wrap: &WrapSnapshot, blocks: Vec<BlockProperties<Anchor>>) -> BlockMap {
    let mut map = BlockMap::new(wrap.clone(), false, 1, 1, 1);
    map.write(wrap.clone(), Patch::default()).insert(blocks);
    map
}

fn snapshot(wrap: &WrapSnapshot, blocks: Vec<BlockProperties<Anchor>>) -> BlockSnapshot {
    let mut map = map_with(wrap, blocks);
    let snapshot = map.read(wrap.clone(), Patch::default()).snapshot.clone();
    snapshot
}

fn ids(snapshot: &BlockSnapshot) -> Vec<(u32, BlockId)> {
    snapshot
        .blocks_in_range(0..u32::MAX)
        .into_iter()
        .map(|(row, block)| (row, block.id()))
        .collect()
}

#[test]
fn a_map_without_blocks_shows_the_text() {
    let wrap = plain(&["one", "", "three"], &[]);
    let shown = snapshot(&wrap, Vec::new());
    assert_eq!(shown.text(), "one\n\nthree");
    assert_eq!(shown.max_point(), BlockPoint::new(2, 5));
    assert_eq!(shown.longest_row(), 2);
    assert_eq!(shown.blocks_in_range(0..3).len(), 0);
    assert_eq!(shown.transforms.len(), 1);
}

#[test]
fn blocks_without_lines_are_found_but_not_seen() {
    let wrap = plain(&["one", "two"], &[Point::new(0, 1), Point::new(1, 1)]);
    let shown = snapshot(&wrap, vec![above(0, 0), below(1, 0), above(1, 2)]);
    assert_eq!(shown.text(), "one\n\n\ntwo");
    assert_eq!(
        ids(&shown),
        vec![
            (0, BlockId::Custom(CustomBlockId(0))),
            (1, BlockId::Custom(CustomBlockId(2))),
            (4, BlockId::Custom(CustomBlockId(1))),
        ]
    );
    assert_eq!(shown.max_point(), BlockPoint::new(3, 3));
}

#[test]
fn ranges_of_rows_take_in_the_blocks_that_reach_into_them() {
    let wrap = plain(&["one", "two", "six"], &[Point::new(1, 0), Point::new(2, 0)]);
    let shown = snapshot(&wrap, vec![above(0, 3), above(1, 0), above(1, 1)]);
    // Rows: one, three lines, two, a block without lines and one with a line, six.
    let starts = |from: u32, to: u32| -> Vec<u32> {
        shown
            .blocks_in_range(from..to)
            .into_iter()
            .map(|(row, _)| row)
            .collect()
    };
    assert_eq!(starts(0, 1), Vec::<u32>::new());
    assert_eq!(starts(0, 2), vec![1]);
    assert_eq!(starts(3, 4), vec![1]);
    assert_eq!(starts(4, 5), vec![5]);
    assert_eq!(starts(5, 6), vec![5, 5]);
    assert_eq!(starts(6, 7), Vec::<u32>::new());
    assert_eq!(starts(0, 7), vec![1, 5, 5]);
}

#[test]
fn higher_priorities_and_older_blocks_come_first() {
    let wrap = plain(&["one"], &[Point::new(0, 0)]);
    let shown = snapshot(
        &wrap,
        vec![
            properties(0, 1, BlockDisposition::Above, 1),
            properties(0, 1, BlockDisposition::Above, 5),
            properties(0, 1, BlockDisposition::Below, 9),
            properties(0, 1, BlockDisposition::Above, 5),
        ],
    );
    assert_eq!(
        ids(&shown),
        vec![
            (0, BlockId::Custom(CustomBlockId(1))),
            (1, BlockId::Custom(CustomBlockId(3))),
            (2, BlockId::Custom(CustomBlockId(0))),
            (4, BlockId::Custom(CustomBlockId(2))),
        ]
    );
}

#[test]
fn blocks_are_sorted_with_headers_first() {
    let wrap = with_excerpts(&["", "x"], 0);
    let mut headers = BlockMap::header_and_footer_blocks(
        true,
        3,
        1,
        2,
        Point::new(1, 0),
        None,
        &wrap,
    );
    assert_eq!(headers.len(), 2);
    let shown = snapshot(&plain(&["one", "two"], &[Point::new(1, 0)]), vec![above(0, 1)]);
    let custom = shown.block_for_id(BlockId::Custom(CustomBlockId(0))).unwrap();
    let mut blocks = vec![(1, custom)];
    blocks.append(&mut headers);
    BlockMap::sort_blocks(&mut blocks);
    let order: Vec<(u32, BlockId)> = blocks
        .iter()
        .map(|(row, block)| (*row, block.id()))
        .collect();
    assert_eq!(
        order,
        vec![
            (1, BlockId::ExcerptBoundary(Some(ExcerptId(2)))),
            (1, BlockId::Custom(CustomBlockId(0))),
            (1, BlockId::ExcerptBoundary(None)),
        ]
    );
}

fn excerpt(id: usize, buffer: u64) -> Option<ExcerptInfo> {
    Some(ExcerptInfo {
        id: ExcerptId(id),
        buffer_id: BufferId(buffer),
    })
}

/// One excerpt for each line, all from one buffer. The last one can be another.
fn with_excerpts(lines: &[&str], replaced: usize) -> WrapSnapshot {
    let mut boundaries = Vec::new();
    let mut prev = None;
    for ix in 0..lines.len() {
        let id = if ix + 1 == lines.len() {
            ix + 1 + 10 * replaced
        } else {
            ix + 1
        };
        let next = excerpt(id, 7);
        boundaries.push(ExcerptBoundary {
            prev,
            next,
            row: ix as u32,
        });
        prev = next;
    }
    boundaries.push(ExcerptBoundary {
        prev,
        next: None,
        row: lines.len() as u32 - 1,
    });
    let lens = lines.iter().map(|line| line.len() as u32).collect();
    let rows = lines
        .iter()
        .enumerate()
        .map(|(ix, line)| row(line, Some(ix as u32), false))
        .collect();
    let longest = (0..lines.len())
        .max_by_key(|ix| (lines[*ix].len(), lines.len() - ix))
        .unwrap();
    let buffer =
        MultiBufferSnapshot::new(lens, Vec::new(), Vec::new(), boundaries, true, replaced)
            .unwrap();
    WrapSnapshot::new(rows, one_row_each(lines.len()), longest as u32, buffer).unwrap()
}

#[test]
fn headers_are_as_high_as_what_they_show() {
    let wrap = with_excerpts(&["a", "b"], 0);
    let heights = |controls: bool| -> Vec<u32> {
        BlockMap::header_and_footer_blocks(controls, 8, 4, 2, Point::new(0, 0), None, &wrap)
            .iter()
            .map(|(_, block)| block.height())
            .collect()
    };
    // A new buffer; the same buffer after a footer; a footer alone.
    assert_eq!(heights(true), vec![4 + 2, 8 + 2, 8]);
    // Without controls there are no footers, and the last boundary shows nothing.
    assert_eq!(heights(false), vec![4, 2]);
    let first_row: Vec<u32> = BlockMap::header_and_footer_blocks(
        true,
        8,
        4,
        2,
        Point::new(0, 0),
        Some(Point::new(1, 0)),
        &wrap,
    )
    .iter()
    .map(|(row, _)| *row)
    .collect();
    assert_eq!(first_row, vec![0]);
}

#[test]
fn boundaries_are_found_by_the_excerpt_that_follows() {
    let wrap = with_excerpts(&["a", "b"], 0);
    let mut map = BlockMap::new(wrap.clone(), true, 1, 1, 1);
    assert!(map.show_excerpt_controls());
    let reader = map.read(wrap, Patch::default());
    assert_eq!(reader.text(), "\n\na\n\n\nb\n");
    let found = reader.block_for_id(BlockId::ExcerptBoundary(Some(ExcerptId(2))));
    match found {
        Some(Block::ExcerptBoundary {
            prev_excerpt,
            next_excerpt,
            height,
            starts_new_buffer,
            show_excerpt_controls,
        }) => {
            assert_eq!(prev_excerpt, excerpt(1, 7));
            assert_eq!(next_excerpt, excerpt(2, 7));
            assert_eq!(height, 2);
            assert!(!starts_new_buffer);
            assert!(show_excerpt_controls);
        }
        _ => panic!("no boundary"),
    }
    assert!(reader
        .block_for_id(BlockId::ExcerptBoundary(None))
        .is_some());
    assert!(reader
        .block_for_id(BlockId::ExcerptBoundary(Some(ExcerptId(3))))
        .is_none());
    assert!(reader
        .block_for_id(BlockId::Custom(CustomBlockId(0)))
        .is_none());
}

#[test]
fn an_empty_excerpt_at_the_end_can_be_replaced_without_an_edit() {
    let before = with_excerpts(&["a", ""], 0);
    let mut map = BlockMap::new(before.clone(), true, 1, 1, 1);
    let after = with_excerpts(&["a", ""], 1);
    let reader = map.read(after, Patch::default());
    assert_eq!(
        ids(&reader.snapshot),
        vec![
            (0, BlockId::ExcerptBoundary(Some(ExcerptId(1)))),
            (3, BlockId::ExcerptBoundary(Some(ExcerptId(12)))),
            (6, BlockId::ExcerptBoundary(None)),
        ]
    );
}

#[test]
fn points_beyond_the_end_are_taken_to_the_end() {
    let wrap = plain(&["one", "two"], &[Point::new(1, 0)]);
    let shown = snapshot(&wrap, vec![below(0, 2)]);
    assert_eq!(shown.max_point(), BlockPoint::new(3, 0));
    for bias in [Bias::Left, Bias::Right] {
        assert_eq!(
            shown.clip_point(BlockPoint::new(4, 0), bias),
            BlockPoint::new(3, 0)
        );
        // The lines of the block below the last line belong to its end.
        assert_eq!(
            shown.clip_point(BlockPoint::new(3, 0), bias),
            BlockPoint::new(1, 3)
        );
    }
    assert_eq!(
        shown.to_block_point(WrapPoint::new(2, 1)),
        BlockPoint::new(3, 0)
    );
    assert_eq!(
        shown.to_wrap_point(BlockPoint::new(9, 1)),
        WrapPoint::new(1, 3)
    );
    assert!(!shown.is_block_line(BlockRow(1)));
    assert!(shown.is_block_line(BlockRow(2)));
    assert!(!shown.is_block_line(BlockRow(4)));
    assert_eq!(shown.line_len(BlockRow(1)), 3);
    assert_eq!(shown.line_len(BlockRow(3)), 0);
}

#[test]
fn a_block_above_the_first_line_is_clipped_to_the_first_line() {
    let wrap = plain(&["one"], &[Point::new(0, 2)]);
    let shown = snapshot(&wrap, vec![above(0, 2)]);
    for bias in [Bias::Left, Bias::Right] {
        assert_eq!(
            shown.clip_point(BlockPoint::new(1, 5), bias),
            BlockPoint::new(2, 0)
        );
    }
    assert_eq!(
        shown.clip_point(BlockPoint::new(2, 9), Bias::Left),
        BlockPoint::new(2, 3)
    );
}

#[test]
fn clipping_at_a_soft_wrap_goes_either_way() {
    let wrap = wrapped(&[Point::new(0, 1)]);
    let shown = snapshot(&wrap, vec![above(0, 1), below(0, 1)]);
    assert_eq!(shown.text(), "\nab\ncd\n\nef");
    // Behind "ab" the cursor is before "c" or before "b".
    assert_eq!(
        shown.clip_point(BlockPoint::new(1, 2), Bias::Right),
        BlockPoint::new(2, 0)
    );
    assert_eq!(
        shown.clip_point(BlockPoint::new(1, 2), Bias::Left),
        BlockPoint::new(1, 1)
    );
    assert_eq!(
        shown.clip_point(BlockPoint::new(3, 0), Bias::Left),
        BlockPoint::new(2, 2)
    );
    assert_eq!(
        shown.clip_point(BlockPoint::new(3, 0), Bias::Right),
        BlockPoint::new(4, 0)
    );
}

#[test]
fn clipping_leads_out_of_a_run_of_text() {
    // A fold hides the start of the second line of the buffer in the second row, which continues
    // the first. A block above the second line stands between the two.
    let rows = vec![
        row("ab", Some(0), true),
        row("cd", None, false),
    ];
    let wrap = WrapSnapshot::new(
        rows,
        shown_in(&[(0, 1), (1, 1)]),
        0,
        buffer(&[4, 1], &[Point::new(1, 0)]),
    )
    .unwrap();
    let shown = snapshot(&wrap, vec![above(0, 1)]);
    assert_eq!(shown.text(), "ab\n\ncd");
    assert_eq!(
        shown.clip_point(BlockPoint::new(0, 2), Bias::Right),
        BlockPoint::new(2, 0)
    );
    assert_eq!(
        shown.clip_point(BlockPoint::new(1, 0), Bias::Left),
        BlockPoint::new(0, 1)
    );
}

fn chunk(text: &str, style: u64) -> Chunk {
    Chunk {
        text: text.to_string(),
        style: ChunkStyle(style),
    }
}

fn pieces(
    shown: &BlockSnapshot,
    rows: std::ops::Range<u32>,
    masked: bool,
    input: Vec<Chunk>,
) -> Vec<(String, u64)> {
    let mut chunks = shown.chunks(rows, masked, input);
    let mut pieces = Vec::new();
    while let Some(chunk) = chunks.next() {
        pieces.push((chunk.text, chunk.style.0));
    }
    pieces
}

#[test]
fn chunks_end_at_blocks_and_keep_their_style() {
    let wrap = plain(&["one", "two", "six"], &[Point::new(1, 0), Point::new(2, 0)]);
    let shown = snapshot(&wrap, vec![above(0, 2), below(1, 2)]);
    let input = vec![chunk("on", 1), chunk("e\ntwo\ns", 2), chunk("ix", 3)];
    let expected = [
        ("on", 1),
        ("e\n", 2),
        ("\n\n", 0),
        ("two\ns", 2),
        ("ix", 3),
        ("\n", 0),
        ("\n", 0),
    ];
    let found = pieces(&shown, 0..7, false, input);
    assert_eq!(found.len(), expected.len());
    for (found, expected) in found.iter().zip(expected) {
        assert_eq!(found.0, expected.0);
        assert_eq!(found.1, expected.1);
    }
}

#[test]
fn ranges_of_chunks_end_with_their_rows() {
    let wrap = plain(&["one", "two"], &[Point::new(1, 0)]);
    let shown = snapshot(&wrap, vec![above(0, 2), below(0, 2)]);
    let text = |from: u32, to: u32| -> String {
        let (start, end) = shown.input_range(from..to);
        pieces(&shown, from..to, false, shown.wrap_snapshot.chunks(start, end))
            .into_iter()
            .map(|piece| piece.0)
            .collect()
    };
    assert_eq!(shown.text(), "one\n\n\ntwo\n\n");
    assert_eq!(text(0, 1), "one\n");
    assert_eq!(text(0, 2), "one\n\n");
    assert_eq!(text(1, 3), "\n\n");
    assert_eq!(text(2, 3), "\n");
    // The last line of the text has no line break of its own.
    assert_eq!(text(3, 4), "two");
    assert_eq!(text(3, 5), "two\n\n");
    assert_eq!(text(4, 6), "\n");
    assert_eq!(text(5, 6), "");
    assert_eq!(text(6, 9), "");
    assert_eq!(shown.input_range(0..3), (0, 1));
    assert_eq!(shown.input_range(1..3), (1, 1));
    assert_eq!(shown.input_range(3..9), (1, 2));
}

#[test]
fn masked_chunks_are_bullets_for_characters() {
    let wrap = plain(&["\u{e9}a", "b"], &[Point::new(1, 0)]);
    let shown = snapshot(&wrap, vec![above(0, 1)]);
    let input = vec![chunk("\u{e9}a\nb", 5)];
    assert_eq!(
        pieces(&shown, 0..3, true, input),
        vec![
            ("***".to_string(), 5),
            ("\n".to_string(), 0),
            ("*".to_string(), 5),
        ]
    );
}

#[test]
fn numbers_are_those_of_the_rows_of_text() {
    let wrap = wrapped(&[Point::new(1, 0)]);
    let shown = snapshot(&wrap, vec![above(0, 1), below(0, 0)]);
    let mut rows = shown.buffer_rows(BlockRow(1));
    assert_eq!(rows.next(), Some(None));
    assert_eq!(rows.next(), Some(None));
    assert_eq!(rows.next(), Some(Some(BlockRow(1))));
    assert_eq!(rows.next(), None);
    assert_eq!(rows.next(), None);
    assert_eq!(shown.buffer_rows(BlockRow(9)).next(), None);
}

#[test]
fn taking_out_what_was_put_in_leaves_the_map_as_it_was() {
    let wrap = plain(&["one", "two"], &[Point::new(0, 1), Point::new(1, 1)]);
    let mut map = map_with(&wrap, vec![above(1, 1), below(0, 2)]);
    let before = map.read(wrap.clone(), Patch::default()).snapshot.clone();
    let ids: HashSet<usize> = map
        .write(wrap.clone(), Patch::default())
        .insert(vec![above(0, 3), below(1, 1), above(1, 4)])
        .iter()
        .map(|id| id.0)
        .collect();
    let between = map.read(wrap.clone(), Patch::default()).text();
    assert_eq!(between, "\n\n\none\n\n\n\n\n\n\n\ntwo\n");
    map.write(wrap.clone(), Patch::default()).remove(ids);
    let after = map.read(wrap, Patch::default());
    assert_eq!(after.text(), before.text());
    assert_eq!(
        after.blocks.iter().map(|block| block.id.0).collect::<Vec<_>>(),
        vec![1, 0]
    );
}

#[test]
fn ids_that_are_not_there_change_nothing() {
    let wrap = plain(&["one"], &[Point::new(0, 1)]);
    let mut map = map_with(&wrap, vec![above(0, 1)]);
    let mut writer = map.write(wrap.clone(), Patch::default());
    writer.remove([5].into_iter().collect());
    writer.resize([(6, 3)].into_iter().collect());
    assert_eq!(map.read(wrap, Patch::default()).text(), "\none");
}

#[test]
fn callbacks_are_replaced_in_layouts_that_were_read_before() {
    let wrap = plain(&["one"], &[Point::new(0, 0), Point::new(0, 1)]);
    let mut map = map_with(&wrap, vec![above(0, 1), above(1, 1)]);
    let shown = map.read(wrap.clone(), Patch::default()).snapshot.clone();
    let renderers: HashMap<usize, RenderBlock> =
        [(1, RenderBlock(90)), (7, RenderBlock(91))].into_iter().collect();
    assert_eq!(
        replacements(&map.custom_blocks, &renderers),
        vec![(1, RenderBlock(90))]
    );
    let callbacks = |shown: &BlockSnapshot| -> Vec<RenderBlock> {
        shown
            .blocks_in_range(0..2)
            .into_iter()
            .map(|(_, block)| match block {
                Block::Custom(block) => block.render(),
                Block::ExcerptBoundary { .. } => panic!("not a custom block"),
            })
            .collect()
    };
    assert_eq!(callbacks(&shown), vec![RenderBlock(40), RenderBlock(41)]);
    map.replace_blocks(renderers);
    assert_eq!(callbacks(&shown), vec![RenderBlock(40), RenderBlock(90)]);
    // A block keeps its callback when it is resized.
    map.write(wrap.clone(), Patch::default())
        .resize([(1, 2)].into_iter().collect());
    let resized = map.read(wrap, Patch::default()).snapshot.clone();
    assert_eq!(callbacks(&resized), vec![RenderBlock(40), RenderBlock(90)]);
    assert_eq!(resized.text(), "\n\n\none");
}

#[test]
fn blocks_are_described_by_their_properties() {
    let wrap = plain(&["one"], &[Point::new(0, 2)]);
    let shown = snapshot(&wrap, vec![below(0, 4)]);
    let block = shown
        .block_for_id(BlockId::Custom(CustomBlockId(0)))
        .unwrap();
    assert_eq!(block.height(), 4);
    assert_eq!(block.style(), BlockStyle::Flex);
    match &block {
        Block::Custom(block) => {
            assert_eq!(*block.position(), Anchor(0));
            assert_eq!(block.style(), BlockStyle::Flex);
            assert!(block.disposition.is_below());
        }
        Block::ExcerptBoundary { .. } => panic!("not a custom block"),
    }
    let boundary = Block::ExcerptBoundary {
        prev_excerpt: None,
        next_excerpt: excerpt(3, 1),
        height: 2,
        starts_new_buffer: true,
        show_excerpt_controls: false,
    };
    assert_eq!(boundary.style(), BlockStyle::Sticky);
    assert_eq!(boundary.id(), BlockId::ExcerptBoundary(Some(ExcerptId(3))));
}

#[test]
fn ids_have_names() {
    let name = |id: BlockId| id.to_string();
    assert_eq!(
        name(BlockId::Custom(CustomBlockId(0))),
        "Block(CustomBlockId(0))"
    );
    assert_eq!(
        name(BlockId::Custom(CustomBlockId(1207))),
        "Block(CustomBlockId(1207))"
    );
    assert_eq!(
        name(BlockId::ExcerptBoundary(Some(ExcerptId(35)))),
        "ExcerptHeader(Some(ExcerptId(35)))"
    );
    assert_eq!(
        name(BlockId::ExcerptBoundary(None)),
        "ExcerptHeader(None)"
    );
}

#[test]
fn edits_that_reach_beyond_the_text_end_with_it() {
    let before = plain(&["one", "two"], &[Point::new(1, 1)]);
    let mut map = map_with(&before, vec![below(0, 1)]);
    let after = plain(&["one", "six", "ten"], &[Point::new(2, 1)]);
    let edits = Patch::new(vec![Edit {
        old: 1..9,
        new: 1..12,
    }]);
    assert_eq!(map.read(after, edits).text(), "one\nsix\nten\n");
}

#[test]
fn two_edits_in_one_run_of_text_are_taken_together() {
    let before = plain(
        &["a", "b", "c", "d", "e"],
        &[Point::new(0, 0), Point::new(2, 0), Point::new(4, 0)],
    );
    let mut map = map_with(&before, vec![above(0, 1), above(1, 1), below(2, 1)]);
    let after = plain(
        &["a", "B", "b", "c", "D", "E", "e"],
        &[Point::new(0, 0), Point::new(3, 0), Point::new(6, 0)],
    );
    let edits = Patch::new(vec![
        Edit {
            old: 1..2,
            new: 1..3,
        },
        Edit {
            old: 3..4,
            new: 4..6,
        },
    ]);
    let reader = map.read(after, edits);
    assert_eq!(reader.text(), "\na\nB\nb\n\nc\nD\nE\ne\n");
}

#[test]
fn all_rows_can_be_replaced_by_any_text() {
    let before = plain(&["a", "b", "c"], &[Point::new(0, 0), Point::new(2, 0)]);
    let mut map = map_with(&before, vec![above(0, 1), below(1, 1)]);
    let after = plain(&["x"], &[Point::new(0, 0), Point::new(0, 1)]);
    let edits = Patch::new(vec![Edit {
        old: 0..3,
        new: 0..1,
    }]);
    assert_eq!(map.read(after, edits).text(), "\nx\n");
}

#[test]
fn a_layout_does_not_depend_on_how_it_came_about() {
    let anchors = [Point::new(0, 0), Point::new(1, 0), Point::new(1, 1)];
    let wrap = plain(&["a", "b"], &anchors);
    let blocks = || vec![above(1, 2), below(0, 1), above(2, 1)];
    let at_once = snapshot(&wrap, blocks());
    let mut map = BlockMap::new(wrap.clone(), false, 1, 1, 1);
    for block in blocks() {
        map.write(wrap.clone(), Patch::default()).insert(vec![block]);
    }
    let one_by_one = map.read(wrap, Patch::default());
    assert_eq!(at_once.text(), one_by_one.text());
    assert_eq!(ids(&at_once), ids(&one_by_one.snapshot));
}

#[test]
fn longest_rows_are_longest_in_characters() {
    let wrap = plain(&["\u{20ac}\u{20ac}", "abc"], &[Point::new(0, 0)]);
    let shown = snapshot(&wrap, vec![above(0, 2)]);
    assert_eq!(shown.longest_row(), 3);
    assert_eq!(shown.line_len(BlockRow(2)), 6);
}

#[test]
fn rows_of_text_end_behind_their_line_break() {
    assert_eq!(offset_for_row("\u{20ac}\n\u{20ac}", 1), (1, 4));
    assert_eq!(offset_for_row("\u{20ac}\n\u{20ac}", 2), (1, 7));
    assert_eq!(offset_for_row("\n\n", 2), (2, 2));
}

#[test]
fn buffers_whose_parts_do_not_go_together_are_refused() {
    let new = |lens: &[u32], ranks: &[usize], points: &[Point], boundaries: &[ExcerptBoundary]| {
        MultiBufferSnapshot::new(
            lens.to_vec(),
            ranks.to_vec(),
            points.to_vec(),
            boundaries.to_vec(),
            true,
            0,
        )
        .is_some()
    };
    let start = ExcerptBoundary {
        prev: None,
        next: excerpt(1, 1),
        row: 0,
    };
    let end = ExcerptBoundary {
        prev: excerpt(1, 1),
        next: None,
        row: 1,
    };
    assert!(new(&[1, 2], &[0], &[Point::new(1, 2)], &[start, end]));
    // No line; an anchor without a point; points out of order; a point outside.
    assert!(!new(&[], &[], &[], &[]));
    assert!(!new(&[1], &[1], &[Point::new(0, 0)], &[]));
    assert!(!new(&[1, 1], &[], &[Point::new(1, 0), Point::new(0, 1)], &[]));
    assert!(!new(&[1], &[], &[Point::new(1, 0)], &[]));
    // A boundary outside; the end of the last excerpt not in the last line; an excerpt twice.
    assert!(!new(&[1], &[], &[], &[end]));
    assert!(!new(&[1, 1, 1], &[], &[], &[end]));
    assert!(!new(&[1, 1], &[], &[], &[start, start]));
}

#[test]
fn texts_whose_parts_do_not_go_together_are_refused() {
    let new = |rows: Vec<WrapLine>, shown: &[(u32, u32)], longest: u32| {
        WrapSnapshot::new(rows, shown_in(shown), longest, buffer(&[4, 2], &[])).is_some()
    };
    let first = || row("ab", Some(0), true);
    let second = || row("cd", None, false);
    let third = || row("ef", Some(1), false);
    let all = || vec![first(), second(), third()];
    assert!(new(all(), &[(0, 1), (2, 2)], 2));
    // No row; a longest row that is none or is not longest.
    assert!(!new(Vec::new(), &[(0, 0), (0, 0)], 0));
    assert!(!new(all(), &[(0, 1), (2, 2)], 3));
    assert!(!new(
        vec![row("abc", Some(0), false), third()],
        &[(0, 0), (1, 1)],
        1
    ));
    // The first row continues another, or begins with another line.
    assert!(!new(vec![second()], &[(0, 0), (0, 0)], 0));
    assert!(!new(vec![third()], &[(0, 0), (0, 0)], 0));
    // A line that is not shown; one that is shown outside, backwards, or before an earlier one.
    assert!(!new(all(), &[(0, 1)], 0));
    assert!(!new(all(), &[(0, 1), (2, 3)], 0));
    assert!(!new(all(), &[(1, 0), (2, 2)], 0));
    assert!(!new(all(), &[(0, 2), (1, 2)], 0));
    // A row that begins with a line that is not there, is shown before, or comes too late.
    assert!(!new(
        vec![first(), second(), row("x", Some(2), false)],
        &[(0, 1), (2, 2)],
        0
    ));
    assert!(!new(all(), &[(0, 1), (1, 2)], 0));
    assert!(!new(all(), &[(0, 2), (2, 2)], 0));
    // A row that continues another and has a number.
    let mut numbered = all();
    numbered[1].buffer_row = Some(0);
    assert!(!new(numbered, &[(0, 1), (2, 2)], 0));
    // A line break in a row; no place for a cursor; none at the end of a line; places out of order.
    assert!(!new(vec![row("a\n", Some(0), false)], &[(0, 0), (0, 0)], 0));
    let stops = |stops: &[u32]| {
        let mut line = row("ab", Some(0), false);
        line.stops = stops.to_vec();
        new(vec![line], &[(0, 0), (0, 0)], 0)
    };
    assert!(stops(&[0, 2]));
    assert!(!stops(&[]));
    assert!(!stops(&[0, 1]));
    assert!(!stops(&[1, 2]));
    assert!(!stops(&[0, 2, 1]));
    assert!(!stops(&[0, 3]));
}

#[test]
fn chunks_have_a_greatest_length() {
    let wrap = plain(&["one", "two"], &[Point::new(0, 0), Point::new(1, 0)]);
    let fits = |height: u32, anchor: usize, from: u32| -> bool {
        let shown = snapshot(&wrap, vec![below(anchor, height)]);
        let end = shown.max_point().row + 1;
        let (start, to) = shown.input_range(from..end);
        let input = shown.wrap_snapshot.chunks(start, to);
        let chunks = shown.chunks(from..end, false, input);
        chunks.next_fits()
    };
    // Above text each line of a block has a line break; at the end one has none.
    assert!(fits(255, 0, 1));
    assert!(!fits(256, 0, 1));
    assert!(fits(256, 0, 2));
    assert!(fits(256, 1, 2));
    assert!(!fits(257, 1, 2));

    let masked = |len: usize| -> bool {
        let text = "\u{20ac}".repeat(len);
        let shown = snapshot(&plain(&[text.as_str()], &[]), Vec::new());
        let chunks = shown.chunks(0..1, true, vec![chunk(text.as_str(), 0)]);
        chunks.next_fits()
    };
    assert!(masked(128));
    assert!(!masked(129));
}

#[test]
fn rows_of_text_and_lines_of_blocks_add_up() {
    let wrap = wrapped(&[Point::new(0, 0), Point::new(1, 0)]);
    let shown = snapshot(&wrap, vec![above(0, 4), below(0, 0), above(1, 2), below(1, 5)]);
    assert_eq!(shown.max_point().row + 1, 3 + 4 + 2 + 5);
    assert_eq!(shown.text().matches('\n').count(), 3 + 4 + 2 + 5 - 1);
}

#[test]
fn every_block_has_an_id_of_its_own() {
    let wrap = with_excerpts(&["a", "b", "c"], 0);
    let mut map = BlockMap::new(wrap.clone(), true, 1, 1, 1);
    let reader = map.read(wrap, Patch::default());
    let all = ids(&reader.snapshot);
    assert_eq!(all.len(), 4);
    let distinct: HashSet<BlockId> = all.iter().map(|(_, id)| *id).collect();
    assert_eq!(distinct.len(), 4);
}

#[test]
fn heights_can_be_given_back() {
    let wrap = plain(&["one", "two"], &[Point::new(0, 0), Point::new(1, 0)]);
    let mut map = map_with(&wrap, vec![above(0, 1), below(1, 2)]);
    let before = map.read(wrap.clone(), Patch::default()).text();
    let mut writer = map.write(wrap.clone(), Patch::default());
    writer.resize([(0, 3), (1, 0)].into_iter().collect());
    assert_eq!(
        map.read(wrap.clone(), Patch::default()).text(),
        "\n\n\none\ntwo"
    );
    let mut writer = map.write(wrap.clone(), Patch::default());
    writer.resize([(0, 1), (1, 2)].into_iter().collect());
    assert_eq!(map.read(wrap, Patch::default()).text(), before);
}

#[test]
fn masked_text_in_ascii_keeps_its_length() {
    let wrap = plain(&["plain text"], &[]);
    let shown = snapshot(&wrap, Vec::new());
    let found = pieces(&shown, 0..1, true, vec![chunk("plain text", 1)]);
    assert_eq!(found, vec![("**********".to_string(), 1)]);
}

/// What a layout shows: its text, its blocks, and the numbers beside its rows.
fn shown_by(snapshot: &BlockSnapshot) -> (String, Vec<(u32, BlockId)>, Vec<Option<BlockRow>>) {
    let mut rows = snapshot.buffer_rows(BlockRow(0));
    let mut numbers = Vec::new();
    while let Some(number) = rows.next() {
        numbers.push(number);
    }
    (snapshot.text(), ids(snapshot), numbers)
}

#[test]
fn reading_again_shows_the_same() {
    let wrap = wrapped(&[Point::new(0, 1), Point::new(1, 0)]);
    let mut map = map_with(&wrap, vec![below(0, 0), above(1, 2)]);
    let first = shown_by(&map.read(wrap.clone(), Patch::default()).snapshot);
    assert_eq!(first.0, "ab\ncd\n\n\nef");
    assert_eq!(
        first.1,
        vec![
            (2, BlockId::Custom(CustomBlockId(0))),
            (2, BlockId::Custom(CustomBlockId(1))),
        ]
    );
    assert_eq!(
        first.2,
        vec![Some(BlockRow(0)), None, None, None, Some(BlockRow(1))]
    );
    for _ in 0..3 {
        assert_eq!(
            shown_by(&map.read(wrap.clone(), Patch::default()).snapshot),
            first
        );
        let given = map.write(wrap.clone(), Patch::default()).insert(Vec::new());
        assert_eq!(given, Vec::new());
    }
    assert_eq!(shown_by(&map.read(wrap, Patch::default()).snapshot), first);
}

#[test]
fn ids_are_not_given_out_again() {
    let wrap = plain(&["one"], &[Point::new(0, 1)]);
    let mut map = map_with(&wrap, vec![above(0, 1), above(0, 1)]);
    map.write(wrap.clone(), Patch::default())
        .remove([0, 1].into_iter().collect());
    let given = map
        .write(wrap.clone(), Patch::default())
        .insert(vec![below(0, 3), above(0, 2)]);
    assert_eq!(given, vec![CustomBlockId(2), CustomBlockId(3)]);
    assert_eq!(map.read(wrap, Patch::default()).text(), "\n\none\n\n\n");
}

#[test]
fn what_is_put_in_and_taken_out_again_leaves_what_was_shown() {
    let wrap = wrapped(&[Point::new(0, 0), Point::new(0, 3), Point::new(1, 1)]);
    let mut map = map_with(&wrap, vec![below(1, 2), above(2, 0)]);
    let before = shown_by(&map.read(wrap.clone(), Patch::default()).snapshot);
    let given = map
        .write(wrap.clone(), Patch::default())
        .insert(vec![above(0, 1), below(0, 0), below(2, 4)]);
    let between = map.read(wrap.clone(), Patch::default()).snapshot.clone();
    assert_eq!(between.text(), "\nab\ncd\n\n\nef\n\n\n\n");
    assert_eq!(between.max_point().0.row, 5 + 5 - 1);
    map.write(wrap.clone(), Patch::default())
        .remove(given.into_iter().map(|id| id.0).collect());
    assert_eq!(shown_by(&map.read(wrap, Patch::default()).snapshot), before);
}

#[test]
fn columns_of_anchors_make_no_difference() {
    let anchors = [
        Point::new(0, 0),
        Point::new(0, 1),
        Point::new(0, 3),
        Point::new(1, 0),
        Point::new(1, 2),
    ];
    let wrap = wrapped(&anchors);
    let shown = |first: usize, second: usize, third: usize| {
        shown_by(&snapshot(
            &wrap,
            vec![below(first, 1), above(second, 2), below(third, 0)],
        ))
    };
    let expected = shown(0, 1, 3);
    assert_eq!(expected.0, "\n\nab\ncd\n\nef");
    assert_eq!(
        expected.1,
        vec![
            (0, BlockId::Custom(CustomBlockId(1))),
            (4, BlockId::Custom(CustomBlockId(0))),
            (6, BlockId::Custom(CustomBlockId(2))),
        ]
    );
    for first in 0..3 {
        for second in 0..3 {
            for third in 3..5 {
                assert_eq!(shown(first, second, third), expected);
            }
        }
    }
}

#[test]
fn resized_blocks_keep_their_order_and_their_properties() {
    let wrap = plain(&["one", "two"], &[Point::new(0, 1), Point::new(1, 1)]);
    let mut map = map_with(&wrap, vec![above(0, 1), above(0, 2), below(1, 1)]);
    let before = map.read(wrap.clone(), Patch::default()).snapshot.clone();
    map.write(wrap.clone(), Patch::default())
        .resize([(0, 4), (2, 0), (8, 5)].into_iter().collect());
    let after = map.read(wrap, Patch::default()).snapshot.clone();
    assert_eq!(after.text(), "\n\n\n\n\n\none\ntwo");
    assert_eq!(
        after.max_point().0.row,
        before.max_point().0.row + (4 - 1) - 1
    );
    let order = |snapshot: &BlockSnapshot| -> Vec<BlockId> {
        ids(snapshot).into_iter().map(|(_, id)| id).collect()
    };
    assert_eq!(order(&after), order(&before));
    for (id, height) in [(0, 4), (1, 2), (2, 0)] {
        let id = BlockId::Custom(CustomBlockId(id));
        match (before.block_for_id(id), after.block_for_id(id)) {
            (Some(Block::Custom(before)), Some(Block::Custom(after))) => {
                assert_eq!(after.height, height);
                assert_eq!(after.position, before.position);
                assert_eq!(after.style, before.style);
                assert_eq!(after.disposition, before.disposition);
                assert_eq!(after.priority, before.priority);
                assert_eq!(after.render(), before.render());
            }
            _ => panic!("not a custom block"),
        }
    }
}
