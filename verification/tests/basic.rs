//! Maps over small texts that stay as they are, or change once.

use block_map::block::{
    Block, BlockDisposition, BlockId, BlockProperties, BlockStyle, CustomBlockId,
};
use block_map::buffer::{
    Anchor, BufferId, ExcerptBoundary, ExcerptId, ExcerptInfo, MultiBufferSnapshot,
};
use block_map::map::BlockMap;
use block_map::patch::{Edit, Patch};
use block_map::point::{Bias, BlockPoint, BlockRow, Point, WrapPoint};
use block_map::render::RenderBlock;
use block_map::snapshot::BlockSnapshot;
use block_map::wrap::{LineRows, WrapLine, WrapSnapshot};
use std::collections::HashMap;

/// The rows of one line, and whether each continues the one before.
fn rows_of(line: &str, width: Option<usize>) -> Vec<String> {
    let chars: Vec<char> = line.chars().collect();
    match width {
        Some(width) if chars.len() > width => chars
            .chunks(width)
            .map(|part| part.iter().collect())
            .collect(),
        _ => vec![line.to_string()],
    }
}

/// Soft-wrapped text from the rows of each line.
fn wrap_rows(
    lines: &[Vec<String>],
    anchors: &[Point],
    boundaries: Vec<ExcerptBoundary>,
    show_headers: bool,
) -> WrapSnapshot {
    let mut order: Vec<usize> = (0..anchors.len()).collect();
    order.sort_by_key(|ix| anchors[*ix]);
    let mut ranks = vec![0; anchors.len()];
    for (rank, ix) in order.iter().enumerate() {
        ranks[*ix] = rank;
    }
    let line_lens = lines
        .iter()
        .map(|rows| rows.iter().map(|row| row.len() as u32).sum())
        .collect();
    let points = order.iter().map(|ix| anchors[*ix]).collect();
    let buffer =
        MultiBufferSnapshot::new(line_lens, ranks, points, boundaries, show_headers, 0).unwrap();

    let mut wrap_lines = Vec::new();
    let mut line_rows = Vec::new();
    let mut longest = 0;
    let mut longest_len = 0;
    for (buffer_row, rows) in lines.iter().enumerate() {
        line_rows.push(LineRows {
            first: wrap_lines.len() as u32,
            last: (wrap_lines.len() + rows.len() - 1) as u32,
        });
        for (ix, row) in rows.iter().enumerate() {
            let chars = row.chars().count();
            if chars > longest_len {
                longest_len = chars;
                longest = wrap_lines.len() as u32;
            }
            let mut stops: Vec<u32> = row.char_indices().map(|(at, _)| at as u32).collect();
            if ix + 1 == rows.len() {
                stops.push(row.len() as u32);
            }
            wrap_lines.push(WrapLine {
                text: row.clone(),
                line: if ix > 0 { None } else { Some(buffer_row as u32) },
                stops,
                buffer_row: if ix > 0 { None } else { Some(buffer_row as u32) },
            });
        }
    }
    WrapSnapshot::new(wrap_lines, line_rows, longest, buffer).unwrap()
}

fn wrap_text(text: &str, anchors: &[Point]) -> WrapSnapshot {
    let lines: Vec<Vec<String>> = text.split('\n').map(|line| rows_of(line, None)).collect();
    wrap_rows(&lines, anchors, Vec::new(), false)
}

fn block(anchor: usize, height: u32, disposition: BlockDisposition) -> BlockProperties<Anchor> {
    BlockProperties {
        style: BlockStyle::Fixed,
        position: Anchor(anchor),
        height,
        disposition,
        render: RenderBlock(anchor as u64),
        priority: 0,
    }
}

fn numbers(snapshot: &BlockSnapshot, start: u32) -> Vec<Option<u32>> {
    let mut rows = snapshot.buffer_rows(BlockRow(start));
    let mut numbers = Vec::new();
    while let Some(number) = rows.next() {
        numbers.push(number.map(|row| row.0));
    }
    numbers
}

#[test]
fn test_basic_blocks() {
    let anchors = [Point::new(1, 0), Point::new(1, 2), Point::new(3, 3)];
    let wraps_snapshot = wrap_text("aaa\nbbb\nccc\nddd", &anchors);
    let mut block_map = BlockMap::new(wraps_snapshot.clone(), true, 1, 1, 1);

    let mut writer = block_map.write(wraps_snapshot.clone(), Default::default());
    let block_ids = writer.insert(vec![
        block(0, 1, BlockDisposition::Above),
        block(1, 2, BlockDisposition::Above),
        block(2, 3, BlockDisposition::Below),
    ]);

    let snapshot = block_map.read(wraps_snapshot, Default::default());
    assert_eq!(snapshot.text(), "aaa\n\n\n\nbbb\nccc\nddd\n\n\n");

    let blocks: Vec<_> = snapshot
        .blocks_in_range(0..8)
        .into_iter()
        .map(|(start_row, block)| match block {
            Block::Custom(block) => (start_row..start_row + block.height, block.id),
            Block::ExcerptBoundary { .. } => panic!("not a custom block"),
        })
        .collect();
    assert_eq!(
        blocks,
        &[
            (1..2, block_ids[0]),
            (2..4, block_ids[1]),
            (7..10, block_ids[2]),
        ]
    );

    assert_eq!(
        snapshot.to_block_point(WrapPoint::new(0, 3)),
        BlockPoint::new(0, 3)
    );
    assert_eq!(
        snapshot.to_block_point(WrapPoint::new(1, 0)),
        BlockPoint::new(4, 0)
    );
    assert_eq!(
        snapshot.to_block_point(WrapPoint::new(3, 3)),
        BlockPoint::new(6, 3)
    );

    assert_eq!(
        snapshot.to_wrap_point(BlockPoint::new(0, 3)),
        WrapPoint::new(0, 3)
    );
    assert_eq!(
        snapshot.to_wrap_point(BlockPoint::new(1, 0)),
        WrapPoint::new(1, 0)
    );
    assert_eq!(
        snapshot.to_wrap_point(BlockPoint::new(3, 0)),
        WrapPoint::new(1, 0)
    );
    assert_eq!(
        snapshot.to_wrap_point(BlockPoint::new(7, 0)),
        WrapPoint::new(3, 3)
    );

    assert_eq!(
        snapshot.clip_point(BlockPoint::new(1, 0), Bias::Left),
        BlockPoint::new(0, 3)
    );
    assert_eq!(
        snapshot.clip_point(BlockPoint::new(1, 0), Bias::Right),
        BlockPoint::new(4, 0)
    );
    assert_eq!(
        snapshot.clip_point(BlockPoint::new(1, 1), Bias::Left),
        BlockPoint::new(0, 3)
    );
    assert_eq!(
        snapshot.clip_point(BlockPoint::new(1, 1), Bias::Right),
        BlockPoint::new(4, 0)
    );
    assert_eq!(
        snapshot.clip_point(BlockPoint::new(4, 0), Bias::Left),
        BlockPoint::new(4, 0)
    );
    assert_eq!(
        snapshot.clip_point(BlockPoint::new(4, 0), Bias::Right),
        BlockPoint::new(4, 0)
    );
    assert_eq!(
        snapshot.clip_point(BlockPoint::new(6, 3), Bias::Left),
        BlockPoint::new(6, 3)
    );
    assert_eq!(
        snapshot.clip_point(BlockPoint::new(6, 3), Bias::Right),
        BlockPoint::new(6, 3)
    );
    assert_eq!(
        snapshot.clip_point(BlockPoint::new(7, 0), Bias::Left),
        BlockPoint::new(6, 3)
    );
    assert_eq!(
        snapshot.clip_point(BlockPoint::new(7, 0), Bias::Right),
        BlockPoint::new(6, 3)
    );

    assert_eq!(
        numbers(&snapshot, 0),
        &[
            Some(0),
            None,
            None,
            None,
            Some(1),
            Some(2),
            Some(3),
            None,
            None,
            None
        ]
    );

    // Insert a line break, separating two block decorations into separate lines.
    let anchors = [Point::new(1, 0), Point::new(2, 1), Point::new(4, 3)];
    let wraps_snapshot = wrap_text("aaa\nb!!!\nbb\nccc\nddd", &anchors);
    let wrap_edits = Patch::new(vec![Edit {
        old: 1..2,
        new: 1..3,
    }]);
    let snapshot = block_map.read(wraps_snapshot, wrap_edits);
    assert_eq!(snapshot.text(), "aaa\n\nb!!!\n\n\nbb\nccc\nddd\n\n\n");
}

fn excerpt(id: usize) -> Option<ExcerptInfo> {
    Some(ExcerptInfo {
        id: ExcerptId(id),
        buffer_id: BufferId(id as u64),
    })
}

fn boundary(
    prev: Option<ExcerptInfo>,
    next: Option<ExcerptInfo>,
    row: u32,
) -> ExcerptBoundary {
    ExcerptBoundary { prev, next, row }
}

#[test]
fn test_multibuffer_headers_and_footers() {
    let lines: Vec<Vec<String>> = "Buffer 1\nBuffer 2\nBuffer 3"
        .split('\n')
        .map(|line| rows_of(line, Some(4)))
        .collect();
    let boundaries = vec![
        boundary(None, excerpt(1), 0),
        boundary(excerpt(1), excerpt(2), 1),
        boundary(excerpt(2), excerpt(3), 2),
        boundary(excerpt(3), None, 2),
    ];
    let wraps_snapshot = wrap_rows(&lines, &[], boundaries, true);

    let mut block_map = BlockMap::new(wraps_snapshot.clone(), true, 1, 1, 1);
    let snapshot = block_map.read(wraps_snapshot, Default::default());

    // Each excerpt has a header above and footer below. Excerpts are also *separated* by a newline.
    assert_eq!(
        snapshot.text(),
        "\n\nBuff\ner 1\n\n\n\nBuff\ner 2\n\n\n\nBuff\ner 3\n"
    );

    let blocks: Vec<_> = snapshot
        .blocks_in_range(0..u32::MAX)
        .into_iter()
        .map(|(row, block)| (row..row + block.height(), block.id()))
        .collect();
    assert_eq!(
        blocks,
        vec![
            (0..2, BlockId::ExcerptBoundary(Some(ExcerptId(1)))), // path, header
            (4..7, BlockId::ExcerptBoundary(Some(ExcerptId(2)))), // footer, path, header
            (9..12, BlockId::ExcerptBoundary(Some(ExcerptId(3)))), // footer, path, header
            (14..15, BlockId::ExcerptBoundary(None)),             // footer
        ]
    );
}

#[test]
fn test_replace_with_heights() {
    let anchors = [Point::new(1, 0), Point::new(1, 2), Point::new(3, 3)];
    let wraps_snapshot = wrap_text("aaa\nbbb\nccc\nddd", &anchors);
    let mut block_map = BlockMap::new(wraps_snapshot.clone(), false, 1, 1, 0);

    let mut writer = block_map.write(wraps_snapshot.clone(), Default::default());
    let block_ids = writer.insert(vec![
        block(0, 1, BlockDisposition::Above),
        block(1, 2, BlockDisposition::Above),
        block(2, 3, BlockDisposition::Below),
    ]);

    {
        let snapshot = block_map.read(wraps_snapshot.clone(), Default::default());
        assert_eq!(snapshot.text(), "aaa\n\n\n\nbbb\nccc\nddd\n\n\n");

        let mut block_map_writer = block_map.write(wraps_snapshot.clone(), Default::default());

        let mut new_heights = HashMap::default();
        new_heights.insert(block_ids[0].0, 2);
        block_map_writer.resize(new_heights);
        let snapshot = block_map.read(wraps_snapshot.clone(), Default::default());
        assert_eq!(snapshot.text(), "aaa\n\n\n\n\nbbb\nccc\nddd\n\n\n");
    }

    {
        let mut block_map_writer = block_map.write(wraps_snapshot.clone(), Default::default());

        let mut new_heights = HashMap::default();
        new_heights.insert(block_ids[0].0, 1);
        block_map_writer.resize(new_heights);

        let snapshot = block_map.read(wraps_snapshot.clone(), Default::default());
        assert_eq!(snapshot.text(), "aaa\n\n\n\nbbb\nccc\nddd\n\n\n");
    }

    {
        let mut block_map_writer = block_map.write(wraps_snapshot.clone(), Default::default());

        let mut new_heights = HashMap::default();
        new_heights.insert(block_ids[0].0, 0);
        block_map_writer.resize(new_heights);

        let snapshot = block_map.read(wraps_snapshot.clone(), Default::default());
        assert_eq!(snapshot.text(), "aaa\n\n\nbbb\nccc\nddd\n\n\n");
    }

    {
        let mut block_map_writer = block_map.write(wraps_snapshot.clone(), Default::default());

        let mut new_heights = HashMap::default();
        new_heights.insert(block_ids[0].0, 3);
        block_map_writer.resize(new_heights);

        let snapshot = block_map.read(wraps_snapshot.clone(), Default::default());
        assert_eq!(snapshot.text(), "aaa\n\n\n\n\n\nbbb\nccc\nddd\n\n\n");
    }

    {
        let mut block_map_writer = block_map.write(wraps_snapshot.clone(), Default::default());

        let mut new_heights = HashMap::default();
        new_heights.insert(block_ids[0].0, 3);
        block_map_writer.resize(new_heights);

        let snapshot = block_map.read(wraps_snapshot.clone(), Default::default());
        // Same height as before, should remain the same
        assert_eq!(snapshot.text(), "aaa\n\n\n\n\n\nbbb\nccc\nddd\n\n\n");
    }
}

#[test]
fn test_blocks_on_wrapped_lines() {
    let lines: Vec<Vec<String>> = [
        vec!["one two ", "three"],
        vec!["four five ", "six"],
        vec!["seven ", "eight"],
    ]
    .iter()
    .map(|rows| rows.iter().map(|row| row.to_string()).collect())
    .collect();
    let anchors = [Point::new(1, 12), Point::new(1, 1)];
    let wraps_snapshot = wrap_rows(&lines, &anchors, Vec::new(), false);
    let mut block_map = BlockMap::new(wraps_snapshot.clone(), true, 1, 1, 0);

    let mut writer = block_map.write(wraps_snapshot.clone(), Default::default());
    writer.insert(vec![
        block(0, 1, BlockDisposition::Above),
        block(1, 1, BlockDisposition::Below),
    ]);

    // Blocks with an 'above' disposition go above their corresponding buffer line.
    // Blocks with a 'below' disposition go below their corresponding buffer line.
    let snapshot = block_map.read(wraps_snapshot, Default::default());
    assert_eq!(
        snapshot.text(),
        "one two \nthree\n\nfour five \nsix\n\nseven \neight"
    );
}

#[test]
fn ids_are_given_out_in_order() {
    let wraps_snapshot = wrap_text("aaa\nbbb", &[Point::new(1, 0), Point::new(0, 0)]);
    let mut block_map = BlockMap::new(wraps_snapshot.clone(), false, 1, 1, 0);
    let mut writer = block_map.write(wraps_snapshot.clone(), Default::default());
    let first = writer.insert(vec![block(0, 1, BlockDisposition::Above)]);
    let second = writer.insert(vec![
        block(1, 1, BlockDisposition::Below),
        block(0, 1, BlockDisposition::Below),
    ]);
    assert_eq!(first, vec![CustomBlockId(0)]);
    assert_eq!(second, vec![CustomBlockId(1), CustomBlockId(2)]);
    let reader = block_map.read(wraps_snapshot, Default::default());
    assert_eq!(reader.text(), "aaa\n\n\nbbb\n");
    assert_eq!(reader.row_for_block(CustomBlockId(1)), Some(BlockRow(1)));
    assert_eq!(reader.row_for_block(CustomBlockId(0)), Some(BlockRow(2)));
    assert_eq!(reader.row_for_block(CustomBlockId(2)), Some(BlockRow(4)));
    assert_eq!(reader.row_for_block(CustomBlockId(3)), None);
}
