//! Maps under many changes of text, wrapping and blocks, held against a plain computation.

use block_map::block::{
    Block, BlockDisposition, BlockId, BlockProperties, BlockStyle, CustomBlockId,
};
use block_map::buffer::{
    Anchor, BufferId, ExcerptBoundary, ExcerptId, ExcerptInfo, MultiBufferSnapshot,
};
use block_map::chunks::Chunk;
use block_map::map::BlockMap;
use block_map::patch::{Edit, Patch};
use block_map::point::{Bias, BlockPoint, BlockRow, Point, WrapPoint};
use block_map::render::RenderBlock;
use block_map::snapshot::BlockSnapshot;
use block_map::wrap::{LineRows, WrapLine, WrapSnapshot};
use std::collections::HashSet;

/// A small generator of numbers, the same in every run.
struct Numbers(u64);

impl Numbers {
    fn below(&mut self, end: usize) -> usize {
        self.0 = self
            .0
            .wrapping_mul(6364136223846793005)
            .wrapping_add(1442695040888963407);
        ((self.0 >> 33) % end as u64) as usize
    }

    fn within(&mut self, low: usize, high: usize) -> usize {
        low + self.below(high - low + 1)
    }

    fn chance(&mut self, percent: usize) -> bool {
        self.below(100) < percent
    }

    fn text(&mut self) -> String {
        let len = self.below(9);
        (0..len)
            .map(|_| ['a', 'b', ' ', 'z', '\u{e9}', '\u{20ac}', '\u{1f600}'][self.below(7)])
            .collect()
    }
}

/// A line of a text. It keeps its id while it is there; its version tells whether it changed.
#[derive(Clone)]
struct Line {
    id: usize,
    version: usize,
    text: String,
    starts_excerpt: Option<ExcerptInfo>,
}

struct Text {
    lines: Vec<Line>,
    next_id: usize,
    /// Where each anchor stands, and the anchors in order.
    anchors: Vec<(usize, usize)>,
    order: Vec<usize>,
    show_headers: bool,
}

impl Text {
    fn new(numbers: &mut Numbers) -> Self {
        let show_headers = numbers.chance(50);
        let count = numbers.within(1, 6);
        let mut text = Text {
            lines: Vec::new(),
            next_id: 0,
            anchors: Vec::new(),
            order: Vec::new(),
            show_headers,
        };
        let mut excerpts = 0;
        for ix in 0..count {
            let mut line = text.line(numbers);
            if show_headers && (ix == 0 || numbers.chance(40)) {
                excerpts += 1;
                line.starts_excerpt = Some(ExcerptInfo {
                    id: ExcerptId(excerpts),
                    buffer_id: BufferId(numbers.below(2) as u64),
                });
            }
            text.lines.push(line);
        }
        text
    }

    fn line(&mut self, numbers: &mut Numbers) -> Line {
        self.next_id += 1;
        Line {
            id: self.next_id,
            version: 0,
            text: numbers.text(),
            starts_excerpt: None,
        }
    }

    /// A new anchor at a place between two characters.
    fn anchor(&mut self, numbers: &mut Numbers) -> Anchor {
        let row = numbers.below(self.lines.len());
        let text = &self.lines[row].text;
        let mut columns: Vec<usize> = text.char_indices().map(|(at, _)| at).collect();
        columns.push(text.len());
        let column = columns[numbers.below(columns.len())];
        self.anchors.push((row, column));
        self.order.push(self.anchors.len() - 1);
        self.sort();
        Anchor(self.anchors.len() - 1)
    }

    fn sort(&mut self) {
        let anchors = &self.anchors;
        self.order.sort_by_key(|ix| anchors[*ix]);
    }

    /// One change of the text.
    fn mutate(&mut self, numbers: &mut Numbers) {
        let row = numbers.below(self.lines.len());
        match numbers.below(3) {
            0 => {
                // Other text in a line.
                let text = numbers.text();
                let len = text.len();
                self.lines[row].text = text;
                self.lines[row].version += 1;
                for anchor in &mut self.anchors {
                    if anchor.0 == row {
                        anchor.1 = if numbers.chance(50) { 0 } else { len };
                    }
                }
                // Anchors keep their order.
                let mut least = 0;
                for ix in &self.order {
                    let anchor = &mut self.anchors[*ix];
                    if anchor.0 == row {
                        anchor.1 = anchor.1.max(least);
                        least = anchor.1;
                    }
                }
            }
            1 => {
                // A new line after one.
                let line = self.line(numbers);
                self.lines[row].version += 1;
                self.lines.insert(row + 1, line);
                for anchor in &mut self.anchors {
                    if anchor.0 > row {
                        anchor.0 += 1;
                    }
                }
            }
            _ => {
                // A line less.
                if row > 0 && self.lines[row].starts_excerpt.is_none() {
                    self.lines.remove(row);
                    self.lines[row - 1].version += 1;
                    let end = self.lines[row - 1].text.len();
                    for anchor in &mut self.anchors {
                        if anchor.0 == row {
                            *anchor = (row - 1, end);
                        } else if anchor.0 > row {
                            anchor.0 -= 1;
                        }
                    }
                }
            }
        }
        self.sort();
    }

    fn boundaries(&self) -> Vec<ExcerptBoundary> {
        let mut boundaries = Vec::new();
        let mut prev = None;
        if self.show_headers {
            for (row, line) in self.lines.iter().enumerate() {
                if line.starts_excerpt.is_some() {
                    boundaries.push(ExcerptBoundary {
                        prev,
                        next: line.starts_excerpt,
                        row: row as u32,
                    });
                    prev = line.starts_excerpt;
                }
            }
            boundaries.push(ExcerptBoundary {
                prev,
                next: None,
                row: self.lines.len() as u32 - 1,
            });
        }
        boundaries
    }

    fn rows_of(&self, row: usize, width: Option<usize>) -> Vec<String> {
        let chars: Vec<char> = self.lines[row].text.chars().collect();
        match width {
            Some(width) if chars.len() > width => chars
                .chunks(width)
                .map(|part| part.iter().collect())
                .collect(),
            _ => vec![self.lines[row].text.clone()],
        }
    }

    fn wrap(&self, width: Option<usize>) -> WrapSnapshot {
        let mut ranks = vec![0; self.anchors.len()];
        for (rank, ix) in self.order.iter().enumerate() {
            ranks[*ix] = rank;
        }
        let points = self
            .order
            .iter()
            .map(|ix| Point::new(self.anchors[*ix].0 as u32, self.anchors[*ix].1 as u32))
            .collect();
        let buffer = MultiBufferSnapshot::new(
            self.lines.iter().map(|line| line.text.len() as u32).collect(),
            ranks,
            points,
            self.boundaries(),
            self.show_headers,
            0,
        )
        .unwrap();

        let mut lines = Vec::new();
        let mut line_rows = Vec::new();
        let mut longest = 0;
        let mut longest_len = 0;
        for buffer_row in 0..self.lines.len() {
            let rows = self.rows_of(buffer_row, width);
            line_rows.push(LineRows {
                first: lines.len() as u32,
                last: (lines.len() + rows.len() - 1) as u32,
            });
            for (ix, row) in rows.iter().enumerate() {
                let chars = row.chars().count();
                if chars > longest_len {
                    longest_len = chars;
                    longest = lines.len() as u32;
                }
                let mut stops: Vec<u32> = row.char_indices().map(|(at, _)| at as u32).collect();
                if ix + 1 == rows.len() {
                    stops.push(row.len() as u32);
                }
                lines.push(WrapLine {
                    text: row.clone(),
                    line: if ix > 0 { None } else { Some(buffer_row as u32) },
                    stops,
                    buffer_row: if ix > 0 { None } else { Some(buffer_row as u32) },
                });
            }
        }
        WrapSnapshot::new(lines, line_rows, longest, buffer).unwrap()
    }

    /// The row at which each line begins, and the end of the last.
    fn line_rows(&self, width: Option<usize>) -> Vec<u32> {
        let mut rows = vec![0];
        for row in 0..self.lines.len() {
            rows.push(rows[row] + self.rows_of(row, width).len() as u32);
        }
        rows
    }
}

/// The edits that lead from one text to another: one for each run of lines that changed. Each
/// replaces at least one line by at least one.
fn edits_between(old: &[Line], old_rows: &[u32], new: &[Line], new_rows: &[u32]) -> Patch {
    let kept: Vec<(usize, usize)> = old
        .iter()
        .enumerate()
        .filter_map(|(i, a)| {
            new.iter()
                .position(|b| a.id == b.id && a.version == b.version)
                .map(|j| (i, j))
        })
        .collect();
    // Runs of lines between kept ones; a run without lines on one side takes in a kept line.
    let mut runs: Vec<(usize, usize, usize, usize)> = Vec::new();
    let (mut i, mut j) = (0, 0);
    for (a, b) in kept.iter().copied().chain([(old.len(), new.len())]) {
        if i < a || j < b {
            let mut run = (i, a, j, b);
            if run.0 == run.1 || run.2 == run.3 {
                if run.0 > 0 && run.2 > 0 {
                    run.0 -= 1;
                    run.2 -= 1;
                } else {
                    run.1 += 1;
                    run.3 += 1;
                }
            }
            match runs.last_mut() {
                Some(last) if last.1 >= run.0 => {
                    last.1 = run.1;
                    last.3 = run.3;
                }
                _ => runs.push(run),
            }
        }
        i = a + 1;
        j = b + 1;
    }
    Patch::new(
        runs.into_iter()
            .map(|(a, b, c, d)| Edit {
                old: old_rows[a]..old_rows[b],
                new: new_rows[c]..new_rows[d],
            })
            .collect(),
    )
}

struct Custom {
    id: CustomBlockId,
    anchor: Anchor,
    height: u32,
    disposition: BlockDisposition,
    priority: usize,
}

fn collect_text(snapshot: &BlockSnapshot, start: u32, end: u32) -> String {
    let (from, to) = snapshot.input_range(start..end);
    let input: Vec<Chunk> = snapshot.wrap_snapshot.chunks(from, to);
    let mut chunks = snapshot.chunks(start..end, false, input);
    let mut text = String::new();
    while let Some(chunk) = chunks.next() {
        text.push_str(&chunk.text);
    }
    text
}

fn check(reader: &block_map::map::BlockMapReader, wraps: &WrapSnapshot, customs: &[Custom]) {
    let snapshot: &BlockSnapshot = &reader.snapshot;
    let headers = snapshot.headers;
    let input_rows: u32 = snapshot
        .transforms
        .iter()
        .map(|transform| transform.summary.input_rows)
        .sum();
    assert_eq!(input_rows, wraps.max_point().row() + 1);

    let buffer = wraps.buffer_snapshot();
    let mut expected: Vec<(u32, BlockDisposition, u8, usize, usize, u32, BlockId)> = Vec::new();
    for block in customs {
        let line = buffer.to_point(block.anchor).row;
        let row = match block.disposition {
            BlockDisposition::Above => wraps.line_first_row(line),
            BlockDisposition::Below => wraps.line_last_row(line),
        };
        expected.push((
            row,
            block.disposition,
            1,
            usize::MAX - block.priority,
            block.id.0,
            block.height,
            BlockId::Custom(block.id),
        ));
    }
    if buffer.show_headers() {
        for (row, block) in BlockMap::header_and_footer_blocks(
            headers.show_excerpt_controls,
            headers.excerpt_footer_height,
            headers.buffer_header_height,
            headers.excerpt_header_height,
            Point::new(0, 0),
            None,
            wraps,
        ) {
            let disposition = match &block {
                Block::ExcerptBoundary {
                    next_excerpt: None, ..
                } => BlockDisposition::Below,
                _ => BlockDisposition::Above,
            };
            expected.push((row, disposition, 0, 0, 0, block.height(), block.id()));
        }
    }
    expected.sort_by_key(|block| (block.0, block.1, block.2, block.3, block.4));

    let mut expected_blocks = expected.into_iter().peekable();
    let mut expected_numbers = Vec::new();
    let mut expected_text = String::new();
    let mut expected_positions = Vec::new();
    for (row, line) in wraps.lines.iter().enumerate() {
        let row = row as u32;
        if row > 0 {
            expected_text.push('\n');
        }
        while let Some(block) = expected_blocks.next_if(|block| {
            block.0 == row && block.1 == BlockDisposition::Above
        }) {
            expected_positions.push((expected_text.matches('\n').count() as u32, block.6));
            for _ in 0..block.5 {
                expected_text.push('\n');
                expected_numbers.push(None);
            }
        }
        expected_numbers.push(line.buffer_row);
        expected_text.push_str(&line.text);
        while let Some(block) = expected_blocks.next_if(|block| {
            block.0 == row && block.1 == BlockDisposition::Below
        }) {
            expected_positions.push((expected_text.matches('\n').count() as u32 + 1, block.6));
            for _ in 0..block.5 {
                expected_text.push('\n');
                expected_numbers.push(None);
            }
        }
    }

    assert_eq!(snapshot.text(), expected_text);
    let expected_lines: Vec<&str> = expected_text.split('\n').collect();
    let row_count = expected_lines.len();
    for start_row in 0..row_count {
        let end = snapshot.max_point().row + 1;
        assert_eq!(
            collect_text(snapshot, start_row as u32, end),
            expected_lines[start_row..].join("\n"),
            "incorrect text starting from row {}",
            start_row
        );
        let mut rows = snapshot.buffer_rows(BlockRow(start_row as u32));
        let mut numbers = Vec::new();
        while let Some(number) = rows.next() {
            numbers.push(number.map(|row| row.0));
        }
        assert_eq!(numbers, &expected_numbers[start_row..]);
    }

    let positions: Vec<(u32, BlockId)> = snapshot
        .blocks_in_range(0..row_count as u32)
        .into_iter()
        .map(|(row, block)| (row, block.id()))
        .collect();
    assert_eq!(positions, expected_positions);
    for (row, id) in &expected_positions {
        let found = snapshot.block_for_id(*id);
        assert_eq!(found.map(|block| block.id()), Some(*id));
        if let BlockId::Custom(id) = id {
            assert_eq!(reader.row_for_block(*id), Some(BlockRow(*row)));
        }
    }

    let mut longest_rows = Vec::new();
    let mut longest_len = 0;
    for (row, line) in expected_lines.iter().enumerate() {
        assert_eq!(
            snapshot.line_len(BlockRow(row as u32)),
            line.len() as u32,
            "invalid line len for row {}",
            row
        );
        let len = line.chars().count();
        if row == 0 || len > longest_len {
            longest_len = len;
            longest_rows.clear();
        }
        if len == longest_len {
            longest_rows.push(row as u32);
        }
    }
    assert!(longest_rows.contains(&snapshot.longest_row()));

    for row in 0..=wraps.max_point().row() {
        let wrap_point = WrapPoint::new(row, 0);
        let block_point = snapshot.to_block_point(wrap_point);
        assert_eq!(snapshot.to_wrap_point(block_point), wrap_point);
    }

    let mut point = BlockPoint::new(0, 0);
    for c in expected_text.chars() {
        for bias in [Bias::Left, Bias::Right] {
            let clipped = snapshot.clip_point(point, bias);
            let wrap_point = snapshot.to_wrap_point(clipped);
            assert_eq!(snapshot.to_block_point(wrap_point), clipped);
            assert_eq!(wraps.clip_point(wrap_point, Bias::Left), wrap_point);
            assert_eq!(wraps.clip_point(wrap_point, Bias::Right), wrap_point);
        }
        if c == '\n' {
            point = BlockPoint::new(point.row + 1, 0);
        } else {
            point = BlockPoint::new(point.row, point.column + c.len_utf8() as u32);
        }
    }
}

#[test]
fn test_random_blocks() {
    for seed in 0..100 {
        let mut numbers = Numbers(seed);
        let mut text = Text::new(&mut numbers);
        let mut width = if numbers.chance(20) {
            None
        } else {
            Some(numbers.within(1, 6))
        };
        let mut map = BlockMap::new(
            text.wrap(width),
            true,
            numbers.within(1, 5) as u32,
            numbers.within(1, 5) as u32,
            numbers.within(1, 5) as u32,
        );
        let mut customs: Vec<Custom> = Vec::new();

        for _ in 0..10 {
            let old_lines = text.lines.clone();
            let old_rows = text.line_rows(width);
            let mut edits = Patch::default();
            match numbers.within(0, 100) {
                0..=19 => {
                    width = if numbers.chance(20) {
                        None
                    } else {
                        Some(numbers.within(1, 6))
                    };
                    let new_rows = text.line_rows(width);
                    edits = Patch::new(vec![Edit {
                        old: 0..old_rows[old_lines.len()],
                        new: 0..new_rows[text.lines.len()],
                    }]);
                }
                20..=39 => {
                    let mut properties = Vec::new();
                    for _ in 0..numbers.within(1, 5) {
                        let anchor = text.anchor(&mut numbers);
                        let disposition = if numbers.chance(50) {
                            BlockDisposition::Above
                        } else {
                            BlockDisposition::Below
                        };
                        properties.push(BlockProperties {
                            style: BlockStyle::Fixed,
                            position: anchor,
                            height: numbers.below(5) as u32,
                            disposition,
                            render: RenderBlock(0),
                            priority: numbers.below(2),
                        });
                    }
                    let mut added: Vec<Custom> = properties
                        .iter()
                        .map(|block| Custom {
                            id: CustomBlockId(0),
                            anchor: block.position,
                            height: block.height,
                            disposition: block.disposition,
                            priority: block.priority,
                        })
                        .collect();
                    let mut writer = map.write(text.wrap(width), Patch::default());
                    let ids = writer.insert(properties);
                    for (block, id) in added.iter_mut().zip(ids) {
                        block.id = id;
                    }
                    customs.extend(added);
                }
                40..=49 if !customs.is_empty() => {
                    let mut ids = HashSet::new();
                    for _ in 0..numbers.within(1, customs.len().min(4)) {
                        let ix = numbers.below(customs.len());
                        ids.insert(customs.remove(ix).id.0);
                    }
                    let mut writer = map.write(text.wrap(width), Patch::default());
                    writer.remove(ids);
                }
                50..=59 if !customs.is_empty() => {
                    let mut heights = std::collections::HashMap::new();
                    for _ in 0..numbers.within(1, customs.len().min(4)) {
                        let ix = numbers.below(customs.len());
                        customs[ix].height = numbers.below(5) as u32;
                        heights.insert(customs[ix].id.0, customs[ix].height);
                    }
                    let mut writer = map.write(text.wrap(width), Patch::default());
                    writer.resize(heights);
                }
                _ => {
                    for _ in 0..numbers.within(1, 5) {
                        text.mutate(&mut numbers);
                    }
                    let new_rows = text.line_rows(width);
                    edits = edits_between(&old_lines, &old_rows, &text.lines, &new_rows);
                }
            }
            let wraps = text.wrap(width);
            let reader = map.read(wraps.clone(), edits);
            check(&reader, &wraps, &customs);
        }
    }
}
