//! The rows on display as a list of transforms: runs of text, and blocks between them.

use vstd::prelude::*;

use crate::block::{Block, BlockLike};
use crate::order::block_le;
use crate::point::Bias;

verus! {

/// How many rows of text a transform takes in, and how many rows it shows.
#[derive(Clone, Copy, Debug, Default, PartialEq, Eq, Structural)]
pub struct TransformSummary {
    pub input_rows: u32,
    pub output_rows: u32,
}

/// A run of text that is shown as it is, or a block.
pub struct Transform {
    pub summary: TransformSummary,
    pub block: Option<Block>,
}

impl Clone for Transform {
    fn clone(&self) -> (copy: Self)
        ensures
            copy == *self,
    {
        Transform {
            summary: self.summary,
            block: match &self.block {
                Some(block) => Some(block.clone()),
                None => None,
            },
        }
    }
}

impl Transform {
    /// Text has rows and shows them all; a block shows its height.
    pub open spec fn ok(&self) -> bool {
        match self.block {
            Some(block) => self.summary.input_rows == 0 && self.summary.output_rows
                == block.height_spec(),
            None => self.summary.input_rows == self.summary.output_rows && self.summary.input_rows
                > 0,
        }
    }

    pub fn isomorphic(rows: u32) -> (transform: Self)
        ensures
            transform == (Transform {
                summary: TransformSummary { input_rows: rows, output_rows: rows },
                block: None,
            }),
    {
        Transform {
            summary: TransformSummary { input_rows: rows, output_rows: rows },
            block: None,
        }
    }

    pub fn block(block: Block) -> (transform: Self)
        ensures
            transform == (Transform {
                summary: TransformSummary { input_rows: 0, output_rows: block.height_spec() },
                block: Some(block),
            }),
            transform.ok(),
    {
        Transform {
            summary: TransformSummary { input_rows: 0, output_rows: block.height() },
            block: Some(block),
        }
    }

    pub fn is_isomorphic(&self) -> (isomorphic: bool)
        ensures
            isomorphic == (self.block is None),
    {
        self.block.is_none()
    }

    /// The transform is a block without lines.
    pub open spec fn is_empty_spec(&self) -> bool {
        self.block matches Some(block) && block.height_spec() == 0
    }

    pub fn is_empty(&self) -> (empty: bool)
        ensures
            empty == self.is_empty_spec(),
    {
        match &self.block {
            Some(block) => block.height() == 0,
            None => false,
        }
    }

    /// The transform is a block below its line.
    pub open spec fn is_below_spec(&self) -> bool {
        self.block matches Some(block) && block.below()
    }

    pub fn is_below(&self) -> (below: bool)
        ensures
            below == self.is_below_spec(),
    {
        match &self.block {
            Some(block) => block.disposition().is_below(),
            None => false,
        }
    }
}

/// The rows of text that transforms take in.
pub open spec fn input_rows(s: Seq<Transform>) -> int
    decreases s.len(),
{
    if s.len() == 0 {
        0
    } else {
        input_rows(s.drop_last()) + s.last().summary.input_rows
    }
}

/// The rows that transforms show.
pub open spec fn output_rows(s: Seq<Transform>) -> int
    decreases s.len(),
{
    if s.len() == 0 {
        0
    } else {
        output_rows(s.drop_last()) + s.last().summary.output_rows
    }
}

/// The first row of text of transform `i`.
pub open spec fn in_start(s: Seq<Transform>, i: int) -> int {
    input_rows(s.take(i))
}

/// The first row that transform `i` shows.
pub open spec fn out_start(s: Seq<Transform>, i: int) -> int {
    output_rows(s.take(i))
}

/// The row of text that a block belongs to, where `start` rows of text come before it.
pub open spec fn block_row(start: int, block: Block) -> int {
    if block.below() {
        start - 1
    } else {
        start
    }
}

/// The blocks among transforms, each with the row of text it belongs to.
pub open spec fn placed(s: Seq<Transform>) -> Seq<(int, Block)>
    decreases s.len(),
{
    if s.len() == 0 {
        Seq::empty()
    } else {
        match s.last().block {
            Some(block) => placed(s.drop_last()).push(
                (block_row(input_rows(s.drop_last()), block), block),
            ),
            None => placed(s.drop_last()),
        }
    }
}

/// One row on display: a row of text, or one line of a block.
pub enum DisplayRow {
    Text { row: int },
    Block { row: int, block: Block, line: int },
}

/// The rows that one transform shows, where `start` rows of text come before it.
pub open spec fn shown(t: Transform, start: int) -> Seq<DisplayRow> {
    match t.block {
        Some(block) => Seq::new(
            t.summary.output_rows as nat,
            |line: int| DisplayRow::Block { row: block_row(start, block), block, line },
        ),
        None => Seq::new(
            t.summary.output_rows as nat,
            |line: int| DisplayRow::Text { row: start + line },
        ),
    }
}

/// All rows on display, from the top down.
pub open spec fn display(s: Seq<Transform>) -> Seq<DisplayRow>
    decreases s.len(),
{
    if s.len() == 0 {
        Seq::empty()
    } else {
        display(s.drop_last()) + shown(s.last(), input_rows(s.drop_last()))
    }
}

/// Blocks with their rows, in order, none above the first row.
pub open spec fn in_order(blocks: Seq<(int, Block)>) -> bool {
    &&& forall|i: int| 0 <= i < blocks.len() ==> (#[trigger] blocks[i]).0 >= 0
    &&& forall|i: int, j: int|
        0 <= i <= j < blocks.len() ==> block_le(
            (#[trigger] blocks[i]).0,
            blocks[i].1,
            (#[trigger] blocks[j]).0,
            blocks[j].1,
        )
}

pub open spec fn items_ok(s: Seq<Transform>) -> bool {
    forall|i: int| 0 <= i < s.len() ==> (#[trigger] s[i]).ok()
}

pub open spec fn transforms_wf(s: Seq<Transform>) -> bool {
    &&& items_ok(s)
    &&& in_order(placed(s))
}

pub proof fn lemma_push(s: Seq<Transform>, t: Transform)
    ensures
        input_rows(s.push(t)) == input_rows(s) + t.summary.input_rows,
        output_rows(s.push(t)) == output_rows(s) + t.summary.output_rows,
        display(s.push(t)) == display(s) + shown(t, input_rows(s)),
        placed(s.push(t)) == match t.block {
            Some(block) => placed(s).push((block_row(input_rows(s), block), block)),
            None => placed(s),
        },
{
    assert(s.push(t).drop_last() =~= s);
}

/// Where transform `i` begins, the next one begins further by what `i` holds.
pub proof fn lemma_step(s: Seq<Transform>, i: int)
    requires
        0 <= i < s.len(),
    ensures
        in_start(s, i + 1) == in_start(s, i) + s[i].summary.input_rows,
        out_start(s, i + 1) == out_start(s, i) + s[i].summary.output_rows,
        placed(s.take(i + 1)) == match s[i].block {
            Some(block) => placed(s.take(i)).push((block_row(in_start(s, i), block), block)),
            None => placed(s.take(i)),
        },
        display(s.take(i + 1)) == display(s.take(i)) + shown(s[i], in_start(s, i)),
{
    assert(s.take(i + 1) =~= s.take(i).push(s[i]));
    lemma_push(s.take(i), s[i]);
}

/// Later transforms begin no earlier, and what stands before a transform is a prefix of the whole.
pub proof fn lemma_monotone(s: Seq<Transform>, i: int, j: int)
    requires
        0 <= i <= j <= s.len(),
    ensures
        0 <= in_start(s, i) <= in_start(s, j),
        0 <= out_start(s, i) <= out_start(s, j),
        placed(s.take(i)).len() <= placed(s.take(j)).len(),
        placed(s.take(i)) == placed(s.take(j)).take(placed(s.take(i)).len() as int),
        display(s.take(i)).len() <= display(s.take(j)).len(),
        display(s.take(i)) == display(s.take(j)).take(display(s.take(i)).len() as int),
    decreases j,
{
    if i < j {
        lemma_monotone(s, i, j - 1);
        lemma_step(s, j - 1);
        assert(placed(s.take(i)) =~= placed(s.take(j)).take(placed(s.take(i)).len() as int));
        assert(display(s.take(i)) =~= display(s.take(j)).take(display(s.take(i)).len() as int));
    } else {
        if j > 0 {
            lemma_monotone(s, j - 1, j - 1);
            lemma_step(s, j - 1);
        }
        assert(placed(s.take(i)) =~= placed(s.take(j)).take(placed(s.take(i)).len() as int));
        assert(display(s.take(i)) =~= display(s.take(j)).take(display(s.take(i)).len() as int));
    }
}

/// What holds of a prefix that is the whole list.
pub proof fn lemma_whole(s: Seq<Transform>)
    ensures
        s.take(s.len() as int) == s,
        in_start(s, s.len() as int) == input_rows(s),
        out_start(s, s.len() as int) == output_rows(s),
        in_start(s, 0) == 0,
        out_start(s, 0) == 0,
        placed(s.take(0)) == Seq::<(int, Block)>::empty(),
        input_rows(s) >= 0,
        output_rows(s) >= 0,
{
    assert(s.take(s.len() as int) =~= s);
    assert(s.take(0) =~= Seq::empty());
    lemma_monotone(s, 0, s.len() as int);
}

/// There are as many rows on display as the transforms show.
pub proof fn lemma_display_len(s: Seq<Transform>)
    ensures
        display(s).len() == output_rows(s),
    decreases s.len(),
{
    if s.len() > 0 {
        lemma_display_len(s.drop_last());
    }
}

/// Each row on display is one that some transform shows.
pub proof fn lemma_display_at(s: Seq<Transform>, i: int, line: int)
    requires
        0 <= i < s.len(),
        0 <= line < s[i].summary.output_rows,
    ensures
        0 <= out_start(s, i) + line < display(s).len(),
        display(s)[out_start(s, i) + line] == shown(s[i], in_start(s, i))[line],
{
    lemma_step(s, i);
    lemma_display_len(s.take(i));
    lemma_monotone(s, i + 1, s.len() as int);
    lemma_whole(s);
    let at = out_start(s, i) + line;
    assert(display(s.take(i + 1))[at] == shown(s[i], in_start(s, i))[line]);
    assert(display(s)[at] == display(s).take(display(s.take(i + 1)).len() as int)[at]);
}

/// The block of transform `i` among all blocks.
pub proof fn lemma_placed_at(s: Seq<Transform>, i: int)
    requires
        0 <= i < s.len(),
        s[i].block is Some,
    ensures
        0 <= placed(s.take(i)).len() < placed(s).len(),
        placed(s)[placed(s.take(i)).len() as int] == (
            block_row(in_start(s, i), s[i].block->0),
            s[i].block->0,
        ),
{
    lemma_step(s, i);
    lemma_monotone(s, i + 1, s.len() as int);
    lemma_whole(s);
    let n = placed(s.take(i)).len() as int;
    assert(placed(s.take(i + 1))[n] == placed(s)[n]);
}

/// Each of the blocks is that of a transform.
pub proof fn lemma_placed_from(s: Seq<Transform>, k: int) -> (i: int)
    requires
        0 <= k < placed(s).len(),
    ensures
        0 <= i < s.len(),
        s[i].block is Some,
        placed(s.take(i)).len() == k,
        placed(s)[k] == (block_row(in_start(s, i), s[i].block->0), s[i].block->0),
    decreases s.len(),
{
    let before = s.drop_last();
    if k < placed(before).len() {
        let i = lemma_placed_from(before, k);
        assert(s.take(i) =~= before.take(i));
        i
    } else {
        assert(s.take(s.len() - 1) =~= before);
        s.len() - 1
    }
}

/// How many of the first `n` rows on display are rows of text.
pub open spec fn texts_before(rows: Seq<DisplayRow>, n: int) -> int
    decreases n,
{
    if n <= 0 {
        0
    } else {
        texts_before(rows, n - 1) + (if rows[n - 1] is Text {
            1int
        } else {
            0
        })
    }
}

/// Within a transform, as many rows of text come before as it takes in up to there.
pub proof fn lemma_texts_at(s: Seq<Transform>, i: int, line: int)
    requires
        items_ok(s),
        0 <= i < s.len(),
        0 <= line <= s[i].summary.output_rows,
    ensures
        texts_before(display(s), out_start(s, i) + line) == in_start(s, i) + (
        if s[i].block is None {
            line
        } else {
            0
        }),
    decreases i, line,
{
    lemma_whole(s);
    lemma_monotone(s, 0, i);
    if line > 0 {
        lemma_texts_at(s, i, line - 1);
        lemma_display_at(s, i, line - 1);
    } else if i > 0 {
        lemma_step(s, i - 1);
        assert(s[i - 1].ok());
        lemma_texts_at(s, i - 1, s[i - 1].summary.output_rows as int);
    }
}

/// Rows of text are shown in order.
pub proof fn lemma_text_at(s: Seq<Transform>, row: int)
    requires
        items_ok(s),
        0 <= row < display(s).len(),
    ensures
        display(s)[row] matches DisplayRow::Text { row: text_row } ==> text_row == texts_before(
            display(s),
            row,
        ) && text_row < input_rows(s),
        0 <= texts_before(display(s), row) <= input_rows(s),
{
    lemma_display_len(s);
    let i = lemma_transform_at(s, row);
    let line = row - out_start(s, i);
    lemma_step(s, i);
    lemma_texts_at(s, i, line);
    lemma_display_at(s, i, line);
    lemma_monotone(s, 0, i);
    lemma_monotone(s, i + 1, s.len() as int);
    lemma_whole(s);
    assert(s[i].ok());
}

/// Each row on display is shown by a transform.
pub proof fn lemma_transform_at(s: Seq<Transform>, row: int) -> (i: int)
    requires
        0 <= row < output_rows(s),
    ensures
        0 <= i < s.len(),
        out_start(s, i) <= row < out_start(s, i + 1),
    decreases s.len(),
{
    let before = s.drop_last();
    assert(s.take(s.len() - 1) =~= before);
    assert(s.take(s.len() as int) =~= s);
    if row < output_rows(before) {
        let i = lemma_transform_at(before, row);
        assert(s.take(i) =~= before.take(i));
        assert(s.take(i + 1) =~= before.take(i + 1));
        i
    } else {
        s.len() - 1
    }
}

/// No more rows of text come before a row than there are.
pub proof fn lemma_text_bound(s: Seq<Transform>, row: int)
    requires
        items_ok(s),
        0 <= row <= display(s).len(),
    ensures
        0 <= texts_before(display(s), row) <= input_rows(s),
{
    lemma_display_len(s);
    if row < display(s).len() {
        lemma_text_at(s, row);
    } else {
        lemma_texts_total(s);
        lemma_whole(s);
    }
}

/// All rows of text are shown.
pub proof fn lemma_texts_total(s: Seq<Transform>)
    requires
        items_ok(s),
    ensures
        texts_before(display(s), output_rows(s)) == input_rows(s),
{
    lemma_whole(s);
    if s.len() > 0 {
        let last = s.len() - 1;
        lemma_step(s, last);
        assert(s[last].ok());
        lemma_texts_at(s, last, s[last].summary.output_rows as int);
    }
}

/// A row of blocks moved down by `rows`.
pub open spec fn moved(blocks: Seq<(int, Block)>, rows: int) -> Seq<(int, Block)> {
    blocks.map_values(|b: (int, Block)| (b.0 + rows, b.1))
}

/// Transforms put after others: their blocks move down by the text before them.
pub proof fn lemma_concat(a: Seq<Transform>, b: Seq<Transform>)
    ensures
        input_rows(a + b) == input_rows(a) + input_rows(b),
        output_rows(a + b) == output_rows(a) + output_rows(b),
        placed(a + b) == placed(a) + moved(placed(b), input_rows(a)),
    decreases b.len(),
{
    if b.len() == 0 {
        assert(a + b =~= a);
        assert(placed(a) + moved(placed(b), input_rows(a)) =~= placed(a));
    } else {
        assert((a + b).drop_last() =~= a + b.drop_last());
        lemma_concat(a, b.drop_last());
        assert(placed(a + b) =~= placed(a) + moved(placed(b), input_rows(a)));
    }
}

/// Adds rows of text at the end, to the run of text that stands there if there is one.
pub fn push_isomorphic(transforms: &mut Vec<Transform>, rows: u32)
    requires
        items_ok(old(transforms)@),
        input_rows(old(transforms)@) + rows <= u32::MAX,
    ensures
        rows == 0 ==> final(transforms)@ == old(transforms)@,
        items_ok(final(transforms)@),
        input_rows(final(transforms)@) == input_rows(old(transforms)@) + rows,
        output_rows(final(transforms)@) == output_rows(old(transforms)@) + rows,
        placed(final(transforms)@) == placed(old(transforms)@),
        rows > 0 ==> final(transforms)@ == (if old(transforms)@.len() > 0 && old(
            transforms,
        )@.last().block is None {
            old(transforms)@.drop_last().push(
                Transform {
                    summary: TransformSummary {
                        input_rows: (old(transforms)@.last().summary.input_rows + rows) as u32,
                        output_rows: (old(transforms)@.last().summary.output_rows + rows) as u32,
                    },
                    block: None,
                },
            )
        } else {
            old(transforms)@.push(
                Transform {
                    summary: TransformSummary { input_rows: rows, output_rows: rows },
                    block: None,
                },
            )
        }),
{
    if rows == 0 {
        return ;
    }
    let ghost before = transforms@;
    let len: usize = transforms.len();
    if len > 0 && transforms[len - 1].is_isomorphic() {
        proof {
            lemma_whole(before.drop_last());
        }
        if let Some(last) = transforms.pop() {
            let extent: u32 = last.summary.input_rows + rows;
            let ghost t = Transform {
                summary: TransformSummary { input_rows: extent, output_rows: extent },
                block: None,
            };
            transforms.push(Transform::isomorphic(extent));
            proof {
                assert(transforms@ =~= before.drop_last().push(t));
                lemma_push(before.drop_last(), t);
            }
        }
    } else {
        transforms.push(Transform::isomorphic(rows));
        proof {
            lemma_push(before, transforms@.last());
        }
    }
}

/// A place between transforms, with the rows that come before it.
#[derive(Clone, Copy)]
pub struct Cursor {
    pub ix: usize,
    pub input: u32,
    pub output: u32,
}

impl Cursor {
    /// The cursor stands before transform `ix`, or behind the last one.
    pub open spec fn at(self, s: Seq<Transform>) -> bool {
        &&& 0 <= self.ix <= s.len()
        &&& self.input == in_start(s, self.ix as int)
        &&& self.output == out_start(s, self.ix as int)
    }

    pub fn start() -> (cursor: Self)
        ensures
            forall|s: Seq<Transform>| #[trigger] cursor.at(s),
            cursor.ix == 0,
            cursor.input == 0,
            cursor.output == 0,
    {
        proof {
            assert forall|s: Seq<Transform>|
                in_start(s, 0) == 0 && out_start(s, 0) == 0 by {
                lemma_whole(s);
            }
        }
        Cursor { ix: 0, input: 0, output: 0 }
    }

    /// Steps over one transform; at the end it stays.
    pub fn next(&mut self, transforms: &Vec<Transform>)
        requires
            old(self).at(transforms@),
            input_rows(transforms@) <= u32::MAX,
            output_rows(transforms@) <= u32::MAX,
        ensures
            final(self).at(transforms@),
            final(self).ix == (if old(self).ix < transforms@.len() {
                old(self).ix + 1
            } else {
                old(self).ix as int
            }),
    {
        if self.ix < transforms.len() {
            proof {
                lemma_step(transforms@, self.ix as int);
                lemma_monotone(transforms@, self.ix + 1, transforms@.len() as int);
                lemma_whole(transforms@);
            }
            let summary: TransformSummary = transforms[self.ix].summary;
            self.input = self.input + summary.input_rows;
            self.output = self.output + summary.output_rows;
            self.ix = self.ix + 1;
        }
    }

    /// Steps back over one transform.
    pub fn prev(&mut self, transforms: &Vec<Transform>)
        requires
            old(self).at(transforms@),
            old(self).ix > 0,
        ensures
            final(self).at(transforms@),
            final(self).ix == old(self).ix - 1,
    {
        proof {
            lemma_step(transforms@, self.ix - 1);
            lemma_monotone(transforms@, 0, self.ix - 1);
        }
        self.ix = self.ix - 1;
        let summary: TransformSummary = transforms[self.ix].summary;
        self.input = self.input - summary.input_rows;
        self.output = self.output - summary.output_rows;
    }
}

/// A search for row `target` stops at a transform that ends at row `end`.
pub open spec fn stops_at(end: int, target: int, bias: Bias) -> bool {
    target < end || (target == end && bias is Left)
}

/// Transform `ix` is the first at which a search for row `target` of the text stops.
pub open spec fn found_input(s: Seq<Transform>, ix: int, target: int, bias: Bias) -> bool {
    &&& 0 <= ix <= s.len()
    &&& forall|j: int| 0 <= j < ix ==> !stops_at(#[trigger] in_start(s, j + 1), target, bias)
    &&& ix < s.len() ==> stops_at(in_start(s, ix + 1), target, bias)
}

/// Transform `ix` is the first at which a search for row `target` of the display stops.
pub open spec fn found_output(s: Seq<Transform>, ix: int, target: int, bias: Bias) -> bool {
    &&& 0 <= ix <= s.len()
    &&& forall|j: int| 0 <= j < ix ==> !stops_at(#[trigger] out_start(s, j + 1), target, bias)
    &&& ix < s.len() ==> stops_at(out_start(s, ix + 1), target, bias)
}

/// The transform that holds row `target` of the text, or ends at it where `bias` is left.
pub fn seek_input(transforms: &Vec<Transform>, target: u32, bias: Bias) -> (cursor: Cursor)
    requires
        input_rows(transforms@) <= u32::MAX,
        output_rows(transforms@) <= u32::MAX,
    ensures
        cursor.at(transforms@),
        found_input(transforms@, cursor.ix as int, target as int, bias),
{
    let mut cursor: Cursor = Cursor::start();
    while cursor.ix < transforms.len()
        invariant
            input_rows(transforms@) <= u32::MAX,
            output_rows(transforms@) <= u32::MAX,
            cursor.at(transforms@),
            forall|j: int|
                0 <= j < cursor.ix ==> !stops_at(
                    #[trigger] in_start(transforms@, j + 1),
                    target as int,
                    bias,
                ),
        decreases transforms@.len() - cursor.ix,
    {
        proof {
            lemma_step(transforms@, cursor.ix as int);
            lemma_monotone(transforms@, cursor.ix + 1, transforms@.len() as int);
            lemma_whole(transforms@);
        }
        let end: u32 = cursor.input + transforms[cursor.ix].summary.input_rows;
        if target < end || (target == end && bias == Bias::Left) {
            return cursor;
        }
        cursor.next(transforms);
    }
    cursor
}

/// The transform that shows row `target` of the display, or ends at it where `bias` is left.
pub fn seek_output(transforms: &Vec<Transform>, target: u32, bias: Bias) -> (cursor: Cursor)
    requires
        input_rows(transforms@) <= u32::MAX,
        output_rows(transforms@) <= u32::MAX,
    ensures
        cursor.at(transforms@),
        found_output(transforms@, cursor.ix as int, target as int, bias),
{
    let mut cursor: Cursor = Cursor::start();
    while cursor.ix < transforms.len()
        invariant
            input_rows(transforms@) <= u32::MAX,
            output_rows(transforms@) <= u32::MAX,
            cursor.at(transforms@),
            forall|j: int|
                0 <= j < cursor.ix ==> !stops_at(
                    #[trigger] out_start(transforms@, j + 1),
                    target as int,
                    bias,
                ),
        decreases transforms@.len() - cursor.ix,
    {
        proof {
            lemma_step(transforms@, cursor.ix as int);
            lemma_monotone(transforms@, cursor.ix + 1, transforms@.len() as int);
            lemma_whole(transforms@);
        }
        let end: u32 = cursor.output + transforms[cursor.ix].summary.output_rows;
        if target < end || (target == end && bias == Bias::Left) {
            return cursor;
        }
        cursor.next(transforms);
    }
    cursor
}

/// A search to the right ends in the transform that shows the row.
pub proof fn lemma_found_output(s: Seq<Transform>, ix: int, row: int)
    requires
        found_output(s, ix, row, Bias::Right),
        0 <= row,
    ensures
        ix < s.len() <==> row < output_rows(s),
        ix < s.len() ==> out_start(s, ix) <= row < out_start(s, ix + 1) && 0 <= row - out_start(
            s,
            ix,
        ) < s[ix].summary.output_rows && display(s)[row] == shown(s[ix], in_start(s, ix))[row
            - out_start(s, ix)],
        out_start(s, ix) <= row,
{
    lemma_whole(s);
    if ix > 0 {
        assert(!stops_at(out_start(s, (ix - 1) + 1), row, Bias::Right));
    }
    if ix < s.len() {
        lemma_step(s, ix);
        lemma_monotone(s, ix + 1, s.len() as int);
        lemma_display_at(s, ix, row - out_start(s, ix));
    }
}

/// A search to the right ends in the run of text that the row is in.
pub proof fn lemma_found_input(s: Seq<Transform>, ix: int, row: int)
    requires
        items_ok(s),
        found_input(s, ix, row, Bias::Right),
        0 <= row,
    ensures
        ix < s.len() <==> row < input_rows(s),
        ix < s.len() ==> s[ix].block is None && in_start(s, ix) <= row < in_start(s, ix + 1),
        in_start(s, ix) <= row,
{
    lemma_whole(s);
    if ix > 0 {
        assert(!stops_at(in_start(s, (ix - 1) + 1), row, Bias::Right));
    }
    if ix < s.len() {
        lemma_step(s, ix);
        lemma_monotone(s, ix + 1, s.len() as int);
        assert(s[ix].ok());
    }
}

/// The rows that transforms take in and show.
pub fn summary(transforms: &Vec<Transform>) -> (total: TransformSummary)
    requires
        input_rows(transforms@) <= u32::MAX,
        output_rows(transforms@) <= u32::MAX,
    ensures
        total.input_rows == input_rows(transforms@),
        total.output_rows == output_rows(transforms@),
{
    let mut cursor: Cursor = Cursor::start();
    while cursor.ix < transforms.len()
        invariant
            input_rows(transforms@) <= u32::MAX,
            output_rows(transforms@) <= u32::MAX,
            cursor.at(transforms@),
        decreases transforms@.len() - cursor.ix,
    {
        cursor.next(transforms);
    }
    proof {
        lemma_whole(transforms@);
    }
    TransformSummary { input_rows: cursor.input, output_rows: cursor.output }
}

/// A copy of all transforms.
pub fn copy_transforms(transforms: &Vec<Transform>) -> (copy: Vec<Transform>)
    ensures
        copy@ == transforms@,
{
    let mut copy: Vec<Transform> = Vec::new();
    append_range(&mut copy, transforms, 0, transforms.len());
    proof {
        assert(copy@ =~= transforms@);
    }
    copy
}

/// Puts transforms `from..to` of one list at the end of another.
pub fn append_range(target: &mut Vec<Transform>, source: &Vec<Transform>, from: usize, to: usize)
    requires
        from <= to <= source@.len(),
    ensures
        final(target)@ == old(target)@ + source@.subrange(from as int, to as int),
{
    let ghost before = target@;
    let mut ix: usize = from;
    proof {
        assert(before + source@.subrange(from as int, from as int) =~= before);
    }
    while ix < to
        invariant
            from <= ix <= to <= source@.len(),
            target@ == before + source@.subrange(from as int, ix as int),
        decreases to - ix,
    {
        target.push(source[ix].clone());
        ix = ix + 1;
        proof {
            assert(target@ =~= before + source@.subrange(from as int, ix as int));
        }
    }
}

} // verus!
