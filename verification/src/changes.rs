//! How the blocks on display change with the custom blocks, and which lines that touches.

use std::sync::Arc;
use vstd::multiset::Multiset;
use vstd::prelude::*;

use crate::block::{Block, CustomBlock};
use crate::layout::{
    all_entries, custom_entries, custom_row, header_entries, shown_boundaries, total_height,
    HeaderConfig,
};
use crate::patch::{edits_valid, source_row, Edit, Patch};
use crate::sync::{edits_aligned, edits_cover};
use crate::table::ids_ascend;
use crate::wrap::WrapSnapshot;

verus! {

broadcast use {vstd::seq_lib::group_to_multiset_ensures, vstd::multiset::group_multiset_axioms};

/// The block, with another height if one is given for its id.
pub open spec fn resized_block(block: Arc<CustomBlock>, heights: Map<usize, u32>) -> Arc<
    CustomBlock,
> {
    if heights.contains_key(block.id.0) {
        Arc::new(CustomBlock { height: heights[block.id.0], ..*block })
    } else {
        block
    }
}

pub open spec fn resized(blocks: Seq<Arc<CustomBlock>>, heights: Map<usize, u32>) -> Seq<
    Arc<CustomBlock>,
> {
    blocks.map_values(|block: Arc<CustomBlock>| resized_block(block, heights))
}

/// The blocks that have none of the ids.
pub open spec fn without(blocks: Seq<Arc<CustomBlock>>, ids: Set<usize>) -> Seq<Arc<CustomBlock>> {
    blocks.filter(|block: Arc<CustomBlock>| !ids.contains(block.id.0))
}

/// Edits that changed whole lines of a text and moved no row.
pub open spec fn line_edits(edits: Seq<Edit>, wrap: &WrapSnapshot) -> bool {
    &&& edits_valid(edits, wrap.rows(), wrap.rows())
    &&& forall|i: int|
        0 <= i < edits.len() ==> {
            &&& (#[trigger] edits[i]).new.start < wrap.rows()
            &&& wrap.is_boundary(edits[i].new.start as int)
            &&& wrap.is_boundary(edits[i].new.end as int)
            &&& edits[i].old.end > 0
        }
    &&& forall|row: int|
        0 <= row < wrap.rows() && source_row(edits, row) is Some ==> #[trigger] source_row(
            edits,
            row,
        ) == Some(row)
}

/// The edits changed all rows on which blocks of a line of the buffer can stand.
pub open spec fn line_marked(edits: Seq<Edit>, wrap: &WrapSnapshot, buffer_row: u32) -> bool {
    &&& source_row(edits, wrap.first_row(buffer_row as int)) is None
    &&& source_row(edits, wrap.last_row(buffer_row as int)) is None
}

/// The lines whose blocks changed.
pub struct LineMarks {
    pub edits: Patch,
    pub last_buffer_row: Option<u32>,
    pub last_range: Option<(u32, u32)>,
}

impl LineMarks {
    pub open spec fn wf(&self, wrap: &WrapSnapshot) -> bool {
        &&& line_edits(self.edits.0@, wrap)
        &&& self.last_buffer_row matches Some(row) ==> line_marked(self.edits.0@, wrap, row)
        &&& self.last_range matches Some(range) ==> wrap.is_line_range(
            range.0 as int,
            range.0 as int,
            range.1 as int,
        )
    }

    pub(crate) fn new(Ghost(wrap): Ghost<&WrapSnapshot>) -> (marks: Self)
        ensures
            marks.wf(wrap),
            marks.edits.0@.len() == 0,
    {
        LineMarks { edits: Patch::default(), last_buffer_row: None, last_range: None }
    }

    /// Marks the rows of a line of the buffer.
    pub(crate) fn mark(&mut self, wrap: &WrapSnapshot, buffer_row: u32)
        requires
            wrap.wf(),
            old(self).wf(wrap),
            buffer_row < wrap.buffer.line_lens@.len(),
        ensures
            final(self).wf(wrap),
            line_marked(final(self).edits.0@, wrap, buffer_row),
            forall|row: int|
                0 <= row < wrap.rows() && source_row(old(self).edits.0@, row) is None
                    ==> #[trigger] source_row(final(self).edits.0@, row) is None,
    {
        if let Some(row) = self.last_buffer_row {
            if row == buffer_row {
                return ;
            }
        }
        let wrap_row: u32 = wrap.line_first_row(buffer_row);
        let known: Option<(u32, u32)> = match self.last_range {
            Some(range) => {
                if range.0 <= wrap_row && wrap_row < range.1 {
                    Some(range)
                } else {
                    None
                }
            },
            None => None,
        };
        let (start, end): (u32, u32) = match known {
            Some(range) => range,
            None => wrap.line_range(wrap_row),
        };
        let ghost before = self.edits.0@;
        self.edits =
        self.edits.compose(start, end, Ghost(wrap.rows()), Ghost(wrap.rows()));
        self.last_range = Some((start, end));
        self.last_buffer_row = Some(buffer_row);
        proof {
            let edits = self.edits.0@;
            wrap.lemma_line_in_range(buffer_row as int, start as int, end as int);
            assert forall|row: int|
                0 <= row < wrap.rows() && source_row(edits, row) is Some implies (
            #[trigger] source_row(edits, row)) == Some(row) by {
                assert(source_row(before, row) == Some(row));
            }
            assert(line_marked(edits, wrap, buffer_row));
        }
    }
}

/// Where edits of whole lines changed all rows on which blocks differ, they cover the change.
pub proof fn lemma_lines_cover(
    edits: Seq<Edit>,
    wrap: &WrapSnapshot,
    old: Multiset<(int, Block)>,
    new: Multiset<(int, Block)>,
)
    requires
        line_edits(edits, wrap),
        forall|row: int, block: Block|
            0 <= row < wrap.rows() && source_row(edits, row) is Some ==> #[trigger] new.count(
                (row, block),
            ) == old.count((row, block)),
    ensures
        edits_cover(edits, old, new, wrap.rows()),
        edits_aligned(edits, old, wrap),
{
    assert forall|row: int, block: Block|
        0 <= row < wrap.rows() && source_row(edits, row) is Some implies #[trigger] new.count(
        (row, block),
    ) == old.count((source_row(edits, row)->0, block)) by {
        assert(source_row(edits, row) == Some(row));
    }
}

/// Sequences that differ only in items other than `x` hold `x` as often.
proof fn lemma_count_pointwise(a: Seq<(int, Block)>, b: Seq<(int, Block)>, x: (int, Block))
    requires
        a.len() == b.len(),
        forall|i: int| 0 <= i < a.len() ==> #[trigger] a[i] == b[i] || (a[i] != x && b[i] != x),
    ensures
        a.to_multiset().count(x) == b.to_multiset().count(x),
    decreases a.len(),
{
    if a.len() > 0 {
        assert forall|i: int| 0 <= i < a.drop_last().len() implies #[trigger] a.drop_last()[i]
            == b.drop_last()[i] || (a.drop_last()[i] != x && b.drop_last()[i] != x) by {
            assert(a[i] == b[i] || (a[i] != x && b[i] != x));
        }
        lemma_count_pointwise(a.drop_last(), b.drop_last(), x);
        assert(a =~= a.drop_last().push(a.last()));
        assert(b =~= b.drop_last().push(b.last()));
        assert(a[a.len() - 1] == b[a.len() - 1] || (a[a.len() - 1] != x && b[a.len() - 1] != x));
    } else {
        assert(a =~= b);
    }
}

/// How often a block is among all, counted among custom blocks and boundaries.
pub proof fn lemma_all_count(
    wrap: &WrapSnapshot,
    headers: HeaderConfig,
    blocks: Seq<Arc<CustomBlock>>,
    x: (int, Block),
)
    ensures
        all_entries(wrap, headers, blocks).to_multiset().count(x) == custom_entries(
            wrap,
            blocks,
        ).to_multiset().count(x) + header_entries(
            wrap,
            headers,
            shown_boundaries(&*wrap.buffer),
        ).to_multiset().count(x),
{
    vstd::seq_lib::lemma_multiset_commutative(
        custom_entries(wrap, blocks),
        header_entries(wrap, headers, shown_boundaries(&*wrap.buffer)),
    );
}

/// Blocks that keep their heights stay where they are on rows without resized ones.
pub proof fn lemma_resized_count(
    wrap: &WrapSnapshot,
    headers: HeaderConfig,
    blocks: Seq<Arc<CustomBlock>>,
    new_blocks: Seq<Arc<CustomBlock>>,
    x: (int, Block),
)
    requires
        blocks.len() == new_blocks.len(),
        forall|i: int|
            0 <= i < blocks.len() ==> #[trigger] blocks[i] == new_blocks[i] || (custom_row(
                wrap,
                &*blocks[i],
            ) != x.0 && custom_row(wrap, &*new_blocks[i]) != x.0),
    ensures
        all_entries(wrap, headers, blocks).to_multiset().count(x) == all_entries(
            wrap,
            headers,
            new_blocks,
        ).to_multiset().count(x),
{
    let a = custom_entries(wrap, blocks);
    let b = custom_entries(wrap, new_blocks);
    assert forall|i: int| 0 <= i < a.len() implies #[trigger] a[i] == b[i] || (a[i] != x && b[i]
        != x) by {
        assert(blocks[i] == new_blocks[i] || (custom_row(wrap, &*blocks[i]) != x.0 && custom_row(
            wrap,
            &*new_blocks[i],
        ) != x.0));
    }
    lemma_count_pointwise(a, b, x);
    lemma_all_count(wrap, headers, blocks, x);
    lemma_all_count(wrap, headers, new_blocks, x);
}

/// Blocks that are kept stay where they are on rows without removed ones.
pub proof fn lemma_removed_count(
    wrap: &WrapSnapshot,
    blocks: Seq<Arc<CustomBlock>>,
    keep: spec_fn(Arc<CustomBlock>) -> bool,
    x: (int, Block),
)
    requires
        forall|i: int|
            0 <= i < blocks.len() && !keep(#[trigger] blocks[i]) ==> custom_row(wrap, &*blocks[i])
                != x.0,
    ensures
        custom_entries(wrap, blocks.filter(keep)).to_multiset().count(x) == custom_entries(
            wrap,
            blocks,
        ).to_multiset().count(x),
    decreases blocks.len(),
{
    reveal(Seq::filter);
    if blocks.len() == 0 {
        assert(blocks.filter(keep) =~= blocks);
    } else {
        let before = blocks.drop_last();
        let last = blocks.last();
        assert forall|i: int|
            0 <= i < before.len() && !keep(#[trigger] before[i]) implies custom_row(
            wrap,
            &*before[i],
        ) != x.0 by {
            assert(before[i] == blocks[i]);
        }
        lemma_removed_count(wrap, before, keep, x);
        let entry = (custom_row(wrap, &*last), Block::Custom(last));
        assert(custom_entries(wrap, blocks) =~= custom_entries(wrap, before).push(entry));
        if keep(last) {
            assert(blocks.filter(keep) =~= before.filter(keep).push(last));
            assert(custom_entries(wrap, blocks.filter(keep)) =~= custom_entries(
                wrap,
                before.filter(keep),
            ).push(entry));
        } else {
            assert(!keep(blocks[blocks.len() - 1]));
        }
    }
}

/// Fewer blocks take up no more lines.
pub proof fn lemma_removed_height(
    wrap: &WrapSnapshot,
    blocks: Seq<Arc<CustomBlock>>,
    keep: spec_fn(Arc<CustomBlock>) -> bool,
)
    ensures
        total_height(custom_entries(wrap, blocks.filter(keep))) <= total_height(
            custom_entries(wrap, blocks),
        ),
    decreases blocks.len(),
{
    reveal(Seq::filter);
    if blocks.len() == 0 {
        assert(blocks.filter(keep) =~= blocks);
    } else {
        let before = blocks.drop_last();
        let last = blocks.last();
        lemma_removed_height(wrap, before, keep);
        assert(custom_entries(wrap, blocks).drop_last() =~= custom_entries(wrap, before));
        if keep(last) {
            let kept = blocks.filter(keep);
            assert(kept =~= before.filter(keep).push(last));
            assert(custom_entries(wrap, kept).drop_last() =~= custom_entries(
                wrap,
                before.filter(keep),
            ));
        }
    }
}

/// Blocks take up the lines of either part.
pub proof fn lemma_height_concat(a: Seq<(int, Block)>, b: Seq<(int, Block)>)
    ensures
        total_height(a + b) == total_height(a) + total_height(b),
    decreases b.len(),
{
    if b.len() == 0 {
        assert(a + b =~= a);
    } else {
        assert((a + b).drop_last() =~= a + b.drop_last());
        lemma_height_concat(a, b.drop_last());
    }
}

/// All blocks take up the lines of the custom blocks and those of the boundaries.
pub proof fn lemma_all_height(
    wrap: &WrapSnapshot,
    headers: HeaderConfig,
    blocks: Seq<Arc<CustomBlock>>,
)
    ensures
        total_height(all_entries(wrap, headers, blocks)) == total_height(
            custom_entries(wrap, blocks),
        ) + total_height(header_entries(wrap, headers, shown_boundaries(&*wrap.buffer))),
{
    lemma_height_concat(
        custom_entries(wrap, blocks),
        header_entries(wrap, headers, shown_boundaries(&*wrap.buffer)),
    );
}

/// One block more stands where it belongs and takes up its lines.
pub proof fn lemma_inserted(
    wrap: &WrapSnapshot,
    headers: HeaderConfig,
    blocks: Seq<Arc<CustomBlock>>,
    ix: int,
    block: Arc<CustomBlock>,
)
    requires
        0 <= ix <= blocks.len(),
    ensures
        all_entries(wrap, headers, blocks.insert(ix, block)).to_multiset() == all_entries(
            wrap,
            headers,
            blocks,
        ).to_multiset().insert((custom_row(wrap, &*block), Block::Custom(block))),
        total_height(all_entries(wrap, headers, blocks.insert(ix, block))) == total_height(
            all_entries(wrap, headers, blocks),
        ) + block.height,
{
    let entry = (custom_row(wrap, &*block), Block::Custom(block));
    let old = all_entries(wrap, headers, blocks);
    let new = all_entries(wrap, headers, blocks.insert(ix, block));
    assert(new =~= old.insert(ix, entry));
    assert(new.remove(ix) =~= old);
    crate::layout::lemma_total_height_remove(new, ix);
}

/// The order of the custom blocks makes no difference to where they stand.
pub proof fn lemma_reordered_entries(
    wrap: &WrapSnapshot,
    headers: HeaderConfig,
    a: Seq<Arc<CustomBlock>>,
    b: Seq<Arc<CustomBlock>>,
)
    requires
        a.to_multiset() == b.to_multiset(),
    ensures
        all_entries(wrap, headers, a).to_multiset() == all_entries(wrap, headers, b).to_multiset(),
    decreases a.len(),
{
    assert(a.len() == a.to_multiset().len());
    assert(b.len() == b.to_multiset().len());
    if a.len() > 0 {
        let x = a.last();
        assert(a.contains(x));
        assert(a.to_multiset().count(x) > 0);
        assert(b.contains(x));
        let k = b.index_of(x);
        let rest = b.remove(k);
        assert(a.drop_last() =~= a.remove(a.len() - 1));
        assert(a.remove(a.len() - 1).to_multiset() =~= a.to_multiset().remove(x));
        assert(rest.to_multiset() =~= b.to_multiset().remove(x));
        lemma_reordered_entries(wrap, headers, a.drop_last(), rest);
        assert(a.drop_last().insert(a.len() - 1, x) =~= a);
        assert(rest.insert(k, x) =~= b);
        lemma_inserted(wrap, headers, a.drop_last(), a.len() - 1, x);
        lemma_inserted(wrap, headers, rest, k, x);
    } else {
        assert(a =~= b);
    }
}

/// How often an item is among those that are kept.
proof fn lemma_kept_count(
    blocks: Seq<Arc<CustomBlock>>,
    keep: spec_fn(Arc<CustomBlock>) -> bool,
    x: Arc<CustomBlock>,
)
    ensures
        blocks.filter(keep).to_multiset().count(x) == (if keep(x) {
            blocks.to_multiset().count(x)
        } else {
            0
        }),
    decreases blocks.len(),
{
    reveal(Seq::filter);
    if blocks.len() == 0 {
        assert(blocks.filter(keep) =~= blocks);
        assert(blocks =~= Seq::empty());
    } else {
        let before = blocks.drop_last();
        lemma_kept_count(before, keep, x);
        assert(blocks =~= before.push(blocks.last()));
        if keep(blocks.last()) {
            assert(blocks.filter(keep) =~= before.filter(keep).push(blocks.last()));
        }
    }
}

/// The same blocks, in either order, keep the same ones.
pub proof fn lemma_kept_same(
    a: Seq<Arc<CustomBlock>>,
    b: Seq<Arc<CustomBlock>>,
    keep: spec_fn(Arc<CustomBlock>) -> bool,
)
    requires
        a.to_multiset() == b.to_multiset(),
    ensures
        a.filter(keep).to_multiset() == b.filter(keep).to_multiset(),
{
    assert forall|x: Arc<CustomBlock>|
        a.filter(keep).to_multiset().count(x) == b.filter(keep).to_multiset().count(x) by {
        lemma_kept_count(a, keep, x);
        lemma_kept_count(b, keep, x);
    }
    assert(a.filter(keep).to_multiset() =~= b.filter(keep).to_multiset());
}

/// The same items, in either order, lead to the same images.
pub proof fn lemma_images_reordered<A, B>(a: Seq<A>, b: Seq<A>, f: spec_fn(A) -> B)
    requires
        a.to_multiset() == b.to_multiset(),
    ensures
        a.map_values(f).to_multiset() == b.map_values(f).to_multiset(),
    decreases a.len(),
{
    assert(a.len() == a.to_multiset().len());
    assert(b.len() == b.to_multiset().len());
    if a.len() > 0 {
        let x = a.last();
        assert(a.contains(x));
        assert(a.to_multiset().count(x) > 0);
        assert(b.contains(x));
        let k = b.index_of(x);
        let rest = b.remove(k);
        assert(a.drop_last() =~= a.remove(a.len() - 1));
        assert(a.remove(a.len() - 1).to_multiset() =~= a.to_multiset().remove(x));
        assert(rest.to_multiset() =~= b.to_multiset().remove(x));
        lemma_images_reordered(a.drop_last(), rest, f);
        assert(a.map_values(f) =~= a.drop_last().map_values(f).insert(a.len() - 1, f(x)));
        assert(b.map_values(f) =~= rest.map_values(f).insert(k, f(x)));
    } else {
        assert(a =~= b);
    }
}

/// The blocks by id are resized as the blocks are.
pub proof fn lemma_resized_table(
    blocks: Seq<Arc<CustomBlock>>,
    by_id: Seq<Arc<CustomBlock>>,
    new_by_id: Seq<Arc<CustomBlock>>,
    heights: Map<usize, u32>,
)
    requires
        ids_ascend(by_id),
        ids_ascend(new_by_id),
        blocks.to_multiset() == by_id.to_multiset(),
        resized(blocks, heights).to_multiset() == new_by_id.to_multiset(),
    ensures
        new_by_id == resized(by_id, heights),
{
    lemma_images_reordered(
        blocks,
        by_id,
        |block: Arc<CustomBlock>| resized_block(block, heights),
    );
    let expected = resized(by_id, heights);
    assert forall|i: int, j: int| 0 <= i < j < expected.len() implies (
    #[trigger] expected[i]).id.0 < (#[trigger] expected[j]).id.0 by {
        assert(by_id[i].id.0 < by_id[j].id.0);
    }
    crate::table::lemma_ascending_same(new_by_id, expected);
}

} // verus!
