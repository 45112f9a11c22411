//! What putting in, resizing and taking out blocks does to the display.

use std::sync::Arc;
use vstd::prelude::*;

use crate::block::{Block, BlockId, BlockProperties, CustomBlock, CustomBlockId};
use crate::buffer::Anchor;
use crate::changes::{resized, resized_block, without};
use crate::layout::{
    all_entries, custom_entries, custom_row, header_entries, shown_boundaries, total_height,
};
use crate::likeness::{boundaries_apart, custom_alike, shows_alike, shows_same};
use crate::map::{heights_total, made_from, BlockMap};
use crate::order::block_le;
use crate::snapshot::BlockSnapshot;
use crate::transforms::{in_order, placed, DisplayRow};
use crate::wrap::WrapSnapshot;

verus! {

broadcast use {vstd::seq_lib::group_to_multiset_ensures, vstd::multiset::group_multiset_axioms};

/// The rows of text on display.
pub open spec fn text_shown(snapshot: &BlockSnapshot) -> Seq<DisplayRow> {
    snapshot.rows().filter(|row: DisplayRow| row is Text)
}

/// The lines that custom blocks take up.
pub open spec fn heights_of(blocks: Seq<Arc<CustomBlock>>) -> int
    decreases blocks.len(),
{
    if blocks.len() == 0 {
        0
    } else {
        heights_of(blocks.drop_last()) + blocks.last().height
    }
}

/// The custom block is on display, on its row.
pub open spec fn on_display(snapshot: &BlockSnapshot, block: Arc<CustomBlock>) -> bool {
    placed(snapshot.transforms@).contains(
        (custom_row(&snapshot.wrap_snapshot, &*block), Block::Custom(block)),
    )
}

/// Layouts of one text show the same rows of text.
proof fn lemma_same_text(a: &BlockSnapshot, b: &BlockSnapshot)
    requires
        a.wf(),
        b.wf(),
        a.wrap_snapshot == b.wrap_snapshot,
    ensures
        text_shown(a) == text_shown(b),
{
    crate::laws::law_text_kept(a);
    crate::laws::law_text_kept(b);
}

pub(crate) proof fn lemma_custom_heights(wrap: &WrapSnapshot, blocks: Seq<Arc<CustomBlock>>)
    ensures
        total_height(custom_entries(wrap, blocks)) == heights_of(blocks),
    decreases blocks.len(),
{
    if blocks.len() > 0 {
        lemma_custom_heights(wrap, blocks.drop_last());
        assert(custom_entries(wrap, blocks).drop_last() =~= custom_entries(
            wrap,
            blocks.drop_last(),
        ));
    }
}

/// A layout has as many rows as the text has, the custom blocks have lines, and the headers and
/// footers have.
pub proof fn law_rows_by_part(snapshot: &BlockSnapshot)
    requires
        snapshot.wf(),
    ensures
        snapshot.rows().len() == snapshot.wrap_snapshot.rows() + heights_of(
            snapshot.custom_blocks_by_id.0@,
        ) + total_height(
            header_entries(
                &snapshot.wrap_snapshot,
                snapshot.headers,
                shown_boundaries(&*snapshot.wrap_snapshot.buffer),
            ),
        ),
{
    let by_id = snapshot.custom_blocks_by_id.0@;
    crate::laws::law_row_count(snapshot);
    crate::changes::lemma_all_height(&snapshot.wrap_snapshot, snapshot.headers, by_id);
    lemma_custom_heights(&snapshot.wrap_snapshot, by_id);
}

/// The block with the id of a custom block is that block, on its row.
pub proof fn law_block_by_id(snapshot: &BlockSnapshot, n: int) -> (at: int)
    requires
        snapshot.wf(),
        0 <= n < snapshot.custom_blocks_by_id.0@.len(),
    ensures
        0 <= at < placed(snapshot.transforms@).len(),
        placed(snapshot.transforms@)[at] == (
            custom_row(&snapshot.wrap_snapshot, &*snapshot.custom_blocks_by_id.0@[n]),
            Block::Custom(snapshot.custom_blocks_by_id.0@[n]),
        ),
        forall|k: int|
            0 <= k < placed(snapshot.transforms@).len() && (#[trigger] placed(
                snapshot.transforms@,
            )[k]).1.id_spec() == BlockId::Custom(snapshot.custom_blocks_by_id.0@[n].id) ==> k
                == at,
{
    let shown = placed(snapshot.transforms@);
    let block = snapshot.custom_blocks_by_id.0@[n];
    let i = snapshot.lemma_custom_shown(n);
    crate::transforms::lemma_placed_at(snapshot.transforms@, i);
    let at = placed(snapshot.transforms@.take(i)).len() as int;
    assert forall|k: int|
        0 <= k < shown.len() && (#[trigger] shown[k]).1.id_spec() == BlockId::Custom(
            block.id,
        ) implies k == at by {
        crate::laws::law_ids_distinct(snapshot, k, at);
    }
    at
}

/// Ids are never given out again: where all ids given out so far are below the next one, the ids
/// of blocks that are put in ascend one by one above all of them, and all are below the next one
/// again.
pub proof fn law_ids_never_reused(
    before: &BlockMap,
    after: &BlockMap,
    blocks: Seq<BlockProperties<Anchor>>,
    ids: Seq<CustomBlockId>,
    given_out: Set<CustomBlockId>,
)
    requires
        before.inserts(after, blocks, ids),
        forall|id: CustomBlockId| #[trigger] given_out.contains(id) ==> id.0
            < before.next_block_id,
    ensures
        ids.len() == blocks.len(),
        forall|i: int, id: CustomBlockId|
            0 <= i < ids.len() && #[trigger] given_out.contains(id) ==> id.0 < (
            #[trigger] ids[i]).0,
        forall|i: int| 0 <= i < ids.len() - 1 ==> (#[trigger] ids[i + 1]).0 == ids[i].0 + 1,
        forall|id: CustomBlockId| #[trigger] given_out.contains(id) ==> id.0 < after.next_block_id,
        forall|i: int| 0 <= i < ids.len() ==> (#[trigger] ids[i]).0 < after.next_block_id,
{
}

/// Blocks that are put in add their lines to the display and nothing else: each is there, on its
/// row, as it was described; every other block is there on its row as before; the rows of text are
/// the same. Where none are put in, the display stays as it is.
pub proof fn law_insert(
    before: &BlockMap,
    after: &BlockMap,
    blocks: Seq<BlockProperties<Anchor>>,
    ids: Seq<CustomBlockId>,
)
    requires
        before.wf(),
        before.inserts(after, blocks, ids),
    ensures
        after.layout().wf(),
        after.layout().rows().len() == before.layout().rows().len() + heights_total(blocks),
        forall|i: int|
            0 <= i < blocks.len() ==> made_from(
                &*after.custom_blocks_by_id.0@[before.custom_blocks_by_id.0@.len() + i],
                ids[i],
                &#[trigger] blocks[i],
            ) && on_display(
                &after.layout(),
                after.custom_blocks_by_id.0@[before.custom_blocks_by_id.0@.len() + i],
            ),
        forall|k: int|
            0 <= k < before.custom_blocks_by_id.0@.len() ==> after.custom_blocks_by_id.0@[k]
                == #[trigger] before.custom_blocks_by_id.0@[k] && on_display(
                &after.layout(),
                before.custom_blocks_by_id.0@[k],
            ),
        text_shown(&after.layout()) == text_shown(&before.layout()),
        blocks.len() == 0 ==> shows_same(&after.layout(), &before.layout()),
{
    let (old, new) = (before.layout(), after.layout());
    let (old_blocks, new_blocks) = (old.custom_blocks_by_id.0@, new.custom_blocks_by_id.0@);
    before.lemma_layout();
    after.lemma_layout();
    law_rows_by_part(&old);
    law_rows_by_part(&new);
    let added = new_blocks.skip(old_blocks.len() as int);
    assert(new_blocks =~= old_blocks + added);
    assert forall|i: int| 0 <= i < blocks.len() implies (#[trigger] added[i]).height
        == blocks[i].height by {
        assert(made_from(&*new_blocks[old_blocks.len() + i], ids[i], &blocks[i]));
    }
    lemma_heights_added(old_blocks, added, blocks);
    assert forall|k: int| 0 <= k < new_blocks.len() implies on_display(
        &new,
        #[trigger] new_blocks[k],
    ) by {
        let at = law_block_by_id(&new, k);
    }
    assert forall|k: int| 0 <= k < old_blocks.len() implies new_blocks[k]
        == #[trigger] old_blocks[k] by {
        assert(new_blocks.take(old_blocks.len() as int)[k] == new_blocks[k]);
    }
    lemma_same_text(&old, &new);
    if blocks.len() == 0 {
        crate::laws::law_same_transforms(&new, &old);
    }
}

proof fn lemma_heights_added(
    before: Seq<Arc<CustomBlock>>,
    added: Seq<Arc<CustomBlock>>,
    blocks: Seq<BlockProperties<Anchor>>,
)
    requires
        added.len() == blocks.len(),
        forall|i: int| 0 <= i < blocks.len() ==> (#[trigger] added[i]).height == blocks[i].height,
    ensures
        heights_of(before + added) == heights_of(before) + heights_total(blocks),
    decreases added.len(),
{
    if added.len() == 0 {
        assert(before + added =~= before);
    } else {
        let fewer = added.drop_last();
        assert forall|i: int| 0 <= i < fewer.len() implies (#[trigger] fewer[i]).height
            == blocks.drop_last()[i].height by {
            assert(fewer[i] == added[i]);
        }
        lemma_heights_added(before, fewer, blocks.drop_last());
        assert((before + added).drop_last() =~= before + fewer);
        assert(added[added.len() - 1].height == blocks[added.len() - 1].height);
    }
}

/// The block on display, with another height if one is given for it.
pub open spec fn resized_shown(x: (int, Block), heights: Map<usize, u32>) -> (int, Block) {
    match x.1 {
        Block::Custom(block) => (x.0, Block::Custom(resized_block(block, heights))),
        Block::ExcerptBoundary { .. } => x,
    }
}

/// Blocks that are resized change their heights and nothing else: they stay on their rows, the rows
/// of text are the same, and the display grows or shrinks by their lines. Heights for ids that no
/// block has change nothing. Blocks stay in their order; for that, boundaries have to be apart.
pub proof fn law_resize(before: &BlockMap, after: &BlockMap, heights: Map<usize, u32>)
    requires
        before.wf(),
        before.resizes(after, heights),
    ensures
        after.layout().wf(),
        after.layout().rows().len() == before.layout().rows().len() + heights_of(
            resized(before.custom_blocks_by_id.0@, heights),
        ) - heights_of(before.custom_blocks_by_id.0@),
        forall|k: int|
            0 <= k < before.custom_blocks_by_id.0@.len() ==> after.custom_blocks_by_id.0@[k]
                == resized_block(#[trigger] before.custom_blocks_by_id.0@[k], heights)
                && on_display(
                &after.layout(),
                resized_block(before.custom_blocks_by_id.0@[k], heights),
            ),
        text_shown(&after.layout()) == text_shown(&before.layout()),
        boundaries_apart(&before.wrap_snapshot, before.headers) ==> placed(after.transforms@)
            == placed(before.transforms@).map_values(|x: (int, Block)| resized_shown(x, heights)),
        (forall|k: int|
            0 <= k < before.custom_blocks@.len() ==> !heights.contains_key(
                (#[trigger] before.custom_blocks@[k]).id.0,
            )) ==> shows_same(&after.layout(), &before.layout()),
{
    let (old, new) = (before.layout(), after.layout());
    let (old_blocks, new_blocks) = (old.custom_blocks_by_id.0@, new.custom_blocks_by_id.0@);
    before.lemma_layout();
    after.lemma_layout();
    law_rows_by_part(&old);
    law_rows_by_part(&new);
    assert forall|k: int| 0 <= k < old_blocks.len() implies new_blocks[k] == resized_block(
        #[trigger] old_blocks[k],
        heights,
    ) && on_display(&new, resized_block(old_blocks[k], heights)) by {
        let at = law_block_by_id(&new, k);
    }
    lemma_same_text(&old, &new);
    if boundaries_apart(&before.wrap_snapshot, before.headers) {
        lemma_resized_order(&old, &new, heights);
    }
    if forall|k: int|
        0 <= k < before.custom_blocks@.len() ==> !heights.contains_key(
            (#[trigger] before.custom_blocks@[k]).id.0,
        ) {
        assert(resized(before.custom_blocks@, heights) =~= before.custom_blocks@);
        crate::laws::law_same_transforms(&new, &old);
    }
}

/// Blocks that are resized stay in their order.
proof fn lemma_resized_order(old: &BlockSnapshot, new: &BlockSnapshot, heights: Map<usize, u32>)
    requires
        old.wf(),
        new.wf(),
        old.wrap_snapshot == new.wrap_snapshot,
        old.headers == new.headers,
        new.custom_blocks_by_id.0@ == resized(old.custom_blocks_by_id.0@, heights),
        boundaries_apart(&old.wrap_snapshot, old.headers),
    ensures
        placed(new.transforms@) == placed(old.transforms@).map_values(
            |x: (int, Block)| resized_shown(x, heights),
        ),
{
    let wrap = &old.wrap_snapshot;
    let f = |x: (int, Block)| resized_shown(x, heights);
    let shown = placed(old.transforms@);
    let expected = shown.map_values(f);
    let (by_id, new_by_id) = (old.custom_blocks_by_id.0@, new.custom_blocks_by_id.0@);
    let entries = all_entries(wrap, old.headers, by_id);
    let new_entries = all_entries(wrap, old.headers, new_by_id);
    assert forall|i: int| 0 <= i < entries.len() implies f(#[trigger] entries[i])
        == new_entries[i] by {
        if i < by_id.len() {
            assert(entries[i] == (custom_row(wrap, &*by_id[i]), Block::Custom(by_id[i])));
            assert(new_by_id[i] == resized_block(by_id[i], heights));
            assert(new_entries[i] == (
                custom_row(wrap, &*new_by_id[i]),
                Block::Custom(new_by_id[i]),
            ));
        } else {
            let n = crate::layout::lemma_header_source(
                wrap,
                old.headers,
                shown_boundaries(&*wrap.buffer),
                i - by_id.len(),
            );
        }
    }
    assert(entries.map_values(f) =~= new_entries);
    crate::changes::lemma_images_reordered(shown, entries, f);
    assert forall|i: int| 0 <= i < expected.len() implies (#[trigger] expected[i]).0 >= 0 by {
        assert(shown[i].0 >= 0);
    }
    assert forall|i: int, j: int| 0 <= i <= j < expected.len() implies block_le(
        (#[trigger] expected[i]).0,
        expected[i].1,
        (#[trigger] expected[j]).0,
        expected[j].1,
    ) by {
        assert(block_le(shown[i].0, shown[i].1, shown[j].0, shown[j].1));
    }
    assert forall|i: int, j: int|
        0 <= i < expected.len() && 0 <= j < expected.len() && block_le(
            (#[trigger] expected[i]).0,
            expected[i].1,
            (#[trigger] expected[j]).0,
            expected[j].1,
        ) && block_le(
            expected[j].0,
            expected[j].1,
            expected[i].0,
            expected[i].1,
        ) implies expected[i] == expected[j] by {
        assert(expected[i] == f(shown[i]) && expected[j] == f(shown[j]));
        crate::likeness::lemma_order_strict(old, i, j);
    }
    assert(in_order(expected));
    crate::laws::lemma_order_unique(expected, placed(new.transforms@));
}

/// Blocks that are taken out take their lines with them and nothing else: each other block is on
/// its row as before, and the rows of text are the same. Ids that no block has change nothing.
pub proof fn law_remove(before: &BlockMap, after: &BlockMap, ids: Set<usize>)
    requires
        before.wf(),
        before.removes(after, ids),
    ensures
        after.layout().wf(),
        after.layout().rows().len() == before.layout().rows().len() - heights_of(
            before.custom_blocks_by_id.0@,
        ) + heights_of(without(before.custom_blocks_by_id.0@, ids)),
        forall|k: int|
            0 <= k < placed(after.transforms@).len() ==> !((#[trigger] placed(
                after.transforms@,
            )[k]).1 matches Block::Custom(block) && ids.contains(block.id.0)),
        forall|k: int|
            0 <= k < before.custom_blocks_by_id.0@.len() && !ids.contains(
                (#[trigger] before.custom_blocks_by_id.0@[k]).id.0,
            ) ==> on_display(&after.layout(), before.custom_blocks_by_id.0@[k]),
        text_shown(&after.layout()) == text_shown(&before.layout()),
        without(before.custom_blocks@, ids) == before.custom_blocks@ ==> shows_same(
            &after.layout(),
            &before.layout(),
        ),
{
    let (old, new) = (before.layout(), after.layout());
    let (old_blocks, new_blocks) = (old.custom_blocks_by_id.0@, new.custom_blocks_by_id.0@);
    let keep = |block: Arc<CustomBlock>| !ids.contains(block.id.0);
    before.lemma_layout();
    after.lemma_layout();
    law_rows_by_part(&old);
    law_rows_by_part(&new);
    assert forall|k: int|
        0 <= k < placed(after.transforms@).len() implies !((#[trigger] placed(
        after.transforms@,
    )[k]).1 matches Block::Custom(block) && ids.contains(block.id.0)) by {
        if let Block::Custom(block) = placed(after.transforms@)[k].1 {
            new.lemma_placed_source(k);
            let n = new_blocks.index_of(block);
            old_blocks.lemma_filter_pred(keep, n);
        }
    }
    assert forall|k: int|
        0 <= k < old_blocks.len() && !ids.contains(
            (#[trigger] old_blocks[k]).id.0,
        ) implies on_display(&new, old_blocks[k]) by {
        assert(keep(old_blocks[k]));
        old_blocks.lemma_filter_contains(keep, k);
        let n = new_blocks.index_of(old_blocks[k]);
        let at = law_block_by_id(&new, n);
    }
    lemma_same_text(&old, &new);
    if without(before.custom_blocks@, ids) == before.custom_blocks@ {
        crate::laws::law_same_transforms(&new, &old);
    }
}

/// Taking out the blocks that were just put in shows what was shown before. Boundaries have to be
/// apart, as those on one side of one row may come in either order.
pub proof fn law_insert_then_remove(
    before: &BlockMap,
    between: &BlockMap,
    after: &BlockMap,
    blocks: Seq<BlockProperties<Anchor>>,
    ids: Seq<CustomBlockId>,
    removed: Set<usize>,
)
    requires
        before.wf(),
        before.inserts(between, blocks, ids),
        between.removes(after, removed),
        forall|id: usize| #[trigger] removed.contains(id) <==> ids.contains(CustomBlockId(id)),
        boundaries_apart(&before.wrap_snapshot, before.headers),
    ensures
        after.custom_blocks@ == before.custom_blocks@,
        after.custom_blocks_by_id.0@ == before.custom_blocks_by_id.0@,
        shows_same(&after.layout(), &before.layout()),
{
    let (first, next) = (before.next_block_id, between.next_block_id);
    assert forall|id: usize| #[trigger] removed.contains(id) <==> first <= id < next by {
        if first <= id < next {
            assert(ids[id - first] == CustomBlockId(id));
        }
    }
    crate::laws::law_remove_undoes_insert(
        before.custom_blocks@,
        between.custom_blocks@,
        first,
        next,
        removed,
    );
    assert(before.custom_blocks_by_id.0@.to_multiset()
        == after.custom_blocks_by_id.0@.to_multiset());
    crate::table::lemma_ascending_same(
        after.custom_blocks_by_id.0@,
        before.custom_blocks_by_id.0@,
    );
    before.lemma_layout();
    after.lemma_layout();
    crate::laws::law_layout_is_unique(&after.layout(), &before.layout());
}

/// A block goes above or below its whole line: blocks that are put in with other anchors on the
/// same lines of the buffer get the same ids and show the same. Boundaries have to be apart, as
/// those on one side of one row may come in either order.
pub proof fn law_column_is_ignored(
    before: &BlockMap,
    a: &BlockMap,
    blocks_a: Seq<BlockProperties<Anchor>>,
    ids_a: Seq<CustomBlockId>,
    b: &BlockMap,
    blocks_b: Seq<BlockProperties<Anchor>>,
    ids_b: Seq<CustomBlockId>,
)
    requires
        before.wf(),
        before.inserts(a, blocks_a, ids_a),
        before.inserts(b, blocks_b, ids_b),
        blocks_a.len() == blocks_b.len(),
        forall|i: int|
            0 <= i < blocks_a.len() ==> {
                let (block_a, block_b) = (#[trigger] blocks_a[i], blocks_b[i]);
                &&& before.wrap_snapshot.buffer.point(block_a.position).row
                    == before.wrap_snapshot.buffer.point(block_b.position).row
                &&& block_a.height == block_b.height
                &&& block_a.style == block_b.style
                &&& block_a.disposition == block_b.disposition
                &&& block_a.priority == block_b.priority
            },
        boundaries_apart(&before.wrap_snapshot, before.headers),
    ensures
        ids_a == ids_b,
        shows_alike(&a.layout(), &b.layout()),
{
    let count = before.custom_blocks_by_id.0@.len() as int;
    let (by_id_a, by_id_b) = (a.custom_blocks_by_id.0@, b.custom_blocks_by_id.0@);
    assert(ids_a =~= ids_b);
    a.lemma_layout();
    b.lemma_layout();
    assert forall|i: int| 0 <= i < by_id_a.len() implies {
        let (block_a, block_b) = (#[trigger] by_id_a[i], by_id_b[i]);
        &&& custom_alike(&*block_a, &*block_b)
        &&& before.wrap_snapshot.buffer.point(block_a.position).row
            == before.wrap_snapshot.buffer.point(block_b.position).row
    } by {
        if i < count {
            assert(by_id_a.take(count)[i] == by_id_a[i]);
            assert(by_id_b.take(count)[i] == by_id_b[i]);
        } else {
            let n = i - count;
            assert(made_from(&*by_id_a[count + n], ids_a[n], &blocks_a[n]));
            assert(made_from(&*by_id_b[count + n], ids_b[n], &blocks_b[n]));
        }
    }
    crate::likeness::law_line_decides(&a.layout(), &b.layout());
}

/// A block that was put in has the id that was given out for it and all that it was described by,
/// and is in the map; blocks that were there are still there.
pub proof fn law_inserted_blocks(
    before: &BlockMap,
    after: &BlockMap,
    blocks: Seq<BlockProperties<Anchor>>,
    ids: Seq<CustomBlockId>,
)
    requires
        before.wf(),
        before.inserts(after, blocks, ids),
    ensures
        ({
            let count = before.custom_blocks_by_id.0@.len() as int;
            let by_id = after.custom_blocks_by_id.0@;
            &&& by_id.len() == count + blocks.len()
            &&& ids.len() == blocks.len()
            &&& after.custom_blocks@.to_multiset() == by_id.to_multiset()
            &&& forall|k: int|
                0 <= k < count ==> #[trigger] by_id[k] == before.custom_blocks_by_id.0@[k]
            &&& forall|i: int|
                0 <= i < blocks.len() ==> {
                    &&& by_id[count + i].id == #[trigger] ids[i]
                    &&& ids[i].0 == before.next_block_id + i
                    &&& by_id[count + i].position == blocks[i].position
                    &&& by_id[count + i].height == blocks[i].height
                    &&& by_id[count + i].style == blocks[i].style
                    &&& by_id[count + i].disposition == blocks[i].disposition
                    &&& by_id[count + i].priority == blocks[i].priority
                    &&& by_id[count + i].render.ever_holds(blocks[i].render)
                }
            &&& after.custom_blocks@.filter(
                |block: Arc<CustomBlock>| block.id.0 < before.next_block_id,
            ) == before.custom_blocks@
            &&& after.next_block_id == before.next_block_id + blocks.len()
            &&& after.wf()
            &&& after.wrap_snapshot == before.wrap_snapshot
            &&& after.headers == before.headers
            &&& blocks.len() == 0 ==> after.transforms@ == before.transforms@
        }),
{
    let count = before.custom_blocks_by_id.0@.len() as int;
    let by_id = after.custom_blocks_by_id.0@;
    assert forall|k: int| 0 <= k < count implies #[trigger] by_id[k]
        == before.custom_blocks_by_id.0@[k] by {
        assert(by_id.take(count)[k] == by_id[k]);
    }
    assert forall|i: int| 0 <= i < blocks.len() implies {
        &&& by_id[count + i].id == #[trigger] ids[i]
        &&& ids[i].0 == before.next_block_id + i
        &&& by_id[count + i].position == blocks[i].position
        &&& by_id[count + i].height == blocks[i].height
        &&& by_id[count + i].style == blocks[i].style
        &&& by_id[count + i].disposition == blocks[i].disposition
        &&& by_id[count + i].priority == blocks[i].priority
        &&& by_id[count + i].render.ever_holds(blocks[i].render)
    } by {
        assert(made_from(&*by_id[count + i], ids[i], &blocks[i]));
    }
    assert(after.custom_blocks@.filter(
        |block: Arc<CustomBlock>| block.id.0 < before.next_block_id,
    ) == before.custom_blocks@);
}

/// The block is as it was but for its height, which is the one that is given for it, if one is.
pub open spec fn given_height(
    before: Arc<CustomBlock>,
    after: Arc<CustomBlock>,
    heights: Map<usize, u32>,
) -> bool {
    &&& after.id == before.id
    &&& after.position == before.position
    &&& after.style == before.style
    &&& after.render == before.render
    &&& after.disposition == before.disposition
    &&& after.priority == before.priority
    &&& heights.contains_key(before.id.0) ==> after.height == heights[before.id.0]
    &&& !heights.contains_key(before.id.0) ==> after.height == before.height
}

/// Every block for which a height is given has that height, whatever it had before, and nothing
/// else about the map changes. Where all have the heights that are given, the layout stays as it
/// is.
pub proof fn law_given_heights(before: &BlockMap, after: &BlockMap, heights: Map<usize, u32>)
    requires
        before.wf(),
        before.resizes(after, heights),
    ensures
        after.custom_blocks_by_id.0@.len() == before.custom_blocks_by_id.0@.len(),
        forall|k: int|
            0 <= k < before.custom_blocks_by_id.0@.len() ==> given_height(
                #[trigger] before.custom_blocks_by_id.0@[k],
                after.custom_blocks_by_id.0@[k],
                heights,
            ),
        after.custom_blocks@.len() == before.custom_blocks@.len(),
        forall|k: int|
            0 <= k < before.custom_blocks@.len() ==> given_height(
                #[trigger] before.custom_blocks@[k],
                after.custom_blocks@[k],
                heights,
            ),
        after.wf(),
        after.wrap_snapshot == before.wrap_snapshot,
        after.headers == before.headers,
        after.next_block_id == before.next_block_id,
        (forall|k: int|
            0 <= k < before.custom_blocks@.len() && heights.contains_key(
                (#[trigger] before.custom_blocks@[k]).id.0,
            ) ==> heights[before.custom_blocks@[k].id.0] == before.custom_blocks@[k].height)
            ==> after.transforms@ == before.transforms@,
{
    assert forall|k: int| 0 <= k < before.custom_blocks_by_id.0@.len() implies given_height(
        #[trigger] before.custom_blocks_by_id.0@[k],
        after.custom_blocks_by_id.0@[k],
        heights,
    ) by {
        assert(after.custom_blocks_by_id.0@[k] == resized_block(
            before.custom_blocks_by_id.0@[k],
            heights,
        ));
    }
    assert forall|k: int| 0 <= k < before.custom_blocks@.len() implies given_height(
        #[trigger] before.custom_blocks@[k],
        after.custom_blocks@[k],
        heights,
    ) by {
        assert(after.custom_blocks@[k] == resized_block(before.custom_blocks@[k], heights));
    }
    if forall|k: int|
        0 <= k < before.custom_blocks@.len() && heights.contains_key(
            (#[trigger] before.custom_blocks@[k]).id.0,
        ) ==> heights[before.custom_blocks@[k].id.0] == before.custom_blocks@[k].height {
        assert forall|k: int| 0 <= k < before.custom_blocks@.len() implies resized_block(
            #[trigger] before.custom_blocks@[k],
            heights,
        ) == before.custom_blocks@[k] by {}
        assert(resized(before.custom_blocks@, heights) =~= before.custom_blocks@);
    }
}

/// A block for which a height is given is on display with as many lines, one after the other.
pub proof fn law_given_lines(
    before: &BlockMap,
    after: &BlockMap,
    heights: Map<usize, u32>,
    k: int,
) -> (start: int)
    requires
        before.wf(),
        before.resizes(after, heights),
        0 <= k < before.custom_blocks_by_id.0@.len(),
        heights.contains_key(before.custom_blocks_by_id.0@[k].id.0),
    ensures
        ({
            let rows = after.layout().rows();
            let id = before.custom_blocks_by_id.0@[k].id;
            let height = heights[id.0] as int;
            &&& 0 <= start
            &&& start + height <= rows.len()
            &&& forall|r: int|
                0 <= r < rows.len() ==> (((#[trigger] rows[r]) is Block && rows[r]->block.id_spec()
                    == BlockId::Custom(id)) <==> start <= r < start + height)
        }),
{
    law_given_heights(before, after, heights);
    after.lemma_layout();
    let rows = after.layout().rows();
    let block = after.custom_blocks_by_id.0@[k];
    assert(given_height(before.custom_blocks_by_id.0@[k], block, heights));
    let start = crate::shown::law_custom_block_place(&after.layout(), k);
    assert forall|r: int| 0 <= r < rows.len() implies (((#[trigger] rows[r]) is Block
        && rows[r]->block.id_spec() == BlockId::Custom(block.id)) <==> start <= r < start
        + block.height) by {
        if start <= r < start + block.height {
            assert(rows[start + (r - start)] is Block);
        }
    }
    start
}

/// A block is in the map after blocks were taken out if it was before and its id is not among
/// theirs; the blocks stay in their order, and nothing else about the map changes. Where no block
/// has one of the ids, the layout stays as it is.
pub proof fn law_removed_blocks(before: &BlockMap, after: &BlockMap, ids: Set<usize>)
    requires
        before.wf(),
        before.removes(after, ids),
    ensures
        forall|block: Arc<CustomBlock>| #[trigger]
            after.custom_blocks_by_id.0@.contains(block) <==> {
                &&& before.custom_blocks_by_id.0@.contains(block)
                &&& !ids.contains(block.id.0)
            },
        after.custom_blocks@ == before.custom_blocks@.filter(
            |block: Arc<CustomBlock>| !ids.contains(block.id.0),
        ),
        after.custom_blocks_by_id.0@ == before.custom_blocks_by_id.0@.filter(
            |block: Arc<CustomBlock>| !ids.contains(block.id.0),
        ),
        after.wf(),
        after.wrap_snapshot == before.wrap_snapshot,
        after.headers == before.headers,
        after.next_block_id == before.next_block_id,
        (forall|k: int|
            0 <= k < before.custom_blocks@.len() ==> !ids.contains(
                (#[trigger] before.custom_blocks@[k]).id.0,
            )) ==> after.transforms@ == before.transforms@,
{
    if forall|k: int|
        0 <= k < before.custom_blocks@.len() ==> !ids.contains(
            (#[trigger] before.custom_blocks@[k]).id.0,
        ) {
        crate::shown::lemma_filter_all(
            before.custom_blocks@,
            |block: Arc<CustomBlock>| !ids.contains(block.id.0),
        );
    }
    let keep = |block: Arc<CustomBlock>| !ids.contains(block.id.0);
    let (old, new) = (before.custom_blocks_by_id.0@, after.custom_blocks_by_id.0@);
    assert(new == old.filter(keep));
    assert forall|block: Arc<CustomBlock>| #[trigger]
        new.contains(block) <==> old.contains(block) && !ids.contains(block.id.0) by {
        if new.contains(block) {
            let n = new.index_of(block);
            old.lemma_filter_pred(keep, n);
            old.lemma_filter_contains_rev(keep, block);
        }
        if old.contains(block) && !ids.contains(block.id.0) {
            let n = old.index_of(block);
            assert(keep(old[n]));
            old.lemma_filter_contains(keep, n);
        }
    }
}

/// Heights are added up, one by one.
pub proof fn law_heights_add_up(
    blocks: Seq<BlockProperties<Anchor>>,
    block: BlockProperties<Anchor>,
    customs: Seq<Arc<CustomBlock>>,
    custom: Arc<CustomBlock>,
    shown: Seq<(int, Block)>,
    entry: (int, Block),
)
    ensures
        heights_total(Seq::empty()) == 0,
        heights_total(blocks.push(block)) == heights_total(blocks) + block.height,
        heights_of(Seq::empty()) == 0,
        heights_of(customs.push(custom)) == heights_of(customs) + custom.height,
        total_height(Seq::empty()) == 0,
        total_height(shown.push(entry)) == total_height(shown) + entry.1.height_spec(),
{
    assert(blocks.push(block).drop_last() =~= blocks);
    assert(customs.push(custom).drop_last() =~= customs);
    assert(shown.push(entry).drop_last() =~= shown);
}

/// A map has its blocks in the order of their anchors, and once more in the order of their ids;
/// their ids were given out, and the buffer knows their anchors.
pub proof fn law_blocks_of_map(map: &BlockMap)
    requires
        map.wf(),
    ensures
        ({
            let blocks = map.custom_blocks@;
            let by_id = map.custom_blocks_by_id.0@;
            let ranks = map.wrap_snapshot.buffer.anchor_ranks@;
            &&& blocks.to_multiset() == by_id.to_multiset()
            &&& forall|i: int|
                0 <= i < blocks.len() ==> (#[trigger] blocks[i]).position.0 < ranks.len()
                    && blocks[i].id.0 < map.next_block_id
            &&& forall|i: int, j: int|
                0 <= i < j < blocks.len() ==> ranks[(#[trigger] blocks[i]).position.0 as int]
                    <= ranks[(#[trigger] blocks[j]).position.0 as int]
            &&& forall|i: int, j: int|
                0 <= i < j < by_id.len() ==> (#[trigger] by_id[i]).id.0 < (
                #[trigger] by_id[j]).id.0
        }),
{
    let blocks = map.custom_blocks@;
    let buffer = map.wrap_snapshot.buffer;
    assert forall|i: int| 0 <= i < blocks.len() implies (#[trigger] blocks[i]).position.0
        < buffer.anchor_ranks@.len() && blocks[i].id.0 < map.next_block_id by {
        assert(buffer.knows(blocks[i].position));
    }
    assert forall|i: int, j: int| 0 <= i < j < blocks.len() implies buffer.anchor_ranks@[(
    #[trigger] blocks[i]).position.0 as int] <= buffer.anchor_ranks@[(
    #[trigger] blocks[j]).position.0 as int] by {
        assert(buffer.rank(blocks[i].position) <= buffer.rank(blocks[j].position));
    }
}

} // verus!
