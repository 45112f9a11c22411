//! The blocks of a text, kept laid out while the text and the blocks change.

use std::collections::{HashMap, HashSet};
use std::sync::Arc;
use vstd::multiset::Multiset;
use vstd::prelude::*;

use crate::block::{
    Block, BlockLike, BlockProperties, BlockType, CustomBlock, CustomBlockId,
};
use crate::buffer::{Anchor, MultiBufferSnapshot};
use crate::changes::{resized, resized_block, without, LineMarks};
use crate::layout::{
    all_entries, blocks_resolve, boundaries_in_range, header_and_footer_blocks, header_entries,
    headers_fit, is_layout, layout_fits, lifted, HeaderConfig,
};
use crate::patch::{clamped, edits_valid, Edit, Patch};
use crate::point::{Bias, BlockRow, Point};
use crate::render::{RenderBlock, RenderSlot};
use crate::snapshot::{shows_custom, BlockSnapshot};
use crate::sync::{edits_aligned, edits_cover, on_rows, sync_transforms};
use crate::table::{ids_ascend, BlockTable};
use crate::transforms::{
    copy_transforms, in_start, input_rows, out_start, output_rows, placed, seek_input,
    transforms_wf, Cursor, Transform,
};
use crate::wrap::WrapSnapshot;

verus! {

broadcast use {
    vstd::seq_lib::group_to_multiset_ensures,
    vstd::multiset::group_multiset_axioms,
    vstd::std_specs::hash::group_hash_axioms,
};

/// Tracks custom blocks such as diagnostics that should be displayed within buffer.
pub struct BlockMap {
    pub next_block_id: usize,
    pub wrap_snapshot: WrapSnapshot,
    pub custom_blocks: Vec<Arc<CustomBlock>>,
    pub custom_blocks_by_id: BlockTable,
    pub transforms: Vec<Transform>,
    pub headers: HeaderConfig,
}

/// A layout together with the custom blocks in it.
pub struct BlockMapReader<'a> {
    pub blocks: &'a Vec<Arc<CustomBlock>>,
    pub snapshot: BlockSnapshot,
}

/// A map whose blocks can be changed.
pub struct BlockMapWriter<'a>(pub &'a mut BlockMap);

/// The last excerpt was not replaced from one text to the other.
pub open spec fn same_last_excerpt(old: &WrapSnapshot, new: &WrapSnapshot) -> bool {
    old.buffer.trailing_excerpt_update_count == new.buffer.trailing_excerpt_update_count
}

/// The rows down to which edits tell all that changed: where the last excerpt was replaced by
/// another empty one, no edit tells of it.
pub open spec fn settled_rows(old: &WrapSnapshot, new: &WrapSnapshot) -> int {
    if same_last_excerpt(old, new) {
        new.rows()
    } else {
        new.line_start_row(new.rows() - 1)
    }
}

/// The same blocks in the order of their ids.
pub open spec fn same_blocks(blocks: Seq<Arc<CustomBlock>>, by_id: Seq<Arc<CustomBlock>>) -> bool {
    &&& ids_ascend(by_id)
    &&& blocks.to_multiset() == by_id.to_multiset()
}

impl BlockMap {
    /// The custom blocks are in order, have ids that were given out, and are laid out with the
    /// text.
    pub open spec fn wf(&self) -> bool {
        &&& self.wrap_snapshot.wf()
        &&& forall|i: int|
            0 <= i < self.custom_blocks@.len() ==> (#[trigger] self.custom_blocks@[i]).id.0
                < self.next_block_id
        &&& same_blocks(self.custom_blocks@, self.custom_blocks_by_id.0@)
        &&& blocks_resolve(&*self.wrap_snapshot.buffer, self.custom_blocks@)
        &&& layout_fits(&self.wrap_snapshot, self.headers, self.custom_blocks@)
        &&& is_layout(
            self.transforms@,
            &self.wrap_snapshot,
            self.headers,
            self.custom_blocks@,
        )
    }

    /// All blocks, each with its row in a text.
    pub open spec fn entries(&self, wrap: &WrapSnapshot) -> Multiset<(int, Block)> {
        all_entries(wrap, self.headers, self.custom_blocks@).to_multiset()
    }

    /// The text can take the place of the one the map has: it still has the anchors of all blocks
    /// in their order, the edits lead to it line by line, and blocks away from the edits stay with
    /// their rows.
    pub open spec fn follows(&self, wrap: &WrapSnapshot, edits: Seq<Edit>) -> bool {
        let edits = clamped(edits, self.wrap_snapshot.rows() as u32, wrap.rows() as u32);
        &&& wrap.wf()
        &&& blocks_resolve(&*wrap.buffer, self.custom_blocks@)
        &&& layout_fits(wrap, self.headers, self.custom_blocks@)
        &&& edits_valid(edits, self.wrap_snapshot.rows(), wrap.rows())
        &&& edits_aligned(edits, self.entries(&self.wrap_snapshot), wrap)
        &&& edits_cover(
            edits,
            self.entries(&self.wrap_snapshot),
            self.entries(wrap),
            settled_rows(&self.wrap_snapshot, wrap),
        )
    }

    /// Lays out a text with the custom blocks.
    fn sync(&mut self, wrap: &WrapSnapshot, edits: Patch)
        requires
            old(self).wrap_snapshot.wf(),
            transforms_wf(old(self).transforms@),
            input_rows(old(self).transforms@) == old(self).wrap_snapshot.rows(),
            output_rows(old(self).transforms@) <= u32::MAX,
            on_rows(placed(old(self).transforms@).to_multiset(), old(self).wrap_snapshot.rows()),
            wrap.wf(),
            headers_fit(wrap, old(self).headers),
            blocks_resolve(&*wrap.buffer, old(self).custom_blocks@),
            ({
                let clamped_edits = clamped(
                    edits.0@,
                    old(self).wrap_snapshot.rows() as u32,
                    wrap.rows() as u32,
                );
                let shown = placed(old(self).transforms@).to_multiset();
                &&& edits_valid(clamped_edits, old(self).wrap_snapshot.rows(), wrap.rows())
                &&& edits_aligned(clamped_edits, shown, wrap)
                &&& edits_cover(
                    clamped_edits,
                    shown,
                    old(self).entries(wrap),
                    settled_rows(&old(self).wrap_snapshot, wrap),
                )
            }),
        ensures
            is_layout(
                final(self).transforms@,
                wrap,
                old(self).headers,
                old(self).custom_blocks@,
            ),
            final(self).next_block_id == old(self).next_block_id,
            final(self).wrap_snapshot == old(self).wrap_snapshot,
            final(self).custom_blocks == old(self).custom_blocks,
            final(self).custom_blocks_by_id == old(self).custom_blocks_by_id,
            final(self).headers == old(self).headers,
            edits.0@.len() == 0 && same_last_excerpt(&old(self).wrap_snapshot, wrap) ==> final(
                self).transforms@ == old(self).transforms@,
    {
        let ghost shown = placed(self.transforms@).to_multiset();
        let ghost entries = self.entries(wrap);
        let old_rows: u32 = self.wrap_snapshot.row_count();
        let new_rows: u32 = wrap.row_count();
        let mut edits: Patch = edits.clamp(old_rows, new_rows);
        // The last excerpt may have changed without an edit if it is empty.
        if wrap.buffer_snapshot().trailing_excerpt_update_count()
            != self.wrap_snapshot.buffer_snapshot().trailing_excerpt_update_count() {
            let start: u32 = wrap.prev_row_boundary(wrap.max_point());
            let end: u32 = wrap.max_point().row() + 1;
            let ghost before = edits.0@;
            edits = edits.compose(start, end, Ghost(old_rows as int), Ghost(new_rows as int));
            proof {
                assert forall|row: int, block: Block|
                    0 <= row < new_rows && crate::patch::source_row(
                        edits.0@,
                        row,
                    ) is Some implies #[trigger] entries.count((row, block)) == shown.count(
                    (crate::patch::source_row(edits.0@, row)->0, block),
                ) by {
                    assert(crate::patch::source_row(before, row) == crate::patch::source_row(
                        edits.0@,
                        row,
                    ));
                }
            }
        }
        self.transforms =
        sync_transforms(&self.transforms, &self.custom_blocks, self.headers, wrap, &edits.0);
    }

    /// What a layout that fits gives `sync`.
    proof fn lemma_shown(&self)
        requires
            self.wf(),
        ensures
            placed(self.transforms@).to_multiset() == self.entries(&self.wrap_snapshot),
            on_rows(placed(self.transforms@).to_multiset(), self.wrap_snapshot.rows()),
            output_rows(self.transforms@) <= u32::MAX,
    {
        crate::layout::lemma_layout_rows(
            self.transforms@,
            &self.wrap_snapshot,
            self.headers,
            self.custom_blocks@,
        );
        crate::sync::lemma_entries_on_rows(&self.wrap_snapshot, self.headers, self.custom_blocks@);
    }

    /// A map without custom blocks.
    pub fn new(
        wrap_snapshot: WrapSnapshot,
        show_excerpt_controls: bool,
        buffer_header_height: u32,
        excerpt_header_height: u32,
        excerpt_footer_height: u32,
    ) -> (map: Self)
        requires
            wrap_snapshot.wf(),
            layout_fits(
                &wrap_snapshot,
                (HeaderConfig {
                    show_excerpt_controls,
                    buffer_header_height,
                    excerpt_header_height,
                    excerpt_footer_height,
                }),
                Seq::empty(),
            ),
        ensures
            map.wf(),
            map.wrap_snapshot == wrap_snapshot,
            map.custom_blocks@ == Seq::<Arc<CustomBlock>>::empty(),
            map.next_block_id == 0,
            map.headers == (HeaderConfig {
                show_excerpt_controls,
                buffer_header_height,
                excerpt_header_height,
                excerpt_footer_height,
            }),
    {
        let row_count: u32 = wrap_snapshot.max_point().row() + 1;
        let headers: HeaderConfig = HeaderConfig {
            show_excerpt_controls,
            buffer_header_height,
            excerpt_header_height,
            excerpt_footer_height,
        };
        let mut transforms: Vec<Transform> = Vec::new();
        transforms.push(Transform::isomorphic(row_count));
        let mut map: BlockMap = BlockMap {
            next_block_id: 0,
            wrap_snapshot: wrap_snapshot.clone(),
            custom_blocks: Vec::new(),
            custom_blocks_by_id: BlockTable::new(),
            transforms,
            headers,
        };
        let mut edits: Vec<Edit> = Vec::new();
        edits.push(Edit { old: 0..row_count, new: 0..row_count });
        proof {
            let none = Seq::<Transform>::empty();
            let text = Transform {
                summary: crate::transforms::TransformSummary {
                    input_rows: row_count,
                    output_rows: row_count,
                },
                block: None,
            };
            crate::transforms::lemma_push(none, text);
            assert(map.transforms@ =~= none.push(text));
            assert(placed(none) =~= Seq::empty());
            assert forall|x: (int, Block)| placed(map.transforms@).to_multiset().count(x) == 0 by {
                if placed(map.transforms@).to_multiset().count(x) > 0 {
                    assert(placed(map.transforms@).contains(x));
                }
            }
            assert(edits@.len() == 1);
            assert forall|row: int| 0 <= row < row_count implies crate::patch::changed(
                edits@,
                row,
            ) by {
                assert(edits@[0].new.start <= row < edits@[0].new.end);
            }
            assert(crate::patch::edit_follows(edits@, 0));
            assert(edits_valid(edits@, row_count as int, row_count as int));
            crate::patch::lemma_valid_clamped(edits@, row_count, row_count);
            assert(map.custom_blocks@ =~= map.custom_blocks_by_id.0@);
        }
        map.sync(&wrap_snapshot, Patch::new(edits));
        map
    }

    /// The layout of a text that takes the place of the one before.
    pub fn read(&mut self, wrap_snapshot: WrapSnapshot, edits: Patch) -> (reader: BlockMapReader)
        requires
            old(self).wf(),
            old(self).follows(&wrap_snapshot, edits.0@),
        ensures
            final(self).wf(),
            final(self).wrap_snapshot == wrap_snapshot,
            final(self).next_block_id == old(self).next_block_id,
            final(self).custom_blocks == old(self).custom_blocks,
            final(self).custom_blocks_by_id == old(self).custom_blocks_by_id,
            final(self).headers == old(self).headers,
            reader.wf(),
            reader.blocks@ == old(self).custom_blocks@,
            reader.snapshot.wrap_snapshot == wrap_snapshot,
            reader.snapshot.transforms@ == final(self).transforms@,
            reader.snapshot.custom_blocks_by_id.0@ == old(self).custom_blocks_by_id.0@,
            reader.snapshot.headers == old(self).headers,
            edits.0@.len() == 0 && same_last_excerpt(&old(self).wrap_snapshot, &wrap_snapshot)
                ==> final(self).transforms@ == old(self).transforms@,
    {
        proof {
            self.lemma_shown();
        }
        self.sync(&wrap_snapshot, edits);
        self.wrap_snapshot = wrap_snapshot.clone();
        proof {
            self.lemma_layout();
        }
        BlockMapReader {
            blocks: &self.custom_blocks,
            snapshot: BlockSnapshot {
                wrap_snapshot,
                transforms: copy_transforms(&self.transforms),
                custom_blocks_by_id: self.custom_blocks_by_id.clone(),
                headers: self.headers,
            },
        }
    }

    /// Puts a text in the place of the one before, and lets the blocks be changed.
    pub fn write(&mut self, wrap_snapshot: WrapSnapshot, edits: Patch) -> (writer: BlockMapWriter)
        requires
            old(self).wf(),
            old(self).follows(&wrap_snapshot, edits.0@),
        ensures
            writer.0.wf(),
            writer.0.wrap_snapshot == wrap_snapshot,
            writer.0.next_block_id == old(self).next_block_id,
            writer.0.custom_blocks == old(self).custom_blocks,
            writer.0.custom_blocks_by_id == old(self).custom_blocks_by_id,
            writer.0.headers == old(self).headers,
            edits.0@.len() == 0 && same_last_excerpt(&old(self).wrap_snapshot, &wrap_snapshot)
                ==> writer.0.transforms@ == old(self).transforms@,
            *final(writer.0) == *final(self),
    {
        proof {
            self.lemma_shown();
        }
        self.sync(&wrap_snapshot, edits);
        self.wrap_snapshot = wrap_snapshot;
        BlockMapWriter(self)
    }

    pub fn show_excerpt_controls(&self) -> (shown: bool)
        ensures
            shown == self.headers.show_excerpt_controls,
    {
        self.headers.show_excerpt_controls
    }
}

/// The first of the blocks in order that does not stand before `position`.
fn insertion_index(
    blocks: &Vec<Arc<CustomBlock>>,
    buffer: &MultiBufferSnapshot,
    position: Anchor,
) -> (ix: usize)
    requires
        blocks_resolve(buffer, blocks@),
        buffer.knows(position),
    ensures
        ix <= blocks@.len(),
        forall|k: int|
            0 <= k < ix ==> buffer.rank((#[trigger] blocks@[k]).position) < buffer.rank(position),
        forall|k: int|
            ix <= k < blocks@.len() ==> buffer.rank((#[trigger] blocks@[k]).position)
                >= buffer.rank(position),
{
    let mut low: usize = 0;
    let mut high: usize = blocks.len();
    while low < high
        invariant
            blocks_resolve(buffer, blocks@),
            buffer.knows(position),
            low <= high <= blocks@.len(),
            forall|k: int|
                0 <= k < low ==> buffer.rank((#[trigger] blocks@[k]).position) < buffer.rank(
                    position,
                ),
            forall|k: int|
                high <= k < blocks@.len() ==> buffer.rank((#[trigger] blocks@[k]).position)
                    >= buffer.rank(position),
        decreases high - low,
    {
        let middle: usize = low + (high - low) / 2;
        let probe: Anchor = blocks[middle].position;
        proof {
            assert(blocks@[middle as int].position == probe);
        }
        if buffer.anchor_before(probe, position) {
            low = middle + 1;
        } else {
            high = middle;
        }
    }
    low
}

/// The blocks with ids below `id`.
pub open spec fn earlier_blocks(blocks: Seq<Arc<CustomBlock>>, id: usize) -> Seq<Arc<CustomBlock>> {
    blocks.filter(|block: Arc<CustomBlock>| block.id.0 < id)
}

proof fn lemma_earlier_all(blocks: Seq<Arc<CustomBlock>>, id: usize)
    requires
        forall|i: int| 0 <= i < blocks.len() ==> (#[trigger] blocks[i]).id.0 < id,
    ensures
        earlier_blocks(blocks, id) == blocks,
    decreases blocks.len(),
{
    reveal(Seq::filter);
    if blocks.len() > 0 {
        let before = blocks.drop_last();
        assert forall|i: int| 0 <= i < before.len() implies (#[trigger] before[i]).id.0 < id by {
            assert(before[i] == blocks[i]);
        }
        lemma_earlier_all(before, id);
        assert(blocks[blocks.len() - 1].id.0 < id);
        assert(earlier_blocks(blocks, id) =~= blocks);
    } else {
        assert(earlier_blocks(blocks, id) =~= blocks);
    }
}

proof fn lemma_earlier_insert(
    blocks: Seq<Arc<CustomBlock>>,
    ix: int,
    block: Arc<CustomBlock>,
    id: usize,
)
    requires
        0 <= ix <= blocks.len(),
        block.id.0 >= id,
    ensures
        earlier_blocks(blocks.insert(ix, block), id) == earlier_blocks(blocks, id),
{
    let earlier = |block: Arc<CustomBlock>| block.id.0 < id;
    let one = seq![block];
    Seq::filter_distributes_over_add(blocks.take(ix), blocks.skip(ix), earlier);
    Seq::filter_distributes_over_add(blocks.take(ix) + one, blocks.skip(ix), earlier);
    Seq::filter_distributes_over_add(blocks.take(ix), one, earlier);
    assert(one.filter(earlier) =~= Seq::empty()) by {
        reveal_with_fuel(Seq::filter, 2);
        assert(one.drop_last() =~= Seq::empty());
    }
    assert(blocks.insert(ix, block) =~= blocks.take(ix) + one + blocks.skip(ix));
    assert(blocks =~= blocks.take(ix) + blocks.skip(ix));
    assert(earlier_blocks(blocks.insert(ix, block), id) =~= earlier_blocks(blocks, id));
}

/// The lines that new blocks take up.
pub open spec fn heights_total(blocks: Seq<BlockProperties<Anchor>>) -> int
    decreases blocks.len(),
{
    if blocks.len() == 0 {
        0
    } else {
        heights_total(blocks.drop_last()) + blocks.last().height
    }
}

/// A block that was made from its properties, callback included.
pub open spec fn made_from(
    block: &CustomBlock,
    id: CustomBlockId,
    properties: &BlockProperties<Anchor>,
) -> bool {
    &&& block.id == id
    &&& block.position == properties.position
    &&& block.height == properties.height
    &&& block.style == properties.style
    &&& block.disposition == properties.disposition
    &&& block.priority == properties.priority
    &&& block.render.ever_holds(properties.render)
}

impl BlockMap {
    /// What the map shows.
    pub open spec fn layout(&self) -> BlockSnapshot {
        BlockSnapshot {
            wrap_snapshot: self.wrap_snapshot,
            transforms: self.transforms,
            custom_blocks_by_id: self.custom_blocks_by_id,
            headers: self.headers,
        }
    }

    /// A map shows its layout.
    pub proof fn lemma_layout(&self)
        requires
            self.wf(),
        ensures
            self.layout().wf(),
    {
        crate::changes::lemma_reordered_entries(
            &self.wrap_snapshot,
            self.headers,
            self.custom_blocks@,
            self.custom_blocks_by_id.0@,
        );
        crate::layout::lemma_total_height_reordered(
            all_entries(&self.wrap_snapshot, self.headers, self.custom_blocks@),
            all_entries(&self.wrap_snapshot, self.headers, self.custom_blocks_by_id.0@),
        );
        assert forall|i: int|
            0 <= i < self.custom_blocks_by_id.0@.len() implies self.wrap_snapshot.buffer.knows(
            (#[trigger] self.custom_blocks_by_id.0@[i]).position,
        ) by {
            let block = self.custom_blocks_by_id.0@[i];
            assert(self.custom_blocks_by_id.0@.contains(block));
            assert(self.custom_blocks_by_id.0@.to_multiset().count(block) > 0);
            assert(self.custom_blocks@.contains(block));
        }
    }

    /// `after` is the map with these blocks put in under these ids: new ids, one after the other.
    /// The blocks that were there stay as they are, in their order.
    pub open spec fn inserts(
        &self,
        after: &BlockMap,
        blocks: Seq<BlockProperties<Anchor>>,
        ids: Seq<CustomBlockId>,
    ) -> bool {
        let count = self.custom_blocks_by_id.0@.len() as int;
        &&& after.wf()
        &&& after.wrap_snapshot == self.wrap_snapshot
        &&& after.headers == self.headers
        &&& after.next_block_id == self.next_block_id + blocks.len()
        &&& ids.len() == blocks.len()
        &&& forall|i: int|
            0 <= i < ids.len() ==> (#[trigger] ids[i]).0 == self.next_block_id + i
        &&& after.custom_blocks_by_id.0@.len() == count + blocks.len()
        &&& after.custom_blocks_by_id.0@.take(count) == self.custom_blocks_by_id.0@
        &&& forall|i: int|
            0 <= i < blocks.len() ==> made_from(
                &*after.custom_blocks_by_id.0@[count + i],
                ids[i],
                &#[trigger] blocks[i],
            )
        &&& earlier_blocks(after.custom_blocks@, self.next_block_id) == self.custom_blocks@
        &&& blocks.len() == 0 ==> {
            &&& after.custom_blocks@ == self.custom_blocks@
            &&& after.transforms@ == self.transforms@
        }
    }

    /// `after` is the map with the heights of these blocks changed.
    pub open spec fn resizes(&self, after: &BlockMap, heights: Map<usize, u32>) -> bool {
        &&& after.wf()
        &&& after.wrap_snapshot == self.wrap_snapshot
        &&& after.headers == self.headers
        &&& after.next_block_id == self.next_block_id
        &&& after.custom_blocks@ == resized(self.custom_blocks@, heights)
        &&& after.custom_blocks_by_id.0@ == resized(self.custom_blocks_by_id.0@, heights)
        &&& resized(self.custom_blocks@, heights) == self.custom_blocks@ ==> after.transforms@
            == self.transforms@
    }

    /// `after` is the map without the blocks that have these ids.
    pub open spec fn removes(&self, after: &BlockMap, ids: Set<usize>) -> bool {
        &&& after.wf()
        &&& after.wrap_snapshot == self.wrap_snapshot
        &&& after.headers == self.headers
        &&& after.next_block_id == self.next_block_id
        &&& after.custom_blocks@ == without(self.custom_blocks@, ids)
        &&& after.custom_blocks_by_id.0@ == without(self.custom_blocks_by_id.0@, ids)
        &&& without(self.custom_blocks@, ids) == self.custom_blocks@ ==> after.transforms@
            == self.transforms@
    }

    fn insert_blocks(&mut self, blocks: Vec<BlockProperties<Anchor>>) -> (ids: Vec<CustomBlockId>)
        requires
            old(self).wf(),
            forall|i: int|
                0 <= i < blocks@.len() ==> old(self).wrap_snapshot.buffer.knows(
                    (#[trigger] blocks@[i]).position,
                ),
            old(self).next_block_id + blocks@.len() <= usize::MAX,
            output_rows(old(self).transforms@) + heights_total(blocks@) <= u32::MAX,
        ensures
            old(self).inserts(final(self), blocks@, ids@),
    {
        let ghost before = *self;
        let ghost mut added: Seq<Arc<CustomBlock>> = Seq::empty();
        let wrap: WrapSnapshot = self.wrap_snapshot.clone();
        let mut ids: Vec<CustomBlockId> = Vec::new();
        let mut marks: LineMarks = LineMarks::new(Ghost(&wrap));
        let mut ix: usize = 0;
        proof {
            self.lemma_shown();
            crate::layout::lemma_layout_rows(
                self.transforms@,
                &self.wrap_snapshot,
                self.headers,
                self.custom_blocks@,
            );
            assert(self.custom_blocks_by_id.0@ =~= before.custom_blocks_by_id.0@ + added);
            assert(blocks@.take(0) =~= Seq::empty());
            lemma_earlier_all(self.custom_blocks@, self.next_block_id);
        }
        while ix < blocks.len()
            invariant
                before.wf(),
                wrap == before.wrap_snapshot,
                self.wrap_snapshot == before.wrap_snapshot,
                self.headers == before.headers,
                self.transforms == before.transforms,
                ix <= blocks@.len(),
                before.next_block_id + blocks@.len() <= usize::MAX,
                self.next_block_id == before.next_block_id + ix,
                forall|i: int|
                    0 <= i < blocks@.len() ==> wrap.buffer.knows((#[trigger] blocks@[i]).position),
                ids@.len() == ix,
                forall|i: int| 0 <= i < ix ==> (#[trigger] ids@[i]).0 == before.next_block_id + i,
                added.len() == ix,
                ix == 0 ==> marks.edits.0@.len() == 0 && self.custom_blocks@
                    == before.custom_blocks@,
                self.custom_blocks_by_id.0@ == before.custom_blocks_by_id.0@ + added,
                forall|i: int|
                    0 <= i < ix ==> made_from(&*added[i], ids@[i], &#[trigger] blocks@[i]),
                same_blocks(self.custom_blocks@, self.custom_blocks_by_id.0@),
                forall|i: int|
                    0 <= i < self.custom_blocks@.len() ==> (#[trigger] self.custom_blocks@[i]).id.0
                        < self.next_block_id,
                blocks_resolve(&*wrap.buffer, self.custom_blocks@),
                earlier_blocks(self.custom_blocks@, before.next_block_id) == before.custom_blocks@,
                crate::layout::total_height(
                    all_entries(&wrap, self.headers, self.custom_blocks@),
                ) == crate::layout::total_height(
                    all_entries(&wrap, self.headers, before.custom_blocks@),
                ) + heights_total(blocks@.take(ix as int)),
                marks.wf(&wrap),
                forall|row: int, block: Block|
                    0 <= row < wrap.rows() && crate::patch::source_row(
                        marks.edits.0@,
                        row,
                    ) is Some ==> #[trigger] self.entries(&wrap).count((row, block))
                        == before.entries(&wrap).count((row, block)),
            decreases blocks@.len() - ix,
        {
            let ghost entries = self.entries(&wrap);
            let properties: &BlockProperties<Anchor> = &blocks[ix];
            let id: CustomBlockId = CustomBlockId(self.next_block_id);
            self.next_block_id = self.next_block_id + 1;
            ids.push(id);
            let position: Anchor = properties.position;
            let point: Point = wrap.buffer_snapshot().to_point(position);
            let ghost marked_before = marks.edits.0@;
            marks.mark(&wrap, point.row);
            let block_ix: usize = insertion_index(
                &self.custom_blocks,
                wrap.buffer_snapshot(),
                position,
            );
            let block: Arc<CustomBlock> = Arc::new(
                CustomBlock {
                    id,
                    position,
                    height: properties.height,
                    style: properties.style,
                    render: RenderSlot::new(properties.render),
                    disposition: properties.disposition,
                    priority: properties.priority,
                },
            );
            let ghost customs = self.custom_blocks@;
            let ghost by_id = self.custom_blocks_by_id.0@;
            proof {
                assert forall|k: int| 0 <= k < by_id.len() implies (#[trigger] by_id[k]).id.0
                    < id.0 by {
                    assert(by_id.contains(by_id[k]));
                    assert(by_id.to_multiset().count(by_id[k]) > 0);
                    assert(customs.contains(by_id[k]));
                }
            }
            self.custom_blocks.insert(block_ix, block.clone());
            self.custom_blocks_by_id.push(block);
            proof {
                crate::changes::lemma_inserted(
                    &wrap,
                    self.headers,
                    customs,
                    block_ix as int,
                    block,
                );
                lemma_earlier_insert(customs, block_ix as int, block, before.next_block_id);
                added = added.push(block);
                assert(self.custom_blocks_by_id.0@ =~= before.custom_blocks_by_id.0@ + added);
                assert(blocks@.take(ix + 1).drop_last() =~= blocks@.take(ix as int));
                let row_of_block = crate::layout::custom_row(&wrap, &*block);
                crate::layout::lemma_custom_row(&wrap, &*block);
                assert(crate::patch::source_row(marks.edits.0@, row_of_block) is None);
                assert forall|row: int, b: Block|
                    0 <= row < wrap.rows() && crate::patch::source_row(
                        marks.edits.0@,
                        row,
                    ) is Some implies #[trigger] self.entries(&wrap).count((row, b))
                    == before.entries(&wrap).count((row, b)) by {
                    assert(crate::patch::source_row(marked_before, row) is Some);
                    assert(entries.count((row, b)) == before.entries(&wrap).count((row, b)));
                }
            }
            ix = ix + 1;
        }
        proof {
            assert(blocks@.take(ix as int) =~= blocks@);
            let shown = placed(self.transforms@).to_multiset();
            crate::changes::lemma_lines_cover(
                marks.edits.0@,
                &wrap,
                shown,
                self.entries(&wrap),
            );
            crate::patch::lemma_valid_clamped(
                marks.edits.0@,
                wrap.rows() as u32,
                wrap.rows() as u32,
            );
        }
        self.sync(&wrap, marks.edits);
        proof {
            assert(self.custom_blocks_by_id.0@.take(
                before.custom_blocks_by_id.0@.len() as int,
            ) =~= before.custom_blocks_by_id.0@);
        }
        ids
    }

    fn resize_blocks(&mut self, heights: &HashMap<usize, u32>)
        requires
            old(self).wf(),
            layout_fits(
                &old(self).wrap_snapshot,
                old(self).headers,
                resized(old(self).custom_blocks@, heights@),
            ),
        ensures
            old(self).resizes(final(self), heights@),
    {
        let ghost before = *self;
        let wrap: WrapSnapshot = self.wrap_snapshot.clone();
        let mut marks: LineMarks = LineMarks::new(Ghost(&wrap));
        let mut ix: usize = 0;
        proof {
            self.lemma_shown();
        }
        while ix < self.custom_blocks.len()
            invariant
                before.wf(),
                wrap == before.wrap_snapshot,
                self.wrap_snapshot == before.wrap_snapshot,
                self.headers == before.headers,
                self.transforms == before.transforms,
                self.next_block_id == before.next_block_id,
                self.custom_blocks@.len() == before.custom_blocks@.len(),
                ix <= before.custom_blocks@.len(),
                forall|i: int|
                    0 <= i < ix ==> #[trigger] self.custom_blocks@[i] == resized_block(
                        before.custom_blocks@[i],
                        heights@,
                    ),
                forall|i: int|
                    ix <= i < self.custom_blocks@.len() ==> #[trigger] self.custom_blocks@[i]
                        == before.custom_blocks@[i],
                same_blocks(self.custom_blocks@, self.custom_blocks_by_id.0@),
                marks.wf(&wrap),
                forall|i: int|
                    0 <= i < ix ==> #[trigger] self.custom_blocks@[i] == before.custom_blocks@[i]
                        || crate::patch::source_row(
                        marks.edits.0@,
                        crate::layout::custom_row(&wrap, &*before.custom_blocks@[i]),
                    ) is None,
                marks.edits.0@.len() == 0 ==> self.custom_blocks@ == before.custom_blocks@,
                resized(before.custom_blocks@, heights@) == before.custom_blocks@
                    ==> marks.edits.0@.len() == 0,
            decreases before.custom_blocks@.len() - ix,
        {
            let block: Arc<CustomBlock> = self.custom_blocks[ix].clone();
            let ghost customs = self.custom_blocks@;
            let ghost by_id = self.custom_blocks_by_id.0@;
            proof {
                assert(customs[ix as int] == before.custom_blocks@[ix as int]);
                assert(resized(before.custom_blocks@, heights@)[ix as int] == resized_block(
                    block,
                    heights@,
                ));
            }
            if let Some(new_height) = heights.get(&block.id.0) {
                if block.height != *new_height {
                    let new_block: Arc<CustomBlock> = Arc::new(
                        CustomBlock {
                            id: block.id,
                            position: block.position,
                            height: *new_height,
                            style: block.style,
                            render: block.render.clone(),
                            disposition: block.disposition,
                            priority: block.priority,
                        },
                    );
                    let ghost at = by_id.index_of(block);
                    proof {
                        assert(customs.contains(block));
                        assert(customs.to_multiset().count(block) > 0);
                        assert(by_id.contains(block));
                    }
                    self.custom_blocks[ix] = new_block.clone();
                    self.custom_blocks_by_id.replace(new_block, Ghost(at));
                    let ghost marked_before = marks.edits.0@;
                    let buffer_row: u32 = wrap.buffer_snapshot().to_point(block.position).row;
                    marks.mark(&wrap, buffer_row);
                    proof {
                        crate::layout::lemma_custom_row(&wrap, &*block);
                        assert(self.custom_blocks@ =~= customs.update(ix as int, new_block));
                        assert(crate::patch::source_row(
                            marks.edits.0@,
                            crate::layout::custom_row(&wrap, &*block),
                        ) is None);
                        lemma_marks_some(marks.edits.0@, crate::layout::custom_row(&wrap, &*block));
                        assert forall|i: int| 0 <= i < ix implies #[trigger] self.custom_blocks@[i]
                            == before.custom_blocks@[i] || crate::patch::source_row(
                            marks.edits.0@,
                            crate::layout::custom_row(&wrap, &*before.custom_blocks@[i]),
                        ) is None by {
                            assert(self.custom_blocks@[i] == customs[i]);
                            crate::layout::lemma_custom_row(
                                &wrap,
                                &*before.custom_blocks@[i],
                            );
                        }
                    }
                }
            }
            ix = ix + 1;
        }
        proof {
            let after = self.custom_blocks@;
            assert(after =~= resized(before.custom_blocks@, heights@));
            crate::changes::lemma_resized_table(
                before.custom_blocks@,
                before.custom_blocks_by_id.0@,
                self.custom_blocks_by_id.0@,
                heights@,
            );
            assert forall|row: int, b: Block|
                0 <= row < wrap.rows() && crate::patch::source_row(
                    marks.edits.0@,
                    row,
                ) is Some implies #[trigger] self.entries(&wrap).count((row, b)) == before.entries(
                &wrap,
            ).count((row, b)) by {
                assert forall|i: int|
                    0 <= i < after.len() implies #[trigger] before.custom_blocks@[i] == after[i]
                    || (crate::layout::custom_row(&wrap, &*before.custom_blocks@[i]) != row
                    && crate::layout::custom_row(&wrap, &*after[i]) != row) by {
                    assert(after[i] == resized_block(before.custom_blocks@[i], heights@));
                }
                crate::changes::lemma_resized_count(
                    &wrap,
                    self.headers,
                    before.custom_blocks@,
                    after,
                    (row, b),
                );
            }
            crate::changes::lemma_lines_cover(
                marks.edits.0@,
                &wrap,
                placed(self.transforms@).to_multiset(),
                self.entries(&wrap),
            );
            crate::patch::lemma_valid_clamped(
                marks.edits.0@,
                wrap.rows() as u32,
                wrap.rows() as u32,
            );
        }
        self.sync(&wrap, marks.edits);
    }

    fn remove_blocks(&mut self, ids: &HashSet<usize>)
        requires
            old(self).wf(),
        ensures
            old(self).removes(final(self), ids@),
    {
        let ghost before = *self;
        let ghost all = self.custom_blocks@;
        let ghost keep = |block: Arc<CustomBlock>| !ids@.contains(block.id.0);
        let wrap: WrapSnapshot = self.wrap_snapshot.clone();
        let mut marks: LineMarks = LineMarks::new(Ghost(&wrap));
        let mut kept: Vec<Arc<CustomBlock>> = Vec::new();
        let mut ix: usize = 0;
        proof {
            self.lemma_shown();
            reveal(Seq::filter);
            assert(all.take(0).filter(keep) =~= Seq::empty());
        }
        while ix < self.custom_blocks.len()
            invariant
                *self == before,
                before.wf(),
                wrap == before.wrap_snapshot,
                all == before.custom_blocks@,
                keep == (|block: Arc<CustomBlock>| !ids@.contains(block.id.0)),
                ix <= all.len(),
                kept@ == all.take(ix as int).filter(keep),
                blocks_resolve(&*wrap.buffer, kept@),
                forall|k: int|
                    0 <= k < kept@.len() ==> exists|n: int|
                        0 <= n < ix && (#[trigger] kept@[k]) == #[trigger] all[n],
                marks.wf(&wrap),
                without(all, ids@) == all ==> marks.edits.0@.len() == 0,
                forall|i: int|
                    0 <= i < ix && !keep(#[trigger] all[i]) ==> crate::patch::source_row(
                        marks.edits.0@,
                        crate::layout::custom_row(&wrap, &*all[i]),
                    ) is None,
            decreases all.len() - ix,
        {
            let block: &Arc<CustomBlock> = &self.custom_blocks[ix];
            let ghost kept_before = kept@;
            if ids.contains(&block.id.0) {
                proof {
                    if without(all, ids@) == all {
                        all.lemma_filter_pred(keep, ix as int);
                    }
                }
                let buffer_row: u32 = wrap.buffer_snapshot().to_point(block.position).row;
                marks.mark(&wrap, buffer_row);
            } else {
                kept.push(block.clone());
            }
            proof {
                reveal(Seq::filter);
                assert(all.take(ix + 1).drop_last() =~= all.take(ix as int));
                assert(all.take(ix + 1).last() == all[ix as int]);
                assert(kept@ =~= all.take(ix + 1).filter(keep));
                crate::layout::lemma_custom_row(&wrap, &**block);
                assert forall|i: int|
                    0 <= i < ix + 1 && !keep(#[trigger] all[i]) implies crate::patch::source_row(
                    marks.edits.0@,
                    crate::layout::custom_row(&wrap, &*all[i]),
                ) is None by {
                    crate::layout::lemma_custom_row(&wrap, &*all[i]);
                }
            }
            ix = ix + 1;
        }
        self.custom_blocks = kept;
        self.custom_blocks_by_id.remove_all(ids);
        proof {
            assert(all.take(ix as int) =~= all);
            let after = self.custom_blocks@;
            crate::changes::lemma_kept_same(all, before.custom_blocks_by_id.0@, keep);
            crate::changes::lemma_removed_height(&wrap, all, keep);
            crate::changes::lemma_all_height(&wrap, self.headers, all);
            crate::changes::lemma_all_height(&wrap, self.headers, after);
            assert forall|row: int, b: Block|
                0 <= row < wrap.rows() && crate::patch::source_row(
                    marks.edits.0@,
                    row,
                ) is Some implies #[trigger] self.entries(&wrap).count((row, b)) == before.entries(
                &wrap,
            ).count((row, b)) by {
                crate::changes::lemma_removed_count(&wrap, all, keep, (row, b));
                crate::changes::lemma_all_count(&wrap, self.headers, all, (row, b));
                crate::changes::lemma_all_count(&wrap, self.headers, after, (row, b));
            }
            crate::changes::lemma_lines_cover(
                marks.edits.0@,
                &wrap,
                placed(self.transforms@).to_multiset(),
                self.entries(&wrap),
            );
            crate::patch::lemma_valid_clamped(
                marks.edits.0@,
                wrap.rows() as u32,
                wrap.rows() as u32,
            );
        }
        self.sync(&wrap, marks.edits);
    }
}

/// Edits that changed a row are not none.
proof fn lemma_marks_some(edits: Seq<Edit>, row: int)
    requires
        crate::patch::source_row(edits, row) is None,
    ensures
        edits.len() > 0,
{
}

/// Which blocks get another callback: for each, its place among the blocks and the callback.
pub fn replacements(
    blocks: &Vec<Arc<CustomBlock>>,
    renderers: &HashMap<usize, RenderBlock>,
) -> (found: Vec<(usize, RenderBlock)>)
    ensures
        forall|k: int|
            0 <= k < found@.len() ==> {
                &&& (#[trigger] found@[k]).0 < blocks@.len()
                &&& renderers@.contains_key(blocks@[found@[k].0 as int].id.0)
                &&& found@[k].1 == renderers@[blocks@[found@[k].0 as int].id.0]
            },
        forall|j: int, k: int|
            0 <= j < k < found@.len() ==> (#[trigger] found@[j]).0 < (#[trigger] found@[k]).0,
        forall|i: int|
            0 <= i < blocks@.len() && renderers@.contains_key((#[trigger] blocks@[i]).id.0)
                ==> exists|k: int| 0 <= k < found@.len() && (#[trigger] found@[k]).0 == i,
{
    let mut found: Vec<(usize, RenderBlock)> = Vec::new();
    let mut ix: usize = 0;
    while ix < blocks.len()
        invariant
            ix <= blocks@.len(),
            forall|k: int|
                0 <= k < found@.len() ==> {
                    &&& (#[trigger] found@[k]).0 < ix
                    &&& renderers@.contains_key(blocks@[found@[k].0 as int].id.0)
                    &&& found@[k].1 == renderers@[blocks@[found@[k].0 as int].id.0]
                },
            forall|j: int, k: int|
                0 <= j < k < found@.len() ==> (#[trigger] found@[j]).0 < (#[trigger] found@[k]).0,
            forall|i: int|
                0 <= i < ix && renderers@.contains_key((#[trigger] blocks@[i]).id.0)
                    ==> exists|k: int| 0 <= k < found@.len() && (#[trigger] found@[k]).0 == i,
        decreases blocks@.len() - ix,
    {
        let ghost before = found@;
        if let Some(render) = renderers.get(&blocks[ix].id.0) {
            found.push((ix, *render));
            proof {
                assert(found@[before.len() as int].0 == ix);
            }
        }
        proof {
            assert forall|i: int|
                0 <= i < ix + 1 && renderers@.contains_key(
                    (#[trigger] blocks@[i]).id.0,
                ) implies exists|k: int| 0 <= k < found@.len() && (#[trigger] found@[k]).0 == i by {
                if i < ix {
                    let k = choose|k: int| 0 <= k < before.len() && (#[trigger] before[k]).0 == i;
                    assert(found@[k].0 == i);
                }
            }
        }
        ix = ix + 1;
    }
    found
}

impl BlockMap {
    /// Replaces the callbacks of the blocks with these ids. Copies of a block share its callback,
    /// so layouts that were read before draw with the new one too; nothing else changes.
    pub fn replace_blocks(&mut self, renderers: HashMap<usize, RenderBlock>)
        ensures
            *final(self) == *old(self),
            forall|i: int|
                0 <= i < final(self).custom_blocks@.len() && renderers@.contains_key(
                    (#[trigger] final(self).custom_blocks@[i]).id.0,
                ) ==> final(self).custom_blocks@[i].render.ever_holds(
                    renderers@[final(self).custom_blocks@[i].id.0],
                ),
    {
        let found: Vec<(usize, RenderBlock)> = replacements(&self.custom_blocks, &renderers);
        let mut k: usize = 0;
        while k < found.len()
            invariant
                *self == *old(self),
                k <= found@.len(),
                forall|k: int|
                    0 <= k < found@.len() ==> (#[trigger] found@[k]).0 < self.custom_blocks@.len(),
                forall|j: int|
                    0 <= j < k ==> self.custom_blocks@[(
                    #[trigger] found@[j]).0 as int].render.ever_holds(found@[j].1),
            decreases found@.len() - k,
        {
            let (ix, render): (usize, RenderBlock) = found[k];
            self.custom_blocks[ix].render.replace(render);
            k = k + 1;
        }
        proof {
            assert forall|i: int|
                0 <= i < self.custom_blocks@.len() && renderers@.contains_key(
                    (#[trigger] self.custom_blocks@[i]).id.0,
                ) implies self.custom_blocks@[i].render.ever_holds(
                renderers@[self.custom_blocks@[i].id.0],
            ) by {
                let j = choose|j: int| 0 <= j < found@.len() && (#[trigger] found@[j]).0 == i;
                assert(self.custom_blocks@[found@[j].0 as int].render.ever_holds(found@[j].1));
            }
        }
    }

    /// The boundaries between two positions that have something to show, each as a block with its
    /// row.
    pub fn header_and_footer_blocks(
        show_excerpt_controls: bool,
        excerpt_footer_height: u32,
        buffer_header_height: u32,
        excerpt_header_height: u32,
        start: Point,
        end: Option<Point>,
        wrap_snapshot: &WrapSnapshot,
    ) -> (entries: Vec<(u32, Block)>)
        requires
            wrap_snapshot.wf(),
            headers_fit(
                wrap_snapshot,
                (HeaderConfig {
                    show_excerpt_controls,
                    buffer_header_height,
                    excerpt_header_height,
                    excerpt_footer_height,
                }),
            ),
        ensures
            lifted(entries@) == header_entries(
                wrap_snapshot,
                (HeaderConfig {
                    show_excerpt_controls,
                    buffer_header_height,
                    excerpt_header_height,
                    excerpt_footer_height,
                }),
                boundaries_in_range(
                    &*wrap_snapshot.buffer,
                    wrap_snapshot.buffer.boundaries@,
                    start,
                    end,
                ),
            ),
    {
        let headers: HeaderConfig = HeaderConfig {
            show_excerpt_controls,
            buffer_header_height,
            excerpt_header_height,
            excerpt_footer_height,
        };
        header_and_footer_blocks(headers, start, end, wrap_snapshot)
    }

    /// Puts blocks with their rows in order. Excerpt headers and footers go above custom blocks
    /// on the same row.
    pub fn sort_blocks<B: BlockLike>(blocks: &mut Vec<(u32, B)>)
        ensures
            crate::order::blocks_sorted(final(blocks)@),
            final(blocks)@.to_multiset() == old(blocks)@.to_multiset(),
    {
        let mut unsorted: Vec<(u32, B)> = Vec::new();
        std::mem::swap(&mut unsorted, blocks);
        *blocks = crate::order::sorted_blocks(unsorted);
    }
}

impl<'a> BlockMapWriter<'a> {
    /// Puts blocks into the map, and returns their ids in the order of the blocks.
    pub fn insert(&mut self, blocks: Vec<BlockProperties<Anchor>>) -> (ids: Vec<CustomBlockId>)
        requires
            (*old(self).0).wf(),
            forall|i: int|
                0 <= i < blocks@.len() ==> (*old(self).0).wrap_snapshot.buffer.knows(
                    (#[trigger] blocks@[i]).position,
                ),
            (*old(self).0).next_block_id + blocks@.len() <= usize::MAX,
            output_rows((*old(self).0).transforms@) + heights_total(blocks@) <= u32::MAX,
        ensures
            *final(final(self).0) == *final(old(self).0),
            old(self).0.inserts(&*final(self).0, blocks@, ids@),
    {
        self.0.insert_blocks(blocks)
    }

    /// Changes the heights of the blocks with these ids.
    pub fn resize(&mut self, heights: HashMap<usize, u32>)
        requires
            (*old(self).0).wf(),
            layout_fits(
                &(*old(self).0).wrap_snapshot,
                (*old(self).0).headers,
                resized((*old(self).0).custom_blocks@, heights@),
            ),
        ensures
            *final(final(self).0) == *final(old(self).0),
            old(self).0.resizes(&*final(self).0, heights@),
    {
        self.0.resize_blocks(&heights)
    }

    /// Takes the blocks with these ids out of the map.
    pub fn remove(&mut self, block_ids: HashSet<usize>)
        requires
            (*old(self).0).wf(),
        ensures
            *final(final(self).0) == *final(old(self).0),
            old(self).0.removes(&*final(self).0, block_ids@),
    {
        self.0.remove_blocks(&block_ids)
    }
}

impl<'a> std::ops::Deref for BlockMapReader<'a> {
    type Target = BlockSnapshot;

    fn deref(&self) -> (snapshot: &BlockSnapshot)
        ensures
            *snapshot == self.snapshot,
    {
        &self.snapshot
    }
}

impl<'a> BlockMapReader<'a> {
    /// The custom blocks are those of the layout.
    pub open spec fn wf(&self) -> bool {
        &&& self.snapshot.wf()
        &&& same_blocks(self.blocks@, self.snapshot.custom_blocks_by_id.0@)
    }

    /// The row at which a custom block begins on display.
    pub fn row_for_block(&self, block_id: CustomBlockId) -> (row: Option<BlockRow>)
        requires
            self.wf(),
        ensures
            match row {
                Some(row) => exists|i: int|
                    shows_custom(self.snapshot.transforms@, i, block_id) && row.0
                        == #[trigger] out_start(self.snapshot.transforms@, i),
                None => forall|k: int|
                    0 <= k < self.blocks@.len() ==> (#[trigger] self.blocks@[k]).id != block_id,
            },
    {
        let transforms: &Vec<Transform> = &self.snapshot.transforms;
        let wrap: &WrapSnapshot = &self.snapshot.wrap_snapshot;
        let mut k: usize = 0;
        while k < self.blocks.len() && self.blocks[k].id != block_id
            invariant
                k <= self.blocks@.len(),
                forall|n: int| 0 <= n < k ==> (#[trigger] self.blocks@[n]).id != block_id,
            decreases self.blocks@.len() - k,
        {
            k = k + 1;
        }
        if k == self.blocks.len() {
            return None;
        }
        let block: &Arc<CustomBlock> = &self.blocks[k];
        let ghost at = self.lemma_shown_at(k as int);
        let buffer_row: u32 = wrap.buffer_snapshot().to_point(block.position).row;
        let wrap_row: u32 = wrap.line_first_row(buffer_row);
        let (start, end): (u32, u32) = wrap.line_range(wrap_row);
        let mut cursor: Cursor = seek_input(transforms, start, Bias::Left);
        proof {
            wrap.lemma_line_in_range(buffer_row as int, start as int, end as int);
            if at < cursor.ix {
                crate::transforms::lemma_step(transforms@, at);
                assert(!crate::transforms::stops_at(
                    in_start(transforms@, at + 1),
                    start as int,
                    Bias::Left,
                ));
            }
        }
        while cursor.ix < transforms.len() && cursor.input <= end
            invariant
                input_rows(transforms@) <= u32::MAX,
                output_rows(transforms@) <= u32::MAX,
                *transforms == self.snapshot.transforms,
                cursor.at(transforms@),
                cursor.ix <= at < transforms@.len(),
                shows_custom(transforms@, at, block_id),
                in_start(transforms@, at) <= end,
            decreases transforms@.len() - cursor.ix,
        {
            if let Some(block) = &transforms[cursor.ix].block {
                if let BlockType::Custom(id) = block.block_type() {
                    if id == block_id {
                        proof {
                            assert(shows_custom(transforms@, cursor.ix as int, block_id));
                        }
                        return Some(BlockRow(cursor.output));
                    }
                }
            }
            proof {
                assert(cursor.ix != at);
            }
            cursor.next(transforms);
        }
        proof {
            crate::transforms::lemma_monotone(transforms@, cursor.ix as int, at);
            assert(false);
        }
        None
    }

    /// Each custom block is shown by a transform in its place.
    proof fn lemma_shown_at(&self, k: int) -> (at: int)
        requires
            self.wf(),
            0 <= k < self.blocks@.len(),
        ensures
            shows_custom(self.snapshot.transforms@, at, self.blocks@[k].id),
            0 <= at < self.snapshot.transforms@.len(),
            in_start(self.snapshot.transforms@, at) == crate::layout::custom_row(
                &self.snapshot.wrap_snapshot,
                &*self.blocks@[k],
            ) + (if self.blocks@[k].disposition is Below {
                1int
            } else {
                0
            }),
            self.snapshot.wrap_snapshot.buffer.knows(self.blocks@[k].position),
            input_rows(self.snapshot.transforms@) <= u32::MAX,
            output_rows(self.snapshot.transforms@) <= u32::MAX,
    {
        let block = self.blocks@[k];
        let by_id = self.snapshot.custom_blocks_by_id.0@;
        assert(self.blocks@.contains(block));
        assert(self.blocks@.to_multiset().count(block) > 0);
        assert(by_id.contains(block));
        let n = by_id.index_of(block);
        assert(by_id[n] == block);
        self.snapshot.lemma_custom_shown(n)
    }
}

} // verus!
