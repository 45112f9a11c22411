//! Custom blocks by their ids.

use std::collections::HashSet;
use std::sync::Arc;
use vstd::prelude::*;

use crate::block::{CustomBlock, CustomBlockId};

verus! {

broadcast use {
    vstd::seq_lib::group_to_multiset_ensures,
    vstd::multiset::group_multiset_axioms,
    vstd::std_specs::hash::group_hash_axioms,
};

/// Blocks with ascending ids.
pub open spec fn ids_ascend(blocks: Seq<Arc<CustomBlock>>) -> bool {
    forall|i: int, j: int|
        0 <= i < j < blocks.len() ==> (#[trigger] blocks[i]).id.0 < (#[trigger] blocks[j]).id.0
}

/// The same blocks with ascending ids are in the same order.
pub(crate) proof fn lemma_ascending_same(a: Seq<Arc<CustomBlock>>, b: Seq<Arc<CustomBlock>>)
    requires
        ids_ascend(a),
        ids_ascend(b),
        a.to_multiset() == b.to_multiset(),
    ensures
        a == b,
    decreases a.len(),
{
    assert(a.len() == a.to_multiset().len());
    assert(b.len() == b.to_multiset().len());
    if a.len() > 0 {
        let (x, y) = (a[a.len() - 1], b[b.len() - 1]);
        assert(a.to_multiset().count(x) > 0 && b.to_multiset().count(y) > 0);
        assert(b.contains(x) && a.contains(y));
        let (i, j) = (a.index_of(y), b.index_of(x));
        if i < a.len() - 1 && j < b.len() - 1 {
            assert(a[i].id.0 < x.id.0);
            assert(b[j].id.0 < y.id.0);
        }
        assert(x == y);
        let (fewer_a, fewer_b) = (a.drop_last(), b.drop_last());
        assert(fewer_a =~= a.remove(a.len() - 1));
        assert(fewer_b =~= b.remove(b.len() - 1));
        assert(fewer_a.to_multiset() =~= a.to_multiset().remove(x));
        assert(fewer_b.to_multiset() =~= b.to_multiset().remove(x));
        lemma_ascending_same(fewer_a, fewer_b);
        assert(a =~= fewer_a.push(x));
        assert(b =~= fewer_b.push(x));
    } else {
        assert(a =~= b);
    }
}

/// A list of blocks in which a block is found by its id.
pub struct BlockTable(pub Vec<Arc<CustomBlock>>);

impl Clone for BlockTable {
    fn clone(&self) -> (copy: Self)
        ensures
            copy.0@ == self.0@,
    {
        let mut blocks: Vec<Arc<CustomBlock>> = Vec::new();
        let mut ix: usize = 0;
        while ix < self.0.len()
            invariant
                ix <= self.0@.len(),
                blocks@ == self.0@.take(ix as int),
            decreases self.0@.len() - ix,
        {
            blocks.push(self.0[ix].clone());
            ix = ix + 1;
            proof {
                assert(blocks@ =~= self.0@.take(ix as int));
            }
        }
        proof {
            assert(blocks@ =~= self.0@);
        }
        BlockTable(blocks)
    }
}

impl BlockTable {
    pub fn new() -> (table: Self)
        ensures
            table.0@ == Seq::<Arc<CustomBlock>>::empty(),
    {
        BlockTable(Vec::new())
    }

    /// The place of the first block whose id is not below `id`.
    fn place(&self, id: CustomBlockId) -> (place: usize)
        requires
            ids_ascend(self.0@),
        ensures
            place <= self.0@.len(),
            forall|k: int| 0 <= k < place ==> (#[trigger] self.0@[k]).id.0 < id.0,
            forall|k: int| place <= k < self.0@.len() ==> (#[trigger] self.0@[k]).id.0 >= id.0,
    {
        let mut low: usize = 0;
        let mut high: usize = self.0.len();
        while low < high
            invariant
                ids_ascend(self.0@),
                low <= high <= self.0@.len(),
                forall|k: int| 0 <= k < low ==> (#[trigger] self.0@[k]).id.0 < id.0,
                forall|k: int| high <= k < self.0@.len() ==> (#[trigger] self.0@[k]).id.0 >= id.0,
            decreases high - low,
        {
            let middle: usize = low + (high - low) / 2;
            let probe: usize = self.0[middle].id.0;
            proof {
                assert(self.0@[middle as int].id.0 == probe);
            }
            if probe < id.0 {
                low = middle + 1;
            } else {
                high = middle;
            }
        }
        low
    }

    /// The block with the id, if there is one.
    pub fn get(&self, id: CustomBlockId) -> (found: Option<&Arc<CustomBlock>>)
        requires
            ids_ascend(self.0@),
        ensures
            match found {
                Some(block) => self.0@.contains(*block) && block.id == id,
                None => forall|k: int| 0 <= k < self.0@.len() ==> (#[trigger] self.0@[k]).id != id,
            },
    {
        let place: usize = self.place(id);
        if place < self.0.len() && self.0[place].id == id {
            proof {
                assert(self.0@.contains(self.0@[place as int]));
            }
            Some(&self.0[place])
        } else {
            None
        }
    }

    /// Adds a block whose id is above all others.
    pub fn push(&mut self, block: Arc<CustomBlock>)
        requires
            ids_ascend(old(self).0@),
            forall|k: int|
                0 <= k < old(self).0@.len() ==> (#[trigger] old(self).0@[k]).id.0 < block.id.0,
        ensures
            final(self).0@ == old(self).0@.push(block),
            ids_ascend(final(self).0@),
    {
        self.0.push(block);
    }

    /// Puts a block in the place of the one that has its id.
    pub(crate) fn replace(&mut self, block: Arc<CustomBlock>, Ghost(at): Ghost<int>)
        requires
            ids_ascend(old(self).0@),
            0 <= at < old(self).0@.len(),
            old(self).0@[at].id == block.id,
        ensures
            final(self).0@ == old(self).0@.update(at, block),
            ids_ascend(final(self).0@),
    {
        let place: usize = self.place(block.id);
        proof {
            assert(self.0@[at].id.0 == block.id.0);
            if place < at {
                assert(self.0@[place as int].id.0 < self.0@[at].id.0);
            }
        }
        self.0[place] = block;
    }

    /// Drops the blocks with these ids.
    pub fn remove_all(&mut self, ids: &HashSet<usize>)
        requires
            ids_ascend(old(self).0@),
        ensures
            final(self).0@ == old(self).0@.filter(
                |block: Arc<CustomBlock>| !ids@.contains(block.id.0),
            ),
            ids_ascend(final(self).0@),
    {
        let ghost kept = |block: Arc<CustomBlock>| !ids@.contains(block.id.0);
        let ghost all = self.0@;
        let mut blocks: Vec<Arc<CustomBlock>> = Vec::new();
        let mut ix: usize = 0;
        proof {
            reveal(Seq::filter);
            assert(all.take(0).filter(kept) =~= Seq::empty());
        }
        while ix < self.0.len()
            invariant
                self.0@ == all,
                ids_ascend(all),
                kept == (|block: Arc<CustomBlock>| !ids@.contains(block.id.0)),
                ix <= all.len(),
                blocks@ == all.take(ix as int).filter(kept),
                ids_ascend(blocks@),
                forall|k: int|
                    0 <= k < blocks@.len() ==> exists|n: int|
                        0 <= n < ix && (#[trigger] blocks@[k]) == #[trigger] all[n],
            decreases all.len() - ix,
        {
            let block: &Arc<CustomBlock> = &self.0[ix];
            let ghost before = blocks@;
            if !ids.contains(&block.id.0) {
                blocks.push(block.clone());
            }
            proof {
                reveal(Seq::filter);
                assert(all.take(ix + 1).drop_last() =~= all.take(ix as int));
                assert(all.take(ix + 1).last() == all[ix as int]);
                assert(blocks@ =~= all.take(ix + 1).filter(kept));
            }
            ix = ix + 1;
        }
        proof {
            assert(all.take(ix as int) =~= all);
        }
        self.0 = blocks;
    }
}

} // verus!
