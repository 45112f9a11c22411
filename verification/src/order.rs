//! The order of blocks on a row.

use vstd::prelude::*;

use crate::block::{BlockDisposition, BlockLike, BlockType};

verus! {

broadcast use {vstd::seq_lib::group_to_multiset_ensures, vstd::multiset::group_multiset_axioms};

/// Block `a` on row `row_a` may come before block `b` on row `row_b`: by rows; on one row, those
/// above the line before those below it; among these, excerpt headers and footers before custom
/// blocks; among custom blocks, those with the higher priority first, then those with the lower
/// id.
pub open spec fn block_le<B: BlockLike>(row_a: int, a: B, row_b: int, b: B) -> bool {
    ||| row_a < row_b
    ||| row_a == row_b && block_le_on_row(a, b)
}

pub open spec fn block_le_on_row<B: BlockLike>(a: B, b: B) -> bool {
    match (a.disposition_spec(), b.disposition_spec()) {
        (BlockDisposition::Above, BlockDisposition::Below) => true,
        (BlockDisposition::Below, BlockDisposition::Above) => false,
        _ => match (a.block_type_spec(), b.block_type_spec()) {
            (BlockType::ExcerptBoundary, _) => true,
            (_, BlockType::ExcerptBoundary) => false,
            (BlockType::Custom(id_a), BlockType::Custom(id_b)) => a.priority_spec()
                > b.priority_spec() || (a.priority_spec() == b.priority_spec() && id_a.0
                <= id_b.0),
        },
    }
}

/// Blocks with their rows, in order.
pub open spec fn blocks_sorted<B: BlockLike>(blocks: Seq<(u32, B)>) -> bool {
    forall|i: int, j: int|
        0 <= i <= j < blocks.len() ==> block_le(
            (#[trigger] blocks[i]).0 as int,
            blocks[i].1,
            (#[trigger] blocks[j]).0 as int,
            blocks[j].1,
        )
}

/// Two blocks in either order are in order one way round, and the order carries over.
pub proof fn lemma_block_le_is_total<B: BlockLike>(row_a: int, a: B, row_b: int, b: B)
    ensures
        block_le(row_a, a, row_a, a),
        block_le(row_a, a, row_b, b) || block_le(row_b, b, row_a, a),
{
}

pub proof fn lemma_block_le_carries<B: BlockLike>(
    row_a: int,
    a: B,
    row_b: int,
    b: B,
    row_c: int,
    c: B,
)
    requires
        block_le(row_a, a, row_b, b),
        block_le(row_b, b, row_c, c),
    ensures
        block_le(row_a, a, row_c, c),
{
}

fn may_precede<B: BlockLike>(a: &(u32, B), b: &(u32, B)) -> (first: bool)
    ensures
        first == block_le(a.0 as int, a.1, b.0 as int, b.1),
{
    if a.0 != b.0 {
        return a.0 < b.0;
    }
    match (a.1.disposition(), b.1.disposition()) {
        (BlockDisposition::Above, BlockDisposition::Below) => true,
        (BlockDisposition::Below, BlockDisposition::Above) => false,
        _ => match (a.1.block_type(), b.1.block_type()) {
            (BlockType::ExcerptBoundary, _) => true,
            (_, BlockType::ExcerptBoundary) => false,
            (BlockType::Custom(id_a), BlockType::Custom(id_b)) => {
                let priority_a: usize = a.1.priority();
                let priority_b: usize = b.1.priority();
                priority_a > priority_b || (priority_a == priority_b && id_a.0 <= id_b.0)
            },
        },
    }
}

/// The same items, last first.
fn reversed<T>(mut items: Vec<T>) -> (result: Vec<T>)
    ensures
        result@ == items@.reverse(),
{
    let ghost all = items@;
    let mut result: Vec<T> = Vec::new();
    while items.len() > 0
        invariant
            items@ == all.take(items@.len() as int),
            items@.len() <= all.len(),
            result@ == all.skip(items@.len() as int).reverse(),
        decreases items@.len(),
    {
        let ghost before = items@;
        if let Some(item) = items.pop() {
            proof {
                assert(all.skip(items@.len() as int) =~= seq![item] + all.skip(
                    before.len() as int,
                ));
            }
            result.push(item);
        }
    }
    proof {
        assert(all.skip(0) =~= all);
    }
    result
}

/// Two sorted lists as one.
fn merge<B: BlockLike>(mut left: Vec<(u32, B)>, mut right: Vec<(u32, B)>) -> (merged: Vec<
    (u32, B),
>)
    requires
        blocks_sorted(left@),
        blocks_sorted(right@),
    ensures
        blocks_sorted(merged@),
        merged@.to_multiset() == left@.to_multiset().add(right@.to_multiset()),
{
    let ghost all = left@.to_multiset().add(right@.to_multiset());
    // Filled from the greatest block down.
    let mut taken: Vec<(u32, B)> = Vec::new();
    while left.len() > 0 || right.len() > 0
        invariant
            blocks_sorted(left@),
            blocks_sorted(right@),
            forall|i: int, j: int|
                0 <= i <= j < taken@.len() ==> block_le(
                    (#[trigger] taken@[j]).0 as int,
                    taken@[j].1,
                    (#[trigger] taken@[i]).0 as int,
                    taken@[i].1,
                ),
            forall|i: int, j: int|
                0 <= i < left@.len() && 0 <= j < taken@.len() ==> block_le(
                    (#[trigger] left@[i]).0 as int,
                    left@[i].1,
                    (#[trigger] taken@[j]).0 as int,
                    taken@[j].1,
                ),
            forall|i: int, j: int|
                0 <= i < right@.len() && 0 <= j < taken@.len() ==> block_le(
                    (#[trigger] right@[i]).0 as int,
                    right@[i].1,
                    (#[trigger] taken@[j]).0 as int,
                    taken@[j].1,
                ),
            taken@.to_multiset().add(left@.to_multiset()).add(right@.to_multiset()) == all,
        decreases left@.len() + right@.len(),
    {
        let ghost left_before = left@;
        let ghost right_before = right@;
        let from_left: bool = if left.len() == 0 {
            false
        } else if right.len() == 0 {
            true
        } else {
            !may_precede(&left[left.len() - 1], &right[right.len() - 1])
        };
        if from_left {
            if let Some(item) = left.pop() {
                proof {
                    assert(left_before =~= left@.push(item));
                    assert(left@.push(item).to_multiset() =~= left@.to_multiset().insert(item));
                    assert(taken@.push(item).to_multiset() =~= taken@.to_multiset().insert(item));
                    assert forall|i: int| 0 <= i < right@.len() implies block_le(
                        (#[trigger] right@[i]).0 as int,
                        right@[i].1,
                        item.0 as int,
                        item.1,
                    ) by {
                        let last = right@[right@.len() - 1];
                        lemma_block_le_is_total(last.0 as int, last.1, item.0 as int, item.1);
                        lemma_block_le_carries(
                            right@[i].0 as int,
                            right@[i].1,
                            last.0 as int,
                            last.1,
                            item.0 as int,
                            item.1,
                        );
                    }
                    assert(taken@.push(item).to_multiset().add(left@.to_multiset()).add(
                        right@.to_multiset(),
                    ) =~= all);
                }
                taken.push(item);
            }
        } else {
            if let Some(item) = right.pop() {
                proof {
                    assert(right_before =~= right@.push(item));
                    assert(right@.push(item).to_multiset() =~= right@.to_multiset().insert(item));
                    assert(taken@.push(item).to_multiset() =~= taken@.to_multiset().insert(item));
                    assert forall|i: int| 0 <= i < left@.len() implies block_le(
                        (#[trigger] left@[i]).0 as int,
                        left@[i].1,
                        item.0 as int,
                        item.1,
                    ) by {
                        let last = left@[left@.len() - 1];
                        lemma_block_le_carries(
                            left@[i].0 as int,
                            left@[i].1,
                            last.0 as int,
                            last.1,
                            item.0 as int,
                            item.1,
                        );
                    }
                    assert(taken@.push(item).to_multiset().add(left@.to_multiset()).add(
                        right@.to_multiset(),
                    ) =~= all);
                }
                taken.push(item);
            }
        }
    }
    let ghost greatest_first = taken@;
    let merged: Vec<(u32, B)> = reversed(taken);
    proof {
        assert(left@ =~= Seq::empty());
        assert(right@ =~= Seq::empty());
        greatest_first.lemma_reverse_to_multiset();
        assert(merged@.to_multiset() =~= all);
    }
    merged
}

/// The same blocks, in order.
pub fn sorted_blocks<B: BlockLike>(mut blocks: Vec<(u32, B)>) -> (sorted: Vec<(u32, B)>)
    ensures
        blocks_sorted(sorted@),
        sorted@.to_multiset() == blocks@.to_multiset(),
    decreases blocks@.len(),
{
    if blocks.len() <= 1 {
        return blocks;
    }
    let ghost all = blocks@;
    let middle: usize = blocks.len() / 2;
    let right: Vec<(u32, B)> = blocks.split_off(middle);
    proof {
        assert(all =~= blocks@ + right@);
        vstd::seq_lib::lemma_multiset_commutative(blocks@, right@);
    }
    merge(sorted_blocks(blocks), sorted_blocks(right))
}

} // verus!
