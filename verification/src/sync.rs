//! Bringing a layout up to date: only what edits changed is laid out anew.

use std::sync::Arc;
use vstd::multiset::Multiset;
use vstd::prelude::*;

use crate::block::{Block, BlockDisposition, BlockLike, CustomBlock};
use crate::buffer::{ExcerptBoundary, MultiBufferSnapshot};
use crate::layout::{
    all_entries, blocks_resolve, boundaries_in_range, custom_entries, custom_row,
    header_and_footer_blocks, header_entries, headers_fit, in_range, is_layout, lifted,
    shown_boundaries, HeaderConfig,
};
use crate::patch::{drift, edits_valid, gap_end, gap_start, source_row, Edit};
use crate::point::{Bias, Point};
use crate::transforms::{
    append_range, block_row, in_order, in_start, input_rows, items_ok, moved, output_rows, placed,
    push_isomorphic, seek_input, transforms_wf, Cursor, Transform,
};
use crate::wrap::WrapSnapshot;

verus! {

broadcast use {vstd::seq_lib::group_to_multiset_ensures, vstd::multiset::group_multiset_axioms};

/// Where a block stands among rows of text and the places above and below them.
pub open spec fn key(entry: (int, Block)) -> int {
    2 * entry.0 + if entry.1.below() {
        1int
    } else {
        0
    }
}

/// How often a block stands on a row.
pub open spec fn tally(s: Seq<Transform>, entry: (int, Block)) -> nat {
    placed(s).to_multiset().count(entry)
}

/// The transforms before `k` hold all blocks below `cut`, and no others.
pub open spec fn cut_at(s: Seq<Transform>, k: int, cut: int) -> bool {
    forall|x: (int, Block)|
        #[trigger] tally(s.take(k), x) == (if key(x) < cut {
            tally(s, x)
        } else {
            0
        })
}

/// The transforms hold, in order, all of `all` that is below `cut`, and nothing else.
pub open spec fn built_to(s: Seq<Transform>, all: Multiset<(int, Block)>, cut: int) -> bool {
    &&& transforms_wf(s)
    &&& forall|x: (int, Block)|
        #[trigger] tally(s, x) == (if key(x) < cut {
            all.count(x)
        } else {
            0
        })
}

/// Blocks from `low` to `high` are the same in `old` and, `rows` further down, in `new`.
pub open spec fn same_between(
    old: Multiset<(int, Block)>,
    new: Multiset<(int, Block)>,
    low: int,
    high: int,
    rows: int,
) -> bool {
    forall|x: (int, Block)|
        low <= #[trigger] key(x) < high ==> old.count(x) == new.count((x.0 + rows, x.1))
}

/// Every block stands on a row of a text with `rows` rows.
pub open spec fn on_rows(all: Multiset<(int, Block)>, rows: int) -> bool {
    forall|x: (int, Block)| #[trigger] all.count(x) > 0 ==> 0 <= x.0 < rows
}

/// Blocks on rows that no edit changed stay with their rows.
pub open spec fn edits_cover(
    edits: Seq<Edit>,
    old: Multiset<(int, Block)>,
    new: Multiset<(int, Block)>,
    new_rows: int,
) -> bool {
    forall|row: int, block: Block|
        0 <= row < new_rows && source_row(edits, row) is Some ==> #[trigger] new.count((row, block))
            == old.count((source_row(edits, row)->0, block))
}

/// Edits begin and end with lines; one that replaces nothing at the top does so where no block
/// stands above the first row.
pub open spec fn edits_aligned(
    edits: Seq<Edit>,
    old: Multiset<(int, Block)>,
    wrap: &WrapSnapshot,
) -> bool {
    forall|i: int|
        0 <= i < edits.len() ==> {
            &&& (#[trigger] edits[i]).new.start < wrap.rows()
            &&& wrap.is_boundary(edits[i].new.start as int)
            &&& wrap.is_boundary(edits[i].new.end as int)
            &&& edits[i].old.end == 0 ==> forall|x: (int, Block)|
                #[trigger] old.count(x) > 0 ==> key(x) != 0
        }
}

proof fn lemma_tally_zero(s: Seq<(int, Block)>, x: (int, Block))
    requires
        forall|i: int| 0 <= i < s.len() ==> #[trigger] s[i] != x,
    ensures
        s.to_multiset().count(x) == 0,
{
    if s.to_multiset().count(x) > 0 {
        assert(s.contains(x));
    }
}

proof fn lemma_moved_count(blocks: Seq<(int, Block)>, rows: int, x: (int, Block))
    ensures
        moved(blocks, rows).to_multiset().count(x) == blocks.to_multiset().count(
            (x.0 - rows, x.1),
        ),
    decreases blocks.len(),
{
    if blocks.len() == 0 {
        assert(moved(blocks, rows) =~= Seq::empty());
        assert(blocks =~= Seq::empty());
    } else {
        let before = blocks.drop_last();
        lemma_moved_count(before, rows, x);
        assert(moved(blocks, rows) =~= moved(before, rows).push(
            (blocks.last().0 + rows, blocks.last().1),
        ));
        assert(blocks =~= before.push(blocks.last()));
    }
}

/// The key of the block of transform `i`.
spec fn key_at(s: Seq<Transform>, i: int) -> int {
    key((block_row(in_start(s, i), s[i].block->0), s[i].block->0))
}

proof fn lemma_key_at(s: Seq<Transform>, i: int)
    requires
        0 <= i < s.len(),
        s[i].block is Some,
    ensures
        key_at(s, i) == 2 * in_start(s, i) - (if s[i].block->0.below() {
            1int
        } else {
            0
        }),
{
}

/// Keys ascend along transforms in order.
proof fn lemma_keys_ascend(s: Seq<Transform>, i: int, j: int)
    requires
        transforms_wf(s),
        0 <= i <= j < s.len(),
        s[i].block is Some,
        s[j].block is Some,
    ensures
        0 <= key_at(s, i) <= key_at(s, j),
{
    crate::transforms::lemma_placed_at(s, i);
    crate::transforms::lemma_placed_at(s, j);
    crate::transforms::lemma_monotone(s, i, j);
}

proof fn lemma_cut(s: Seq<Transform>, k: int, cut: int)
    requires
        0 <= k <= s.len(),
        forall|i: int| 0 <= i < k && s[i].block is Some ==> #[trigger] key_at(s, i) < cut,
        forall|i: int| k <= i < s.len() && s[i].block is Some ==> #[trigger] key_at(s, i) >= cut,
    ensures
        cut_at(s, k, cut),
{
    let a = s.take(k);
    let b = s.skip(k);
    assert(s =~= a + b);
    crate::transforms::lemma_concat(a, b);
    let rest = moved(placed(b), input_rows(a));
    assert forall|x: (int, Block)| #[trigger] tally(s.take(k), x) == (if key(x) < cut {
        tally(s, x)
    } else {
        0
    }) by {
        vstd::seq_lib::lemma_multiset_commutative(placed(a), rest);
        if key(x) < cut {
            assert forall|n: int| 0 <= n < rest.len() implies #[trigger] rest[n] != x by {
                let m = placed(a).len() + n;
                assert(placed(s)[m] == rest[n]);
                let i = crate::transforms::lemma_placed_from(s, m);
                if i < k {
                    crate::transforms::lemma_step(s, i);
                    crate::transforms::lemma_monotone(s, i + 1, k);
                }
                assert(key_at(s, i) >= cut);
            }
            lemma_tally_zero(rest, x);
        } else {
            assert forall|n: int| 0 <= n < placed(a).len() implies #[trigger] placed(a)[n] != x by {
                assert(placed(s)[n] == placed(a)[n]);
                let i = crate::transforms::lemma_placed_from(s, n);
                if i >= k {
                    crate::transforms::lemma_monotone(s, k, i);
                }
                assert(key_at(s, i) < cut);
            }
            lemma_tally_zero(placed(a), x);
        }
    }
}

/// What is built holds only blocks below the cut.
proof fn lemma_built_keys(s: Seq<Transform>, all: Multiset<(int, Block)>, cut: int, n: int)
    requires
        built_to(s, all, cut),
        0 <= n < placed(s).len(),
    ensures
        key(placed(s)[n]) < cut,
{
    let x = placed(s)[n];
    assert(placed(s).contains(x));
    assert(tally(s, x) > 0);
}

/// Blocks in order followed by blocks in order with higher keys.
proof fn lemma_in_order_concat(a: Seq<(int, Block)>, b: Seq<(int, Block)>, cut: int)
    requires
        in_order(a),
        in_order(b),
        forall|n: int| 0 <= n < a.len() ==> key(#[trigger] a[n]) < cut,
        forall|n: int| 0 <= n < b.len() ==> key(#[trigger] b[n]) >= cut,
    ensures
        in_order(a + b),
{
    let c = a + b;
    assert forall|i: int, j: int| 0 <= i <= j < c.len() implies crate::order::block_le(
        (#[trigger] c[i]).0,
        c[i].1,
        (#[trigger] c[j]).0,
        c[j].1,
    ) by {
        if j < a.len() {
            assert(c[i] == a[i] && c[j] == a[j]);
        } else if i >= a.len() {
            assert(c[i] == b[i - a.len()] && c[j] == b[j - a.len()]);
        } else {
            assert(c[i] == a[i] && c[j] == b[j - a.len()]);
        }
    }
}

/// Unchanged transforms are taken over: what was built up to one cut is then built up to a later
/// one.
proof fn lemma_take_over(
    new: Seq<Transform>,
    old: Seq<Transform>,
    all: Multiset<(int, Block)>,
    new_rows: int,
    i: int,
    j: int,
    low: int,
    high: int,
    rows: int,
)
    requires
        transforms_wf(old),
        0 <= i <= j <= old.len(),
        low <= high,
        cut_at(old, i, low),
        cut_at(old, j, high),
        built_to(new, all, low + 2 * rows),
        input_rows(new) == in_start(old, i) + rows,
        on_rows(all, new_rows),
        same_between(placed(old).to_multiset(), all, low, high, rows),
    ensures
        built_to(new + old.subrange(i, j), all, high + 2 * rows),
        input_rows(new + old.subrange(i, j)) == in_start(old, j) + rows,
{
    let part = old.subrange(i, j);
    let result = new + part;
    assert(old.take(j) =~= old.take(i) + part);
    crate::transforms::lemma_concat(old.take(i), part);
    crate::transforms::lemma_concat(new, part);
    let from_old = moved(placed(part), in_start(old, i));
    let to_new = moved(placed(part), input_rows(new));
    assert forall|x: (int, Block)| #[trigger] tally(result, x) == (if key(x) < high + 2 * rows {
        all.count(x)
    } else {
        0
    }) by {
        let y = (x.0 - rows, x.1);
        vstd::seq_lib::lemma_multiset_commutative(placed(new), to_new);
        vstd::seq_lib::lemma_multiset_commutative(placed(old.take(i)), from_old);
        lemma_moved_count(placed(part), input_rows(new), x);
        lemma_moved_count(placed(part), in_start(old, i), y);
        assert(tally(result, x) == tally(new, x) + to_new.to_multiset().count(x));
        assert(tally(old.take(j), y) == tally(old.take(i), y) + from_old.to_multiset().count(y));
        assert(to_new.to_multiset().count(x) == from_old.to_multiset().count(y));
        assert(key(y) == key(x) - 2 * rows);
        assert((y.0 + rows, y.1) == x);
    }
    assert(items_ok(result)) by {
        assert forall|n: int| 0 <= n < result.len() implies (#[trigger] result[n]).ok() by {
            if n < new.len() {
                assert(result[n] == new[n]);
            } else {
                assert(result[n] == old[i + n - new.len()]);
            }
        }
    }
    assert(in_order(to_new)) by {
        crate::transforms::lemma_monotone(old, j, old.len() as int);
        crate::transforms::lemma_whole(old);
        let base = placed(old.take(i)).len() as int;
        assert forall|n: int| 0 <= n < to_new.len() implies #[trigger] to_new[n] == (
            placed(old)[base + n].0 + rows,
            placed(old)[base + n].1,
        ) by {
            assert(placed(old.take(j))[base + n] == from_old[n]);
            assert(placed(old)[base + n] == placed(old.take(j))[base + n]);
        }
        assert forall|n: int| 0 <= n < to_new.len() implies (#[trigger] to_new[n]).0 >= 0 by {
            let x = to_new[n];
            assert(to_new.contains(x));
            vstd::seq_lib::lemma_multiset_commutative(placed(new), to_new);
            assert(tally(result, x) > 0);
            assert(all.count(x) > 0);
        }
        assert forall|m: int, n: int| 0 <= m <= n < to_new.len() implies crate::order::block_le(
            (#[trigger] to_new[m]).0,
            to_new[m].1,
            (#[trigger] to_new[n]).0,
            to_new[n].1,
        ) by {
            let a = placed(old)[base + m];
            let b = placed(old)[base + n];
            assert(crate::order::block_le(a.0, a.1, b.0, b.1));
        }
    }
    assert forall|n: int| 0 <= n < placed(new).len() implies key(#[trigger] placed(new)[n]) < low
        + 2 * rows by {
        lemma_built_keys(new, all, low + 2 * rows, n);
    }
    assert forall|n: int| 0 <= n < to_new.len() implies key(#[trigger] to_new[n]) >= low + 2
        * rows by {
        let x = to_new[n];
        let y = (x.0 - rows, x.1);
        assert(to_new.contains(x));
        lemma_moved_count(placed(part), input_rows(new), x);
        lemma_moved_count(placed(part), in_start(old, i), y);
        vstd::seq_lib::lemma_multiset_commutative(placed(old.take(i)), from_old);
        assert(tally(old.take(j), y) == tally(old.take(i), y) + from_old.to_multiset().count(y));
        assert(from_old.to_multiset().count(y) > 0);
        if key(y) < low {
            assert(tally(old.take(i), y) == tally(old, y));
            assert(tally(old.take(j), y) == tally(old, y));
        }
        assert(key(y) == key(x) - 2 * rows);
    }
    lemma_in_order_concat(placed(new), to_new, low + 2 * rows);
}

/// Finds the end of the transforms that precede row `start` of the old text.
fn find_kept(
    old_transforms: &Vec<Transform>,
    cursor: Cursor,
    start: u32,
) -> (at: Cursor)
    requires
        transforms_wf(old_transforms@),
        0 < input_rows(old_transforms@) <= u32::MAX,
        output_rows(old_transforms@) <= u32::MAX,
        cursor.at(old_transforms@),
        cursor.input < start || cursor.ix == 0,
        start <= input_rows(old_transforms@),
    ensures
        at.at(old_transforms@),
        cursor.ix <= at.ix,
        at.input <= start,
        cut_at(old_transforms@, at.ix as int, 2 * start),
{
    let ghost olds = old_transforms@;
    let ghost from = cursor.ix as int;
    let mut at: Cursor = cursor;
    // Transforms that end before the row.
    while at.ix < old_transforms.len()
        invariant_except_break
            at.at(olds),
            from <= at.ix <= olds.len(),
            forall|i: int| from <= i < at.ix ==> #[trigger] in_start(olds, i + 1) < start,
        invariant
            olds == old_transforms@,
            input_rows(olds) <= u32::MAX,
            output_rows(olds) <= u32::MAX,
        ensures
            at.at(olds),
            from <= at.ix <= olds.len(),
            forall|i: int| from <= i < at.ix ==> #[trigger] in_start(olds, i + 1) < start,
            at.ix < olds.len() ==> in_start(olds, at.ix + 1) >= start,
        decreases olds.len() - at.ix,
    {
        proof {
            crate::transforms::lemma_step(olds, at.ix as int);
            crate::transforms::lemma_monotone(olds, at.ix + 1, olds.len() as int);
            crate::transforms::lemma_whole(olds);
        }
        if at.input + old_transforms[at.ix].summary.input_rows >= start {
            break;
        }
        at.next(old_transforms);
    }
    let ghost reached = at.ix as int;
    // A run of text that ends at the row, and the blocks below its last line.
    if at.ix < old_transforms.len() && old_transforms[at.ix].is_isomorphic() {
        proof {
            crate::transforms::lemma_step(olds, reached);
            crate::transforms::lemma_monotone(olds, reached + 1, olds.len() as int);
            crate::transforms::lemma_whole(olds);
        }
        if at.input + old_transforms[at.ix].summary.input_rows == start {
            at.next(old_transforms);
            while at.ix < old_transforms.len() && old_transforms[at.ix].is_below()
                invariant
                    olds == old_transforms@,
                    items_ok(olds),
                    input_rows(olds) <= u32::MAX,
                    output_rows(olds) <= u32::MAX,
                    at.at(olds),
                    from <= reached < at.ix <= olds.len(),
                    at.input == start,
                    forall|i: int|
                        reached < i < at.ix ==> (#[trigger] olds[i]).is_below_spec() && in_start(
                            olds,
                            i,
                        ) == start,
                decreases olds.len() - at.ix,
            {
                proof {
                    crate::transforms::lemma_step(olds, at.ix as int);
                    assert(olds[at.ix as int].ok());
                }
                at.next(old_transforms);
            }
        }
    }
    proof {
        lemma_kept(olds, from, reached, at.ix as int, start as int);
    }
    at
}

/// Takes over what precedes row `start` of the old text.
fn keep_before(
    new: &mut Vec<Transform>,
    old_transforms: &Vec<Transform>,
    cursor: Cursor,
    start: u32,
    Ghost(all): Ghost<Multiset<(int, Block)>>,
    Ghost(new_rows): Ghost<int>,
    Ghost(low): Ghost<int>,
    Ghost(rows): Ghost<int>,
)
    requires
        transforms_wf(old_transforms@),
        0 < input_rows(old_transforms@) <= u32::MAX,
        output_rows(old_transforms@) <= u32::MAX,
        cursor.at(old_transforms@),
        cursor.input < start || cursor.ix == 0,
        start <= input_rows(old_transforms@),
        low <= 2 * start,
        cut_at(old_transforms@, cursor.ix as int, low),
        built_to(old(new)@, all, low + 2 * rows),
        input_rows(old(new)@) == cursor.input + rows,
        on_rows(all, new_rows),
        same_between(placed(old_transforms@).to_multiset(), all, low, 2 * start, rows),
        start + rows <= new_rows <= u32::MAX,
    ensures
        built_to(final(new)@, all, 2 * start + 2 * rows),
        input_rows(final(new)@) == start + rows,
{
    let at: Cursor = find_kept(old_transforms, cursor, start);
    proof {
        lemma_take_over(
            new@,
            old_transforms@,
            all,
            new_rows,
            cursor.ix as int,
            at.ix as int,
            low,
            2 * start,
            rows,
        );
    }
    append_range(new, old_transforms, cursor.ix, at.ix);
    let ghost kept = new@;
    push_isomorphic(new, start - at.input);
    proof {
        lemma_built_same(kept, new@, all, 2 * start + 2 * rows);
    }
}

/// Text added at the end leaves the blocks as they were.
proof fn lemma_built_same(
    a: Seq<Transform>,
    b: Seq<Transform>,
    all: Multiset<(int, Block)>,
    cut: int,
)
    requires
        built_to(a, all, cut),
        placed(a) == placed(b),
        items_ok(b),
    ensures
        built_to(b, all, cut),
{
    assert forall|x: (int, Block)| #[trigger] tally(b, x) == (if key(x) < cut {
        all.count(x)
    } else {
        0
    }) by {
        assert(tally(a, x) == tally(b, x));
    }
}

/// Where `find_kept` stops is a cut at the row.
proof fn lemma_kept(s: Seq<Transform>, from: int, reached: int, to: int, start: int)
    requires
        transforms_wf(s),
        0 <= from <= reached <= to <= s.len(),
        0 < input_rows(s),
        0 <= start <= input_rows(s),
        in_start(s, from) < start || from == 0,
        forall|i: int| from <= i < reached ==> #[trigger] in_start(s, i + 1) < start,
        reached < s.len() ==> in_start(s, reached + 1) >= start,
        if reached < s.len() && s[reached].block is None && in_start(s, reached + 1) == start {
            &&& reached < to
            &&& forall|i: int|
                reached < i < to ==> (#[trigger] s[i]).is_below_spec() && in_start(s, i) == start
            &&& in_start(s, to) == start
            &&& to < s.len() ==> !s[to].is_below_spec()
        } else {
            to == reached
        },
    ensures
        cut_at(s, to, 2 * start),
        in_start(s, to) <= start,
{
    crate::transforms::lemma_whole(s);
    // The row lies in the text, so a transform reaches it.
    if from < reached {
        assert(in_start(s, (reached - 1) + 1) < start);
    }
    assert(reached < s.len());
    crate::transforms::lemma_step(s, reached);
    assert(s[reached].ok());
    if reached < to {
        lemma_skipped_to(s, reached, to, start);
    } else {
        lemma_kept_before(s, reached, start);
    }
}

/// A transform that begins before the row and reaches over it, or the first one.
proof fn lemma_kept_before(s: Seq<Transform>, reached: int, start: int)
    requires
        transforms_wf(s),
        0 <= reached < s.len(),
        0 <= start,
        in_start(s, reached) < start || (reached == 0 && start == 0),
        in_start(s, reached + 1) >= start,
        s[reached].block is None ==> in_start(s, reached + 1) > start,
    ensures
        cut_at(s, reached, 2 * start),
{
    crate::transforms::lemma_whole(s);
    crate::transforms::lemma_step(s, reached);
    assert(s[reached].ok());
    assert forall|i: int| 0 <= i < reached && s[i].block is Some implies #[trigger] key_at(s, i) < 2
        * start by {
        lemma_key_at(s, i);
        crate::transforms::lemma_monotone(s, i, reached);
    }
    assert forall|i: int| reached <= i < s.len() && s[i].block is Some implies #[trigger] key_at(
        s,
        i,
    ) >= 2 * start by {
        lemma_key_at(s, i);
        if s[reached].block is Some {
            lemma_keys_ascend(s, i, i);
        } else {
            crate::transforms::lemma_monotone(s, reached + 1, i);
        }
    }
    lemma_cut(s, reached, 2 * start);
}

/// A cut that is at row `end`, or right behind the run of text that row `end` lies in.
spec fn past_row(s: Seq<Transform>, cursor: Cursor, end: int) -> bool {
    &&& cursor.at(s)
    &&& cursor.input >= end
    &&& cursor.input == end ==> cut_at(s, cursor.ix as int, 2 * end)
    &&& cursor.input > end ==> cut_at(s, cursor.ix as int, 2 * cursor.input - 1) && forall|
        x: (int, Block),
    |
        2 * end <= #[trigger] key(x) < 2 * cursor.input - 1 ==> tally(s, x) == 0
}

/// Finds the first transform that row `end` of the old text has nothing to do with.
fn skip_past(old_transforms: &Vec<Transform>, end: u32) -> (cursor: Cursor)
    requires
        transforms_wf(old_transforms@),
        0 < input_rows(old_transforms@) <= u32::MAX,
        output_rows(old_transforms@) <= u32::MAX,
        end <= input_rows(old_transforms@),
        end == 0 ==> forall|x: (int, Block)|
            #[trigger] tally(old_transforms@, x) > 0 ==> key(x) != 0,
    ensures
        past_row(old_transforms@, cursor, end as int),
{
    let ghost olds = old_transforms@;
    let mut cursor: Cursor = seek_input(old_transforms, end, Bias::Left);
    let ghost found = cursor.ix as int;
    proof {
        lemma_text_found(olds, found, end as int);
    }
    cursor.next(old_transforms);
    if end == cursor.input {
        while cursor.ix < old_transforms.len() && old_transforms[cursor.ix].is_below()
            invariant
                olds == old_transforms@,
                items_ok(olds),
                input_rows(olds) <= u32::MAX,
                output_rows(olds) <= u32::MAX,
                cursor.at(olds),
                0 <= found < cursor.ix <= olds.len(),
                cursor.input == end,
                forall|i: int|
                    found < i < cursor.ix ==> (#[trigger] olds[i]).is_below_spec() && in_start(
                        olds,
                        i,
                    ) == end,
            decreases olds.len() - cursor.ix,
        {
            proof {
                crate::transforms::lemma_step(olds, cursor.ix as int);
                assert(olds[cursor.ix as int].ok());
            }
            cursor.next(old_transforms);
        }
    }
    proof {
        lemma_skipped(olds, found, cursor.ix as int, end as int);
    }
    cursor
}

/// A search to the left for a row of the text ends in a run of text.
proof fn lemma_text_found(s: Seq<Transform>, found: int, end: int)
    requires
        transforms_wf(s),
        0 < input_rows(s),
        0 <= end <= input_rows(s),
        end == 0 ==> forall|x: (int, Block)| #[trigger] tally(s, x) > 0 ==> key(x) != 0,
        crate::transforms::found_input(s, found, end, Bias::Left),
    ensures
        found < s.len(),
        s[found].block is None,
        in_start(s, found) < end || end == 0,
        in_start(s, found + 1) >= end,
        in_start(s, found + 1) > in_start(s, found),
        end == 0 ==> found == 0,
{
    crate::transforms::lemma_whole(s);
    if found == s.len() {
        assert(!crate::transforms::stops_at(in_start(s, (found - 1) + 1), end, Bias::Left));
        assert(false);
    }
    crate::transforms::lemma_step(s, found);
    if found > 0 {
        assert(!crate::transforms::stops_at(in_start(s, (found - 1) + 1), end, Bias::Left));
        crate::transforms::lemma_monotone(s, 0, found);
    }
    assert(s[found].ok());
    if s[found].block is Some {
        assert(found == 0 && end == 0);
        lemma_key_at(s, 0);
        lemma_keys_ascend(s, 0, 0);
        crate::transforms::lemma_placed_at(s, 0);
        let n = placed(s.take(0)).len() as int;
        assert(placed(s).contains(placed(s)[n]));
        assert(tally(s, placed(s)[n]) > 0);
        assert(false);
    }
}

/// Where `skip_past` stops is a cut.
proof fn lemma_skipped(s: Seq<Transform>, found: int, to: int, end: int)
    requires
        transforms_wf(s),
        0 <= found < to <= s.len(),
        s[found].block is None,
        in_start(s, found) < end || end == 0,
        in_start(s, found + 1) >= end,
        end >= 0,
        in_start(s, found + 1) > in_start(s, found),
        end == 0 ==> found == 0,
        if in_start(s, found + 1) == end {
            &&& forall|i: int|
                found < i < to ==> (#[trigger] s[i]).is_below_spec() && in_start(s, i) == end
            &&& in_start(s, to) == end
            &&& to < s.len() ==> !s[to].is_below_spec()
        } else {
            to == found + 1
        },
    ensures
        in_start(s, to) >= end,
        in_start(s, to) == end ==> cut_at(s, to, 2 * end),
        in_start(s, to) > end ==> cut_at(s, to, 2 * in_start(s, to) - 1) && forall|x: (int, Block)|
            2 * end <= #[trigger] key(x) < 2 * in_start(s, to) - 1 ==> tally(s, x) == 0,
{
    if in_start(s, found + 1) == end {
        lemma_skipped_to(s, found, to, end);
    } else {
        lemma_skipped_over(s, found, end);
    }
}

/// A run of text that ends at the row, with the blocks below its last line.
proof fn lemma_skipped_to(s: Seq<Transform>, found: int, to: int, end: int)
    requires
        transforms_wf(s),
        0 <= found < to <= s.len(),
        s[found].block is None,
        in_start(s, found) < end,
        in_start(s, found + 1) == end,
        forall|i: int|
            found < i < to ==> (#[trigger] s[i]).is_below_spec() && in_start(s, i) == end,
        in_start(s, to) == end,
        to < s.len() ==> !s[to].is_below_spec(),
    ensures
        cut_at(s, to, 2 * end),
{
    assert forall|i: int| 0 <= i < to && s[i].block is Some implies #[trigger] key_at(s, i) < 2
        * end by {
        lemma_key_at(s, i);
        if i < found {
            crate::transforms::lemma_monotone(s, i, found);
        }
    }
    assert forall|i: int| to <= i < s.len() && s[i].block is Some implies #[trigger] key_at(s, i)
        >= 2 * end by {
        lemma_key_at(s, i);
        if s[to].block is Some {
            lemma_keys_ascend(s, to, i);
            lemma_key_at(s, to);
        } else {
            crate::transforms::lemma_step(s, to);
            assert(s[to].ok());
            crate::transforms::lemma_monotone(s, to + 1, i);
        }
    }
    lemma_cut(s, to, 2 * end);
}

/// A run of text that the row lies in.
proof fn lemma_skipped_over(s: Seq<Transform>, found: int, end: int)
    requires
        transforms_wf(s),
        0 <= found < s.len(),
        s[found].block is None,
        in_start(s, found) < end || (end == 0 && found == 0),
        in_start(s, found + 1) > end >= 0,
    ensures
        cut_at(s, found + 1, 2 * in_start(s, found + 1) - 1),
        forall|x: (int, Block)|
            2 * end <= #[trigger] key(x) < 2 * in_start(s, found + 1) - 1 ==> tally(s, x) == 0,
{
    let to = found + 1;
    let after = in_start(s, to);
    assert forall|i: int| 0 <= i < to && s[i].block is Some implies #[trigger] key_at(s, i) < 2
        * end by {
        lemma_key_at(s, i);
        crate::transforms::lemma_monotone(s, i, found);
    }
    assert forall|i: int| to <= i < s.len() && s[i].block is Some implies #[trigger] key_at(s, i)
        >= 2 * after - 1 by {
        lemma_key_at(s, i);
        crate::transforms::lemma_monotone(s, to, i);
    }
    lemma_cut(s, to, 2 * after - 1);
    assert forall|x: (int, Block)| 2 * end <= #[trigger] key(x) < 2 * after - 1 implies tally(s, x)
        == 0 by {
        assert forall|n: int| 0 <= n < placed(s).len() implies #[trigger] placed(s)[n] != x by {
            let i = crate::transforms::lemma_placed_from(s, n);
            if i < to {
                assert(key_at(s, i) < 2 * end);
            } else {
                assert(key_at(s, i) >= 2 * after - 1);
            }
        }
        lemma_tally_zero(placed(s), x);
    }
}

/// The first block from `from` on that does not stand before `point`.
fn first_block_from(
    custom_blocks: &Vec<Arc<CustomBlock>>,
    buffer: &MultiBufferSnapshot,
    point: Point,
    from: usize,
) -> (ix: usize)
    requires
        buffer.wf(),
        blocks_resolve(buffer, custom_blocks@),
        from <= custom_blocks@.len(),
    ensures
        from <= ix <= custom_blocks@.len(),
        forall|k: int|
            from <= k < ix ==> buffer.point((#[trigger] custom_blocks@[k]).position).lt(point),
        forall|k: int|
            ix <= k < custom_blocks@.len() ==> !buffer.point(
                (#[trigger] custom_blocks@[k]).position,
            ).lt(point),
{
    let mut low: usize = from;
    let mut high: usize = custom_blocks.len();
    while low < high
        invariant
            buffer.wf(),
            blocks_resolve(buffer, custom_blocks@),
            from <= low <= high <= custom_blocks@.len(),
            forall|k: int|
                from <= k < low ==> buffer.point((#[trigger] custom_blocks@[k]).position).lt(point),
            forall|k: int|
                high <= k < custom_blocks@.len() ==> !buffer.point(
                    (#[trigger] custom_blocks@[k]).position,
                ).lt(point),
        decreases high - low,
    {
        let middle: usize = low + (high - low) / 2;
        let at: Point = buffer.to_point(custom_blocks[middle].position);
        proof {
            let probe = custom_blocks@[middle as int].position;
            assert forall|k: int| from <= k <= middle implies buffer.point(
                (#[trigger] custom_blocks@[k]).position,
            ).le(buffer.point(probe)) by {}
            assert forall|k: int| middle <= k < custom_blocks@.len() implies buffer.point(
                probe,
            ).le(buffer.point((#[trigger] custom_blocks@[k]).position)) by {}
        }
        if at.is_before(point) {
            low = middle + 1;
        } else {
            high = middle;
        }
    }
    low
}

proof fn lemma_lifted_count(blocks: Seq<(u32, Block)>, x: (int, Block))
    ensures
        lifted(blocks).to_multiset().count(x) == (if 0 <= x.0 <= u32::MAX {
            blocks.to_multiset().count((x.0 as u32, x.1))
        } else {
            0
        }),
    decreases blocks.len(),
{
    if blocks.len() == 0 {
        assert(lifted(blocks) =~= Seq::empty());
        assert(blocks =~= Seq::empty());
    } else {
        let before = blocks.drop_last();
        let last = blocks.last();
        lemma_lifted_count(before, x);
        assert(lifted(blocks) =~= lifted(before).push((last.0 as int, last.1)));
        assert(blocks =~= before.push(last));
    }
}

/// Of the custom blocks in order, those between two cuts are the ones on the rows between them.
proof fn lemma_customs_between(
    wrap: &WrapSnapshot,
    blocks: Seq<Arc<CustomBlock>>,
    i: int,
    j: int,
    start: int,
    end: int,
    x: (int, Block),
)
    requires
        0 <= i <= j <= blocks.len(),
        forall|k: int| 0 <= k < i ==> custom_row(wrap, &*#[trigger] blocks[k]) < start,
        forall|k: int| i <= k < j ==> start <= custom_row(wrap, &*#[trigger] blocks[k]) < end,
        forall|k: int| j <= k < blocks.len() ==> custom_row(wrap, &*#[trigger] blocks[k]) >= end,
        start <= end,
    ensures
        custom_entries(wrap, blocks.subrange(i, j)).to_multiset().count(x) == (if start <= x.0
            < end {
            custom_entries(wrap, blocks).to_multiset().count(x)
        } else {
            0
        }),
{
    let a = custom_entries(wrap, blocks.take(i));
    let b = custom_entries(wrap, blocks.subrange(i, j));
    let c = custom_entries(wrap, blocks.skip(j));
    assert(custom_entries(wrap, blocks) =~= a + b + c);
    vstd::seq_lib::lemma_multiset_commutative(a + b, c);
    vstd::seq_lib::lemma_multiset_commutative(a, b);
    if start <= x.0 < end {
        assert forall|n: int| 0 <= n < a.len() implies #[trigger] a[n] != x by {
            assert(custom_row(wrap, &*blocks[n]) < start);
        }
        assert forall|n: int| 0 <= n < c.len() implies #[trigger] c[n] != x by {
            assert(custom_row(wrap, &*blocks[j + n]) >= end);
        }
        lemma_tally_zero(a, x);
        lemma_tally_zero(c, x);
    } else {
        assert forall|n: int| 0 <= n < b.len() implies #[trigger] b[n] != x by {
            assert(start <= custom_row(wrap, &*blocks[i + n]) < end);
        }
        lemma_tally_zero(b, x);
    }
}

/// The boundaries between two positions are the ones on the rows between them.
proof fn lemma_headers_between(
    wrap: &WrapSnapshot,
    headers: HeaderConfig,
    boundaries: Seq<ExcerptBoundary>,
    from: Point,
    to: Option<Point>,
    start: int,
    end: int,
    x: (int, Block),
)
    requires
        forall|k: int|
            0 <= k < boundaries.len() ==> (in_range(
                wrap.buffer.boundary_point(#[trigger] boundaries[k]),
                from,
                to,
            ) <==> start <= crate::layout::boundary_row(wrap, boundaries[k]) < end),
    ensures
        header_entries(
            wrap,
            headers,
            boundaries_in_range(&*wrap.buffer, boundaries, from, to),
        ).to_multiset().count(x) == (if start <= x.0 < end {
            header_entries(wrap, headers, boundaries).to_multiset().count(x)
        } else {
            0
        }),
    decreases boundaries.len(),
{
    let buffer = *wrap.buffer;
    let within = |b: ExcerptBoundary| in_range(buffer.boundary_point(b), from, to);
    reveal(Seq::filter);
    if boundaries.len() == 0 {
        assert(header_entries(wrap, headers, boundaries) =~= Seq::empty());
        assert(boundaries_in_range(&*wrap.buffer, boundaries, from, to) =~= Seq::empty());
        assert(Seq::<(int, Block)>::empty().to_multiset().count(x) == 0);
    } else {
        let before = boundaries.drop_last();
        let last = boundaries.last();
        assert forall|k: int| 0 <= k < before.len() implies (in_range(
            wrap.buffer.boundary_point(#[trigger] before[k]),
            from,
            to,
        ) <==> start <= crate::layout::boundary_row(wrap, before[k]) < end) by {
            assert(before[k] == boundaries[k]);
        }
        lemma_headers_between(wrap, headers, before, from, to, start, end, x);
        let few = boundaries_in_range(&*wrap.buffer, before, from, to);
        assert(boundaries[boundaries.len() - 1] == last);
        if within(last) {
            assert(boundaries_in_range(&*wrap.buffer, boundaries, from, to) =~= few.push(last));
            assert(few.push(last).drop_last() =~= few);
        } else {
            assert(boundaries_in_range(&*wrap.buffer, boundaries, from, to) =~= few);
        }
    }
}

/// Sorted blocks that are exactly those of `all` on rows `start..end`.
spec fn is_region(
    blocks: Seq<(u32, Block)>,
    all: Multiset<(int, Block)>,
    start: int,
    end: int,
) -> bool {
    &&& crate::order::blocks_sorted(blocks)
    &&& forall|x: (int, Block)|
        #[trigger] lifted(blocks).to_multiset().count(x) == (if start <= x.0 < end {
            all.count(x)
        } else {
            0
        })
}

/// The custom blocks `from..to`, each with its row.
fn custom_blocks_with_rows(
    custom_blocks: &Vec<Arc<CustomBlock>>,
    wrap: &WrapSnapshot,
    from: usize,
    to: usize,
) -> (entries: Vec<(u32, Block)>)
    requires
        wrap.wf(),
        blocks_resolve(&*wrap.buffer, custom_blocks@),
        from <= to <= custom_blocks@.len(),
    ensures
        lifted(entries@) == custom_entries(wrap, custom_blocks@.subrange(from as int, to as int)),
{
    let buffer: &MultiBufferSnapshot = wrap.buffer_snapshot();
    let mut entries: Vec<(u32, Block)> = Vec::new();
    let mut ix: usize = from;
    proof {
        assert(lifted(entries@) =~= custom_entries(
            wrap,
            custom_blocks@.subrange(from as int, from as int),
        ));
    }
    while ix < to
        invariant
            wrap.wf(),
            blocks_resolve(&*wrap.buffer, custom_blocks@),
            *buffer == *wrap.buffer,
            from <= ix <= to <= custom_blocks@.len(),
            lifted(entries@) == custom_entries(
                wrap,
                custom_blocks@.subrange(from as int, ix as int),
            ),
        decreases to - ix,
    {
        let block: &Arc<CustomBlock> = &custom_blocks[ix];
        let line: u32 = buffer.to_point(block.position).row;
        let row: u32 = match block.disposition {
            BlockDisposition::Above => wrap.line_first_row(line),
            BlockDisposition::Below => wrap.line_last_row(line),
        };
        let ghost before = entries@;
        entries.push((row, Block::Custom(block.clone())));
        ix = ix + 1;
        proof {
            assert(lifted(entries@) =~= lifted(before).push(
                (custom_row(wrap, &**block), Block::Custom(*block)),
            ));
            assert(lifted(entries@) =~= custom_entries(
                wrap,
                custom_blocks@.subrange(from as int, ix as int),
            ));
        }
    }
    entries
}

/// Lays out rows `start..end` anew: the blocks on them in order, and the first custom block that
/// stands after them.
fn blocks_on_rows(
    custom_blocks: &Vec<Arc<CustomBlock>>,
    headers: HeaderConfig,
    wrap: &WrapSnapshot,
    start: u32,
    end: u32,
    last_block_ix: usize,
) -> (found: (Vec<(u32, Block)>, usize))
    requires
        wrap.wf(),
        headers_fit(wrap, headers),
        blocks_resolve(&*wrap.buffer, custom_blocks@),
        start < wrap.rows(),
        start <= end <= wrap.rows(),
        wrap.is_boundary(start as int),
        wrap.is_boundary(end as int),
        last_block_ix <= custom_blocks@.len(),
        forall|k: int|
            0 <= k < last_block_ix ==> custom_row(wrap, &*#[trigger] custom_blocks@[k]) < start,
    ensures
        is_region(
            found.0@,
            all_entries(wrap, headers, custom_blocks@).to_multiset(),
            start as int,
            end as int,
        ),
        found.1 <= custom_blocks@.len(),
        forall|k: int|
            0 <= k < found.1 ==> custom_row(wrap, &*#[trigger] custom_blocks@[k]) < end,
{
    let buffer: &MultiBufferSnapshot = wrap.buffer_snapshot();
    let ghost blocks = custom_blocks@;
    let start_point: Point = wrap.row_start(start);
    let start_ix: usize = first_block_from(custom_blocks, buffer, start_point, last_block_ix);
    let (end_ix, end_point): (usize, Option<Point>) = if end > wrap.max_point().row() {
        (custom_blocks.len(), None)
    } else {
        let point: Point = wrap.row_start(end);
        (first_block_from(custom_blocks, buffer, point, start_ix), Some(point))
    };
    proof {
        assert forall|k: int| 0 <= k < start_ix implies custom_row(wrap, &*#[trigger] blocks[k])
            < start by {
            lemma_custom_split(wrap, &*blocks[k], start as int);
        }
        assert forall|k: int| start_ix <= k < end_ix implies start <= custom_row(
            wrap,
            &*#[trigger] blocks[k],
        ) < end by {
            lemma_custom_split(wrap, &*blocks[k], start as int);
            if end < wrap.rows() {
                lemma_custom_split(wrap, &*blocks[k], end as int);
            }
        }
        assert forall|k: int| end_ix <= k < blocks.len() implies custom_row(
            wrap,
            &*#[trigger] blocks[k],
        ) >= end by {
            lemma_custom_split(wrap, &*blocks[k], end as int);
        }
    }
    let mut entries: Vec<(u32, Block)> = custom_blocks_with_rows(
        custom_blocks,
        wrap,
        start_ix,
        end_ix,
    );
    let ghost customs = entries@;
    let ghost mut bounds: Seq<(u32, Block)> = Seq::empty();
    if buffer.show_headers() {
        let mut more: Vec<(u32, Block)> = header_and_footer_blocks(
            headers,
            start_point,
            end_point,
            wrap,
        );
        proof {
            bounds = more@;
        }
        entries.append(&mut more);
    }
    let ghost unsorted = entries@;
    let sorted: Vec<(u32, Block)> = crate::order::sorted_blocks(entries);
    proof {
        let shown = shown_boundaries(&*wrap.buffer);
        assert(unsorted =~= customs + bounds);
        assert(lifted(unsorted) =~= lifted(customs) + lifted(bounds));
        assert forall|k: int| 0 <= k < shown.len() implies (in_range(
            wrap.buffer.boundary_point(#[trigger] shown[k]),
            start_point,
            end_point,
        ) <==> start <= crate::layout::boundary_row(wrap, shown[k]) < end) by {
            lemma_boundary_split(wrap, k, start as int);
            if end < wrap.rows() {
                lemma_boundary_split(wrap, k, end as int);
            }
        }
        assert(lifted(bounds) == header_entries(
            wrap,
            headers,
            boundaries_in_range(&*wrap.buffer, shown, start_point, end_point),
        )) by {
            if !buffer.show_headers {
                reveal(Seq::filter);
                assert(boundaries_in_range(&*wrap.buffer, shown, start_point, end_point)
                    =~= Seq::empty());
                assert(lifted(bounds) =~= Seq::empty());
            }
        }
        let all = all_entries(wrap, headers, blocks).to_multiset();
        assert forall|x: (int, Block)|
            #[trigger] lifted(sorted@).to_multiset().count(x) == (if start <= x.0 < end {
                all.count(x)
            } else {
                0
            }) by {
            lemma_lifted_count(sorted@, x);
            lemma_lifted_count(unsorted, x);
            vstd::seq_lib::lemma_multiset_commutative(lifted(customs), lifted(bounds));
            vstd::seq_lib::lemma_multiset_commutative(
                custom_entries(wrap, blocks),
                header_entries(wrap, headers, shown),
            );
            lemma_customs_between(
                wrap,
                blocks,
                start_ix as int,
                end_ix as int,
                start as int,
                end as int,
                x,
            );
            lemma_headers_between(
                wrap,
                headers,
                shown,
                start_point,
                end_point,
                start as int,
                end as int,
                x,
            );
        }
    }
    (sorted, end_ix)
}

/// The line that a row begins with separates the custom blocks above the row from the others.
proof fn lemma_custom_split(wrap: &WrapSnapshot, block: &CustomBlock, row: int)
    requires
        wrap.wf(),
        wrap.buffer.knows(block.position),
        wrap.is_boundary(row),
    ensures
        row < wrap.rows() ==> (wrap.buffer.point(block.position).lt(wrap.start_of(row))
            <==> custom_row(wrap, block) < row),
        0 <= custom_row(wrap, block) < wrap.rows(),
{
    crate::layout::lemma_custom_row(wrap, block);
    if row < wrap.rows() {
        wrap.lemma_boundary_splits(row, wrap.buffer.point(block.position).row as int);
    }
}

/// The line that a row begins with separates the boundaries above the row from the others.
proof fn lemma_boundary_split(wrap: &WrapSnapshot, k: int, row: int)
    requires
        wrap.wf(),
        0 <= k < wrap.buffer.boundaries@.len(),
        wrap.is_boundary(row),
    ensures
        row < wrap.rows() ==> (wrap.buffer.boundary_point(wrap.buffer.boundaries@[k]).lt(
            wrap.start_of(row),
        ) <==> crate::layout::boundary_row(wrap, wrap.buffer.boundaries@[k]) < row),
        0 <= crate::layout::boundary_row(wrap, wrap.buffer.boundaries@[k]) < wrap.rows(),
{
    assert(wrap.buffer.boundary_ok(k));
    let line = wrap.buffer.boundaries@[k].row as int;
    assert(wrap.line_rows@[line].first <= wrap.line_rows@[line].last < wrap.rows());
    if row < wrap.rows() {
        wrap.lemma_boundary_splits(row, line);
    }
}

/// Puts blocks behind what is built, each with the text before it, and returns the rows of text
/// that then come before the end.
fn insert_blocks(
    new: &mut Vec<Transform>,
    blocks: Vec<(u32, Block)>,
    start: u32,
    Ghost(end): Ghost<int>,
) -> (at: u32)
    requires
        items_ok(old(new)@),
        input_rows(old(new)@) == start,
        start <= end <= u32::MAX,
        crate::order::blocks_sorted(blocks@),
        forall|i: int| 0 <= i < blocks@.len() ==> start <= (#[trigger] blocks@[i]).0 < end,
    ensures
        items_ok(final(new)@),
        input_rows(final(new)@) == at,
        start <= at <= end,
        placed(final(new)@) == placed(old(new)@) + lifted(blocks@),
{
    let ghost before = placed(new@);
    let ghost sorted = blocks@;
    let mut at: u32 = start;
    let mut ix: usize = 0;
    proof {
        assert(before + lifted(sorted).take(0) =~= before);
    }
    while ix < blocks.len()
        invariant
            sorted == blocks@,
            crate::order::blocks_sorted(sorted),
            forall|i: int| 0 <= i < sorted.len() ==> start <= (#[trigger] sorted[i]).0 < end,
            ix <= sorted.len(),
            items_ok(new@),
            input_rows(new@) == at,
            start <= at <= end <= u32::MAX,
            ix > 0 ==> at == (if sorted[ix - 1].1.below() {
                sorted[ix - 1].0 + 1
            } else {
                sorted[ix - 1].0 as int
            }),
            ix == 0 ==> at == start,
            placed(new@) == before + lifted(sorted).take(ix as int),
        decreases sorted.len() - ix,
    {
        let (row, block): (u32, Block) = (blocks[ix].0, blocks[ix].1.clone());
        proof {
            assert(sorted[ix as int] == (row, block));
            if ix > 0 {
                assert(crate::order::block_le(
                    sorted[ix - 1].0 as int,
                    sorted[ix - 1].1,
                    sorted[ix as int].0 as int,
                    sorted[ix as int].1,
                ));
            }
        }
        let insertion_row: u32 = match block.disposition() {
            BlockDisposition::Above => row,
            BlockDisposition::Below => row + 1,
        };
        push_isomorphic(new, insertion_row - at);
        at = insertion_row;
        let ghost text_pushed = new@;
        let ghost t = Transform {
            summary: crate::transforms::TransformSummary {
                input_rows: 0,
                output_rows: block.height_spec(),
            },
            block: Some(block),
        };
        new.push(Transform::block(block));
        proof {
            crate::transforms::lemma_push(text_pushed, t);
            assert(lifted(sorted)[ix as int] == (row as int, block));
            assert(before + lifted(sorted).take(ix + 1) =~= (before + lifted(sorted).take(
                ix as int,
            )).push((row as int, block)));
        }
        ix = ix + 1;
    }
    proof {
        assert(lifted(sorted).take(sorted.len() as int) =~= lifted(sorted));
    }
    at
}

/// Rows laid out anew extend what is built.
proof fn lemma_region_built(
    new: Seq<Transform>,
    result: Seq<Transform>,
    blocks: Seq<(u32, Block)>,
    all: Multiset<(int, Block)>,
    start: int,
    end: int,
)
    requires
        built_to(new, all, 2 * start),
        is_region(blocks, all, start, end),
        start <= end,
        items_ok(result),
        placed(result) == placed(new) + lifted(blocks),
    ensures
        built_to(result, all, 2 * end),
{
    let added = lifted(blocks);
    assert forall|x: (int, Block)| #[trigger] tally(result, x) == (if key(x) < 2 * end {
        all.count(x)
    } else {
        0
    }) by {
        vstd::seq_lib::lemma_multiset_commutative(placed(new), added);
        assert(tally(result, x) == tally(new, x) + added.to_multiset().count(x));
    }
    assert forall|n: int| 0 <= n < placed(new).len() implies key(#[trigger] placed(new)[n]) < 2
        * start by {
        lemma_built_keys(new, all, 2 * start, n);
    }
    assert forall|n: int| 0 <= n < added.len() implies key(#[trigger] added[n]) >= 2 * start by {
        lemma_region_rows(blocks, all, start, end, n);
    }
    assert forall|i: int, j: int| 0 <= i <= j < added.len() implies crate::order::block_le(
        (#[trigger] added[i]).0,
        added[i].1,
        (#[trigger] added[j]).0,
        added[j].1,
    ) by {
        if i < j {
            assert(crate::order::block_le(
                blocks[i].0 as int,
                blocks[i].1,
                blocks[j].0 as int,
                blocks[j].1,
            ));
        } else {
            crate::order::lemma_block_le_is_total(added[i].0, added[i].1, added[j].0, added[j].1);
        }
    }
    lemma_in_order_concat(placed(new), added, 2 * start);
}

proof fn lemma_region_rows(
    blocks: Seq<(u32, Block)>,
    all: Multiset<(int, Block)>,
    start: int,
    end: int,
    n: int,
)
    requires
        is_region(blocks, all, start, end),
        0 <= n < blocks.len(),
    ensures
        start <= blocks[n].0 < end,
{
    let x = lifted(blocks)[n];
    assert(lifted(blocks).contains(x));
    assert(lifted(blocks).to_multiset().count(x) > 0);
}

/// Skips what edit `from` changed, and with it the edits that follow in the same run of text.
/// Returns the first edit that is left.
fn skip_edits(
    old_transforms: &Vec<Transform>,
    edits: &Vec<Edit>,
    from: usize,
    Ghost(new_rows): Ghost<int>,
) -> (skipped: (usize, Cursor))
    requires
        transforms_wf(old_transforms@),
        0 < input_rows(old_transforms@) <= u32::MAX,
        output_rows(old_transforms@) <= u32::MAX,
        from < edits@.len(),
        edits_valid(edits@, input_rows(old_transforms@), new_rows),
        forall|i: int|
            0 <= i < edits@.len() && (#[trigger] edits@[i]).old.end == 0 ==> forall|
                x: (int, Block),
            |
                #[trigger] tally(old_transforms@, x) > 0 ==> key(x) != 0,
    ensures
        from < skipped.0 <= edits@.len(),
        past_row(old_transforms@, skipped.1, edits@[skipped.0 - 1].old.end as int),
        skipped.0 < edits@.len() ==> edits@[skipped.0 as int].old.start > skipped.1.input,
{
    let ghost rows = input_rows(old_transforms@);
    proof {
        crate::patch::lemma_old_end_bounded(edits@, rows, new_rows, from + 1);
    }
    let len: usize = edits.len();
    let mut cursor: Cursor = skip_past(old_transforms, edits[from].old.end);
    let mut next: usize = from + 1;
    while next < len && edits[next].old.start <= cursor.input
        invariant
            transforms_wf(old_transforms@),
            0 < input_rows(old_transforms@) <= u32::MAX,
            output_rows(old_transforms@) <= u32::MAX,
            rows == input_rows(old_transforms@),
            edits_valid(edits@, rows, new_rows),
            len == edits@.len(),
            from < next <= edits@.len(),
            past_row(old_transforms@, cursor, edits@[next - 1].old.end as int),
            forall|i: int|
                0 <= i < edits@.len() && (#[trigger] edits@[i]).old.end == 0 ==> forall|
                    x: (int, Block),
                |
                    #[trigger] tally(old_transforms@, x) > 0 ==> key(x) != 0,
        decreases edits@.len() - next,
    {
        proof {
            crate::patch::lemma_old_end_bounded(edits@, rows, new_rows, next + 1);
        }
        cursor = skip_past(old_transforms, edits[next].old.end);
        next = next + 1;
    }
    (next, cursor)
}

/// Blocks between edits are as before.
proof fn lemma_gap_same(
    edits: Seq<Edit>,
    old: Multiset<(int, Block)>,
    new: Multiset<(int, Block)>,
    old_rows: int,
    new_rows: int,
    g: int,
    low: int,
    high: int,
)
    requires
        edits_valid(edits, old_rows, new_rows),
        edits_cover(edits, old, new, new_rows),
        0 <= g <= edits.len(),
        low >= 2 * (gap_start(edits, g) - drift(edits, g)),
        high <= 2 * (gap_end(edits, new_rows, g) - drift(edits, g)),
    ensures
        same_between(old, new, low, high, drift(edits, g)),
{
    let d = drift(edits, g);
    assert forall|x: (int, Block)| low <= #[trigger] key(x) < high implies old.count(x)
        == new.count((x.0 + d, x.1)) by {
        let row = x.0 + d;
        assert(gap_start(edits, g) <= row < gap_end(edits, new_rows, g));
        crate::patch::lemma_gap_source(edits, old_rows, new_rows, g, row);
        crate::patch::lemma_old_end_bounded(edits, old_rows, new_rows, g);
        if g < edits.len() {
            crate::patch::lemma_old_end_bounded(edits, old_rows, new_rows, g + 1);
            assert(crate::patch::edit_follows(edits, g));
        }
        assert(0 <= row < new_rows);
        assert(new.count((row, x.1)) == old.count((source_row(edits, row)->0, x.1)));
        assert((source_row(edits, row)->0, x.1) == x);
    }
}

/// Where the run of text that an edit ends in reaches further, no blocks stand between.
proof fn lemma_run_built(
    new: Seq<Transform>,
    all: Multiset<(int, Block)>,
    old: Multiset<(int, Block)>,
    low: int,
    high: int,
    rows: int,
)
    requires
        built_to(new, all, low + 2 * rows),
        low <= high,
        same_between(old, all, low, high, rows),
        forall|x: (int, Block)| low <= #[trigger] key(x) < high ==> old.count(x) == 0,
    ensures
        built_to(new, all, high + 2 * rows),
{
    assert forall|x: (int, Block)| #[trigger] tally(new, x) == (if key(x) < high + 2 * rows {
        all.count(x)
    } else {
        0
    }) by {
        let y = (x.0 - rows, x.1);
        assert(key(y) == key(x) - 2 * rows);
        assert((y.0 + rows, y.1) == x);
    }
}

/// Lays out a text anew from an earlier layout and the edits that led to the text.
pub fn sync_transforms(
    old_transforms: &Vec<Transform>,
    custom_blocks: &Vec<Arc<CustomBlock>>,
    headers: HeaderConfig,
    wrap: &WrapSnapshot,
    edits: &Vec<Edit>,
) -> (new: Vec<Transform>)
    requires
        transforms_wf(old_transforms@),
        0 < input_rows(old_transforms@) <= u32::MAX,
        output_rows(old_transforms@) <= u32::MAX,
        on_rows(placed(old_transforms@).to_multiset(), input_rows(old_transforms@)),
        wrap.wf(),
        headers_fit(wrap, headers),
        blocks_resolve(&*wrap.buffer, custom_blocks@),
        edits_valid(edits@, input_rows(old_transforms@), wrap.rows()),
        edits_aligned(edits@, placed(old_transforms@).to_multiset(), wrap),
        edits_cover(
            edits@,
            placed(old_transforms@).to_multiset(),
            all_entries(wrap, headers, custom_blocks@).to_multiset(),
            wrap.rows(),
        ),
    ensures
        is_layout(new@, wrap, headers, custom_blocks@),
        edits@.len() == 0 ==> new@ == old_transforms@,
{
    let ghost olds = old_transforms@;
    let ghost old = placed(olds).to_multiset();
    let ghost old_rows = input_rows(olds);
    let ghost new_rows = wrap.rows();
    let ghost all = all_entries(wrap, headers, custom_blocks@).to_multiset();
    let mut new: Vec<Transform> = Vec::new();
    let mut cursor: Cursor = Cursor::start();
    let mut last_block_ix: usize = 0;
    let mut ix: usize = 0;
    let ghost mut low: int = 0;
    proof {
        lemma_entries_on_rows(wrap, headers, custom_blocks@);
        lemma_nothing_built(olds, all, new_rows);
        assert(new@ =~= Seq::empty());
    }
    while ix < edits.len()
        invariant
            olds == old_transforms@,
            old == placed(olds).to_multiset(),
            old_rows == input_rows(olds),
            new_rows == wrap.rows(),
            all == all_entries(wrap, headers, custom_blocks@).to_multiset(),
            transforms_wf(olds),
            0 < old_rows <= u32::MAX,
            output_rows(olds) <= u32::MAX,
            on_rows(old, old_rows),
            on_rows(all, new_rows),
            wrap.wf(),
            headers_fit(wrap, headers),
            blocks_resolve(&*wrap.buffer, custom_blocks@),
            edits_valid(edits@, old_rows, new_rows),
            edits_aligned(edits@, old, wrap),
            edits_cover(edits@, old, all, new_rows),
            ix <= edits@.len(),
            cursor.at(olds),
            cut_at(olds, cursor.ix as int, low),
            built_to(new@, all, low + 2 * drift(edits@, ix as int)),
            input_rows(new@) == cursor.input + drift(edits@, ix as int),
            2 * (gap_start(edits@, ix as int) - drift(edits@, ix as int)) <= low,
            low <= 2 * cursor.input,
            ix == 0 ==> cursor.ix == 0 && low == 0 && cursor.input == 0 && new@.len() == 0,
            0 < ix < edits@.len() ==> cursor.input < edits@[ix as int].old.start,
            last_block_ix <= custom_blocks@.len(),
            forall|k: int|
                0 <= k < last_block_ix ==> custom_row(wrap, &*#[trigger] custom_blocks@[k])
                    < gap_start(edits@, ix as int),
        decreases edits@.len() - ix,
    {
        let ghost d = drift(edits@, ix as int);
        let old_start: u32 = edits[ix].old.start;
        let new_start: u32 = edits[ix].new.start;
        proof {
            assert(crate::patch::edit_follows(edits@, ix as int));
            crate::patch::lemma_old_end_bounded(edits@, old_rows, new_rows, ix + 1);
            lemma_gap_same(
                edits@,
                old,
                all,
                old_rows,
                new_rows,
                ix as int,
                low,
                2 * old_start,
            );
            assert(wrap.is_boundary(edits@[ix as int].new.start as int));
        }
        keep_before(
            &mut new,
            old_transforms,
            cursor,
            old_start,
            Ghost(all),
            Ghost(new_rows),
            Ghost(low),
            Ghost(d),
        );
        let ghost kept = new@;
        let (next, past): (usize, Cursor) = skip_edits(
            old_transforms,
            edits,
            ix,
            Ghost(new_rows),
        );
        let old_end: u32 = edits[next - 1].old.end;
        let new_end: u32 = edits[next - 1].new.end;
        proof {
            assert(wrap.is_boundary(edits@[next - 1].new.end as int));
            assert(crate::patch::edit_follows(edits@, next - 1));
            crate::patch::lemma_old_end_bounded(edits@, old_rows, new_rows, next as int);
            if ix < next - 1 {
                crate::patch::lemma_edits_ascend(
                    edits@,
                    old_rows,
                    new_rows,
                    ix as int,
                    next - 1,
                );
            }
        }
        let (blocks, end_ix): (Vec<(u32, Block)>, usize) = blocks_on_rows(
            custom_blocks,
            headers,
            wrap,
            new_start,
            new_end,
            last_block_ix,
        );
        last_block_ix = end_ix;
        let ghost found = blocks@;
        proof {
            assert forall|i: int| 0 <= i < found.len() implies new_start <= (
            #[trigger] found[i]).0 < new_end by {
                lemma_region_rows(found, all, new_start as int, new_end as int, i);
            }
        }
        let at: u32 = insert_blocks(&mut new, blocks, new_start, Ghost(new_end as int));
        let ghost inserted = new@;
        proof {
            lemma_region_built(kept, inserted, found, all, new_start as int, new_end as int);
            lemma_past_bounded(olds, past, edits@, old_rows, new_rows, next as int);
        }
        // The text after the last block.
        push_isomorphic(&mut new, new_end - at);
        // What is left of the run of text that the edit ends in.
        push_isomorphic(&mut new, past.input - old_end);
        proof {
            lemma_built_same(inserted, new@, all, 2 * new_end);
            let e = next as int;
            if past.input == old_end {
                low = 2 * old_end;
            } else {
                low = 2 * past.input - 1;
                lemma_gap_same(edits@, old, all, old_rows, new_rows, e, 2 * old_end, low);
                assert forall|x: (int, Block)| 2 * old_end <= #[trigger] key(x)
                    < low implies old.count(x) == 0 by {
                    assert(tally(olds, x) == 0);
                }
                lemma_run_built(new@, all, old, 2 * old_end, low, drift(edits@, e));
            }
        }
        cursor = past;
        ix = next;
    }
    let ghost kept = new@;
    append_range(&mut new, old_transforms, cursor.ix, old_transforms.len());
    proof {
        let g = edits@.len() as int;
        lemma_gap_same(edits@, old, all, old_rows, new_rows, g, low, 2 * old_rows);
        lemma_whole_cut(olds);
        crate::transforms::lemma_whole(olds);
        crate::transforms::lemma_monotone(olds, cursor.ix as int, olds.len() as int);
        lemma_take_over(
            kept,
            olds,
            all,
            new_rows,
            cursor.ix as int,
            olds.len() as int,
            low,
            2 * old_rows,
            drift(edits@, g),
        );
        lemma_all_built(new@, all, new_rows);
        if edits@.len() == 0 {
            assert(new@ =~= olds);
        }
    }
    new
}

/// The end of the run that an edit ends in comes before the next edit.
proof fn lemma_past_bounded(
    s: Seq<Transform>,
    past: Cursor,
    edits: Seq<Edit>,
    old_rows: int,
    new_rows: int,
    next: int,
)
    requires
        past.at(s),
        old_rows == input_rows(s),
        edits_valid(edits, old_rows, new_rows),
        0 < next <= edits.len(),
        next < edits.len() ==> edits[next].old.start > past.input,
    ensures
        2 * past.input - 1 <= 2 * (gap_end(edits, new_rows, next) - drift(edits, next)),
        past.input + drift(edits, next) <= new_rows,
{
    crate::transforms::lemma_monotone(s, past.ix as int, s.len() as int);
    crate::transforms::lemma_whole(s);
    if next < edits.len() {
        assert(crate::patch::edit_follows(edits, next));
        crate::patch::lemma_old_end_bounded(edits, old_rows, new_rows, next + 1);
    }
}

/// Blocks stand on rows of the text.
pub proof fn lemma_entries_on_rows(
    wrap: &WrapSnapshot,
    headers: HeaderConfig,
    blocks: Seq<Arc<CustomBlock>>,
)
    requires
        wrap.wf(),
        crate::layout::blocks_known(&*wrap.buffer, blocks),
    ensures
        on_rows(all_entries(wrap, headers, blocks).to_multiset(), wrap.rows()),
{
    let entries = all_entries(wrap, headers, blocks);
    crate::layout::lemma_entry_rows(wrap, headers, blocks);
    assert forall|x: (int, Block)| #[trigger] entries.to_multiset().count(x) > 0 implies 0 <= x.0
        < wrap.rows() by {
        assert(entries.contains(x));
    }
}

/// At the top nothing is cut off, and nothing is built.
proof fn lemma_nothing_built(s: Seq<Transform>, all: Multiset<(int, Block)>, new_rows: int)
    requires
        transforms_wf(s),
        on_rows(all, new_rows),
    ensures
        cut_at(s, 0, 0),
        built_to(Seq::empty(), all, 0),
{
    let none = Seq::<Transform>::empty();
    assert(s.take(0) =~= none);
    assert(placed(none) =~= Seq::empty());
    assert forall|x: (int, Block)| #[trigger] tally(none, x) == 0 by {
        lemma_tally_zero(placed(none), x);
    }
    assert forall|x: (int, Block)| key(x) < 0 implies #[trigger] all.count(x) == 0 by {}
    assert forall|x: (int, Block)| #[trigger] tally(s.take(0), x) == (if key(x) < 0 {
        tally(s, x)
    } else {
        0
    }) by {
        if key(x) < 0 && tally(s, x) > 0 {
            assert(placed(s).contains(x));
        }
    }
}

proof fn lemma_whole_cut(s: Seq<Transform>)
    requires
        on_rows(placed(s).to_multiset(), input_rows(s)),
    ensures
        cut_at(s, s.len() as int, 2 * input_rows(s)),
{
    assert(s.take(s.len() as int) =~= s);
}

proof fn lemma_all_built(s: Seq<Transform>, all: Multiset<(int, Block)>, rows: int)
    requires
        built_to(s, all, 2 * rows),
        on_rows(all, rows),
    ensures
        placed(s).to_multiset() == all,
{
    assert forall|x: (int, Block)| placed(s).to_multiset().count(x) == all.count(x) by {
        assert(tally(s, x) == placed(s).to_multiset().count(x));
    }
    assert(placed(s).to_multiset() =~= all);
}

} // verus!
