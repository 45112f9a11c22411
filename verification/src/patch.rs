//! Which rows changed between two versions of a text.

use std::ops::Range;
use vstd::prelude::*;

verus! {

/// Rows `old` of the earlier version became rows `new` of the later one.
pub struct Edit {
    pub old: Range<u32>,
    pub new: Range<u32>,
}

impl Clone for Edit {
    fn clone(&self) -> (copy: Self)
        ensures
            copy == *self,
    {
        Edit { old: self.old.start..self.old.end, new: self.new.start..self.new.end }
    }
}

/// How far rows moved down by the end of the first `g` edits.
pub open spec fn drift(edits: Seq<Edit>, g: int) -> int {
    if g == 0 {
        0
    } else {
        edits[g - 1].new.end - edits[g - 1].old.end
    }
}

/// The first row of the later version after the first `g` edits.
pub open spec fn gap_start(edits: Seq<Edit>, g: int) -> int {
    if g == 0 {
        0
    } else {
        edits[g - 1].new.end as int
    }
}

/// The end of the rows that the first `g` edits are followed by and that no edit changes.
pub open spec fn gap_end(edits: Seq<Edit>, new_rows: int, g: int) -> int {
    if g == edits.len() {
        new_rows
    } else {
        edits[g].new.start as int
    }
}

/// The edit ranges do not run backwards, and the rows between it and the edit before are as many
/// in both versions, and at least one.
pub open spec fn edit_follows(edits: Seq<Edit>, i: int) -> bool {
    &&& edits[i].old.start <= edits[i].old.end
    &&& edits[i].new.start <= edits[i].new.end
    &&& edits[i].new.start - edits[i].old.start == drift(edits, i)
    &&& i > 0 ==> edits[i - 1].new.end < edits[i].new.start
}

/// The edits lead from a version with `old_rows` rows to one with `new_rows` rows.
pub open spec fn edits_valid(edits: Seq<Edit>, old_rows: int, new_rows: int) -> bool {
    &&& forall|i: int| 0 <= i < edits.len() ==> #[trigger] edit_follows(edits, i)
    &&& new_rows - old_rows == drift(edits, edits.len() as int)
    &&& gap_start(edits, edits.len() as int) <= new_rows
}

/// Some edit produced row `row` of the later version.
pub open spec fn changed(edits: Seq<Edit>, row: int) -> bool {
    exists|i: int|
        0 <= i < edits.len() && (#[trigger] edits[i]).new.start <= row < edits[i].new.end
}

/// How far rows at `row` of the later version moved down.
pub open spec fn drift_at(edits: Seq<Edit>, row: int) -> int
    decreases edits.len(),
{
    if edits.len() == 0 {
        0
    } else if edits.last().new.end <= row {
        edits.last().new.end - edits.last().old.end
    } else {
        drift_at(edits.drop_last(), row)
    }
}

/// The row of the earlier version that row `row` of the later one is, if no edit changed it.
pub open spec fn source_row(edits: Seq<Edit>, row: int) -> Option<int> {
    if changed(edits, row) {
        None
    } else {
        Some(row - drift_at(edits, row))
    }
}

pub proof fn lemma_edits_ascend(edits: Seq<Edit>, old_rows: int, new_rows: int, i: int, j: int)
    requires
        edits_valid(edits, old_rows, new_rows),
        0 <= i < j < edits.len(),
    ensures
        edits[i].new.end < edits[j].new.start,
        edits[i].old.end < edits[j].old.start,
    decreases j - i,
{
    assert(edit_follows(edits, j));
    assert(edit_follows(edits, j - 1));
    if i + 1 < j {
        lemma_edits_ascend(edits, old_rows, new_rows, i, j - 1);
    }
}

/// Rows between edits come from the rows between them before.
pub proof fn lemma_gap_source(edits: Seq<Edit>, old_rows: int, new_rows: int, g: int, row: int)
    requires
        edits_valid(edits, old_rows, new_rows),
        0 <= g <= edits.len(),
        gap_start(edits, g) <= row < gap_end(edits, new_rows, g),
    ensures
        source_row(edits, row) == Some(row - drift(edits, g)),
{
    assert forall|i: int| 0 <= i < edits.len() implies !((#[trigger] edits[i]).new.start <= row
        < edits[i].new.end) by {
        assert(edit_follows(edits, i));
        if i < g - 1 {
            lemma_edits_ascend(edits, old_rows, new_rows, i, g - 1);
            assert(edit_follows(edits, g - 1));
        } else if g < i {
            lemma_edits_ascend(edits, old_rows, new_rows, g, i);
            assert(edit_follows(edits, g));
        }
    }
    lemma_drift_at(edits, old_rows, new_rows, g, row, edits.len() as int);
    assert(edits.take(edits.len() as int) =~= edits);
}

proof fn lemma_drift_at(
    edits: Seq<Edit>,
    old_rows: int,
    new_rows: int,
    g: int,
    row: int,
    len: int,
)
    requires
        edits_valid(edits, old_rows, new_rows),
        0 <= g <= len <= edits.len(),
        gap_start(edits, g) <= row < gap_end(edits, new_rows, g),
    ensures
        drift_at(edits.take(len), row) == drift(edits, g),
    decreases len,
{
    if g < len {
        assert(edits.take(len).drop_last() =~= edits.take(len - 1));
        assert(edit_follows(edits, len - 1));
        if g < len - 1 {
            lemma_edits_ascend(edits, old_rows, new_rows, g, len - 1);
            assert(edit_follows(edits, g));
        }
        lemma_drift_at(edits, old_rows, new_rows, g, row, len - 1);
    }
}

/// Each row of the later version is in an edit or between two. The edit's place among the edits
/// is given in the one case, the number of edits before the row in the other.
pub proof fn lemma_locate(edits: Seq<Edit>, old_rows: int, new_rows: int, row: int) -> (place: (
    bool,
    int,
))
    requires
        edits_valid(edits, old_rows, new_rows),
        0 <= row < new_rows,
    ensures
        place.0 ==> 0 <= place.1 < edits.len() && edits[place.1].new.start <= row
            < edits[place.1].new.end,
        !place.0 ==> 0 <= place.1 <= edits.len() && gap_start(edits, place.1) <= row < gap_end(
            edits,
            new_rows,
            place.1,
        ),
{
    lemma_locate_before(edits, old_rows, new_rows, row, edits.len() as int)
}

proof fn lemma_locate_before(
    edits: Seq<Edit>,
    old_rows: int,
    new_rows: int,
    row: int,
    g: int,
) -> (place: (bool, int))
    requires
        edits_valid(edits, old_rows, new_rows),
        0 <= g <= edits.len(),
        0 <= row < gap_end(edits, new_rows, g),
    ensures
        place.0 ==> 0 <= place.1 < edits.len() && edits[place.1].new.start <= row
            < edits[place.1].new.end,
        !place.0 ==> 0 <= place.1 <= edits.len() && gap_start(edits, place.1) <= row < gap_end(
            edits,
            new_rows,
            place.1,
        ),
    decreases g,
{
    if gap_start(edits, g) <= row {
        (false, g)
    } else if edits[g - 1].new.start <= row {
        (true, g - 1)
    } else {
        lemma_locate_before(edits, old_rows, new_rows, row, g - 1)
    }
}

/// `result` is `edits` with rows `start..end` of the later version changed as well.
pub open spec fn touches(
    edits: Seq<Edit>,
    result: Seq<Edit>,
    new_rows: int,
    start: int,
    end: int,
) -> bool {
    forall|row: int|
        0 <= row < new_rows ==> #[trigger] source_row(result, row) == (if start <= row < end {
            None
        } else {
            source_row(edits, row)
        })
}

/// Edits begin and end where those of `edits` do, or at the ends of `start..end`; none is empty at
/// the top that was not before.
pub open spec fn ends_kept(edits: Seq<Edit>, result: Seq<Edit>, start: int, end: int) -> bool {
    &&& forall|i: int|
        0 <= i < result.len() ==> (#[trigger] result[i]).new.start == start || exists|j: int|
            0 <= j < edits.len() && (#[trigger] edits[j]).new.start == result[i].new.start
    &&& forall|i: int|
        0 <= i < result.len() ==> (#[trigger] result[i]).new.end == end || exists|j: int|
            0 <= j < edits.len() && (#[trigger] edits[j]).new.end == result[i].new.end
    &&& forall|i: int|
        0 <= i < result.len() && (#[trigger] result[i]).old.end == 0 ==> exists|j: int|
            0 <= j < edits.len() && (#[trigger] edits[j]).old.end == 0
}

/// The edit, ended where the rows of either version end.
pub open spec fn clamped_edit(edit: Edit, old_rows: u32, new_rows: u32) -> Edit {
    Edit {
        old: Range {
            start: edit.old.start,
            end: if edit.old.end < old_rows {
                edit.old.end
            } else {
                old_rows
            },
        },
        new: Range {
            start: edit.new.start,
            end: if edit.new.end < new_rows {
                edit.new.end
            } else {
                new_rows
            },
        },
    }
}

pub open spec fn clamped(edits: Seq<Edit>, old_rows: u32, new_rows: u32) -> Seq<Edit> {
    edits.map_values(|edit: Edit| clamped_edit(edit, old_rows, new_rows))
}

/// Edits that lead from one version to the other end within their rows.
pub proof fn lemma_valid_clamped(edits: Seq<Edit>, old_rows: u32, new_rows: u32)
    requires
        edits_valid(edits, old_rows as int, new_rows as int),
    ensures
        clamped(edits, old_rows, new_rows) == edits,
{
    assert forall|i: int| 0 <= i < edits.len() implies #[trigger] clamped(
        edits,
        old_rows,
        new_rows,
    )[i] == edits[i] by {
        lemma_old_end_bounded(edits, old_rows as int, new_rows as int, i + 1);
    }
    assert(clamped(edits, old_rows, new_rows) =~= edits);
}

/// A list of edits in order.
pub struct Patch(pub Vec<Edit>);

impl Default for Patch {
    fn default() -> (patch: Self)
        ensures
            patch.0@ == Seq::<Edit>::empty(),
    {
        Patch(Vec::new())
    }
}

impl Patch {
    pub fn new(edits: Vec<Edit>) -> (patch: Self)
        ensures
            patch.0@ == edits@,
    {
        Patch(edits)
    }

    /// The edits, each ended where the rows of either version end.
    pub fn clamp(&self, old_rows: u32, new_rows: u32) -> (patch: Self)
        ensures
            patch.0@ == clamped(self.0@, old_rows, new_rows),
    {
        let mut edits: Vec<Edit> = Vec::new();
        let mut ix: usize = 0;
        while ix < self.0.len()
            invariant
                ix <= self.0@.len(),
                edits@ == clamped(self.0@, old_rows, new_rows).take(ix as int),
            decreases self.0@.len() - ix,
        {
            let edit: &Edit = &self.0[ix];
            let old_end: u32 = if edit.old.end < old_rows {
                edit.old.end
            } else {
                old_rows
            };
            let new_end: u32 = if edit.new.end < new_rows {
                edit.new.end
            } else {
                new_rows
            };
            edits.push(Edit { old: edit.old.start..old_end, new: edit.new.start..new_end });
            ix = ix + 1;
            proof {
                assert(edits@ =~= clamped(self.0@, old_rows, new_rows).take(ix as int));
            }
        }
        proof {
            assert(edits@ =~= clamped(self.0@, old_rows, new_rows));
        }
        Patch(edits)
    }

    /// The edits followed by one that changes rows `start..end` without moving others.
    pub(crate) fn compose(
        &self,
        start: u32,
        end: u32,
        Ghost(old_rows): Ghost<int>,
        Ghost(new_rows): Ghost<int>,
    ) -> (patch: Self)
        requires
            edits_valid(self.0@, old_rows, new_rows),
            start < end <= new_rows,
            old_rows <= u32::MAX,
        ensures
            edits_valid(patch.0@, old_rows, new_rows),
            touches(self.0@, patch.0@, new_rows, start as int, end as int),
            ends_kept(self.0@, patch.0@, start as int, end as int),
    {
        let edits: &Vec<Edit> = &self.0;
        let ghost all = edits@;
        let mut result: Vec<Edit> = Vec::new();
        // Edits that end before the rows stay as they are.
        let mut ix: usize = 0;
        while ix < edits.len() && edits[ix].new.end < start
            invariant
                edits@ == all,
                ix <= all.len(),
                result@ == all.take(ix as int),
                forall|k: int| 0 <= k < ix ==> (#[trigger] all[k]).new.end < start,
            decreases all.len() - ix,
        {
            result.push(edits[ix].clone());
            ix = ix + 1;
            proof {
                assert(result@ =~= all.take(ix as int));
            }
        }
        let ghost first = ix as int;
        // The rows as they were, if no edit reaches them.
        let (old_end_before, new_end_before): (u32, u32) = if ix > 0 {
            (edits[ix - 1].old.end, edits[ix - 1].new.end)
        } else {
            (0, 0)
        };
        proof {
            if ix > 0 {
                assert(edit_follows(all, ix - 1));
            }
            lemma_old_end_bounded(all, old_rows, new_rows, first);
            if first < all.len() {
                assert(edit_follows(all, first));
                lemma_old_end_bounded(all, old_rows, new_rows, first + 1);
            }
        }
        let mut merged_old_start: u32 = 0;
        let mut merged_new_start: u32 = start;
        if ix < edits.len() && edits[ix].new.start <= start {
            merged_old_start = edits[ix].old.start;
            merged_new_start = edits[ix].new.start;
        } else {
            merged_old_start = old_end_before + (start - new_end_before);
        }
        // Edits that meet the rows become one with them.
        let mut last_old_end: u32 = old_end_before;
        let mut last_new_end: u32 = new_end_before;
        while ix < edits.len() && edits[ix].new.start <= end
            invariant
                edits@ == all,
                edits_valid(all, old_rows, new_rows),
                first <= ix <= all.len(),
                last_new_end == gap_start(all, ix as int),
                last_new_end - last_old_end == drift(all, ix as int),
                forall|k: int| first <= k < ix ==> (#[trigger] all[k]).new.start <= end,
            decreases all.len() - ix,
        {
            last_old_end = edits[ix].old.end;
            last_new_end = edits[ix].new.end;
            ix = ix + 1;
        }
        let ghost after = ix as int;
        proof {
            lemma_old_end_bounded(all, old_rows, new_rows, after);
            if after < all.len() {
                assert(edit_follows(all, after));
                lemma_old_end_bounded(all, old_rows, new_rows, after + 1);
            }
        }
        let (merged_old_end, merged_new_end): (u32, u32) = if last_new_end >= end {
            (last_old_end, last_new_end)
        } else {
            (last_old_end + (end - last_new_end), end)
        };
        result.push(
            Edit { old: merged_old_start..merged_old_end, new: merged_new_start..merged_new_end },
        );
        let ghost merged = result@.last();
        proof {
            assert(result@ =~= all.take(first).push(merged));
            assert(result@ =~= all.take(first).push(merged) + all.subrange(after, ix as int));
        }
        while ix < edits.len()
            invariant
                edits@ == all,
                0 <= after <= ix <= all.len(),
                result@ == all.take(first).push(merged) + all.subrange(after, ix as int),
            decreases all.len() - ix,
        {
            result.push(edits[ix].clone());
            ix = ix + 1;
            proof {
                assert(result@ =~= all.take(first).push(merged) + all.subrange(after, ix as int));
            }
        }
        proof {
            let (s, e) = (start as int, end as int);
            let composed = result@;
            assert(merged_in(all, composed, merged, s, e, first, after));
            lemma_merged_valid(all, composed, merged, old_rows, new_rows, s, e, first, after);
            lemma_merged_ends(all, composed, merged, old_rows, new_rows, s, e, first, after);
            assert forall|row: int| 0 <= row < new_rows implies #[trigger] source_row(composed, row)
                == (if start <= row < end {
                None
            } else {
                source_row(all, row)
            }) by {
                lemma_merged_source(
                    all,
                    composed,
                    merged,
                    old_rows,
                    new_rows,
                    s,
                    e,
                    first,
                    after,
                    row,
                );
            }
        }
        Patch(result)
    }
}

/// Edits end within the rows of either version.
pub proof fn lemma_old_end_bounded(edits: Seq<Edit>, old_rows: int, new_rows: int, g: int)
    requires
        edits_valid(edits, old_rows, new_rows),
        0 <= g <= edits.len(),
    ensures
        gap_start(edits, g) - drift(edits, g) >= 0,
        gap_start(edits, g) <= new_rows,
        gap_start(edits, g) - drift(edits, g) <= old_rows,
{
    let n = edits.len() as int;
    if 0 < g < n {
        lemma_edits_ascend(edits, old_rows, new_rows, g - 1, n - 1);
        assert(edit_follows(edits, n - 1));
    }
}

/// One edit stands in for those from `first` to `after`, which meet rows `start..end`, and reaches
/// over both.
spec fn merged_in(
    edits: Seq<Edit>,
    result: Seq<Edit>,
    merged: Edit,
    start: int,
    end: int,
    first: int,
    after: int,
) -> bool {
    &&& 0 <= first <= after <= edits.len()
    &&& forall|k: int| 0 <= k < first ==> (#[trigger] edits[k]).new.end < start
    &&& first < edits.len() ==> edits[first].new.end >= start
    &&& forall|k: int| first <= k < after ==> (#[trigger] edits[k]).new.start <= end
    &&& after < edits.len() ==> edits[after].new.start > end
    &&& result.len() == edits.len() + first + 1 - after
    &&& result[first] == merged
    &&& forall|i: int| 0 <= i < first ==> #[trigger] result[i] == edits[i]
    &&& forall|i: int|
        first < i < result.len() ==> #[trigger] result[i] == edits[i - (first + 1 - after)]
    &&& if first < edits.len() && edits[first].new.start <= start {
        merged.new.start == edits[first].new.start && merged.old.start == edits[first].old.start
    } else {
        merged.new.start == start && merged.old.start == start - drift(edits, first)
    }
    &&& merged.new.end == (if gap_start(edits, after) >= end {
        gap_start(edits, after)
    } else {
        end
    })
    &&& merged.new.end - merged.old.end == drift(edits, after)
}

proof fn lemma_merged_follows(
    edits: Seq<Edit>,
    result: Seq<Edit>,
    merged: Edit,
    old_rows: int,
    new_rows: int,
    start: int,
    end: int,
    first: int,
    after: int,
    i: int,
)
    requires
        edits_valid(edits, old_rows, new_rows),
        0 <= start < end <= new_rows,
        merged_in(edits, result, merged, start, end, first, after),
        0 <= i < result.len(),
    ensures
        edit_follows(result, i),
{
    let n = edits.len() as int;
    if i < first {
        assert(edit_follows(edits, i));
    } else if i == first {
        if first < n {
            assert(edit_follows(edits, first));
        }
        if first > 0 {
            assert(edit_follows(edits, first - 1));
            assert(result[first - 1] == edits[first - 1]);
        }
        if first < after - 1 {
            lemma_edits_ascend(edits, old_rows, new_rows, first, after - 1);
            assert(edit_follows(edits, after - 1));
        }
    } else {
        let j = i - (first + 1 - after);
        assert(edit_follows(edits, j));
        assert(result[i] == edits[j]);
        if i > first + 1 {
            assert(result[i - 1] == edits[j - 1]);
        }
    }
}

proof fn lemma_merged_valid(
    edits: Seq<Edit>,
    result: Seq<Edit>,
    merged: Edit,
    old_rows: int,
    new_rows: int,
    start: int,
    end: int,
    first: int,
    after: int,
)
    requires
        edits_valid(edits, old_rows, new_rows),
        0 <= start < end <= new_rows,
        merged_in(edits, result, merged, start, end, first, after),
    ensures
        edits_valid(result, old_rows, new_rows),
{
    assert forall|i: int| 0 <= i < result.len() implies #[trigger] edit_follows(result, i) by {
        lemma_merged_follows(
            edits,
            result,
            merged,
            old_rows,
            new_rows,
            start,
            end,
            first,
            after,
            i,
        );
    }
    lemma_old_end_bounded(edits, old_rows, new_rows, after);
    if after < edits.len() {
        assert(result[result.len() - 1] == edits[edits.len() - 1]);
    }
}

proof fn lemma_merged_source(
    edits: Seq<Edit>,
    result: Seq<Edit>,
    merged: Edit,
    old_rows: int,
    new_rows: int,
    start: int,
    end: int,
    first: int,
    after: int,
    row: int,
)
    requires
        edits_valid(edits, old_rows, new_rows),
        edits_valid(result, old_rows, new_rows),
        0 <= start < end <= new_rows,
        merged_in(edits, result, merged, start, end, first, after),
        0 <= row < new_rows,
    ensures
        source_row(result, row) == (if start <= row < end {
            None
        } else {
            source_row(edits, row)
        }),
{
    let shift = first + 1 - after;
    let (inside, g) = lemma_locate(edits, old_rows, new_rows, row);
    if inside {
        assert(changed(edits, row));
        if g < first {
            assert(result[g].new.start <= row < result[g].new.end);
        } else if g < after {
            if first < g {
                lemma_edits_ascend(edits, old_rows, new_rows, first, g);
            }
            if g < after - 1 {
                lemma_edits_ascend(edits, old_rows, new_rows, g, after - 1);
                assert(edit_follows(edits, after - 1));
            }
            assert(edit_follows(edits, first));
            assert(result[first].new.start <= row < result[first].new.end);
        } else {
            assert(result[g + shift].new.start <= row < result[g + shift].new.end);
            if after < g {
                lemma_edits_ascend(edits, old_rows, new_rows, after, g);
                assert(edit_follows(edits, after));
            }
        }
        assert(changed(result, row));
    } else if start <= row < end {
        assert(result[first].new.start <= row < result[first].new.end);
        assert(changed(result, row));
    } else {
        lemma_gap_source(edits, old_rows, new_rows, g, row);
        if row < start {
            assert(g <= first) by {
                if first < g - 1 {
                    lemma_edits_ascend(edits, old_rows, new_rows, first, g - 1);
                    assert(edit_follows(edits, g - 1));
                }
            }
            assert(gap_start(result, g) == gap_start(edits, g));
            assert(drift(result, g) == drift(edits, g));
            lemma_gap_source(result, old_rows, new_rows, g, row);
        } else {
            assert(g >= after) by {
                if g < first {
                    assert(edit_follows(edits, g));
                    assert(edits[g].new.end < start);
                } else if g < after {
                    assert(edits[g].new.start <= end);
                }
            }
            assert(gap_start(result, g + shift) <= row);
            assert(drift(result, g + shift) == drift(edits, g));
            lemma_gap_source(result, old_rows, new_rows, g + shift, row);
        }
    }
}

proof fn lemma_merged_ends(
    edits: Seq<Edit>,
    result: Seq<Edit>,
    merged: Edit,
    old_rows: int,
    new_rows: int,
    start: int,
    end: int,
    first: int,
    after: int,
)
    requires
        edits_valid(edits, old_rows, new_rows),
        0 <= start < end <= new_rows,
        merged_in(edits, result, merged, start, end, first, after),
    ensures
        ends_kept(edits, result, start, end),
{
    let shift = first + 1 - after;
    assert forall|i: int| 0 <= i < result.len() implies (#[trigger] result[i]).new.start == start
        || exists|j: int|
        0 <= j < edits.len() && (#[trigger] edits[j]).new.start == result[i].new.start by {
        if i < first {
            assert(edits[i].new.start == result[i].new.start);
        } else if i > first {
            assert(edits[i - shift].new.start == result[i].new.start);
        }
    }
    assert forall|i: int| 0 <= i < result.len() implies (#[trigger] result[i]).new.end == end
        || exists|j: int|
        0 <= j < edits.len() && (#[trigger] edits[j]).new.end == result[i].new.end by {
        if i < first {
            assert(edits[i].new.end == result[i].new.end);
        } else if i > first {
            assert(edits[i - shift].new.end == result[i].new.end);
        }
    }
    assert forall|i: int|
        0 <= i < result.len() && (#[trigger] result[i]).old.end == 0 implies exists|j: int|
        0 <= j < edits.len() && (#[trigger] edits[j]).old.end == 0 by {
        if i < first {
            assert(edits[i].old.end == 0);
        } else if i > first {
            assert(edits[i - shift].old.end == 0);
        } else {
            lemma_old_end_bounded(edits, old_rows, new_rows, after);
            assert(edits[after - 1].old.end == 0);
        }
    }
}

} // verus!
