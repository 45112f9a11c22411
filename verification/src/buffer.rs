//! What the layout of blocks reads of a buffer: the lengths of its lines, where anchors stand,
//! and where excerpts meet.

use vstd::prelude::*;

use crate::point::Point;

verus! {

#[derive(Clone, Copy, Debug, PartialEq, Eq, PartialOrd, Ord, Hash, Structural)]
pub struct ExcerptId(pub usize);

#[derive(Clone, Copy, Debug, PartialEq, Eq, PartialOrd, Ord, Hash, Structural)]
pub struct BufferId(pub u64);

/// One excerpt, and the buffer it was taken from.
#[derive(Clone, Copy, Debug, PartialEq, Eq, Hash, Structural)]
pub struct ExcerptInfo {
    pub id: ExcerptId,
    pub buffer_id: BufferId,
}

/// The place where one excerpt ends and the next begins. The last excerpt ends in a boundary
/// without `next`.
#[derive(Clone, Copy, Debug, PartialEq, Eq, Hash)]
pub struct ExcerptBoundary {
    pub prev: Option<ExcerptInfo>,
    pub next: Option<ExcerptInfo>,
    pub row: u32,
}

impl ExcerptBoundary {
    /// The excerpt that begins here, by its id.
    pub open spec fn next_id(&self) -> Option<ExcerptId> {
        match self.next {
            Some(info) => Some(info.id),
            None => None,
        }
    }
}

/// A position that moves with the text around it. Each snapshot says where it stands.
#[derive(Clone, Copy, Debug, PartialEq, Eq, Hash, Structural)]
pub struct Anchor(pub usize);

/// A buffer at one moment.
///
/// An anchor has a rank among all anchors, and a rank has a point: anchors keep an order even
/// where their points coincide.
pub struct MultiBufferSnapshot {
    pub line_lens: Vec<u32>,
    pub anchor_ranks: Vec<usize>,
    pub ranked_points: Vec<Point>,
    pub boundaries: Vec<ExcerptBoundary>,
    pub show_headers: bool,
    pub trailing_excerpt_update_count: usize,
}

impl MultiBufferSnapshot {
    pub open spec fn boundary_ok(&self, ix: int) -> bool {
        let boundary = self.boundaries@[ix];
        &&& boundary.row < self.line_lens@.len()
        &&& boundary.next is None ==> boundary.row == self.line_lens@.len() - 1
        &&& forall|other: int|
            0 <= other < ix ==> (#[trigger] self.boundaries@[other]).next_id()
                != boundary.next_id()
    }

    /// There is a line; ranks are known and their points lie in the buffer in order; no excerpt
    /// begins twice, and only the last row ends the last excerpt.
    pub open spec fn wf(&self) -> bool {
        &&& 0 < self.line_lens@.len() <= u32::MAX
        &&& forall|a: int|
            0 <= a < self.anchor_ranks@.len() ==> (#[trigger] self.anchor_ranks@[a])
                < self.ranked_points@.len()
        &&& forall|rank: int|
            0 <= rank < self.ranked_points@.len() ==> (#[trigger] self.ranked_points@[rank]).row
                < self.line_lens@.len()
        &&& forall|i: int, j: int|
            0 <= i <= j < self.ranked_points@.len() ==> (#[trigger] self.ranked_points@[i]).le(
                #[trigger] self.ranked_points@[j],
            )
        &&& forall|ix: int| 0 <= ix < self.boundaries@.len() ==> #[trigger] self.boundary_ok(ix)
    }

    pub open spec fn knows(&self, anchor: Anchor) -> bool {
        anchor.0 < self.anchor_ranks@.len()
    }

    pub open spec fn rank(&self, anchor: Anchor) -> int {
        self.anchor_ranks@[anchor.0 as int] as int
    }

    pub open spec fn point(&self, anchor: Anchor) -> Point {
        self.ranked_points@[self.rank(anchor)]
    }

    /// Where a boundary stands: at the start of the excerpt that follows it, or at the end of the
    /// buffer.
    pub open spec fn boundary_point(&self, boundary: ExcerptBoundary) -> Point {
        Point {
            row: boundary.row,
            column: if boundary.next is Some {
                0
            } else {
                self.line_lens@[boundary.row as int]
            },
        }
    }

    /// A buffer, if its parts go together.
    pub fn new(
        line_lens: Vec<u32>,
        anchor_ranks: Vec<usize>,
        ranked_points: Vec<Point>,
        boundaries: Vec<ExcerptBoundary>,
        show_headers: bool,
        trailing_excerpt_update_count: usize,
    ) -> (buffer: Option<Self>)
        ensures
            ({
                let whole = MultiBufferSnapshot {
                    line_lens,
                    anchor_ranks,
                    ranked_points,
                    boundaries,
                    show_headers,
                    trailing_excerpt_update_count,
                };
                buffer == (if whole.wf() {
                    Some(whole)
                } else {
                    None
                })
            }),
    {
        let buffer: MultiBufferSnapshot = MultiBufferSnapshot {
            line_lens,
            anchor_ranks,
            ranked_points,
            boundaries,
            show_headers,
            trailing_excerpt_update_count,
        };
        if buffer.is_wf() {
            Some(buffer)
        } else {
            None
        }
    }

    /// Whether the parts of a buffer go together.
    pub fn is_wf(&self) -> (valid: bool)
        ensures
            valid == self.wf(),
    {
        let lines: usize = self.line_lens.len();
        lines > 0 && lines <= u32::MAX as usize && self.ranks_known() && self.points_ascend()
            && self.boundaries_ok()
    }

    fn ranks_known(&self) -> (known: bool)
        ensures
            known == (forall|a: int|
                0 <= a < self.anchor_ranks@.len() ==> (#[trigger] self.anchor_ranks@[a])
                    < self.ranked_points@.len()),
    {
        let mut a: usize = 0;
        while a < self.anchor_ranks.len()
            invariant
                a <= self.anchor_ranks@.len(),
                forall|k: int|
                    0 <= k < a ==> (#[trigger] self.anchor_ranks@[k]) < self.ranked_points@.len(),
            decreases self.anchor_ranks@.len() - a,
        {
            if self.anchor_ranks[a] >= self.ranked_points.len() {
                return false;
            }
            a = a + 1;
        }
        true
    }

    fn points_ascend(&self) -> (ascend: bool)
        ensures
            ascend == ((forall|rank: int|
                0 <= rank < self.ranked_points@.len() ==> (#[trigger] self.ranked_points@[rank]).row
                    < self.line_lens@.len()) && (forall|i: int, j: int|
                0 <= i <= j < self.ranked_points@.len() ==> (#[trigger] self.ranked_points@[i]).le(
                    #[trigger] self.ranked_points@[j],
                ))),
    {
        let mut rank: usize = 0;
        while rank < self.ranked_points.len()
            invariant
                rank <= self.ranked_points@.len(),
                forall|k: int|
                    0 <= k < rank ==> (#[trigger] self.ranked_points@[k]).row
                        < self.line_lens@.len(),
                forall|i: int, j: int|
                    0 <= i <= j < rank ==> (#[trigger] self.ranked_points@[i]).le(
                        #[trigger] self.ranked_points@[j],
                    ),
            decreases self.ranked_points@.len() - rank,
        {
            let point: Point = self.ranked_points[rank];
            if point.row as usize >= self.line_lens.len() {
                return false;
            }
            if rank > 0 && point.is_before(self.ranked_points[rank - 1]) {
                proof {
                    assert(!self.ranked_points@[rank - 1].le(self.ranked_points@[rank as int]));
                }
                return false;
            }
            proof {
                assert forall|i: int, j: int| 0 <= i <= j < rank + 1 implies (
                #[trigger] self.ranked_points@[i]).le(#[trigger] self.ranked_points@[j]) by {
                    if j == rank && i < j {
                        assert(self.ranked_points@[i].le(self.ranked_points@[rank - 1]));
                    }
                }
            }
            rank = rank + 1;
        }
        true
    }

    fn boundaries_ok(&self) -> (valid: bool)
        requires
            0 < self.line_lens@.len() <= u32::MAX,
        ensures
            valid == (forall|ix: int|
                0 <= ix < self.boundaries@.len() ==> #[trigger] self.boundary_ok(ix)),
    {
        let mut ix: usize = 0;
        while ix < self.boundaries.len()
            invariant
                0 < self.line_lens@.len() <= u32::MAX,
                ix <= self.boundaries@.len(),
                forall|k: int| 0 <= k < ix ==> #[trigger] self.boundary_ok(k),
            decreases self.boundaries@.len() - ix,
        {
            let boundary: ExcerptBoundary = self.boundaries[ix];
            if boundary.row as usize >= self.line_lens.len() || (boundary.next.is_none()
                && boundary.row as usize != self.line_lens.len() - 1) {
                proof {
                    assert(!self.boundary_ok(ix as int));
                }
                return false;
            }
            let mut other: usize = 0;
            while other < ix
                invariant
                    other <= ix < self.boundaries@.len(),
                    boundary == self.boundaries@[ix as int],
                    forall|k: int|
                        0 <= k < other ==> (#[trigger] self.boundaries@[k]).next_id()
                            != boundary.next_id(),
                decreases ix - other,
            {
                let same: bool = match (self.boundaries[other].next, boundary.next) {
                    (Some(a), Some(b)) => a.id == b.id,
                    (None, None) => true,
                    _ => false,
                };
                if same {
                    proof {
                        assert(self.boundaries@[other as int].next_id() == boundary.next_id());
                        assert(!self.boundary_ok(ix as int));
                    }
                    return false;
                }
                proof {
                    assert(self.boundaries@[other as int].next_id() != boundary.next_id());
                }
                other = other + 1;
            }
            proof {
                assert(self.boundary_ok(ix as int));
            }
            ix = ix + 1;
        }
        true
    }

    pub fn to_point(&self, anchor: Anchor) -> (point: Point)
        requires
            self.wf(),
            self.knows(anchor),
        ensures
            point == self.point(anchor),
            point.row < self.line_lens@.len(),
    {
        let rank: usize = self.anchor_ranks[anchor.0];
        self.ranked_points[rank]
    }

    /// Whether `a` stands strictly before `b`.
    pub fn anchor_before(&self, a: Anchor, b: Anchor) -> (before: bool)
        requires
            self.knows(a),
            self.knows(b),
        ensures
            before == (self.rank(a) < self.rank(b)),
    {
        self.anchor_ranks[a.0] < self.anchor_ranks[b.0]
    }

    pub fn line_len(&self, row: u32) -> (len: u32)
        requires
            row < self.line_lens@.len(),
        ensures
            len == self.line_lens@[row as int],
    {
        self.line_lens[row as usize]
    }

    pub open spec fn max_point_spec(&self) -> Point {
        Point {
            row: (self.line_lens@.len() - 1) as u32,
            column: self.line_lens@[self.line_lens@.len() - 1],
        }
    }

    pub fn max_point(&self) -> (point: Point)
        requires
            self.wf(),
        ensures
            point == self.max_point_spec(),
    {
        let row: usize = self.line_lens.len() - 1;
        Point { row: row as u32, column: self.line_lens[row] }
    }

    pub fn show_headers(&self) -> (shown: bool)
        ensures
            shown == self.show_headers,
    {
        self.show_headers
    }

    pub fn trailing_excerpt_update_count(&self) -> (count: usize)
        ensures
            count == self.trailing_excerpt_update_count,
    {
        self.trailing_excerpt_update_count
    }

    /// The point at which an excerpt begins.
    pub fn excerpt_start(&self, id: ExcerptId) -> (start: Option<Point>)
        ensures
            match start {
                Some(point) => exists|ix: int|
                    0 <= ix < self.boundaries@.len() && (#[trigger] self.boundaries@[ix]).next_id()
                        == Some(id) && point.row == self.boundaries@[ix].row && point.column == 0,
                None => forall|ix: int|
                    0 <= ix < self.boundaries@.len() ==> (#[trigger] self.boundaries@[ix]).next_id()
                        != Some(id),
            },
    {
        let mut ix: usize = 0;
        while ix < self.boundaries.len()
            invariant
                ix <= self.boundaries@.len(),
                forall|k: int|
                    0 <= k < ix ==> (#[trigger] self.boundaries@[k]).next_id() != Some(id),
            decreases self.boundaries@.len() - ix,
        {
            if let Some(info) = self.boundaries[ix].next {
                if info.id == id {
                    proof {
                        assert(self.boundaries@[ix as int].next_id() == Some(id));
                    }
                    return Some(Point { row: self.boundaries[ix].row, column: 0 });
                }
            }
            ix = ix + 1;
        }
        None
    }
}

} // verus!
