//! Axis-aligned rectangles with unsigned fixed-point coordinates.
//!
//! The presentation layer works in a normalized floating-point space; the
//! verified core models that space with integer coordinates (the root square
//! spans `UNIT` on each side), so that splitting a rectangle is exact: the
//! two halves of a split tile the original with no gap and no overlap.

use vstd::prelude::*;

verus! {

/// Side length of the root square handed to the layout engine.
pub const UNIT: u64 = 1048576;

/// Divisor giving the margin fraction: the inner working area of a node is
/// inset from its outer rectangle by one twentieth of the shorter side.
pub const MARGIN_DIV: u64 = 20;

/// An axis-aligned rectangle: `[x, x + w) x [y, y + h)`.
#[derive(Clone, Copy, PartialEq, Eq, Structural, Debug)]
pub struct Rect {
    pub x: u64,
    pub y: u64,
    pub w: u64,
    pub h: u64,
}

impl Rect {
    /// The far corner stays within the coordinate range.
    pub open spec fn wf(self) -> bool {
        &&& self.x + self.w <= u64::MAX
        &&& self.y + self.h <= u64::MAX
    }

    pub open spec fn spec_contains(self, px: u64, py: u64) -> bool {
        &&& self.x <= px < self.x + self.w
        &&& self.y <= py < self.y + self.h
    }

    /// Point-in-rectangle test; the left and top edges are inside, the
    /// right and bottom edges are not.
    pub fn contains(&self, px: u64, py: u64) -> (r: bool)
        ensures
            r == self.spec_contains(px, py),
    {
        px >= self.x && py >= self.y && px - self.x < self.w && py - self.y < self.h
    }

    pub open spec fn min_side(self) -> u64 {
        if self.w <= self.h {
            self.w
        } else {
            self.h
        }
    }

    pub open spec fn margin(self) -> int {
        self.min_side() as int / MARGIN_DIV as int
    }

    /// The inner working area: this rectangle inset by the fixed margin.
    pub open spec fn spec_shrunk(self) -> Rect {
        Rect {
            x: (self.x + self.margin()) as u64,
            y: (self.y + self.margin()) as u64,
            w: (self.w - 2 * self.margin()) as u64,
            h: (self.h - 2 * self.margin()) as u64,
        }
    }

    /// Computes the inner working area by insetting each side by one
    /// twentieth of the shorter side.
    pub fn shrunk(&self) -> (r: Rect)
        requires
            self.wf(),
        ensures
            r == self.spec_shrunk(),
            r.wf(),
    {
        let side: u64 = if self.w <= self.h {
            self.w
        } else {
            self.h
        };
        let m: u64 = side / MARGIN_DIV;
        assert(MARGIN_DIV * m <= side) by {
            assert(m == side as int / MARGIN_DIV as int);
        }
        Rect { x: self.x + m, y: self.y + m, w: self.w - 2 * m, h: self.h - 2 * m }
    }

    /// Split along the width: the left part keeps `left_w` of the width.
    pub open spec fn spec_hsplit(self, left_w: u64) -> (Rect, Rect) {
        (
            Rect { x: self.x, y: self.y, w: left_w, h: self.h },
            Rect { x: (self.x + left_w) as u64, y: self.y, w: (self.w - left_w) as u64, h: self.h },
        )
    }

    /// Split along the height: the top part keeps `top_h` of the height.
    pub open spec fn spec_vsplit(self, top_h: u64) -> (Rect, Rect) {
        (
            Rect { x: self.x, y: self.y, w: self.w, h: top_h },
            Rect { x: self.x, y: (self.y + top_h) as u64, w: self.w, h: (self.h - top_h) as u64 },
        )
    }

    pub fn hsplit(&self, left_w: u64) -> (r: (Rect, Rect))
        requires
            self.wf(),
            left_w <= self.w,
        ensures
            r == self.spec_hsplit(left_w),
            r.0.wf(),
            r.1.wf(),
    {
        (
            Rect { x: self.x, y: self.y, w: left_w, h: self.h },
            Rect { x: self.x + left_w, y: self.y, w: self.w - left_w, h: self.h },
        )
    }

    pub fn vsplit(&self, top_h: u64) -> (r: (Rect, Rect))
        requires
            self.wf(),
            top_h <= self.h,
        ensures
            r == self.spec_vsplit(top_h),
            r.0.wf(),
            r.1.wf(),
    {
        (
            Rect { x: self.x, y: self.y, w: self.w, h: top_h },
            Rect { x: self.x, y: self.y + top_h, w: self.w, h: self.h - top_h },
        )
    }
}

/// No point lies in two distinct rectangles of the sequence.
pub open spec fn pairwise_disjoint(rects: Seq<Rect>) -> bool {
    forall|i: int, j: int, px: u64, py: u64|
        0 <= i < rects.len() && 0 <= j < rects.len() && i != j ==> !(#[trigger] rects[i]
            .spec_contains(px, py) && #[trigger] rects[j].spec_contains(px, py))
}

/// Some rectangle of the sequence contains the point.
pub open spec fn covered_by(px: u64, py: u64, rects: Seq<Rect>) -> bool {
    exists|i: int| 0 <= i < rects.len() && #[trigger] rects[i].spec_contains(px, py)
}

/// The rectangles tile the target exactly: they are pairwise disjoint and
/// cover precisely the points of the target.
pub open spec fn partitions(rects: Seq<Rect>, target: Rect) -> bool {
    &&& pairwise_disjoint(rects)
    &&& forall|px: u64, py: u64| #[trigger] covered_by(px, py, rects) ==> target.spec_contains(px, py)
    &&& forall|px: u64, py: u64| #[trigger] target.spec_contains(px, py) ==> covered_by(px, py, rects)
}

/// Every point of `a` lies in `b`.
pub open spec fn rect_subset(a: Rect, b: Rect) -> bool {
    forall|px: u64, py: u64| #[trigger] a.spec_contains(px, py) ==> b.spec_contains(px, py)
}

/// The inner working area lies within the rectangle it was inset from.
pub proof fn lemma_shrunk_subset(r: Rect)
    requires
        r.wf(),
    ensures
        rect_subset(r.spec_shrunk(), r),
{
}

/// A single rectangle tiles itself.
pub proof fn lemma_partition_self(target: Rect)
    ensures
        partitions(seq![target], target),
{
    assert forall|px: u64, py: u64| #[trigger] target.spec_contains(px, py) implies covered_by(
        px,
        py,
        seq![target],
    ) by {
        assert(seq![target][0].spec_contains(px, py));
    }
}

/// The two parts of a width split tile the whole.
pub proof fn lemma_hsplit_partitions(target: Rect, left_w: u64)
    requires
        target.wf(),
        left_w <= target.w,
    ensures
        partitions(seq![target.spec_hsplit(left_w).0, target.spec_hsplit(left_w).1], target),
{
    let a = target.spec_hsplit(left_w).0;
    let b = target.spec_hsplit(left_w).1;
    let s = seq![a, b];
    assert forall|px: u64, py: u64| #[trigger] target.spec_contains(px, py) implies covered_by(
        px,
        py,
        s,
    ) by {
        if px < target.x + left_w {
            assert(s[0].spec_contains(px, py));
        } else {
            assert(s[1].spec_contains(px, py));
        }
    }
}

/// The two parts of a height split tile the whole.
pub proof fn lemma_vsplit_partitions(target: Rect, top_h: u64)
    requires
        target.wf(),
        top_h <= target.h,
    ensures
        partitions(seq![target.spec_vsplit(top_h).0, target.spec_vsplit(top_h).1], target),
{
    let a = target.spec_vsplit(top_h).0;
    let b = target.spec_vsplit(top_h).1;
    let s = seq![a, b];
    assert forall|px: u64, py: u64| #[trigger] target.spec_contains(px, py) implies covered_by(
        px,
        py,
        s,
    ) by {
        if py < target.y + top_h {
            assert(s[0].spec_contains(px, py));
        } else {
            assert(s[1].spec_contains(px, py));
        }
    }
}

/// Tilings compose: tilings of the two halves of a split concatenate to a
/// tiling of the whole.
pub proof fn lemma_partition_compose(s1: Seq<Rect>, s2: Seq<Rect>, a: Rect, b: Rect, target: Rect)
    requires
        partitions(s1, a),
        partitions(s2, b),
        partitions(seq![a, b], target),
    ensures
        partitions(s1 + s2, target),
{
    let s = s1 + s2;
    assert forall|px: u64, py: u64| #[trigger] covered_by(px, py, s) implies target.spec_contains(
        px,
        py,
    ) by {
        let i = choose|i: int| 0 <= i < s.len() && #[trigger] s[i].spec_contains(px, py);
        if i < s1.len() {
            assert(s1[i].spec_contains(px, py));
            assert(covered_by(px, py, s1));
            assert(a.spec_contains(px, py));
            assert(seq![a, b][0].spec_contains(px, py));
            assert(covered_by(px, py, seq![a, b]));
        } else {
            assert(s2[i - s1.len()].spec_contains(px, py));
            assert(covered_by(px, py, s2));
            assert(b.spec_contains(px, py));
            assert(seq![a, b][1].spec_contains(px, py));
            assert(covered_by(px, py, seq![a, b]));
        }
    }
    assert forall|px: u64, py: u64| #[trigger] target.spec_contains(px, py) implies covered_by(
        px,
        py,
        s,
    ) by {
        assert(covered_by(px, py, seq![a, b]));
        let ab = seq![a, b];
        let i = choose|i: int| 0 <= i < ab.len() && #[trigger] ab[i].spec_contains(px, py);
        if i == 0 {
            assert(a.spec_contains(px, py));
            let k = choose|k: int| 0 <= k < s1.len() && #[trigger] s1[k].spec_contains(px, py);
            assert(s[k].spec_contains(px, py));
        } else {
            assert(b.spec_contains(px, py));
            let k = choose|k: int| 0 <= k < s2.len() && #[trigger] s2[k].spec_contains(px, py);
            assert(s[s1.len() + k].spec_contains(px, py));
        }
    }
    assert forall|i: int, j: int, px: u64, py: u64|
        0 <= i < s.len() && 0 <= j < s.len() && i != j implies !(#[trigger] s[i].spec_contains(
        px,
        py,
    ) && #[trigger] s[j].spec_contains(px, py)) by {
        if s[i].spec_contains(px, py) && s[j].spec_contains(px, py) {
            if i < s1.len() && j < s1.len() {
                assert(s1[i].spec_contains(px, py) && s1[j].spec_contains(px, py));
            } else if i >= s1.len() && j >= s1.len() {
                assert(s2[i - s1.len()].spec_contains(px, py) && s2[j - s1.len()].spec_contains(
                    px,
                    py,
                ));
            } else {
                let ia = if i < s1.len() {
                    i
                } else {
                    j
                };
                let jb = if i < s1.len() {
                    j
                } else {
                    i
                };
                assert(s1[ia].spec_contains(px, py));
                assert(covered_by(px, py, s1));
                assert(a.spec_contains(px, py));
                assert(s2[jb - s1.len()].spec_contains(px, py));
                assert(covered_by(px, py, s2));
                assert(b.spec_contains(px, py));
                assert(seq![a, b][0].spec_contains(px, py) && seq![a, b][1].spec_contains(px, py));
            }
        }
    }
}

} // verus!
