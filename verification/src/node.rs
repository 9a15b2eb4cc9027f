//! The weighted node tree.
//!
//! Each node carries a byte-size weight, a display name, the parent path
//! prefix, an ordered list of owned children (ascending by size), two
//! rectangles (the outer bound and the inner working area children are laid
//! out into), an expand/collapse flag, a transient hover flag and a color.
//! Geometry starts at a sentinel value and is only assigned by the layout
//! engine when an ancestor is first expanded.

use vstd::prelude::*;

use crate::rect::Rect;

verus! {

/// Hue and saturation granularity: color channels range over `0..=HSV_UNIT`.
pub const HSV_UNIT: u16 = 1000;

/// Brightness of directory nodes.
pub const DIR_VALUE: u16 = 1000;

/// Brightness of file nodes.
pub const FILE_VALUE: u16 = 150;

/// Smallest saturation the scanner draws.
pub const SAT_MIN: u16 = 400;

/// A color in HSV space, each channel a fraction of [`HSV_UNIT`].
#[derive(Clone, Copy, PartialEq, Eq, Structural, Debug)]
pub struct Hsv {
    pub h: u16,
    pub s: u16,
    pub v: u16,
}

impl Hsv {
    pub open spec fn wf(self) -> bool {
        self.h < HSV_UNIT && SAT_MIN <= self.s <= HSV_UNIT && (self.v == DIR_VALUE || self.v
            == FILE_VALUE)
    }
}

#[derive(Debug)]
pub struct Node {
    /// Parent path, ending in a separator; concatenated with `name` it gives
    /// the absolute path.
    pub path_prefix: Vec<u8>,
    /// Final path segment, or a placeholder when the path has no separator.
    pub name: Vec<u8>,
    /// Byte size: the file length, or the sum of the children's sizes.
    pub size: u64,
    /// Ordered ascending by `size`.
    pub children: Vec<Node>,
    /// Full rectangle this node occupies; sentinel until first laid out.
    pub outer_rect: Rect,
    /// `outer_rect` inset by the margin; the area children are laid out into.
    pub inner_rect: Rect,
    /// Collapsed nodes render as leaves; expanded ones as a border plus
    /// their children.
    pub expanded: bool,
    /// Recomputed every interaction tick.
    pub hovered: bool,
    /// Assigned once before the tree is exposed, immutable afterwards.
    pub color: Hsv,
}

/// Sentinel geometry of a node that has never been laid out.
pub open spec fn rect_unset() -> Rect {
    Rect { x: 0, y: 0, w: 0, h: 0 }
}

/// The sizes of a sequence of nodes.
pub open spec fn sizes_of(s: Seq<Node>) -> Seq<u64> {
    s.map_values(|n: Node| n.size)
}

/// Sum of a sequence of sizes.
pub open spec fn seq_sum(s: Seq<u64>) -> int
    decreases s.len(),
{
    if s.len() == 0 {
        0
    } else {
        seq_sum(s.drop_last()) + s.last()
    }
}

/// Ascending by size.
pub open spec fn sorted_by_size(s: Seq<Node>) -> bool {
    forall|i: int, j: int| 0 <= i <= j < s.len() ==> #[trigger] s[i].size <= #[trigger] s[j].size
}

impl Node {
    /// The absolute path of this node.
    pub open spec fn full_path(self) -> Seq<u8> {
        self.path_prefix@ + self.name@
    }

    /// Size consistency, child ordering, rectangle sanity and color sanity,
    /// recursively: the shape invariants every tree handed out by the
    /// scanner satisfies and every interaction preserves.
    pub open spec fn wf(self) -> bool
        decreases self,
    {
        &&& self.children.len() > 0 ==> self.size == seq_sum(sizes_of(self.children@))
        &&& sorted_by_size(self.children@)
        &&& self.outer_rect.wf()
        &&& self.inner_rect.wf()
        &&& self.color.wf()
        &&& forall|i: int| 0 <= i < self.children.len() ==> (#[trigger] self.children@[i]).wf()
    }

    /// Sum of the sizes of all terminal (childless) descendants.
    pub open spec fn terminal_sum(self) -> int
        decreases self,
    {
        if self.children.len() == 0 {
            self.size as int
        } else {
            terminal_sum_seq(self.children@)
        }
    }

    /// Every node of the subtree is collapsed.
    pub open spec fn all_collapsed(self) -> bool
        decreases self,
    {
        &&& !self.expanded
        &&& forall|i: int|
            0 <= i < self.children.len() ==> (#[trigger] self.children@[i]).all_collapsed()
    }

    /// The byte size of this node.
    pub fn bytes(&self) -> (r: u64)
        ensures
            r == self.size,
    {
        self.size
    }

    /// Reconstructs the absolute path from the stored prefix and name.
    pub fn get_full_path(&self) -> (r: Vec<u8>)
        ensures
            r@ == self.full_path(),
    {
        let mut path: Vec<u8> = self.path_prefix.clone();
        let mut i: usize = 0;
        while i < self.name.len()
            invariant
                i <= self.name.len(),
                path@ == self.path_prefix@ + self.name@.take(i as int),
            decreases self.name.len() - i,
        {
            path.push(self.name[i]);
            assert(self.path_prefix@ + self.name@.take(i + 1 as int) =~= (self.path_prefix@
                + self.name@.take(i as int)).push(self.name@[i as int]));
            i = i + 1;
        }
        assert(self.name@.take(self.name.len() as int) =~= self.name@);
        path
    }

    /// Forces this node and every descendant back to the collapsed state.
    /// Rectangles are left as they are; they go stale and are recomputed on
    /// the next expansion.
    pub fn collapse_recursive(&mut self)
        ensures
            collapse_rel(*old(self), *final(self)),
        decreases *old(self),
    {
        self.expanded = false;
        let n: usize = self.children.len();
        let mut i: usize = 0;
        while i < n
            invariant
                i <= n,
                n == self.children.len(),
                n == old(self).children.len(),
                self.path_prefix == old(self).path_prefix,
                self.name == old(self).name,
                self.size == old(self).size,
                self.outer_rect == old(self).outer_rect,
                self.inner_rect == old(self).inner_rect,
                self.color == old(self).color,
                self.hovered == old(self).hovered,
                !self.expanded,
                forall|j: int| i <= j < n ==> self.children@[j] == old(self).children@[j],
                forall|j: int|
                    0 <= j < i ==> collapse_rel(
                        old(self).children@[j],
                        #[trigger] self.children@[j],
                    ),
            decreases n - i,
        {
            proof {
                assert(decreases_to!(*old(self) => old(self).children));
                assert(decreases_to!(old(self).children => old(self).children@));
                assert(decreases_to!(old(self).children@ => old(self).children@[i as int]));
            }
            let child: &mut Node = &mut self.children[i];
            child.collapse_recursive();
            i = i + 1;
        }
    }
}

/// Sum of `terminal_sum` over a sequence of nodes.
pub open spec fn terminal_sum_seq(s: Seq<Node>) -> int
    decreases s,
{
    if s.len() == 0 {
        0
    } else {
        terminal_sum_seq(s.drop_last()) + s.last().terminal_sum()
    }
}

/// Exact effect of `collapse_recursive`: everything is kept except that
/// every expansion flag in the subtree is cleared.
pub open spec fn collapse_rel(pre: Node, post: Node) -> bool
    decreases pre,
{
    &&& post.path_prefix == pre.path_prefix
    &&& post.name == pre.name
    &&& post.size == pre.size
    &&& post.outer_rect == pre.outer_rect
    &&& post.inner_rect == pre.inner_rect
    &&& post.color == pre.color
    &&& post.hovered == pre.hovered
    &&& !post.expanded
    &&& post.children.len() == pre.children.len()
    &&& forall|i: int|
        0 <= i < pre.children.len() ==> collapse_rel(
            #[trigger] pre.children@[i],
            post.children@[i],
        )
}

/// Collapse propagation: after a collapse, the node and every descendant,
/// at any depth, are collapsed.
pub proof fn lemma_collapse_propagates(pre: Node, post: Node)
    requires
        collapse_rel(pre, post),
    ensures
        post.all_collapsed(),
    decreases pre,
{
    assert forall|i: int| 0 <= i < post.children.len() implies (#[trigger] post.children@[i])
        .all_collapsed() by {
        lemma_collapse_propagates(pre.children@[i], post.children@[i]);
    }
}

/// Collapsing preserves the tree invariants.
pub proof fn lemma_collapse_preserves_wf(pre: Node, post: Node)
    requires
        collapse_rel(pre, post),
        pre.wf(),
    ensures
        post.wf(),
    decreases pre,
{
    assert forall|i: int|
        0 <= i < post.children.len() implies (#[trigger] post.children@[i]).wf()
            && post.children@[i].size == pre.children@[i].size by {
        assert(collapse_rel(pre.children@[i], post.children@[i]));
        lemma_collapse_preserves_wf(pre.children@[i], post.children@[i]);
    }
    assert forall|i: int, j: int| 0 <= i <= j < post.children.len() implies #[trigger] post
        .children@[i].size <= #[trigger] post.children@[j].size by {
        assert(pre.children@[i].size <= pre.children@[j].size);
    }
    assert(sizes_of(post.children@) =~= sizes_of(pre.children@));
}

/// The size of a well-formed node is exactly the sum of the sizes of its
/// terminal descendants.
pub proof fn lemma_size_is_terminal_sum(n: Node)
    requires
        n.wf(),
    ensures
        n.size == n.terminal_sum(),
    decreases n,
{
    if n.children.len() > 0 {
        lemma_size_is_terminal_sum_seq(n.children@);
    }
}

proof fn lemma_size_is_terminal_sum_seq(s: Seq<Node>)
    requires
        forall|i: int| 0 <= i < s.len() ==> (#[trigger] s[i]).wf(),
    ensures
        seq_sum(sizes_of(s)) == terminal_sum_seq(s),
    decreases s,
{
    if s.len() > 0 {
        assert(sizes_of(s).drop_last() =~= sizes_of(s.drop_last()));
        assert(forall|i: int|
            0 <= i < s.drop_last().len() ==> (#[trigger] s.drop_last()[i]).wf());
        lemma_size_is_terminal_sum_seq(s.drop_last());
        lemma_size_is_terminal_sum(s.last());
        assert(sizes_of(s).last() == s.last().size);
    }
}

} // verus!
