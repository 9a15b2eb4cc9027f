//! The interaction controller: per-tick hit-testing and expand/collapse.
//!
//! Each tick the tree is walked depth-first with the pointer position and
//! the click events of that tick.  A hovered, collapsed node with children
//! expands on a left click and its children are laid out into its inner
//! rectangle right then (lazy layout).  A right click on a hovered
//! collapsed node requests a collapse, which the nearest expanded ancestor
//! applies to itself and its whole subtree.  Hover state is recomputed
//! from scratch on every walk, and the deepest hovered node supplies the
//! tooltip; an expanded node whose border band (inside the outer rectangle
//! but outside the inner one) is under the pointer supplies it instead.

use vstd::prelude::*;

use crate::layout::layout_spec;
use crate::layout::lemma_layout_partitions;
use crate::layout::with_rects;
use crate::node::Node;
use crate::node::collapse_rel;
use crate::node::lemma_collapse_preserves_wf;
use crate::node::sizes_of;
use crate::rect::Rect;
use crate::rect::partitions;
use crate::rng::SplitRng;

verus! {

pub open spec fn view_opt(o: Option<Vec<u8>>) -> Option<Seq<u8>> {
    match o {
        Some(v) => Some(v@),
        None => None,
    }
}

/// Everything the walk never touches: identity, weight and color.
pub open spec fn same_meta(pre: Node, post: Node) -> bool {
    &&& post.path_prefix == pre.path_prefix
    &&& post.name == pre.name
    &&& post.size == pre.size
    &&& post.color == pre.color
}

/// Whether this node, walked with the given pointer and clicks, asks its
/// parent to collapse: it is collapsed, hovered, right-clicked, and not
/// taken by an expanding left click.
pub open spec fn creq_of(pre: Node, px: u64, py: u64, click_l: bool, click_r: bool) -> bool {
    let hov = pre.outer_rect.spec_contains(px, py);
    let expands = hov && click_l && pre.children.len() > 0;
    !pre.expanded && hov && click_r && !expands
}

/// Whether some child of this node asks for a collapse this tick.
pub open spec fn some_child_requests(
    pre: Node,
    px: u64,
    py: u64,
    click_l: bool,
    click_r: bool,
) -> bool {
    exists|i: int|
        0 <= i < pre.children.len() && creq_of(
            #[trigger] pre.children@[i],
            px,
            py,
            click_l,
            click_r,
        )
}

/// The tooltip this subtree reports: a hovered collapsed node reports its
/// own path; an expanded node reports its own path when the pointer is in
/// its border band, and otherwise whatever the last of its children to
/// report wins.
pub open spec fn tip_of(pre: Node, px: u64, py: u64, click_l: bool, click_r: bool) -> Option<
    Seq<u8>,
>
    decreases pre, 1int,
{
    if !pre.expanded {
        if pre.outer_rect.spec_contains(px, py) {
            Some(pre.full_path())
        } else {
            None
        }
    } else {
        if pre.outer_rect.spec_contains(px, py) && !pre.inner_rect.spec_contains(px, py) {
            Some(pre.full_path())
        } else {
            tips_scan(pre.children@, px, py, click_l, click_r)
        }
    }
}

/// The last tooltip reported by a run of children, scanning back from the
/// end.
pub open spec fn tips_scan(s: Seq<Node>, px: u64, py: u64, click_l: bool, click_r: bool) -> Option<
    Seq<u8>,
>
    decreases s, 0int,
{
    if s.len() == 0 {
        None
    } else {
        match tip_of(s.last(), px, py, click_l, click_r) {
            Some(v) => Some(v),
            None => tips_scan(s.drop_last(), px, py, click_l, click_r),
        }
    }
}

/// The children of an expanding node after the layout engine has run over
/// them inside `target` with the generator in state `r0`; collapsed once
/// more on top of that when `coll` is set.
pub open spec fn placed_children(
    pre: Seq<Node>,
    post: Seq<Node>,
    target: Rect,
    r0: u64,
    coll: bool,
) -> bool {
    &&& post.len() == pre.len()
    &&& forall|i: int|
        0 <= i < pre.len() ==> {
            let placed = with_rects(#[trigger] pre[i], layout_spec(sizes_of(pre), target, r0).0[i]);
            if coll {
                collapse_rel(placed, post[i])
            } else {
                post[i] == placed
            }
        }
}

/// Exact effect of one tick of the interaction walk on a subtree.
///
/// `coll` states that an ancestor collapses this subtree after the walk;
/// the top-level walk starts with it clear, and it becomes set below any
/// expanded node one of whose children requests a collapse.  For a
/// collapsed node the hover flag is recomputed from the outer rectangle,
/// and a hovered left click on a node with children expands it, laying
/// its children out into the inner rectangle for some state of the
/// injected generator.  An expanded node walks its children in order and
/// stays expanded unless a child requested a collapse or an ancestor is
/// collapsing.
pub open spec fn mouse_rel(
    pre: Node,
    post: Node,
    px: u64,
    py: u64,
    click_l: bool,
    click_r: bool,
    coll: bool,
) -> bool
    decreases pre,
{
    if !pre.expanded {
        let hov = pre.outer_rect.spec_contains(px, py);
        let expands = hov && click_l && pre.children.len() > 0;
        &&& same_meta(pre, post)
        &&& post.hovered == hov
        &&& post.outer_rect == pre.outer_rect
        &&& post.inner_rect == pre.inner_rect
        &&& post.expanded == (expands && !coll)
        &&& post.children.len() == pre.children.len()
        &&& if expands {
            exists|r0: u64| placed_children(pre.children@, post.children@, pre.inner_rect, r0, coll)
        } else {
            if coll {
                forall|i: int|
                    0 <= i < pre.children.len() ==> collapse_rel(
                        #[trigger] pre.children@[i],
                        post.children@[i],
                    )
            } else {
                post.children@ == pre.children@
            }
        }
    } else {
        let coll2 = coll || some_child_requests(pre, px, py, click_l, click_r);
        &&& same_meta(pre, post)
        &&& post.hovered == false
        &&& post.outer_rect == pre.outer_rect
        &&& post.inner_rect == pre.inner_rect
        &&& post.expanded == !coll2
        &&& post.children.len() == pre.children.len()
        &&& forall|i: int|
            0 <= i < pre.children.len() ==> mouse_rel(
                #[trigger] pre.children@[i],
                post.children@[i],
                px,
                py,
                click_l,
                click_r,
                coll2,
            )
    }
}

/// An expansion tiles the node exactly: the outer rectangles of the
/// children laid out by an expansion are pairwise disjoint and cover
/// precisely the expanding node's inner rectangle.
pub proof fn lemma_expansion_tiles(pre: Seq<Node>, post: Seq<Node>, target: Rect, r0: u64)
    requires
        pre.len() >= 1,
        target.wf(),
        placed_children(pre, post, target, r0, false),
    ensures
        crate::rect::partitions(post.map_values(|c: Node| c.outer_rect), target),
        post.map_values(|c: Node| c.outer_rect).len() == pre.len(),
{
    lemma_layout_partitions(sizes_of(pre), target, r0);
    let rects = layout_spec(sizes_of(pre), target, r0).0;
    assert forall|i: int| 0 <= i < post.len() implies post.map_values(|c: Node| c.outer_rect)[i]
        == rects[i] by {
        assert(post[i] == with_rects(pre[i], rects[i]));
    }
    assert(post.map_values(|c: Node| c.outer_rect) =~= rects);
}

/// Two collapses in a row are one collapse.
proof fn lemma_collapse_rel_compose(a: Node, b: Node, c: Node)
    requires
        collapse_rel(a, b),
        collapse_rel(b, c),
    ensures
        collapse_rel(a, c),
    decreases a,
{
    assert forall|i: int| 0 <= i < a.children.len() implies collapse_rel(
        #[trigger] a.children@[i],
        c.children@[i],
    ) by {
        lemma_collapse_rel_compose(a.children@[i], b.children@[i], c.children@[i]);
    }
}

/// Walking a subtree and then collapsing it is the walk with the collapse
/// flag set: the collapse an expanded ancestor applies after its children
/// report distributes over the whole walk.
proof fn lemma_walk_then_collapse(
    pre: Node,
    mid: Node,
    post: Node,
    px: u64,
    py: u64,
    click_l: bool,
    click_r: bool,
    coll: bool,
)
    requires
        mouse_rel(pre, mid, px, py, click_l, click_r, coll),
        collapse_rel(mid, post),
    ensures
        mouse_rel(pre, post, px, py, click_l, click_r, true),
    decreases pre,
{
    if !pre.expanded {
        let hov = pre.outer_rect.spec_contains(px, py);
        let expands = hov && click_l && pre.children.len() > 0;
        if expands {
            let r0 = choose|r0: u64|
                placed_children(pre.children@, mid.children@, pre.inner_rect, r0, coll);
            assert forall|i: int| 0 <= i < pre.children.len() implies {
                let placed = with_rects(
                    #[trigger] pre.children@[i],
                    layout_spec(sizes_of(pre.children@), pre.inner_rect, r0).0[i],
                );
                collapse_rel(placed, post.children@[i])
            } by {
                let placed = with_rects(
                    pre.children@[i],
                    layout_spec(sizes_of(pre.children@), pre.inner_rect, r0).0[i],
                );
                if coll {
                    lemma_collapse_rel_compose(placed, mid.children@[i], post.children@[i]);
                } else {
                    assert(mid.children@[i] == placed);
                }
            }
            assert(placed_children(pre.children@, post.children@, pre.inner_rect, r0, true));
        } else {
            assert forall|i: int| 0 <= i < pre.children.len() implies collapse_rel(
                #[trigger] pre.children@[i],
                post.children@[i],
            ) by {
                if coll {
                    lemma_collapse_rel_compose(
                        pre.children@[i],
                        mid.children@[i],
                        post.children@[i],
                    );
                } else {
                    assert(mid.children@[i] == pre.children@[i]);
                    assert(collapse_rel(mid.children@[i], post.children@[i]));
                }
            }
        }
    } else {
        let coll2 = coll || some_child_requests(pre, px, py, click_l, click_r);
        assert forall|i: int| 0 <= i < pre.children.len() implies mouse_rel(
            #[trigger] pre.children@[i],
            post.children@[i],
            px,
            py,
            click_l,
            click_r,
            true,
        ) by {
            lemma_walk_then_collapse(
                pre.children@[i],
                mid.children@[i],
                post.children@[i],
                px,
                py,
                click_l,
                click_r,
                coll2,
            );
        }
    }
}

/// Expansion state is tidy: a collapsed node's whole subtree is
/// collapsed (collapsing always collapses a subtree wholesale, and fresh
/// trees come fully collapsed).
pub open spec fn tidy(n: Node) -> bool
    decreases n,
{
    if !n.expanded {
        n.all_collapsed()
    } else {
        forall|i: int| 0 <= i < n.children.len() ==> tidy(#[trigger] n.children@[i])
    }
}

/// Wherever the tree is expanded, the children's outer rectangles tile
/// the parent's inner rectangle exactly: pairwise disjoint, covering
/// precisely its points.
pub open spec fn layout_coherent(n: Node) -> bool
    decreases n,
{
    n.expanded ==> {
        &&& partitions(n.children@.map_values(|c: Node| c.outer_rect), n.inner_rect)
        &&& forall|i: int| 0 <= i < n.children.len() ==> layout_coherent(#[trigger] n.children@[i])
    }
}

/// A fully collapsed subtree is trivially tidy.
pub proof fn lemma_all_collapsed_tidy(n: Node)
    requires
        n.all_collapsed(),
    ensures
        tidy(n),
{
}

/// A fully collapsed subtree is trivially coherent: it has no expanded
/// node to constrain.  With the two lemmas above, a freshly scanned tree
/// enters the interaction loop tidy and coherent, and the tick lemma
/// below keeps it so forever.
pub proof fn lemma_all_collapsed_coherent(n: Node)
    requires
        n.all_collapsed(),
    ensures
        layout_coherent(n),
{
}

/// One interaction tick keeps the tree tidy and keeps every expanded
/// node's children tiling its inner rectangle — the partition law holds
/// of every expanded node at every time, not only at the moment of its
/// expansion.
pub proof fn lemma_tick_preserves_tiling(
    pre: Node,
    post: Node,
    px: u64,
    py: u64,
    click_l: bool,
    click_r: bool,
    coll: bool,
)
    requires
        pre.wf(),
        tidy(pre),
        layout_coherent(pre),
        mouse_rel(pre, post, px, py, click_l, click_r, coll),
    ensures
        tidy(post),
        layout_coherent(post),
        coll ==> post.all_collapsed(),
    decreases pre,
{
    if !pre.expanded {
        let hov = pre.outer_rect.spec_contains(px, py);
        let expands = hov && click_l && pre.children.len() > 0;
        if expands {
            let r0 = choose|r0: u64|
                placed_children(pre.children@, post.children@, pre.inner_rect, r0, coll);
            let rects = layout_spec(sizes_of(pre.children@), pre.inner_rect, r0).0;
            assert forall|i: int| 0 <= i < post.children.len() implies (#[trigger] post.children@[i])
                .all_collapsed() by {
                let placed = with_rects(pre.children@[i], rects[i]);
                assert(pre.children@[i].all_collapsed());
                assert(placed.children == pre.children@[i].children);
                assert(placed.all_collapsed());
                if coll {
                    crate::node::lemma_collapse_propagates(placed, post.children@[i]);
                } else {
                    assert(post.children@[i] == placed);
                }
            }
            if coll {
                assert(post.all_collapsed());
                lemma_all_collapsed_tidy(post);
            } else {
                assert forall|i: int| 0 <= i < post.children.len() implies tidy(
                    #[trigger] post.children@[i],
                ) && layout_coherent(post.children@[i]) by {
                    lemma_all_collapsed_tidy(post.children@[i]);
                    assert(!post.children@[i].expanded);
                }
                lemma_expansion_tiles(pre.children@, post.children@, pre.inner_rect, r0);
            }
        } else {
            assert forall|i: int| 0 <= i < post.children.len() implies (#[trigger] post.children@[i])
                .all_collapsed() by {
                if coll {
                    crate::node::lemma_collapse_propagates(pre.children@[i], post.children@[i]);
                } else {
                    assert(post.children@[i] == pre.children@[i]);
                    assert(pre.children@[i].all_collapsed());
                }
            }
            assert(post.all_collapsed());
            lemma_all_collapsed_tidy(post);
        }
    } else {
        let coll2 = coll || some_child_requests(pre, px, py, click_l, click_r);
        assert forall|i: int| 0 <= i < post.children.len() implies tidy(
            #[trigger] post.children@[i],
        ) && layout_coherent(post.children@[i]) && (coll2 ==> post.children@[i].all_collapsed())
            && post.children@[i].outer_rect == pre.children@[i].outer_rect by {
            assert(pre.children@[i].wf());
            assert(tidy(pre.children@[i]));
            assert(layout_coherent(pre.children@[i]));
            assert(mouse_rel(
                pre.children@[i],
                post.children@[i],
                px,
                py,
                click_l,
                click_r,
                coll2,
            ));
            lemma_tick_preserves_tiling(
                pre.children@[i],
                post.children@[i],
                px,
                py,
                click_l,
                click_r,
                coll2,
            );
        }
        if coll2 {
            assert(post.all_collapsed());
            lemma_all_collapsed_tidy(post);
        } else {
            assert(post.children@.map_values(|c: Node| c.outer_rect) =~= pre.children@.map_values(
                |c: Node| c.outer_rect,
            ));
        }
    }
}

/// Throughout the tree, the inner working area lies within the outer
/// rectangle (both sit at the empty sentinel until the layout engine
/// assigns them together).
pub open spec fn rects_nested(n: Node) -> bool
    decreases n,
{
    &&& crate::rect::rect_subset(n.inner_rect, n.outer_rect)
    &&& forall|i: int| 0 <= i < n.children.len() ==> rects_nested(#[trigger] n.children@[i])
}

/// Collapsing touches no geometry.
proof fn lemma_collapse_preserves_nesting(pre: Node, post: Node)
    requires
        collapse_rel(pre, post),
        rects_nested(pre),
    ensures
        rects_nested(post),
    decreases pre,
{
    assert forall|i: int| 0 <= i < post.children.len() implies rects_nested(
        #[trigger] post.children@[i],
    ) by {
        assert(collapse_rel(pre.children@[i], post.children@[i]));
        lemma_collapse_preserves_nesting(pre.children@[i], post.children@[i]);
    }
}

/// One interaction tick keeps the geometry nested: expansion assigns a
/// child its rectangle and that rectangle's inset together.
pub proof fn lemma_tick_preserves_nesting(
    pre: Node,
    post: Node,
    px: u64,
    py: u64,
    click_l: bool,
    click_r: bool,
    coll: bool,
)
    requires
        pre.wf(),
        rects_nested(pre),
        mouse_rel(pre, post, px, py, click_l, click_r, coll),
    ensures
        rects_nested(post),
    decreases pre,
{
    if !pre.expanded {
        let hov = pre.outer_rect.spec_contains(px, py);
        let expands = hov && click_l && pre.children.len() > 0;
        if expands {
            let r0 = choose|r0: u64|
                placed_children(pre.children@, post.children@, pre.inner_rect, r0, coll);
            lemma_layout_partitions(sizes_of(pre.children@), pre.inner_rect, r0);
            let rects = layout_spec(sizes_of(pre.children@), pre.inner_rect, r0).0;
            assert forall|i: int| 0 <= i < post.children.len() implies rects_nested(
                #[trigger] post.children@[i],
            ) by {
                let placed = with_rects(pre.children@[i], rects[i]);
                assert(rects[i].wf());
                crate::rect::lemma_shrunk_subset(rects[i]);
                assert(rects_nested(pre.children@[i]));
                assert(rects_nested(placed));
                if coll {
                    lemma_collapse_preserves_nesting(placed, post.children@[i]);
                } else {
                    assert(post.children@[i] == placed);
                }
            }
        } else {
            assert forall|i: int| 0 <= i < post.children.len() implies rects_nested(
                #[trigger] post.children@[i],
            ) by {
                assert(rects_nested(pre.children@[i]));
                if coll {
                    lemma_collapse_preserves_nesting(pre.children@[i], post.children@[i]);
                } else {
                    assert(post.children@[i] == pre.children@[i]);
                }
            }
        }
    } else {
        let coll2 = coll || some_child_requests(pre, px, py, click_l, click_r);
        assert forall|i: int| 0 <= i < post.children.len() implies rects_nested(
            #[trigger] post.children@[i],
        ) by {
            assert(pre.children@[i].wf());
            assert(rects_nested(pre.children@[i]));
            assert(mouse_rel(
                pre.children@[i],
                post.children@[i],
                px,
                py,
                click_l,
                click_r,
                coll2,
            ));
            lemma_tick_preserves_nesting(
                pre.children@[i],
                post.children@[i],
                px,
                py,
                click_l,
                click_r,
                coll2,
            );
        }
    }
}

/// The hover flags of the visible tree are sane for a pointer position:
/// a visible collapsed node is hovered only if the pointer is inside its
/// outer rectangle.
pub open spec fn hover_sane(n: Node, px: u64, py: u64) -> bool
    decreases n,
{
    if !n.expanded {
        n.hovered ==> n.outer_rect.spec_contains(px, py)
    } else {
        forall|i: int| 0 <= i < n.children.len() ==> hover_sane(#[trigger] n.children@[i], px, py)
    }
}

/// A walk without a left click (pure pointer movement, or a right click)
/// leaves the hover flags of the visible tree sane for the pointer it ran
/// with.  A left click may expand a node mid-tick, making children
/// visible whose flags are refreshed only on the next walk.
pub proof fn lemma_walk_hover_sane(
    pre: Node,
    post: Node,
    px: u64,
    py: u64,
    click_r: bool,
    coll: bool,
)
    requires
        mouse_rel(pre, post, px, py, false, click_r, coll),
    ensures
        hover_sane(post, px, py),
    decreases pre,
{
    if pre.expanded {
        let coll2 = coll || some_child_requests(pre, px, py, false, click_r);
        if !coll2 {
            assert forall|i: int| 0 <= i < post.children.len() implies hover_sane(
                #[trigger] post.children@[i],
                px,
                py,
            ) by {
                assert(mouse_rel(
                    pre.children@[i],
                    post.children@[i],
                    px,
                    py,
                    false,
                    click_r,
                    coll2,
                ));
                lemma_walk_hover_sane(
                    pre.children@[i],
                    post.children@[i],
                    px,
                    py,
                    click_r,
                    coll2,
                );
            }
        }
    }
}

/// How many visible nodes report themselves hovered: a collapsed node
/// counts itself, an expanded node counts over its children (whatever
/// stale flags its hidden descendants may hold are not visible).
pub open spec fn visible_hovered(n: Node, px: u64, py: u64) -> int
    decreases n, 1int,
{
    if !n.expanded {
        if n.hovered {
            1
        } else {
            0
        }
    } else {
        visible_hovered_seq(n.children@, px, py)
    }
}

pub open spec fn visible_hovered_seq(s: Seq<Node>, px: u64, py: u64) -> int
    decreases s, 0int,
{
    if s.len() == 0 {
        0
    } else {
        visible_hovered_seq(s.drop_last(), px, py) + visible_hovered(s.last(), px, py)
    }
}

/// A run of children of which each counts at most one hovered node, at
/// most one counting any at all, counts at most one in total; and a
/// nonempty total points at a child whose rectangle holds the pointer.
proof fn lemma_hovered_seq_bound(s: Seq<Node>, px: u64, py: u64)
    requires
        forall|i: int|
            0 <= i < s.len() ==> 0 <= visible_hovered(#[trigger] s[i], px, py) <= 1,
        forall|i: int|
            0 <= i < s.len() && visible_hovered(#[trigger] s[i], px, py) == 1 ==> s[i].outer_rect.spec_contains(
                px,
                py,
            ),
        forall|i: int, j: int|
            0 <= i < s.len() && 0 <= j < s.len() && i != j ==> !((#[trigger] s[i]).outer_rect.spec_contains(
                px,
                py,
            ) && (#[trigger] s[j]).outer_rect.spec_contains(px, py)),
    ensures
        0 <= visible_hovered_seq(s, px, py) <= 1,
        visible_hovered_seq(s, px, py) == 1 ==> exists|i: int|
            0 <= i < s.len() && (#[trigger] s[i]).outer_rect.spec_contains(px, py),
    decreases s,
{
    if s.len() > 0 {
        let d = s.drop_last();
        lemma_hovered_seq_bound(d, px, py);
        if visible_hovered_seq(d, px, py) == 1 && visible_hovered(s.last(), px, py) == 1 {
            let i = choose|i: int|
                0 <= i < d.len() && (#[trigger] d[i]).outer_rect.spec_contains(px, py);
            assert(s[i].outer_rect.spec_contains(px, py));
            assert(s[s.len() - 1].outer_rect.spec_contains(px, py));
        }
        if visible_hovered_seq(s, px, py) == 1 {
            if visible_hovered(s.last(), px, py) == 1 {
                assert(s[s.len() - 1].outer_rect.spec_contains(px, py));
            } else {
                let i = choose|i: int|
                    0 <= i < d.len() && (#[trigger] d[i]).outer_rect.spec_contains(px, py);
                assert(s[i].outer_rect.spec_contains(px, py));
            }
        }
    }
}

/// At most one node of the visible tree reports itself hovered — the
/// deepest visible node under the pointer — because wherever the tree is
/// expanded the children's rectangles are disjoint and sit inside their
/// parent's.
pub proof fn lemma_at_most_one_hovered(n: Node, px: u64, py: u64)
    requires
        layout_coherent(n),
        rects_nested(n),
        hover_sane(n, px, py),
    ensures
        0 <= visible_hovered(n, px, py) <= 1,
        visible_hovered(n, px, py) == 1 ==> n.outer_rect.spec_contains(px, py),
    decreases n,
{
    if n.expanded {
        let rects = n.children@.map_values(|c: Node| c.outer_rect);
        assert forall|i: int|
            0 <= i < n.children.len() implies 0 <= visible_hovered(
            #[trigger] n.children@[i],
            px,
            py,
        ) <= 1 && (visible_hovered(n.children@[i], px, py) == 1 ==> n.children@[i].outer_rect.spec_contains(
            px,
            py,
        )) by {
            lemma_at_most_one_hovered(n.children@[i], px, py);
        }
        assert forall|i: int, j: int|
            0 <= i < n.children.len() && 0 <= j < n.children.len() && i != j implies !((
        #[trigger] n.children@[i]).outer_rect.spec_contains(px, py) && (
        #[trigger] n.children@[j]).outer_rect.spec_contains(px, py)) by {
            assert(rects[i] == n.children@[i].outer_rect);
            assert(rects[j] == n.children@[j].outer_rect);
        }
        lemma_hovered_seq_bound(n.children@, px, py);
        assert(n.children@.take(n.children@.len() as int) =~= n.children@);
        if visible_hovered(n, px, py) == 1 {
            let i = choose|i: int|
                0 <= i < n.children@.len() && (#[trigger] n.children@[i]).outer_rect.spec_contains(
                    px,
                    py,
                );
            assert(rects[i].spec_contains(px, py));
            assert(crate::rect::covered_by(px, py, rects));
            assert(n.inner_rect.spec_contains(px, py));
        }
    }
}

impl Node {
    /// One tick of the interaction walk over this subtree, given the
    /// pointer position and this tick's left-click and right-click-release
    /// events.  Returns the tooltip of the deepest hovered node, if any,
    /// and whether this node asks its parent to collapse.
    pub fn handle_mouse(
        &mut self,
        px: u64,
        py: u64,
        click_l: bool,
        click_r: bool,
        rng: &mut SplitRng,
    ) -> (r: (Option<Vec<u8>>, bool))
        requires
            old(self).wf(),
        ensures
            final(self).wf(),
            mouse_rel(*old(self), *final(self), px, py, click_l, click_r, false),
            view_opt(r.0) == tip_of(*old(self), px, py, click_l, click_r),
            r.1 == creq_of(*old(self), px, py, click_l, click_r),
        decreases *old(self),
    {
        if !self.expanded {
            self.hovered = self.outer_rect.contains(px, py);
            let mut tooltip: Option<Vec<u8>> = None;
            if self.hovered {
                tooltip = Some(self.get_full_path());
            }
            if self.hovered && click_l && self.children.len() != 0 {
                self.expanded = true;
                let ghost r0 = rng.state;
                let hi: usize = self.children.len();
                let inner: Rect = self.inner_rect;
                proof {
                    assert(old(self).children@.subrange(0, hi as int) =~= old(self).children@);
                }
                Node::place_children(&mut self.children, 0, hi, inner, rng);
                proof {
                    assert(placed_children(
                        old(self).children@,
                        self.children@,
                        old(self).inner_rect,
                        r0,
                        false,
                    ));
                    lemma_layout_partitions(sizes_of(old(self).children@), old(self).inner_rect, r0);
                    assert forall|i: int| 0 <= i < self.children.len() implies (
                    #[trigger] self.children@[i]).wf() by {
                        assert(old(self).children@[i].wf());
                        assert(self.children@[i] == with_rects(
                            old(self).children@[i],
                            layout_spec(
                                sizes_of(old(self).children@),
                                old(self).inner_rect,
                                r0,
                            ).0[i],
                        ));
                    }
                    assert(sizes_of(self.children@) =~= sizes_of(old(self).children@));
                }
                return (tooltip, false);
            }
            if self.hovered && click_r {
                return (tooltip, true);
            }
            return (tooltip, false);
        }
        self.hovered = false;
        let mut tooltip: Option<Vec<u8>> = None;
        let mut should_collapse: bool = false;
        let n: usize = self.children.len();
        let mut i: usize = 0;
        while i < n
            invariant
                i <= n,
                n == self.children.len(),
                n == old(self).children.len(),
                same_meta(*old(self), *self),
                self.expanded == old(self).expanded,
                old(self).expanded,
                self.hovered == false,
                self.outer_rect == old(self).outer_rect,
                self.inner_rect == old(self).inner_rect,
                old(self).wf(),
                forall|j: int| i <= j < n ==> self.children@[j] == old(self).children@[j],
                forall|j: int| 0 <= j < i ==> (#[trigger] self.children@[j]).wf(),
                forall|j: int|
                    0 <= j < i ==> mouse_rel(
                        old(self).children@[j],
                        #[trigger] self.children@[j],
                        px,
                        py,
                        click_l,
                        click_r,
                        false,
                    ),
                should_collapse == exists|j: int|
                    0 <= j < i && creq_of(
                        #[trigger] old(self).children@[j],
                        px,
                        py,
                        click_l,
                        click_r,
                    ),
                view_opt(tooltip) == tips_scan(
                    old(self).children@.take(i as int),
                    px,
                    py,
                    click_l,
                    click_r,
                ),
            decreases n - i,
        {
            proof {
                assert(decreases_to!(*old(self) => old(self).children));
                assert(decreases_to!(old(self).children => old(self).children@));
                assert(decreases_to!(old(self).children@ => old(self).children@[i as int]));
                assert(old(self).children@[i as int].wf());
            }
            let ghost prev_collapse = should_collapse;
            let child: &mut Node = &mut self.children[i];
            let resp = child.handle_mouse(px, py, click_l, click_r, rng);
            let tip_i = resp.0;
            should_collapse = should_collapse || resp.1;
            if tip_i.is_some() {
                tooltip = tip_i;
            }
            proof {
                assert(should_collapse == exists|j: int|
                    0 <= j < i + 1 && creq_of(
                        #[trigger] old(self).children@[j],
                        px,
                        py,
                        click_l,
                        click_r,
                    )) by {
                    if should_collapse {
                        if resp.1 {
                            assert(creq_of(
                                old(self).children@[i as int],
                                px,
                                py,
                                click_l,
                                click_r,
                            ));
                        }
                    }
                }
                let pref = old(self).children@.take(i + 1 as int);
                assert(pref.drop_last() =~= old(self).children@.take(i as int));
                assert(pref.last() == old(self).children@[i as int]);
            }
            i = i + 1;
        }
        let ghost mid_node = *self;
        proof {
            assert(old(self).children@.take(n as int) =~= old(self).children@);
            assert forall|j: int, l: int| 0 <= j <= l < n implies #[trigger] mid_node.children@[j]
                .size <= #[trigger] mid_node.children@[l].size by {
                assert(old(self).children@[j].size <= old(self).children@[l].size);
            }
            assert(sizes_of(mid_node.children@) =~= sizes_of(old(self).children@));
            assert(mid_node.wf());
            assert(should_collapse == some_child_requests(*old(self), px, py, click_l, click_r));
        }
        if should_collapse {
            self.collapse_recursive();
            proof {
                lemma_collapse_preserves_wf(mid_node, *self);
                assert forall|j: int| 0 <= j < n implies mouse_rel(
                    old(self).children@[j],
                    #[trigger] self.children@[j],
                    px,
                    py,
                    click_l,
                    click_r,
                    true,
                ) by {
                    assert(collapse_rel(mid_node.children@[j], self.children@[j]));
                    lemma_walk_then_collapse(
                        old(self).children@[j],
                        mid_node.children@[j],
                        self.children@[j],
                        px,
                        py,
                        click_l,
                        click_r,
                        false,
                    );
                }
            }
        }
        let band: bool = self.outer_rect.contains(px, py) && !self.inner_rect.contains(px, py);
        if band {
            tooltip = Some(self.get_full_path());
        }
        (tooltip, false)
    }
}

} // verus!
