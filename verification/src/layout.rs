//! The layout engine: weight-balanced recursive bisection.
//!
//! Given an ordered run of sibling nodes and a target rectangle, the engine
//! assigns each node an outer rectangle with area proportional to its size
//! and an inner rectangle inset by the margin, recursing on the two halves
//! of a split.  The split index is the point where the running sum of sizes
//! crosses half of the total, corrected by one if excluding the crossing
//! element lands at least as close to the midpoint (ties prefer excluding),
//! and clamped so both halves are non-empty.  The split runs across the
//! strictly longer side of the rectangle; for a square a coin flip of the
//! injected generator decides.

use vstd::arithmetic::div_mod::lemma_div_is_ordered;
use vstd::arithmetic::div_mod::lemma_div_multiples_vanish;
use vstd::arithmetic::mul::lemma_mul_inequality;
use vstd::arithmetic::mul::lemma_mul_nonnegative;
use vstd::arithmetic::mul::lemma_mul_upper_bound;
use vstd::prelude::*;

use crate::node::Node;
use crate::node::seq_sum;
use crate::node::sizes_of;
use crate::rect::Rect;
use crate::rect::lemma_hsplit_partitions;
use crate::rect::lemma_partition_compose;
use crate::rect::lemma_partition_self;
use crate::rect::lemma_vsplit_partitions;
use crate::rect::partitions;
use crate::rng::SplitRng;
use crate::rng::rng_step;

verus! {

pub open spec fn abs_diff(a: int, b: int) -> int {
    if a >= b {
        a - b
    } else {
        b - a
    }
}

/// Scan from position `i` with running sum `acc` until the running sum
/// first exceeds half of `total`; yields the count of elements taken and
/// their sum.
pub open spec fn crossing(sizes: Seq<u64>, total: int, i: int, acc: int) -> (int, int)
    decreases sizes.len() - i,
{
    if i < 0 || i >= sizes.len() {
        (i, acc)
    } else {
        let acc2 = acc + sizes[i];
        if acc2 > total / 2 {
            (i + 1, acc2)
        } else {
            crossing(sizes, total, i + 1, acc2)
        }
    }
}

/// The split point of a run of sizes: the crossing index, corrected by one
/// if excluding the crossing element is at least as close to half of the
/// total, then clamped so both sides of the split are non-empty.
pub open spec fn split_point(sizes: Seq<u64>) -> (int, int) {
    let total = seq_sum(sizes);
    let kh = crossing(sizes, total, 0, 0);
    let k0 = kh.0;
    let h0 = kh.1;
    let corr = if k0 >= 1 && abs_diff(total / 2, h0) >= abs_diff(
        total / 2,
        h0 - sizes[k0 - 1],
    ) {
        (k0 - 1, h0 - sizes[k0 - 1])
    } else {
        (k0, h0)
    };
    let k1 = corr.0;
    let h1 = corr.1;
    let low = if k1 == 0 {
        (1int, sizes[0] as int)
    } else {
        (k1, h1)
    };
    let k2 = low.0;
    let h2 = low.1;
    if k2 == sizes.len() {
        (sizes.len() - 1, total - sizes[sizes.len() - 1])
    } else {
        (k2, h2)
    }
}

/// Whether the split runs across the width: along the strictly longer
/// side, or by a coin flip for a square.
pub open spec fn split_is_vertical(target: Rect, rng: u64) -> bool {
    target.w > target.h || (target.w == target.h && rng_step(rng) % 2 == 0)
}

/// Fraction `half / total` of a side, as the integer amount kept by the
/// first part; an even split when every size is zero.
pub open spec fn split_amount(side: int, half: int, total: int) -> int {
    if total > 0 {
        side * half / total
    } else {
        side / 2
    }
}

/// The rectangles the layout engine assigns to a run of sizes inside
/// `target`, with the generator state threaded through, exactly as the
/// executable engine computes them.
pub open spec fn layout_spec(sizes: Seq<u64>, target: Rect, rng: u64) -> (Seq<Rect>, u64)
    decreases sizes.len(),
{
    if sizes.len() <= 1 {
        (seq![target], rng)
    } else {
        let total = seq_sum(sizes);
        let kh = split_point(sizes);
        let k = if 1 <= kh.0 <= sizes.len() - 1 {
            kh.0
        } else {
            1int
        };
        let half = kh.1;
        let tie = target.w == target.h;
        let rng1 = if tie {
            rng_step(rng)
        } else {
            rng
        };
        let parts = if split_is_vertical(target, rng) {
            target.spec_hsplit(split_amount(target.w as int, half, total) as u64)
        } else {
            target.spec_vsplit(split_amount(target.h as int, half, total) as u64)
        };
        let left = layout_spec(sizes.take(k), parts.0, rng1);
        let right = layout_spec(sizes.skip(k), parts.1, left.1);
        (left.0 + right.0, right.1)
    }
}

/// Sums of sizes are never negative.
pub proof fn lemma_seq_sum_nonneg(s: Seq<u64>)
    ensures
        seq_sum(s) >= 0,
    decreases s.len(),
{
    if s.len() > 0 {
        lemma_seq_sum_nonneg(s.drop_last());
    }
}

/// A run's sum splits at any point into the sum of the two parts.
pub proof fn lemma_seq_sum_split(s: Seq<u64>, k: int)
    requires
        0 <= k <= s.len(),
    ensures
        seq_sum(s) == seq_sum(s.take(k)) + seq_sum(s.skip(k)),
    decreases s.len(),
{
    if k == s.len() {
        assert(s.take(k) =~= s);
        assert(s.skip(k) =~= Seq::<u64>::empty());
    } else {
        let d = s.drop_last();
        assert(s.take(k) =~= d.take(k));
        assert(s.skip(k).drop_last() =~= d.skip(k));
        assert(s.skip(k).last() == s.last());
        lemma_seq_sum_split(d, k);
    }
}

/// Sums add over concatenation.
pub proof fn lemma_seq_sum_concat(a: Seq<u64>, b: Seq<u64>)
    ensures
        seq_sum(a + b) == seq_sum(a) + seq_sum(b),
    decreases b.len(),
{
    if b.len() == 0 {
        assert(a + b =~= a);
    } else {
        assert((a + b).drop_last() =~= a + b.drop_last());
        assert((a + b).last() == b.last());
        lemma_seq_sum_concat(a, b.drop_last());
    }
}

/// Removing an element takes its value out of the sum.
pub proof fn lemma_seq_sum_remove(s: Seq<u64>, i: int)
    requires
        0 <= i < s.len(),
    ensures
        seq_sum(s.remove(i)) == seq_sum(s) - s[i],
{
    assert(s.remove(i) =~= s.take(i) + s.skip(i + 1));
    lemma_seq_sum_concat(s.take(i), s.skip(i + 1));
    lemma_seq_sum_split(s, i + 1);
    lemma_seq_sum_take_step(s, i);
}

/// Extending a prefix by one element adds that element's size to the sum.
pub proof fn lemma_seq_sum_take_step(s: Seq<u64>, i: int)
    requires
        0 <= i < s.len(),
    ensures
        seq_sum(s.take(i + 1)) == seq_sum(s.take(i)) + s[i],
{
    assert(s.take(i + 1).drop_last() =~= s.take(i));
    assert(s.take(i + 1).last() == s[i]);
}

/// The crossing scan stays within the run and its sum tracks the prefix it
/// has taken.
proof fn lemma_crossing(sizes: Seq<u64>, total: int, i: int, acc: int)
    requires
        0 <= i <= sizes.len(),
        acc == seq_sum(sizes.take(i)),
    ensures
        ({
            let kh = crossing(sizes, total, i, acc);
            &&& i <= kh.0 <= sizes.len()
            &&& (i < sizes.len() ==> i + 1 <= kh.0)
            &&& kh.1 == seq_sum(sizes.take(kh.0))
        }),
    decreases sizes.len() - i,
{
    if 0 <= i < sizes.len() {
        lemma_seq_sum_take_step(sizes, i);
        let acc2 = acc + sizes[i];
        if !(acc2 > total / 2) {
            lemma_crossing(sizes, total, i + 1, acc2);
        }
    }
}

/// The split point keeps both sides non-empty and its sum is the sum of
/// the prefix it cuts off.
pub proof fn lemma_split_point(sizes: Seq<u64>)
    requires
        sizes.len() >= 2,
    ensures
        ({
            let kh = split_point(sizes);
            &&& 1 <= kh.0 <= sizes.len() - 1
            &&& kh.1 == seq_sum(sizes.take(kh.0))
            &&& 0 <= kh.1 <= seq_sum(sizes)
        }),
{
    let total = seq_sum(sizes);
    assert(seq_sum(sizes.take(0)) == 0) by {
        assert(sizes.take(0) =~= Seq::<u64>::empty());
    }
    lemma_crossing(sizes, total, 0, 0);
    let kh = crossing(sizes, total, 0, 0);
    let k0 = kh.0;
    if k0 >= 1 {
        lemma_seq_sum_take_step(sizes, k0 - 1);
    }
    assert(seq_sum(sizes.take(1)) == sizes[0]) by {
        lemma_seq_sum_take_step(sizes, 0);
        assert(sizes.take(0) =~= Seq::<u64>::empty());
    }
    assert(seq_sum(sizes.take(sizes.len() - 1)) == total - sizes[sizes.len() - 1]) by {
        lemma_seq_sum_take_step(sizes, sizes.len() - 1);
        assert(sizes.take(sizes.len() as int) =~= sizes);
    }
    let kf = split_point(sizes);
    lemma_seq_sum_split(sizes, kf.0);
    lemma_seq_sum_nonneg(sizes.take(kf.0));
    lemma_seq_sum_nonneg(sizes.skip(kf.0));
}

/// The amount kept by the first part never exceeds the side.
pub proof fn lemma_split_amount_bounds(side: int, half: int, total: int)
    requires
        side >= 0,
        0 <= half <= total,
    ensures
        0 <= split_amount(side, half, total) <= side,
{
    if total > 0 {
        lemma_mul_nonnegative(side, half);
        lemma_div_is_ordered(0, side * half, total);
        lemma_mul_inequality(half, total, side);
        lemma_div_is_ordered(side * half, side * total, total);
        lemma_div_multiples_vanish(side, total);
    }
}

/// The rectangles assigned to a run tile the target exactly: one rectangle
/// per node, pairwise disjoint, together covering precisely the target.
pub proof fn lemma_layout_partitions(sizes: Seq<u64>, target: Rect, rng: u64)
    requires
        sizes.len() >= 1,
        target.wf(),
    ensures
        ({
            let r = layout_spec(sizes, target, rng);
            &&& r.0.len() == sizes.len()
            &&& partitions(r.0, target)
            &&& forall|i: int| 0 <= i < r.0.len() ==> (#[trigger] r.0[i]).wf()
        }),
    decreases sizes.len(),
{
    if sizes.len() <= 1 {
        lemma_partition_self(target);
    } else {
        let total = seq_sum(sizes);
        lemma_seq_sum_nonneg(sizes);
        lemma_split_point(sizes);
        let kh = split_point(sizes);
        let k = if 1 <= kh.0 <= sizes.len() - 1 {
            kh.0
        } else {
            1int
        };
        let half = kh.1;
        let tie = target.w == target.h;
        let rng1 = if tie {
            rng_step(rng)
        } else {
            rng
        };
        let parts = if split_is_vertical(target, rng) {
            let amt = split_amount(target.w as int, half, total);
            lemma_split_amount_bounds(target.w as int, half, total);
            lemma_hsplit_partitions(target, amt as u64);
            target.spec_hsplit(amt as u64)
        } else {
            let amt = split_amount(target.h as int, half, total);
            lemma_split_amount_bounds(target.h as int, half, total);
            lemma_vsplit_partitions(target, amt as u64);
            target.spec_vsplit(amt as u64)
        };
        lemma_layout_partitions(sizes.take(k), parts.0, rng1);
        let left = layout_spec(sizes.take(k), parts.0, rng1);
        lemma_layout_partitions(sizes.skip(k), parts.1, left.1);
        let right = layout_spec(sizes.skip(k), parts.1, left.1);
        lemma_partition_compose(left.0, right.0, parts.0, parts.1, target);
        assert forall|i: int| 0 <= i < (left.0 + right.0).len() implies (#[trigger] (left.0
            + right.0)[i]).wf() by {
            if i < left.0.len() {
                assert((left.0 + right.0)[i] == left.0[i]);
            } else {
                assert((left.0 + right.0)[i] == right.0[i - left.0.len()]);
            }
        }
    }
}

/// A node as re-placed by the layout engine: only the geometry changes,
/// the outer rectangle to the assigned one and the inner rectangle to its
/// inset.
pub open spec fn with_rects(n: Node, outer: Rect) -> Node {
    Node { outer_rect: outer, inner_rect: outer.spec_shrunk(), ..n }
}

impl Node {
    /// Lays out the run `[lo, hi)` of sibling nodes inside `target`,
    /// assigning each node the rectangle `layout_spec` gives it.  Nodes
    /// outside the run are untouched; the generator is consumed exactly as
    /// the specification threads it.
    /// Total weight of the run `[lo, hi)` of siblings, and its split
    /// point: the corrected, clamped index and the weight of the prefix it
    /// cuts off.
    fn find_split(nodes: &Vec<Node>, lo: usize, hi: usize) -> (r: (u128, usize, u128))
        requires
            lo < hi,
            hi <= nodes.len(),
            hi - lo >= 2,
            seq_sum(sizes_of(nodes@.subrange(lo as int, hi as int))) <= u64::MAX,
        ensures
            ({
                let sz = sizes_of(nodes@.subrange(lo as int, hi as int));
                &&& r.0 == seq_sum(sz)
                &&& (r.1 as int, r.2 as int) == split_point(sz)
                &&& 1 <= r.1 <= hi - lo - 1
                &&& 0 <= r.2 <= seq_sum(sz)
            }),
    {
        let ghost sz = sizes_of(nodes@.subrange(lo as int, hi as int));
        proof {
            lemma_seq_sum_nonneg(sz);
        }
        proof {
            lemma_seq_sum_nonneg(sz);
        }
        // Total weight of the run.
        let mut total: u128 = 0;
        let mut i: usize = lo;
        while i < hi
            invariant
                lo <= i <= hi,
                hi <= nodes.len(),
                sz == sizes_of(nodes@.subrange(lo as int, hi as int)),
                total == seq_sum(sz.take(i - lo)),
                seq_sum(sz) <= u64::MAX,
            decreases hi - i,
        {
            proof {
                lemma_seq_sum_take_step(sz, i - lo);
                lemma_seq_sum_split(sz, i - lo + 1);
                lemma_seq_sum_nonneg(sz.skip(i - lo + 1));
                lemma_seq_sum_nonneg(sz.take(i - lo));
                assert(sz[i - lo] == nodes@.subrange(lo as int, hi as int)[i - lo].size);
            }
            total = total + nodes[i].size as u128;
            i = i + 1;
        }
        proof {
            assert(sz.take(hi - lo) =~= sz);
        }
        // Scan for the index where the running sum first exceeds half of
        // the total.
        let mut half: u128 = 0;
        let mut k: usize = 0;
        let mut j: usize = lo;
        proof {
            assert(sz.take(0) =~= Seq::<u64>::empty());
        }
        while j < hi
            invariant_except_break
                lo <= j <= hi,
                hi - lo >= 2,
                k == j - lo,
                hi <= nodes.len(),
                sz == sizes_of(nodes@.subrange(lo as int, hi as int)),
                total == seq_sum(sz),
                seq_sum(sz) <= u64::MAX,
                half == seq_sum(sz.take(k as int)),
                crossing(sz, total as int, 0, 0) == crossing(sz, total as int, k as int, half as int),
            ensures
                    1 <= k <= hi - lo,
                half == seq_sum(sz.take(k as int)),
                (k as int, half as int) == crossing(sz, total as int, 0, 0),
            decreases hi - j,
        {
            proof {
                lemma_seq_sum_take_step(sz, k as int);
                lemma_seq_sum_split(sz, k + 1 as int);
                lemma_seq_sum_nonneg(sz.skip(k + 1 as int));
                lemma_seq_sum_nonneg(sz.take(k as int));
                assert(sz[k as int] == nodes@.subrange(lo as int, hi as int)[k as int].size);
            }
            let s: u64 = nodes[j].size;
            half = half + s as u128;
            j = j + 1;
            k = k + 1;
            if half > total / 2 {
                break ;
            }
        }
        // Correct the index by one if excluding the crossing element lands
        // at least as close to the midpoint; ties prefer excluding.
        let half_target: u128 = total / 2;
        proof {
            lemma_seq_sum_take_step(sz, k - 1);
            lemma_seq_sum_nonneg(sz.take(k - 1));
            assert(sz[k - 1] == nodes@.subrange(lo as int, hi as int)[k - 1].size);
        }
        let prev: u64 = nodes[lo + k - 1].size;
        let excl: u128 = half - prev as u128;
        let d_keep: u128 = if half >= half_target {
            half - half_target
        } else {
            half_target - half
        };
        let d_excl: u128 = if excl >= half_target {
            excl - half_target
        } else {
            half_target - excl
        };
        if d_keep >= d_excl {
            k = k - 1;
            half = excl;
        }
        // Clamp so that both halves of the split are non-empty.
        if k == 0 {
            proof {
                lemma_seq_sum_take_step(sz, 0);
                assert(sz.take(0) =~= Seq::<u64>::empty());
                assert(sz[0] == nodes@.subrange(lo as int, hi as int)[0].size);
            }
            k = 1;
            half = nodes[lo].size as u128;
        }
        if k == hi - lo {
            proof {
                lemma_seq_sum_take_step(sz, sz.len() - 1);
                lemma_seq_sum_nonneg(sz.take(sz.len() - 1));
                assert(sz.take(sz.len() as int) =~= sz);
                assert(sz[sz.len() - 1] == nodes@.subrange(lo as int, hi as int)[sz.len()
                    - 1].size);
            }
            k = k - 1;
            let last: u64 = nodes[hi - 1].size;
            half = total - last as u128;
        }
        proof {
            lemma_split_point(sz);
            assert((k as int, half as int) == split_point(sz));
        }
        (total, k, half)
    }

    pub fn place_children(
        nodes: &mut Vec<Node>,
        lo: usize,
        hi: usize,
        target: Rect,
        rng: &mut SplitRng,
    )
        requires
            lo < hi,
            hi <= old(nodes).len(),
            target.wf(),
            seq_sum(sizes_of(old(nodes)@.subrange(lo as int, hi as int))) <= u64::MAX,
        ensures
            final(nodes).len() == old(nodes).len(),
            forall|i: int|
                0 <= i < old(nodes).len() && !(lo <= i < hi) ==> final(nodes)@[i] == old(
                    nodes,
                )@[i],
            ({
                let r = layout_spec(
                    sizes_of(old(nodes)@.subrange(lo as int, hi as int)),
                    target,
                    old(rng).state,
                );
                &&& final(rng).state == r.1
                &&& forall|i: int|
                    lo <= i < hi ==> final(nodes)@[i] == with_rects(old(nodes)@[i], r.0[i - lo])
            }),
        decreases hi - lo,
    {
        let ghost sz = sizes_of(old(nodes)@.subrange(lo as int, hi as int));
        if hi - lo == 1 {
            let inner = target.shrunk();
            let node: &mut Node = &mut nodes[lo];
            node.outer_rect = target;
            node.inner_rect = inner;
            proof {
                assert(sz.len() == 1);
                assert(layout_spec(sz, target, old(rng).state).0 == seq![target]);
            }
            return ;
        }
        let sp = Self::find_split(nodes, lo, hi);
        let total: u128 = sp.0;
        let k: usize = sp.1;
        let half: u128 = sp.2;
        proof {
            lemma_seq_sum_nonneg(sz);
        }
        // Split across the longer side; a coin flip for a square.
        let ghost rng0 = rng.state;
        let vertical: bool = target.w > target.h || (target.w == target.h && rng.next_below(2)
            == 0);
        proof {
            assert(vertical == split_is_vertical(target, rng0));
        }
        let parts: (Rect, Rect) = if vertical {
            let amt: u64 = if total > 0 {
                proof {
                    lemma_mul_upper_bound(target.w as int, u64::MAX as int, half as int, u64::MAX as int);
                    lemma_split_amount_bounds(target.w as int, half as int, total as int);
                }
                ((target.w as u128 * half) / total) as u64
            } else {
                target.w / 2
            };
            target.hsplit(amt)
        } else {
            let amt: u64 = if total > 0 {
                proof {
                    lemma_mul_upper_bound(target.h as int, u64::MAX as int, half as int, u64::MAX as int);
                    lemma_split_amount_bounds(target.h as int, half as int, total as int);
                }
                ((target.h as u128 * half) / total) as u64
            } else {
                target.h / 2
            };
            target.vsplit(amt)
        };
        proof {
            lemma_seq_sum_split(sz, k as int);
            lemma_seq_sum_nonneg(sz.take(k as int));
            lemma_seq_sum_nonneg(sz.skip(k as int));
            assert(sizes_of(old(nodes)@.subrange(lo as int, lo + k as int)) =~= sz.take(k as int));
        }
        Self::place_children(nodes, lo, lo + k, parts.0, rng);
        let ghost mid = nodes@;
        let ghost left = layout_spec(
            sz.take(k as int),
            parts.0,
            if target.w == target.h {
                rng_step(rng0)
            } else {
                rng0
            },
        );
        proof {
            assert(sizes_of(mid.subrange(lo + k as int, hi as int)) =~= sz.skip(k as int));
        }
        Self::place_children(nodes, lo + k, hi, parts.1, rng);
        proof {
            let ghost right = layout_spec(sz.skip(k as int), parts.1, left.1);
            let r = layout_spec(sz, target, old(rng).state);
            lemma_layout_partitions(
                sz.take(k as int),
                parts.0,
                if target.w == target.h {
                    rng_step(rng0)
                } else {
                    rng0
                },
            );
            lemma_layout_partitions(sz.skip(k as int), parts.1, left.1);
            assert(r.0 == left.0 + right.0);
            assert forall|i: int| lo <= i < hi implies nodes@[i] == with_rects(
                old(nodes)@[i],
                r.0[i - lo],
            ) by {
                if i < lo + k {
                    assert(nodes@[i] == mid[i]);
                    assert(mid[i] == with_rects(old(nodes)@[i], left.0[i - lo]));
                    assert(r.0[i - lo] == left.0[i - lo]);
                } else {
                    assert(mid[i] == old(nodes)@[i]);
                    assert(nodes@[i] == with_rects(mid[i], right.0[i - lo - k]));
                    assert(r.0[i - lo] == right.0[i - lo - k]);
                }
            }
        }
    }
}

/// A single node receives the entire target rectangle.
pub proof fn lemma_single_child_gets_target(sizes: Seq<u64>, target: Rect, rng: u64)
    requires
        sizes.len() == 1,
    ensures
        layout_spec(sizes, target, rng).0 == seq![target],
        layout_spec(sizes, target, rng).1 == rng,
{
}

/// The split axis: across the width when the width is strictly longer,
/// across the height when the height is, and by a coin flip of the
/// injected generator for a square.
pub proof fn lemma_split_axis_longer(target: Rect, rng: u64)
    ensures
        target.w > target.h ==> split_is_vertical(target, rng),
        target.h > target.w ==> !split_is_vertical(target, rng),
        target.w == target.h ==> split_is_vertical(target, rng) == (rng_step(rng) % 2 == 0),
{
}

} // verus!
