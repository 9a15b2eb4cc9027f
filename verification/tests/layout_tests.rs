use fsviz::node::Hsv;
use fsviz::node::Node;
use fsviz::rect::Rect;
use fsviz::rect::UNIT;
use fsviz::rng::SplitRng;
use fsviz::scan::FsEntry;
use fsviz::scan::FsTree;
use fsviz::scan::ScanLog;

fn leaf(size: u64) -> Node {
    Node {
        path_prefix: Vec::new(),
        name: Vec::new(),
        size,
        children: Vec::new(),
        outer_rect: Rect { x: 0, y: 0, w: 0, h: 0 },
        inner_rect: Rect { x: 0, y: 0, w: 0, h: 0 },
        expanded: false,
        hovered: false,
        color: Hsv { h: 0, s: 400, v: 150 },
    }
}

fn rect(x: u64, y: u64, w: u64, h: u64) -> Rect {
    Rect { x, y, w, h }
}

fn place(sizes: &[u64], target: Rect, seed: u64) -> Vec<Rect> {
    let mut nodes: Vec<Node> = sizes.iter().map(|s| leaf(*s)).collect();
    let mut rng = SplitRng::new(seed);
    let hi = nodes.len();
    Node::place_children(&mut nodes, 0, hi, target, &mut rng);
    nodes.iter().map(|n| n.outer_rect).collect()
}

fn overlap(a: &Rect, b: &Rect) -> bool {
    a.x < b.x + b.w && b.x < a.x + a.w && a.y < b.y + b.h && b.y < a.y + a.h
}

fn inside(outer: &Rect, inner: &Rect) -> bool {
    inner.x >= outer.x
        && inner.y >= outer.y
        && inner.x + inner.w <= outer.x + outer.w
        && inner.y + inner.h <= outer.y + outer.h
}

#[test]
fn single_node_receives_entire_target() {
    let target = rect(10, 20, 1000, 600);
    let rects = place(&[5], target, 1);
    assert_eq!(rects.len(), 1);
    assert_eq!(rects[0], target);
}

#[test]
fn single_node_inner_rect_is_inset_by_margin() {
    let target = rect(0, 0, 1000, 600);
    let mut nodes = vec![leaf(5)];
    let mut rng = SplitRng::new(1);
    Node::place_children(&mut nodes, 0, 1, target, &mut rng);
    // Margin: one twentieth of the shorter side (600 / 20 = 30).
    assert_eq!(nodes[0].inner_rect, rect(30, 30, 940, 540));
}

#[test]
fn splits_along_strictly_longer_axis() {
    // Wider than tall: the split must run across the width, whatever the
    // generator says.
    for seed in 1..50u64 {
        let rects = place(&[1, 1], rect(0, 0, 800, 400), seed);
        assert_eq!(rects[0], rect(0, 0, 400, 400));
        assert_eq!(rects[1], rect(400, 0, 400, 400));
    }
    // Taller than wide: across the height.
    for seed in 1..50u64 {
        let rects = place(&[1, 1], rect(0, 0, 400, 800), seed);
        assert_eq!(rects[0], rect(0, 0, 400, 400));
        assert_eq!(rects[1], rect(0, 400, 400, 400));
    }
}

#[test]
fn square_splits_both_ways_evenly() {
    // For a square the axis comes from the injected generator: over many
    // trials both axes must occur in roughly equal shares.
    let mut nodes = vec![leaf(1), leaf(1)];
    let mut rng = SplitRng::new(42);
    let target = rect(0, 0, 1000, 1000);
    let mut vertical = 0u32;
    let trials = 1000u32;
    for _ in 0..trials {
        Node::place_children(&mut nodes, 0, 2, target, &mut rng);
        if nodes[0].outer_rect == rect(0, 0, 500, 1000) {
            vertical += 1;
        } else {
            assert_eq!(nodes[0].outer_rect, rect(0, 0, 1000, 500));
        }
    }
    assert!(vertical >= 400 && vertical <= 600, "vertical splits: {vertical}");
}

#[test]
fn tie_break_prefers_excluding_the_crossing_element() {
    // Sizes 100, 300, 100: the running sum crosses half the total (250)
    // at the second element with 400; |250-400| = |250-100| = 150 ties,
    // so the crossing element is excluded and the split lands after the
    // first element, 100 against 400.
    let rects = place(&[100, 300, 100], rect(0, 0, 1000, 999), 3);
    assert_eq!(rects[0], rect(0, 0, 200, 999));
    // The 300 and 100 share the remaining four fifths, stacked across
    // the height of their 800 x 999 strip: 999 * 300 / 400 = 749.
    assert_eq!(rects[1], rect(200, 0, 800, 749));
    assert_eq!(rects[2], rect(200, 749, 800, 250));
}

#[test]
fn scanned_sizes_split_two_hundred_to_three_hundred() {
    // A directory of files weighing 100, 100 and 300 bytes: sorted
    // ascending, the crossing lands at 500 and stepping back to 200 is
    // closer to the midpoint, so the {100, 100} group is proportioned
    // 200:300 against the {300} node.
    let fs = FsTree::Dir {
        entries: vec![
            FsEntry { name: b"a".to_vec(), tree: FsTree::File { size: 100 } },
            FsEntry { name: b"b".to_vec(), tree: FsTree::File { size: 100 } },
            FsEntry { name: b"c".to_vec(), tree: FsTree::File { size: 300 } },
        ],
    };
    let mut rng = SplitRng::new(9);
    let mut log = ScanLog::new();
    let mut root = Node::new(&fs, &b"/d".to_vec(), &mut rng, &mut log).unwrap();
    let target = rect(0, 0, 1000, 999);
    let hi = root.children.len();
    Node::place_children(&mut root.children, 0, hi, target, &mut rng);
    // Width splits 1000 * 200 / 500 = 400 for the two small files.
    assert_eq!(root.children[2].outer_rect, rect(400, 0, 600, 999));
    // The two small files split their 400 x 999 strip across its height:
    // 999 * 100 / 200 = 499.
    assert_eq!(root.children[0].outer_rect, rect(0, 0, 400, 499));
    assert_eq!(root.children[1].outer_rect, rect(0, 499, 400, 500));
}

#[test]
fn rectangles_tile_the_target_exactly() {
    let target = rect(7, 11, 997, 641);
    let sizes = [3u64, 9, 27, 81, 1, 243, 5, 60, 60];
    let rects = place(&sizes, target, 12345);
    assert_eq!(rects.len(), sizes.len());
    let area: u128 = rects.iter().map(|r| r.w as u128 * r.h as u128).sum();
    assert_eq!(area, target.w as u128 * target.h as u128);
    for r in rects.iter() {
        assert!(inside(&target, r));
    }
    for i in 0..rects.len() {
        for j in 0..rects.len() {
            if i != j {
                assert!(!overlap(&rects[i], &rects[j]));
            }
        }
    }
}

#[test]
fn all_zero_sizes_still_tile() {
    let target = rect(0, 0, 1000, 640);
    let rects = place(&[0, 0, 0], target, 5);
    let area: u128 = rects.iter().map(|r| r.w as u128 * r.h as u128).sum();
    assert_eq!(area, target.w as u128 * target.h as u128);
}

#[test]
fn unit_square_constant_matches() {
    assert_eq!(UNIT, 1048576);
}
