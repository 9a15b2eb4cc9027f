use fsviz::node::Node;
use fsviz::rect::Rect;
use fsviz::rng::SplitRng;
use fsviz::scan::FsEntry;
use fsviz::scan::FsTree;
use fsviz::scan::ScanLog;

fn file(name: &str, size: u64) -> FsEntry {
    FsEntry { name: name.as_bytes().to_vec(), tree: FsTree::File { size } }
}

fn dir(name: &str, entries: Vec<FsEntry>) -> FsEntry {
    FsEntry { name: name.as_bytes().to_vec(), tree: FsTree::Dir { entries } }
}

/// Scans a snapshot and seeds the root's geometry, as the session does on
/// completion.
fn ready_tree(fs: &FsTree, path: &str) -> Node {
    let mut rng = SplitRng::new(77);
    let mut log = ScanLog::new();
    let mut root = Node::new(fs, &path.as_bytes().to_vec(), &mut rng, &mut log).unwrap();
    let target = Rect { x: 0, y: 0, w: 1000, h: 1000 };
    root.outer_rect = target;
    root.inner_rect = target.shrunk();
    root
}

fn all_collapsed(n: &Node) -> bool {
    !n.expanded && n.children.iter().all(all_collapsed)
}

fn sample_fs() -> FsTree {
    FsTree::Dir {
        entries: vec![
            dir("small", vec![file("a", 100), file("b", 100)]),
            file("big", 800),
        ],
    }
}

#[test]
fn left_click_expands_and_lays_children_out() {
    let mut root = ready_tree(&sample_fs(), "/r");
    let mut rng = SplitRng::new(5);
    let inner = root.inner_rect;
    let (tip, creq) = root.handle_mouse(500, 500, true, false, &mut rng);
    assert!(!creq);
    assert_eq!(tip, Some(b"/r".to_vec()));
    assert!(root.expanded);
    assert!(root.hovered);
    // The children tile the inner rectangle exactly.
    let area: u128 = root
        .children
        .iter()
        .map(|c| c.outer_rect.w as u128 * c.outer_rect.h as u128)
        .sum();
    assert_eq!(area, inner.w as u128 * inner.h as u128);
    for c in root.children.iter() {
        assert!(c.outer_rect.x >= inner.x && c.outer_rect.y >= inner.y);
        assert!(c.outer_rect.x + c.outer_rect.w <= inner.x + inner.w);
        assert!(c.outer_rect.y + c.outer_rect.h <= inner.y + inner.h);
        assert!(!c.expanded);
    }
}

#[test]
fn click_without_hover_changes_nothing() {
    let mut root = ready_tree(&sample_fs(), "/r");
    let mut rng = SplitRng::new(5);
    let (tip, creq) = root.handle_mouse(2000, 2000, true, false, &mut rng);
    assert_eq!(tip, None);
    assert!(!creq);
    assert!(!root.expanded);
    assert!(!root.hovered);
}

#[test]
fn file_leaf_never_expands() {
    let mut root = ready_tree(&FsTree::File { size: 9 }, "/f");
    let mut rng = SplitRng::new(5);
    let (tip, _) = root.handle_mouse(10, 10, true, false, &mut rng);
    assert_eq!(tip, Some(b"/f".to_vec()));
    assert!(!root.expanded);
}

#[test]
fn deepest_hovered_node_supplies_the_tooltip() {
    let mut root = ready_tree(&sample_fs(), "/r");
    let mut rng = SplitRng::new(5);
    root.handle_mouse(500, 500, true, false, &mut rng);
    // Pick the center of a child and hover there on the next tick.
    let c = &root.children[root.children.len() - 1];
    let (px, py) = (c.outer_rect.x + c.outer_rect.w / 2, c.outer_rect.y + c.outer_rect.h / 2);
    let expected = c.get_full_path();
    let (tip, creq) = root.handle_mouse(px, py, false, false, &mut rng);
    assert!(!creq);
    assert_eq!(tip, Some(expected));
    assert!(!root.hovered);
    let hovered: Vec<&Node> = root.children.iter().filter(|c| c.hovered).collect();
    assert_eq!(hovered.len(), 1);
}

#[test]
fn border_band_reports_the_container() {
    let mut root = ready_tree(&sample_fs(), "/r");
    let mut rng = SplitRng::new(5);
    root.handle_mouse(500, 500, true, false, &mut rng);
    // Between the outer edge and the inner rectangle of the expanded
    // root: the container itself is the tooltip target.
    let (tip, _) = root.handle_mouse(10, 10, false, false, &mut rng);
    assert_eq!(tip, Some(b"/r".to_vec()));
}

#[test]
fn right_click_on_hovered_child_collapses_the_parent() {
    let mut root = ready_tree(&sample_fs(), "/r");
    let mut rng = SplitRng::new(5);
    root.handle_mouse(500, 500, true, false, &mut rng);
    assert!(root.expanded);
    let c = &root.children[0];
    let (px, py) = (c.outer_rect.x + c.outer_rect.w / 2, c.outer_rect.y + c.outer_rect.h / 2);
    let (_, creq) = root.handle_mouse(px, py, false, true, &mut rng);
    // The root handles the request itself; nothing propagates higher.
    assert!(!creq);
    assert!(all_collapsed(&root));
}

#[test]
fn collapse_propagates_to_every_descendant() {
    let fs = FsTree::Dir {
        entries: vec![
            dir("d1", vec![dir("d2", vec![file("a", 10), file("b", 20)]), file("c", 30)]),
            file("top", 900),
        ],
    };
    let mut root = ready_tree(&fs, "/r");
    let mut rng = SplitRng::new(5);
    // Expand the root, then expand the directory child, then one deeper.
    root.handle_mouse(500, 500, true, false, &mut rng);
    let d1_center = {
        let d1 = root.children.iter().find(|c| c.name == b"d1".to_vec()).unwrap();
        (d1.outer_rect.x + d1.outer_rect.w / 2, d1.outer_rect.y + d1.outer_rect.h / 2)
    };
    root.handle_mouse(d1_center.0, d1_center.1, true, false, &mut rng);
    let d2_center = {
        let d1 = root.children.iter().find(|c| c.name == b"d1".to_vec()).unwrap();
        let d2 = d1.children.iter().find(|c| c.name == b"d2".to_vec()).unwrap();
        (d2.outer_rect.x + d2.outer_rect.w / 2, d2.outer_rect.y + d2.outer_rect.h / 2)
    };
    root.handle_mouse(d2_center.0, d2_center.1, true, false, &mut rng);
    {
        let d1 = root.children.iter().find(|c| c.name == b"d1".to_vec()).unwrap();
        let d2 = d1.children.iter().find(|c| c.name == b"d2".to_vec()).unwrap();
        assert!(d2.expanded);
    }
    // Right-click a collapsed leaf inside d2: the request is handled by
    // the expanded node walking it, so d2 collapses together with every
    // descendant, at any depth, and nothing above it changes.
    let leaf_center = {
        let d1 = root.children.iter().find(|c| c.name == b"d1".to_vec()).unwrap();
        let d2 = d1.children.iter().find(|c| c.name == b"d2".to_vec()).unwrap();
        let a = d2.children.iter().find(|c| c.name == b"a".to_vec()).unwrap();
        (a.outer_rect.x + a.outer_rect.w / 2, a.outer_rect.y + a.outer_rect.h / 2)
    };
    root.handle_mouse(leaf_center.0, leaf_center.1, false, true, &mut rng);
    let d1 = root.children.iter().find(|c| c.name == b"d1".to_vec()).unwrap();
    assert!(root.expanded);
    assert!(d1.expanded, "only the clicked leaf's expanded walker collapses");
    let d2 = d1.children.iter().find(|c| c.name == b"d2".to_vec()).unwrap();
    assert!(all_collapsed(d2));
}

#[test]
fn hover_is_recomputed_every_tick() {
    let mut root = ready_tree(&sample_fs(), "/r");
    let mut rng = SplitRng::new(5);
    root.handle_mouse(500, 500, false, false, &mut rng);
    assert!(root.hovered);
    root.handle_mouse(1500, 1500, false, false, &mut rng);
    assert!(!root.hovered);
}

#[test]
fn collapse_recursive_clears_the_subtree() {
    let mut root = ready_tree(&sample_fs(), "/r");
    let mut rng = SplitRng::new(5);
    root.handle_mouse(500, 500, true, false, &mut rng);
    assert!(root.expanded);
    root.collapse_recursive();
    assert!(all_collapsed(&root));
}
