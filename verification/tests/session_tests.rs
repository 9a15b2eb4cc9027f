use fsviz::rect::Rect;
use fsviz::rect::UNIT;
use fsviz::scan::FsEntry;
use fsviz::scan::FsTree;
use fsviz::tree::Message;
use fsviz::tree::Tree;
use fsviz::tree::run_scan;

fn file(name: &str, size: u64) -> FsEntry {
    FsEntry { name: name.as_bytes().to_vec(), tree: FsTree::File { size } }
}

fn dir(name: &str, entries: Vec<FsEntry>) -> FsEntry {
    FsEntry { name: name.as_bytes().to_vec(), tree: FsTree::Dir { entries } }
}

#[test]
fn scan_request_while_processing_is_ignored() {
    let mut tree = Tree::Empty;
    let sender = tree.scan();
    assert!(sender.is_some());
    assert!(tree.is_processing());
    // A second request while one is in flight: no new channel, no state
    // change.
    let second = tree.scan();
    assert!(second.is_none());
    assert!(tree.is_processing());
    // The session stays in flight across ticks with nothing to drain.
    let mut denied: Vec<Vec<u8>> = Vec::new();
    assert!(!tree.process(&mut denied));
    assert!(tree.is_processing());
    assert!(denied.is_empty());
}

#[test]
fn full_session_reaches_ready() {
    let fs = FsTree::Dir {
        entries: vec![
            dir("sub", vec![file("a", 10), file("b", 20)]),
            file("c", 12),
        ],
    };
    let mut tree = Tree::Empty;
    let sender = tree.scan().unwrap();
    let delivered = run_scan(&fs, &b"/root".to_vec(), 11, &sender);
    assert!(delivered);
    let mut denied: Vec<Vec<u8>> = Vec::new();
    let finished = tree.process(&mut denied);
    assert!(finished);
    assert!(!tree.is_processing());
    match &tree {
        Tree::Ready(root, bytes, files) => {
            assert_eq!(root.size, 42);
            assert_eq!(*bytes, 42);
            // Two directories reported progress; each advances the file
            // counter by one reporting step.
            assert_eq!(*files, 200);
            // The root was laid out into the unit square on completion.
            assert_eq!(root.outer_rect, Rect { x: 0, y: 0, w: UNIT, h: UNIT });
            let m = UNIT / 20;
            assert_eq!(
                root.inner_rect,
                Rect { x: m, y: m, w: UNIT - 2 * m, h: UNIT - 2 * m }
            );
        }
        _ => panic!("session should be ready"),
    }
    assert!(denied.is_empty());
}

#[test]
fn failed_scan_empties_the_session() {
    let mut tree = Tree::Empty;
    let sender = tree.scan().unwrap();
    let delivered = run_scan(&FsTree::Unreadable, &b"/locked".to_vec(), 1, &sender);
    assert!(delivered);
    let mut denied: Vec<Vec<u8>> = Vec::new();
    let finished = tree.process(&mut denied);
    assert!(!finished);
    assert!(matches!(tree, Tree::Empty));
    assert_eq!(denied, vec![b"/locked".to_vec()]);
}

#[test]
fn denied_paths_reach_the_list_mid_scan() {
    let fs = FsTree::Dir {
        entries: vec![
            file("ok", 5),
            FsEntry { name: b"secret".to_vec(), tree: FsTree::Unreadable },
        ],
    };
    let mut tree = Tree::Empty;
    let sender = tree.scan().unwrap();
    assert!(run_scan(&fs, &b"/d".to_vec(), 2, &sender));
    let mut denied: Vec<Vec<u8>> = Vec::new();
    assert!(tree.process(&mut denied));
    assert_eq!(denied, vec![b"/d/secret".to_vec()]);
    match &tree {
        Tree::Ready(root, bytes, _) => {
            assert_eq!(root.size, 5);
            assert_eq!(*bytes, 5);
        }
        _ => panic!("session should be ready"),
    }
}

#[test]
fn counters_update_before_the_terminal_message() {
    let mut tree = Tree::Empty;
    let sender = tree.scan().unwrap();
    sender.send(Message::Denied(b"/d/x".to_vec())).unwrap();
    sender.send(Message::Progress(77)).unwrap();
    let mut denied: Vec<Vec<u8>> = Vec::new();
    let finished = tree.process(&mut denied);
    assert!(!finished);
    assert_eq!(denied, vec![b"/d/x".to_vec()]);
    match &tree {
        Tree::Processing(bytes, files, _) => {
            assert_eq!(*bytes, 77);
            assert_eq!(*files, 100);
        }
        _ => panic!("session should still be in flight"),
    }
}

#[test]
fn totals_freeze_at_the_terminal_message() {
    // A progress report drained after the terminal message no longer
    // changes the totals the finished session displays.
    let mut tree = Tree::Empty;
    let sender = tree.scan().unwrap();
    sender.send(Message::Progress(10)).unwrap();
    sender.send(Message::Finished(None)).unwrap();
    sender.send(Message::Progress(99)).unwrap();
    let mut denied: Vec<Vec<u8>> = Vec::new();
    let finished = tree.process(&mut denied);
    assert!(!finished);
    assert!(matches!(tree, Tree::Empty));

    let mut tree = Tree::Empty;
    let sender = tree.scan().unwrap();
    let mut rng = fsviz::rng::SplitRng::new(3);
    let mut log = fsviz::scan::ScanLog::new();
    let root = fsviz::node::Node::new(
        &FsTree::File { size: 7 },
        &b"/f".to_vec(),
        &mut rng,
        &mut log,
    );
    sender.send(Message::Progress(10)).unwrap();
    sender.send(Message::Finished(root)).unwrap();
    sender.send(Message::Progress(99)).unwrap();
    assert!(tree.process(&mut denied));
    match &tree {
        Tree::Ready(_, bytes, files) => {
            assert_eq!(*bytes, 10);
            assert_eq!(*files, 100);
        }
        _ => panic!("session should be ready"),
    }
}

#[test]
fn process_outside_a_scan_does_nothing() {
    let mut denied: Vec<Vec<u8>> = Vec::new();
    let mut tree = Tree::Empty;
    assert!(!tree.process(&mut denied));
    assert!(matches!(tree, Tree::Empty));

    // And on a finished session the tree is kept as it is.
    let mut tree = Tree::Empty;
    let sender = tree.scan().unwrap();
    assert!(run_scan(&FsTree::File { size: 3 }, &b"/f".to_vec(), 4, &sender));
    assert!(tree.process(&mut denied));
    assert!(!tree.process(&mut denied));
    assert!(matches!(tree, Tree::Ready(_, _, _)));
    assert!(denied.is_empty());
}

#[test]
fn a_new_scan_discards_a_ready_tree() {
    let mut tree = Tree::Empty;
    let sender = tree.scan().unwrap();
    assert!(run_scan(&FsTree::File { size: 3 }, &b"/f".to_vec(), 4, &sender));
    let mut denied: Vec<Vec<u8>> = Vec::new();
    assert!(tree.process(&mut denied));
    assert!(matches!(tree, Tree::Ready(_, _, _)));
    let again = tree.scan();
    assert!(again.is_some());
    assert!(tree.is_processing());
}

#[test]
fn oversized_directory_is_denied() {
    // Two files that together exceed the size type: the directory cannot
    // report a faithful total and is treated as unreadable.
    let fs = FsTree::Dir {
        entries: vec![file("a", u64::MAX), file("b", u64::MAX)],
    };
    let mut tree = Tree::Empty;
    let sender = tree.scan().unwrap();
    assert!(run_scan(&fs, &b"/big".to_vec(), 5, &sender));
    let mut denied: Vec<Vec<u8>> = Vec::new();
    let finished = tree.process(&mut denied);
    assert!(!finished);
    assert!(matches!(tree, Tree::Empty));
    assert_eq!(denied, vec![b"/big".to_vec()]);
}
