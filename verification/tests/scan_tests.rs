use fsviz::node::Node;
use fsviz::rng::SplitRng;
use fsviz::scan::FsEntry;
use fsviz::scan::FsTree;
use fsviz::scan::ScanLog;
use fsviz::tree::Message;

fn file(name: &str, size: u64) -> FsEntry {
    FsEntry { name: name.as_bytes().to_vec(), tree: FsTree::File { size } }
}

fn dir(name: &str, entries: Vec<FsEntry>) -> FsEntry {
    FsEntry { name: name.as_bytes().to_vec(), tree: FsTree::Dir { entries } }
}

fn unreadable(name: &str) -> FsEntry {
    FsEntry { name: name.as_bytes().to_vec(), tree: FsTree::Unreadable }
}

fn scan(fs: &FsTree, path: &str) -> (Option<Node>, ScanLog) {
    let mut rng = SplitRng::new(7);
    let mut log = ScanLog::new();
    let n = Node::new(fs, &path.as_bytes().to_vec(), &mut rng, &mut log);
    (n, log)
}

fn denied_paths(log: &ScanLog) -> Vec<Vec<u8>> {
    let mut out = Vec::new();
    for m in log.events.iter() {
        if let Message::Denied(p) = m {
            out.push(p.clone());
        }
    }
    out
}

fn progress_values(log: &ScanLog) -> Vec<u64> {
    let mut out = Vec::new();
    for m in log.events.iter() {
        if let Message::Progress(b) = m {
            out.push(*b);
        }
    }
    out
}

#[test]
fn scans_single_file() {
    let fs = FsTree::File { size: 123 };
    let (n, log) = scan(&fs, "/tmp/a.txt");
    let n = n.unwrap();
    assert_eq!(n.size, 123);
    assert_eq!(n.bytes(), 123);
    assert_eq!(n.name, b"a.txt".to_vec());
    assert_eq!(n.path_prefix, b"/tmp/".to_vec());
    assert_eq!(n.get_full_path(), b"/tmp/a.txt".to_vec());
    assert!(n.children.is_empty());
    assert!(!n.expanded);
    assert!(!n.hovered);
    assert_eq!(log.bytes, 123);
    assert!(log.events.is_empty());
}

#[test]
fn directory_sums_and_sorts_ascending() {
    let fs = FsTree::Dir {
        entries: vec![file("c", 300), file("a", 100), file("b", 200)],
    };
    let (n, log) = scan(&fs, "/d");
    let n = n.unwrap();
    assert_eq!(n.size, 600);
    assert_eq!(n.children.len(), 3);
    let sizes: Vec<u64> = n.children.iter().map(|c| c.size).collect();
    assert_eq!(sizes, vec![100, 200, 300]);
    let names: Vec<Vec<u8>> = n.children.iter().map(|c| c.name.clone()).collect();
    assert_eq!(names, vec![b"a".to_vec(), b"b".to_vec(), b"c".to_vec()]);
    assert_eq!(n.children[0].get_full_path(), b"/d/a".to_vec());
    assert_eq!(log.bytes, 600);
    assert_eq!(progress_values(&log), vec![600]);
}

#[test]
fn denied_entry_contributes_zero_and_is_no_node() {
    let fs = FsTree::Dir {
        entries: vec![file("a", 100), unreadable("locked"), file("b", 50)],
    };
    let (n, log) = scan(&fs, "/d");
    let n = n.unwrap();
    assert_eq!(n.size, 150);
    assert_eq!(n.children.len(), 2);
    assert!(n.children.iter().all(|c| c.name != b"locked".to_vec()));
    assert_eq!(denied_paths(&log), vec![b"/d/locked".to_vec()]);
}

#[test]
fn unreadable_root_gives_none() {
    let fs = FsTree::Unreadable;
    let (n, log) = scan(&fs, "/x");
    assert!(n.is_none());
    assert_eq!(denied_paths(&log), vec![b"/x".to_vec()]);
    assert_eq!(log.bytes, 0);
}

#[test]
fn progress_is_cumulative_and_monotone() {
    let fs = FsTree::Dir {
        entries: vec![
            dir("sub1", vec![file("a", 10), file("b", 20)]),
            dir("sub2", vec![file("c", 5)]),
            file("top", 7),
        ],
    };
    let (n, log) = scan(&fs, "/root");
    let n = n.unwrap();
    assert_eq!(n.size, 42);
    let ps = progress_values(&log);
    // One report per directory, post-order: sub1, sub2, then the root.
    assert_eq!(ps, vec![30, 35, 42]);
    for w in ps.windows(2) {
        assert!(w[0] <= w[1]);
    }
    assert_eq!(log.bytes, 42);
}

#[test]
fn empty_directory_weighs_nothing() {
    let fs = FsTree::Dir { entries: vec![] };
    let (n, _log) = scan(&fs, "/empty");
    let n = n.unwrap();
    assert_eq!(n.size, 0);
    assert!(n.children.is_empty());
}

#[test]
fn path_without_separator_gets_placeholder_name() {
    let fs = FsTree::File { size: 1 };
    let (n, _log) = scan(&fs, "C:");
    let n = n.unwrap();
    assert_eq!(n.name, b"-".to_vec());
    assert_eq!(n.path_prefix, b"C:".to_vec());
    assert_eq!(n.get_full_path(), b"C:-".to_vec());
}

#[test]
fn trailing_slash_is_stripped() {
    let fs = FsTree::Dir { entries: vec![file("a", 4)] };
    let (n, _log) = scan(&fs, "/tmp/");
    let n = n.unwrap();
    assert_eq!(n.name, b"tmp".to_vec());
    assert_eq!(n.path_prefix, b"/".to_vec());
    assert_eq!(n.children[0].get_full_path(), b"/tmp/a".to_vec());
}

#[test]
fn backslash_separators_split_names() {
    let fs = FsTree::File { size: 9 };
    let (n, _log) = scan(&fs, "C:\\dir\\file.bin");
    let n = n.unwrap();
    assert_eq!(n.name, b"file.bin".to_vec());
    assert_eq!(n.path_prefix, b"C:\\dir\\".to_vec());
}

fn check_colors(n: &Node) {
    assert!(n.color.h < 1000);
    assert!(n.color.s >= 400 && n.color.s <= 1000);
    if n.children.is_empty() {
        assert!(n.color.v == 150 || n.color.v == 1000);
    } else {
        assert_eq!(n.color.v, 1000);
    }
    for c in n.children.iter() {
        check_colors(c);
    }
}

#[test]
fn colors_stay_in_range() {
    let fs = FsTree::Dir {
        entries: vec![dir("s", vec![file("a", 1), file("b", 2)]), file("c", 3)],
    };
    let (n, _log) = scan(&fs, "/r");
    check_colors(&n.unwrap());
}

fn terminal_sum(n: &Node) -> u64 {
    if n.children.is_empty() {
        n.size
    } else {
        n.children.iter().map(terminal_sum).sum()
    }
}

#[test]
fn root_size_is_sum_of_terminal_descendants() {
    let fs = FsTree::Dir {
        entries: vec![
            dir(
                "x",
                vec![dir("y", vec![file("f1", 11), file("f2", 22)]), file("f3", 33)],
            ),
            file("f4", 44),
            unreadable("nope"),
            dir("empty", vec![]),
        ],
    };
    let (n, _log) = scan(&fs, "/r");
    let n = n.unwrap();
    assert_eq!(n.size, 110);
    assert_eq!(terminal_sum(&n), n.size);
}
