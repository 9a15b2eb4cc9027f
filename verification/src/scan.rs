//! The scanner: builds the weighted node tree from a filesystem snapshot.
//!
//! The filesystem is abstracted as a snapshot value: a file with its byte
//! length, a directory with its named entries, or a subtree that could not
//! be read (a failed listing or metadata call).  Any conforming producer —
//! the real filesystem walked by the surrounding program, or a value built
//! by hand in a test — feeds the same scanner.  The scan walks the
//! snapshot depth-first, post-order: a file contributes its length, an
//! unreadable path is reported and contributes zero (the walk does not
//! abort), and a directory's children are sorted ascending by size before
//! a progress message carries the cumulative byte total out.

use vstd::prelude::*;

use crate::node::DIR_VALUE;
use crate::node::FILE_VALUE;
use crate::node::HSV_UNIT;
use crate::node::Hsv;
use crate::node::Node;
use crate::node::SAT_MIN;
use crate::node::seq_sum;
use crate::node::sizes_of;
use crate::node::rect_unset;
use crate::node::sorted_by_size;
use crate::rect::Rect;
use crate::rng::SplitRng;
use crate::tree::Message;

verus! {

/// Path separator written between a directory and an entry.
pub const SEP_SLASH: u8 = 47;

/// Alternative separator recognized when splitting a path.
pub const SEP_BACKSLASH: u8 = 92;

/// Placeholder name for a path without any separator.
pub const NAME_PLACEHOLDER: u8 = 45;

/// A filesystem subtree as the scanner sees it.
#[derive(Debug)]
pub enum FsTree {
    /// A file of the given byte length.
    File { size: u64 },
    /// A readable directory and its entries.
    Dir { entries: Vec<FsEntry> },
    /// A path whose listing or metadata could not be read.
    Unreadable,
}

/// A named entry of a directory.
#[derive(Debug)]
pub struct FsEntry {
    pub name: Vec<u8>,
    pub tree: FsTree,
}

pub open spec fn is_sep(b: u8) -> bool {
    b == SEP_SLASH || b == SEP_BACKSLASH
}

/// The path with one trailing slash removed, if any.
pub open spec fn stripped(path: Seq<u8>) -> Seq<u8> {
    if path.len() > 0 && path.last() == SEP_SLASH {
        path.drop_last()
    } else {
        path
    }
}

/// Index of the last separator, or -1.
pub open spec fn last_sep(p: Seq<u8>) -> int
    decreases p.len(),
{
    if p.len() == 0 {
        -1
    } else if is_sep(p.last()) {
        p.len() - 1
    } else {
        last_sep(p.drop_last())
    }
}

/// The parent part of a path: everything up to and including the last
/// separator, or the whole (stripped) path when there is none.
pub open spec fn spec_prefix_of(path: Seq<u8>) -> Seq<u8> {
    let p = stripped(path);
    let i = last_sep(p);
    if i >= 0 {
        p.take(i + 1)
    } else {
        p
    }
}

/// The display name of a path: everything after the last separator, or a
/// placeholder when there is none.
pub open spec fn spec_name_of(path: Seq<u8>) -> Seq<u8> {
    let p = stripped(path);
    let i = last_sep(p);
    if i >= 0 {
        p.skip(i + 1)
    } else {
        seq![NAME_PLACEHOLDER]
    }
}

/// The size the scanner assigns to a subtree: a file's length, the sum of
/// a directory's entries (an unreadable entry contributing zero), or
/// nothing for an unreadable subtree — or for a directory whose sum would
/// not fit the size type, which is treated as unreadable.
pub open spec fn scan_size(fs: FsTree) -> Option<int>
    decreases fs, 1int,
{
    match fs {
        FsTree::File { size } => Some(size as int),
        FsTree::Unreadable => None,
        FsTree::Dir { entries } => {
            let t = entries_size(entries@);
            if t <= u64::MAX {
                Some(t)
            } else {
                None
            }
        },
    }
}

/// Sum of the sizes of a run of entries; unreadable entries count zero.
pub open spec fn entries_size(es: Seq<FsEntry>) -> int
    decreases es, 0int,
{
    if es.len() == 0 {
        0
    } else {
        entries_size(es.drop_last()) + (match scan_size(es.last().tree) {
            Some(s) => s,
            None => 0,
        })
    }
}

/// How many entries of a run produce a node.
pub open spec fn count_ok(es: Seq<FsEntry>) -> int
    decreases es,
{
    if es.len() == 0 {
        0
    } else {
        count_ok(es.drop_last()) + (if scan_size(es.last().tree).is_some() {
            1int
        } else {
            0int
        })
    }
}

/// Saturating add of a file's length onto the cumulative byte counter.
pub open spec fn sat_add(a: int, b: int) -> int {
    if a + b > u64::MAX {
        u64::MAX as int
    } else {
        a + b
    }
}

/// One observable step of a scan, as specification data.
pub enum TraceEvent {
    Denied(Seq<u8>),
    Progress(int),
}

/// The events a scan of `fs` at `path` emits, and the cumulative byte
/// counter afterwards, starting from `b0`: a file only advances the
/// counter, an unreadable path is denied, and a directory emits its
/// subtrees' events followed by one progress report — or by a denial when
/// its sum does not fit the size type.
pub open spec fn scan_trace(fs: FsTree, path: Seq<u8>, b0: int) -> (Seq<TraceEvent>, int)
    decreases fs, 1int,
{
    match fs {
        FsTree::File { size } => (Seq::empty(), sat_add(b0, size as int)),
        FsTree::Unreadable => (seq![TraceEvent::Denied(path)], b0),
        FsTree::Dir { entries } => {
            let sub = entries_trace(entries@, stripped(path), b0);
            if entries_size(entries@) <= u64::MAX {
                (sub.0 + seq![TraceEvent::Progress(sub.1)], sub.1)
            } else {
                (sub.0 + seq![TraceEvent::Denied(path)], sub.1)
            }
        },
    }
}

/// The events of a run of entries of the directory at `dir`, in order.
pub open spec fn entries_trace(es: Seq<FsEntry>, dir: Seq<u8>, b0: int) -> (Seq<TraceEvent>, int)
    decreases es, 0int,
{
    if es.len() == 0 {
        (Seq::empty(), b0)
    } else {
        let pre = entries_trace(es.drop_last(), dir, b0);
        let last = scan_trace(
            es.last().tree,
            dir + seq![SEP_SLASH] + es.last().name@,
            pre.1,
        );
        (pre.0 + last.0, last.1)
    }
}

pub open spec fn event_matches(m: Message, e: TraceEvent) -> bool {
    match m {
        Message::Denied(p) => e == TraceEvent::Denied(p@),
        Message::Progress(b) => e == TraceEvent::Progress(b as int),
        Message::Finished(_) => false,
    }
}

/// The messages realize the trace, element for element.
pub open spec fn events_match(ms: Seq<Message>, tr: Seq<TraceEvent>) -> bool {
    &&& ms.len() == tr.len()
    &&& forall|i: int| 0 <= i < ms.len() ==> event_matches(#[trigger] ms[i], tr[i])
}

/// The node stands for one of the entries.
pub open spec fn models_some_entry(c: Node, entries: Seq<FsEntry>, dir: Seq<u8>) -> bool
    decreases entries, 0int,
{
    exists|ii: int| 0 <= ii < entries.len() && entry_models(c, #[trigger] entries[ii], dir)
}

/// Some child stands for the entry.
pub open spec fn some_child_models(children: Seq<Node>, e: FsEntry, dir: Seq<u8>) -> bool
    decreases e, 1int,
{
    exists|j: int| 0 <= j < children.len() && entry_models(#[trigger] children[j], e, dir)
}

/// What the scanner guarantees of a produced node, relative to the
/// snapshot and the path it was scanned at: names and prefixes split from
/// the path, sizes aggregated exactly (an unreadable entry counting
/// zero), children sorted ascending by size and corresponding one-to-one
/// to the readable entries, everything collapsed, unhovered, geometry at
/// the sentinel, and a sane color.  Nothing is said about which color:
/// colors are drawn from the injected generator.
pub open spec fn node_models(n: Node, fs: FsTree, path: Seq<u8>) -> bool
    decreases fs, 1int,
{
    &&& n.path_prefix@ == spec_prefix_of(path)
    &&& n.name@ == spec_name_of(path)
    &&& !n.expanded
    &&& !n.hovered
    &&& n.outer_rect == rect_unset()
    &&& n.inner_rect == rect_unset()
    &&& n.color.wf()
    &&& match fs {
        FsTree::File { size } => n.size == size && n.children.len() == 0,
        FsTree::Unreadable => false,
        FsTree::Dir { entries } => {
            &&& n.size as int == entries_size(entries@)
            &&& entries_size(entries@) <= u64::MAX
            &&& sorted_by_size(n.children@)
            &&& n.children.len() == count_ok(entries@)
            &&& forall|j: int|
                0 <= j < n.children.len() ==> models_some_entry(
                    (#[trigger] n.children@[j]),
                    entries@,
                    stripped(path),
                )
            &&& forall|i: int|
                0 <= i < entries@.len() && scan_size((#[trigger] entries@[i]).tree).is_some()
                    ==> some_child_models(n.children@, entries@[i], stripped(path))
        },
    }
}

/// A node standing for one readable entry of the directory at `dir`.
pub open spec fn entry_models(c: Node, e: FsEntry, dir: Seq<u8>) -> bool
    decreases e, 0int,
{
    node_models(c, e.tree, dir + seq![SEP_SLASH] + e.name@)
}

/// The size the scanner assigns is a byte count: nonnegative and within
/// the size type.
pub proof fn lemma_scan_size_bound(fs: FsTree)
    ensures
        match scan_size(fs) {
            Some(s) => 0 <= s <= u64::MAX,
            None => true,
        },
    decreases fs, 1int,
{
    match fs {
        FsTree::Dir { entries } => {
            lemma_entries_size_bound(entries@);
        },
        _ => {},
    }
}

/// The sum over a run of entries is nonnegative and bounded by the run's
/// length times the largest size.
pub proof fn lemma_entries_size_bound(es: Seq<FsEntry>)
    ensures
        0 <= entries_size(es) <= es.len() * (u64::MAX as int),
    decreases es, 0int,
{
    if es.len() > 0 {
        lemma_entries_size_bound(es.drop_last());
        lemma_scan_size_bound(es.last().tree);
        assert((es.len() - 1) * (u64::MAX as int) + u64::MAX == es.len() * (u64::MAX as int))
            by (nonlinear_arith);
    }
}

/// A name as the filesystem yields it: nonempty and free of separators.
pub open spec fn name_wf(name: Seq<u8>) -> bool {
    name.len() > 0 && forall|k: int| 0 <= k < name.len() ==> !is_sep(#[trigger] name[k])
}

/// The snapshot looks like a filesystem: every directory's entry names
/// are well-formed and unique within it, recursively.
pub open spec fn snap_wf(fs: FsTree) -> bool
    decreases fs,
{
    match fs {
        FsTree::Dir { entries } => {
            &&& forall|i: int| 0 <= i < entries@.len() ==> name_wf((#[trigger] entries@[i]).name@)
            &&& forall|i: int, j: int|
                0 <= i < j < entries@.len() ==> (#[trigger] entries@[i]).name@ != (
                #[trigger] entries@[j]).name@
            &&& forall|i: int| 0 <= i < entries@.len() ==> snap_wf((#[trigger] entries@[i]).tree)
        },
        _ => true,
    }
}

/// The path of an entry of the directory at `dir`.
pub open spec fn child_path(dir: Seq<u8>, name: Seq<u8>) -> Seq<u8> {
    dir + seq![SEP_SLASH] + name
}

/// `p` lies strictly below the directory path `d`.
pub open spec fn strictly_below(p: Seq<u8>, d: Seq<u8>) -> bool {
    p.len() > d.len() && p.take(d.len() as int) == d && p[d.len() as int] == SEP_SLASH
}

/// `p` is the path `q` or lies strictly below it.
pub open spec fn at_or_below(p: Seq<u8>, q: Seq<u8>) -> bool {
    p == q || strictly_below(p, q)
}

/// Some node of the subtree reconstructs exactly this absolute path.
pub open spec fn tree_has_path(n: Node, p: Seq<u8>) -> bool
    decreases n,
{
    n.full_path() == p || exists|i: int|
        0 <= i < n.children.len() && tree_has_path(#[trigger] n.children@[i], p)
}

/// Appending separator-free text does not move the last separator.
proof fn lemma_last_sep_append_nonsep(s: Seq<u8>, t: Seq<u8>)
    requires
        forall|k: int| 0 <= k < t.len() ==> !is_sep(#[trigger] t[k]),
    ensures
        last_sep(s + t) == last_sep(s),
    decreases t.len(),
{
    if t.len() == 0 {
        assert(s + t =~= s);
    } else {
        assert((s + t).drop_last() =~= s + t.drop_last());
        assert((s + t).last() == t.last());
        lemma_last_sep_append_nonsep(s, t.drop_last());
    }
}

/// An entry's path splits back into the directory and the name: it needs
/// no stripping, its last separator is the one between them, and so the
/// node built for it reconstructs exactly this path.
proof fn lemma_child_path_split(dir: Seq<u8>, name: Seq<u8>)
    requires
        name_wf(name),
    ensures
        stripped(child_path(dir, name)) == child_path(dir, name),
        spec_prefix_of(child_path(dir, name)) == dir + seq![SEP_SLASH],
        spec_name_of(child_path(dir, name)) == name,
        spec_prefix_of(child_path(dir, name)) + spec_name_of(child_path(dir, name)) == child_path(
            dir,
            name,
        ),
{
    let q = child_path(dir, name);
    assert(q.last() == name.last());
    assert(!is_sep(name[name.len() - 1]));
    assert(stripped(q) == q);
    lemma_last_sep_append_nonsep(dir + seq![SEP_SLASH], name);
    assert(last_sep(dir + seq![SEP_SLASH]) == dir.len()) by {
        assert((dir + seq![SEP_SLASH]).last() == SEP_SLASH);
    }
    assert(q.take(dir.len() as int + 1) =~= dir + seq![SEP_SLASH]);
    assert(q.skip(dir.len() as int + 1) =~= name);
    assert((dir + seq![SEP_SLASH]) + name =~= q);
}

/// Whatever lies at or below an entry's path lies strictly below the
/// entry's directory.
proof fn lemma_below_chain(dir: Seq<u8>, name: Seq<u8>, p: Seq<u8>)
    requires
        name_wf(name),
        at_or_below(p, child_path(dir, name)),
    ensures
        strictly_below(p, dir),
{
    let q = child_path(dir, name);
    assert(q.take(dir.len() as int) =~= dir);
    assert(q[dir.len() as int] == SEP_SLASH);
    if p == q {
    } else {
        assert(p.take(q.len() as int) == q);
        assert(p.take(dir.len() as int) =~= dir) by {
            assert forall|k: int| 0 <= k < dir.len() implies p.take(dir.len() as int)[k]
                == dir[k] by {
                assert(p.take(q.len() as int)[k] == p[k]);
            }
        }
        assert(p[dir.len() as int] == q[dir.len() as int]) by {
            assert(p.take(q.len() as int)[dir.len() as int] == p[dir.len() as int]);
        }
    }
}

/// Paths below two differently named entries of one directory never
/// meet: the names are separator-free, so the segment after the
/// directory's separator pins the entry.
proof fn lemma_sibling_paths_disjoint(dir: Seq<u8>, n1: Seq<u8>, n2: Seq<u8>, p: Seq<u8>)
    requires
        name_wf(n1),
        name_wf(n2),
        n1 != n2,
        at_or_below(p, child_path(dir, n1)),
    ensures
        !at_or_below(p, child_path(dir, n2)),
{
    let q1 = child_path(dir, n1);
    let q2 = child_path(dir, n2);
    let base: int = dir.len() as int + 1;
    // Wherever p reaches, its bytes over q1's range are q1's.
    assert(forall|k: int| 0 <= k < q1.len() ==> p[k] == q1[k]) by {
        if p != q1 {
            assert forall|k: int| 0 <= k < q1.len() implies p[k] == q1[k] by {
                assert(p.take(q1.len() as int)[k] == p[k]);
            }
        }
    }
    assert(forall|k: int| 0 <= k < n1.len() ==> q1[base + k] == n1[k]);
    assert(forall|k: int| 0 <= k < n2.len() ==> q2[base + k] == n2[k]);
    if at_or_below(p, q2) {
        assert(forall|k: int| 0 <= k < q2.len() ==> p[k] == q2[k]) by {
            if p != q2 {
                assert forall|k: int| 0 <= k < q2.len() implies p[k] == q2[k] by {
                    assert(p.take(q2.len() as int)[k] == p[k]);
                }
            }
        }
        if n1.len() == n2.len() {
            assert(n1 =~= n2);
        } else if n1.len() < n2.len() {
            // The byte of p after n1 is a separator (p ends there or
            // steps below q1), yet it lies inside n2.
            let k: int = n1.len() as int;
            assert(p.len() >= q2.len() > base + k);
            assert(p[base + k] == n2[k]);
            if p == q1 {
                assert(p.len() == base + k);
            } else {
                assert(p[q1.len() as int] == SEP_SLASH);
                assert(is_sep(n2[k]));
            }
        } else {
            let k: int = n2.len() as int;
            assert(p.len() >= q1.len() > base + k);
            assert(p[base + k] == n1[k]);
            if p == q2 {
                assert(p.len() == base + k);
            } else {
                assert(p[q2.len() as int] == SEP_SLASH);
                assert(is_sep(n1[k]));
            }
        }
    }
}

/// The last separator lies within the path.
proof fn lemma_last_sep_bounds(p: Seq<u8>)
    ensures
        -1 <= last_sep(p) < p.len(),
    decreases p.len(),
{
    if p.len() > 0 && !is_sep(p.last()) {
        lemma_last_sep_bounds(p.drop_last());
    }
}

/// The denial can be charged to one entry of the directory, scanned at
/// its own path from some state of the byte counter.
spec fn denied_from_entry(es: Seq<FsEntry>, dir: Seq<u8>, i: int, p: Seq<u8>) -> bool {
    0 <= i < es.len() && exists|b: int|
        scan_trace(es[i].tree, child_path(dir, es[i].name@), b).0.contains(TraceEvent::Denied(p))
}

/// Where a denial in a scan's trace comes from: the scanned path itself
/// (an unreadable or overflowing root), or an entry's own scan.
proof fn lemma_denied_source(fs: FsTree, path: Seq<u8>, b0: int, p: Seq<u8>)
    requires
        scan_trace(fs, path, b0).0.contains(TraceEvent::Denied(p)),
    ensures
        match fs {
            FsTree::File { size } => false,
            FsTree::Unreadable => p == path,
            FsTree::Dir { entries } => (entries_size(entries@) > u64::MAX && p == path) || exists|
                i: int,
            | #[trigger] denied_from_entry(entries@, stripped(path), i, p),
        },
    decreases fs, 1int,
{
    let tr = scan_trace(fs, path, b0).0;
    let idx = choose|idx: int| 0 <= idx < tr.len() && tr[idx] == TraceEvent::Denied(p);
    match fs {
        FsTree::File { size } => {},
        FsTree::Unreadable => {
            assert(tr[0] == TraceEvent::Denied(path));
        },
        FsTree::Dir { entries } => {
            let sub = entries_trace(entries@, stripped(path), b0);
            if idx < sub.0.len() {
                assert(sub.0[idx] == tr[idx]);
                assert(sub.0.contains(TraceEvent::Denied(p)));
                lemma_denied_source_entries(entries@, stripped(path), b0, p);
            } else {
                assert(tr[idx] == tr.last());
            }
        },
    }
}

/// A denial in the trace of a run of entries comes from one of them.
proof fn lemma_denied_source_entries(es: Seq<FsEntry>, dir: Seq<u8>, b0: int, p: Seq<u8>)
    requires
        entries_trace(es, dir, b0).0.contains(TraceEvent::Denied(p)),
    ensures
        exists|i: int| #[trigger] denied_from_entry(es, dir, i, p),
    decreases es, 0int,
{
    let tr = entries_trace(es, dir, b0).0;
    let idx = choose|idx: int| 0 <= idx < tr.len() && tr[idx] == TraceEvent::Denied(p);
    assert(es.len() > 0);
    let pre = entries_trace(es.drop_last(), dir, b0);
    let lastpath = dir + seq![SEP_SLASH] + es.last().name@;
    let last = scan_trace(es.last().tree, lastpath, pre.1);
    if idx < pre.0.len() {
        assert(pre.0[idx] == tr[idx]);
        assert(pre.0.contains(TraceEvent::Denied(p)));
        lemma_denied_source_entries(es.drop_last(), dir, b0, p);
        let i = choose|i: int| #[trigger] denied_from_entry(es.drop_last(), dir, i, p);
        let b = choose|b: int|
            scan_trace(
                es.drop_last()[i].tree,
                child_path(dir, es.drop_last()[i].name@),
                b,
            ).0.contains(TraceEvent::Denied(p));
        assert(es.drop_last()[i] == es[i]);
        assert(scan_trace(es[i].tree, child_path(dir, es[i].name@), b).0.contains(
            TraceEvent::Denied(p),
        ));
        assert(denied_from_entry(es, dir, i, p));
    } else {
        assert(last.0[idx - pre.0.len()] == tr[idx]);
        assert(last.0.contains(TraceEvent::Denied(p)));
        assert(lastpath == child_path(dir, es.last().name@));
        assert(es[es.len() - 1] == es.last());
        assert(denied_from_entry(es, dir, es.len() - 1, p));
    }
}

/// Every denial of a well-formed snapshot names the scanned path itself
/// or something strictly below its directory.
proof fn lemma_denied_below(fs: FsTree, path: Seq<u8>, b0: int, p: Seq<u8>)
    requires
        snap_wf(fs),
        scan_trace(fs, path, b0).0.contains(TraceEvent::Denied(p)),
    ensures
        p == path || strictly_below(p, stripped(path)),
    decreases fs,
{
    lemma_denied_source(fs, path, b0, p);
    match fs {
        FsTree::Dir { entries } => {
            if exists|i: int| #[trigger] denied_from_entry(entries@, stripped(path), i, p) {
                let i = choose|i: int| #[trigger] denied_from_entry(entries@, stripped(path), i, p);
                let name = entries@[i].name@;
                let cp = child_path(stripped(path), name);
                let b = choose|b: int|
                    scan_trace(entries@[i].tree, cp, b).0.contains(TraceEvent::Denied(p));
                assert(name_wf(name));
                assert(snap_wf(entries@[i].tree));
                assert(decreases_to!(fs => fs->Dir_entries));
                assert(fs->Dir_entries == entries);
                assert(decreases_to!(entries => entries@));
                assert(decreases_to!(entries@ => entries@[i]));
                assert(decreases_to!(entries@[i] => entries@[i].tree));
                lemma_denied_below(entries@[i].tree, cp, b, p);
                lemma_child_path_split(stripped(path), name);
                assert(at_or_below(p, cp));
                lemma_below_chain(stripped(path), name, p);
            }
        },
        _ => {},
    }
}

/// Every path a modeled node reconstructs lies at or below the entry
/// path it was scanned at.
proof fn lemma_tree_paths_below(c: Node, fs: FsTree, dir: Seq<u8>, name: Seq<u8>, p: Seq<u8>)
    requires
        snap_wf(fs),
        name_wf(name),
        node_models(c, fs, child_path(dir, name)),
        tree_has_path(c, p),
    ensures
        at_or_below(p, child_path(dir, name)),
    decreases fs,
{
    let q = child_path(dir, name);
    lemma_child_path_split(dir, name);
    assert(c.full_path() == q);
    if p == c.full_path() {
    } else {
        let j = choose|j: int|
            0 <= j < c.children.len() && tree_has_path(#[trigger] c.children@[j], p);
        match fs {
            FsTree::Dir { entries } => {
                assert(models_some_entry(c.children@[j], entries@, stripped(q)));
                let ii = choose|ii: int|
                    0 <= ii < entries@.len() && entry_models(
                        c.children@[j],
                        #[trigger] entries@[ii],
                        stripped(q),
                    );
                assert(name_wf(entries@[ii].name@));
                assert(snap_wf(entries@[ii].tree));
                assert(decreases_to!(fs => fs->Dir_entries));
                assert(fs->Dir_entries == entries);
                assert(decreases_to!(entries => entries@));
                assert(decreases_to!(entries@ => entries@[ii]));
                assert(decreases_to!(entries@[ii] => entries@[ii].tree));
                lemma_tree_paths_below(c.children@[j], entries@[ii].tree, q, entries@[ii].name@, p);
                lemma_below_chain(q, entries@[ii].name@, p);
            },
            _ => {},
        }
    }
}

/// A path that failed to read never appears as a node: nothing in the
/// tree a scan of a well-formed snapshot produced reconstructs a path
/// that the same scan's trace denied.
pub proof fn lemma_denied_never_a_node(n: Node, fs: FsTree, path: Seq<u8>, b0: int, p: Seq<u8>)
    requires
        snap_wf(fs),
        node_models(n, fs, path),
        scan_trace(fs, path, b0).0.contains(TraceEvent::Denied(p)),
    ensures
        !tree_has_path(n, p),
    decreases fs,
{
    lemma_denied_source(fs, path, b0, p);
    match fs {
        FsTree::File { size } => {},
        FsTree::Unreadable => {},
        FsTree::Dir { entries } => {
            let base = stripped(path);
            let u = choose|u: int| #[trigger] denied_from_entry(entries@, base, u, p);
            let name_u = entries@[u].name@;
            let cp_u = child_path(base, name_u);
            let b = choose|b: int|
                scan_trace(entries@[u].tree, cp_u, b).0.contains(TraceEvent::Denied(p));
            assert(name_wf(name_u));
            assert(snap_wf(entries@[u].tree));
            lemma_child_path_split(base, name_u);
            lemma_denied_below(entries@[u].tree, cp_u, b, p);
            assert(at_or_below(p, cp_u));
            lemma_below_chain(base, name_u, p);
            // The root's own path is not below itself.
            assert(p != n.full_path()) by {
                lemma_last_sep_bounds(base);
                if last_sep(base) >= 0 {
                    assert(n.full_path() =~= base);
                } else {
                    assert(n.full_path() =~= base + seq![NAME_PLACEHOLDER]);
                    if p == n.full_path() {
                        assert(p[base.len() as int] == NAME_PLACEHOLDER);
                    }
                }
            }
            // And no subtree reaches it either.
            assert forall|j: int| 0 <= j < n.children.len() implies !tree_has_path(
                #[trigger] n.children@[j],
                p,
            ) by {
                assert(models_some_entry(n.children@[j], entries@, base));
                let e = choose|e: int|
                    0 <= e < entries@.len() && entry_models(
                        n.children@[j],
                        #[trigger] entries@[e],
                        base,
                    );
                let name_e = entries@[e].name@;
                if name_e == name_u {
                    assert(e == u) by {
                        if e < u {
                            assert(entries@[e].name@ != entries@[u].name@);
                        }
                        if u < e {
                            assert(entries@[u].name@ != entries@[e].name@);
                        }
                    }
                    assert(decreases_to!(fs => fs->Dir_entries));
                    assert(fs->Dir_entries == entries);
                    assert(decreases_to!(entries => entries@));
                    assert(decreases_to!(entries@ => entries@[u]));
                    assert(decreases_to!(entries@[u] => entries@[u].tree));
                    lemma_denied_never_a_node(n.children@[j], entries@[u].tree, cp_u, b, p);
                } else {
                    if tree_has_path(n.children@[j], p) {
                        assert(name_wf(name_e));
                        assert(snap_wf(entries@[e].tree));
                        lemma_tree_paths_below(n.children@[j], entries@[e].tree, base, name_e, p);
                        lemma_sibling_paths_disjoint(base, name_u, name_e, p);
                    }
                }
            }
        },
    }
}

/// A freshly scanned tree is entirely collapsed: expansion happens only
/// through interaction.
pub proof fn lemma_models_all_collapsed(n: Node, fs: FsTree, path: Seq<u8>)
    requires
        node_models(n, fs, path),
    ensures
        n.all_collapsed(),
    decreases fs,
{
    match fs {
        FsTree::Dir { entries } => {
            assert forall|j: int| 0 <= j < n.children.len() implies (#[trigger] n.children@[j])
                .all_collapsed() by {
                assert(models_some_entry(n.children@[j], entries@, stripped(path)));
                let ii = choose|ii: int|
                    0 <= ii < entries@.len() && entry_models(
                        n.children@[j],
                        #[trigger] entries@[ii],
                        stripped(path),
                    );
                assert(decreases_to!(fs => fs->Dir_entries));
                assert(fs->Dir_entries == entries);
                assert(decreases_to!(entries => entries@));
                assert(decreases_to!(entries@ => entries@[ii]));
                assert(decreases_to!(entries@[ii] => entries@[ii].tree));
                lemma_models_all_collapsed(
                    n.children@[j],
                    entries@[ii].tree,
                    stripped(path) + seq![SEP_SLASH] + entries@[ii].name@,
                );
            }
        },
        _ => {},
    }
}

/// A freshly scanned tree has its geometry nested: every rectangle sits
/// at the empty sentinel, which contains no point at all.
pub proof fn lemma_models_rects_nested(n: Node, fs: FsTree, path: Seq<u8>)
    requires
        node_models(n, fs, path),
    ensures
        crate::interact::rects_nested(n),
    decreases fs,
{
    match fs {
        FsTree::Dir { entries } => {
            assert forall|j: int| 0 <= j < n.children.len() implies crate::interact::rects_nested(
                #[trigger] n.children@[j],
            ) by {
                assert(models_some_entry(n.children@[j], entries@, stripped(path)));
                let ii = choose|ii: int|
                    0 <= ii < entries@.len() && entry_models(
                        n.children@[j],
                        #[trigger] entries@[ii],
                        stripped(path),
                    );
                assert(decreases_to!(fs => fs->Dir_entries));
                assert(fs->Dir_entries == entries);
                assert(decreases_to!(entries => entries@));
                assert(decreases_to!(entries@ => entries@[ii]));
                assert(decreases_to!(entries@[ii] => entries@[ii].tree));
                lemma_models_rects_nested(
                    n.children@[j],
                    entries@[ii].tree,
                    stripped(path) + seq![SEP_SLASH] + entries@[ii].name@,
                );
            }
        },
        _ => {},
    }
}

/// An unreadable entry contributes nothing: dropping it changes neither
/// a directory's size nor how many children it produces.
pub proof fn lemma_denied_weighs_nothing(es: Seq<FsEntry>, i: int)
    requires
        0 <= i < es.len(),
        !scan_size(es[i].tree).is_some(),
    ensures
        entries_size(es) == entries_size(es.remove(i)),
        count_ok(es) == count_ok(es.remove(i)),
    decreases es.len(),
{
    if i == es.len() - 1 {
        assert(es.remove(i) =~= es.drop_last());
    } else {
        assert(es.remove(i).drop_last() =~= es.drop_last().remove(i));
        assert(es.remove(i).last() == es.last());
        lemma_denied_weighs_nothing(es.drop_last(), i);
    }
}

/// An unreadable entry never appears as a node: no node can stand for an
/// entry whose subtree could not be read (or whose sum would not fit the
/// size type).
pub proof fn lemma_unreadable_never_a_node(e: FsEntry, dir: Seq<u8>)
    requires
        !scan_size(e.tree).is_some(),
    ensures
        forall|c: Node| !entry_models(c, e, dir),
{
}

/// A log extended twice is the first extension's trace followed by the
/// second's.
pub proof fn lemma_log_extends(
    e0: Seq<Message>,
    e1: Seq<Message>,
    e2: Seq<Message>,
    t1: Seq<TraceEvent>,
    t2: Seq<TraceEvent>,
)
    requires
        e0.len() <= e1.len() <= e2.len(),
        e1.take(e0.len() as int) == e0,
        e2.take(e1.len() as int) == e1,
        events_match(e1.skip(e0.len() as int), t1),
        events_match(e2.skip(e1.len() as int), t2),
    ensures
        e2.take(e0.len() as int) == e0,
        events_match(e2.skip(e0.len() as int), t1 + t2),
{
    assert forall|t: int| 0 <= t < e1.len() implies e2[t] == e1[t] by {
        assert(e2.take(e1.len() as int)[t] == e2[t]);
    }
    assert(e2.take(e0.len() as int) =~= e0) by {
        assert forall|t: int| 0 <= t < e0.len() implies e2[t] == e0[t] by {
            assert(e1.take(e0.len() as int)[t] == e1[t]);
        }
    }
    assert(e2.skip(e0.len() as int) =~= e1.skip(e0.len() as int) + e2.skip(e1.len() as int));
    lemma_events_match_concat(
        e1.skip(e0.len() as int),
        t1,
        e2.skip(e1.len() as int),
        t2,
    );
}

/// Appending one matching message extends the trace by one event.
pub proof fn lemma_log_push(
    e0: Seq<Message>,
    e1: Seq<Message>,
    m: Message,
    t1: Seq<TraceEvent>,
    ev: TraceEvent,
)
    requires
        e0.len() <= e1.len(),
        e1.take(e0.len() as int) == e0,
        events_match(e1.skip(e0.len() as int), t1),
        event_matches(m, ev),
    ensures
        e1.push(m).take(e0.len() as int) == e0,
        events_match(e1.push(m).skip(e0.len() as int), t1 + seq![ev]),
{
    let e2 = e1.push(m);
    assert(e2.take(e1.len() as int) =~= e1);
    assert(e2.skip(e1.len() as int) =~= seq![m]);
    assert(events_match(seq![m], seq![ev])) by {
        assert(seq![m][0] == m && seq![ev][0] == ev);
    }
    lemma_log_extends(e0, e1, e2, t1, seq![ev]);
}

/// Per-child facts survive pushing the next child (or skipping an
/// unreadable entry).
proof fn lemma_children_extend(
    cprev: Seq<Node>,
    cnow: Seq<Node>,
    entries: Seq<FsEntry>,
    i: int,
    dir: Seq<u8>,
)
    requires
        0 <= i < entries.len(),
        scan_size(entries[i].tree).is_some() ==> cnow.len() == cprev.len() + 1
            && cnow.drop_last() == cprev && cnow.last().wf() && entry_models(
            cnow.last(),
            entries[i],
            dir,
        ),
        !scan_size(entries[i].tree).is_some() ==> cnow == cprev,
        forall|j: int| 0 <= j < cprev.len() ==> (#[trigger] cprev[j]).wf(),
        forall|j: int|
            0 <= j < cprev.len() ==> models_some_entry((#[trigger] cprev[j]), entries.take(i), dir),
        forall|ii: int|
            0 <= ii < i && scan_size((#[trigger] entries[ii]).tree).is_some()
                ==> some_child_models(cprev, entries[ii], dir),
    ensures
        forall|j: int| 0 <= j < cnow.len() ==> (#[trigger] cnow[j]).wf(),
        forall|j: int|
            0 <= j < cnow.len() ==> models_some_entry(
                (#[trigger] cnow[j]),
                entries.take(i + 1),
                dir,
            ),
        forall|ii: int|
            0 <= ii < i + 1 && scan_size((#[trigger] entries[ii]).tree).is_some()
                ==> some_child_models(cnow, entries[ii], dir),
{
    assert forall|j: int|
        0 <= j < cnow.len() implies (#[trigger] cnow[j]).wf() && models_some_entry(
        cnow[j],
        entries.take(i + 1),
        dir,
    ) by {
        if j < cprev.len() {
            assert(cnow[j] == cprev[j]);
            assert(models_some_entry(cprev[j], entries.take(i), dir));
            let ii = choose|ii: int|
                0 <= ii < entries.take(i).len() && entry_models(
                    cprev[j],
                    #[trigger] entries.take(i)[ii],
                    dir,
                );
            assert(entries.take(i)[ii] == entries[ii]);
            assert(entries.take(i + 1)[ii] == entries[ii]);
            assert(entry_models(cnow[j], entries.take(i + 1)[ii], dir));
        } else {
            assert(cnow[j] == cnow.last());
            assert(entries.take(i + 1)[i] == entries[i]);
            assert(entry_models(cnow[j], entries.take(i + 1)[i], dir));
        }
    }
    assert forall|ii: int|
        0 <= ii < i + 1 && scan_size(
        (#[trigger] entries[ii]).tree,
    ).is_some() implies some_child_models(cnow, entries[ii], dir) by {
        if ii < i {
            assert(some_child_models(cprev, entries[ii], dir));
            let j = choose|j: int|
                0 <= j < cprev.len() && entry_models(#[trigger] cprev[j], entries[ii], dir);
            assert(cnow[j] == cprev[j]);
            assert(entry_models(cnow[j], entries[ii], dir));
        } else {
            assert(entry_models(cnow[cnow.len() - 1], entries[ii], dir));
        }
    }
}

/// Per-child facts survive a permutation of the children.
proof fn lemma_children_permuted(
    cpre: Seq<Node>,
    cpost: Seq<Node>,
    entries: Seq<FsEntry>,
    dir: Seq<u8>,
)
    requires
        cpost.to_multiset() == cpre.to_multiset(),
        forall|j: int| 0 <= j < cpre.len() ==> (#[trigger] cpre[j]).wf(),
        forall|j: int|
            0 <= j < cpre.len() ==> models_some_entry((#[trigger] cpre[j]), entries, dir),
        forall|ii: int|
            0 <= ii < entries.len() && scan_size((#[trigger] entries[ii]).tree).is_some()
                ==> some_child_models(cpre, entries[ii], dir),
    ensures
        forall|j: int| 0 <= j < cpost.len() ==> (#[trigger] cpost[j]).wf(),
        forall|j: int|
            0 <= j < cpost.len() ==> models_some_entry((#[trigger] cpost[j]), entries, dir),
        forall|ii: int|
            0 <= ii < entries.len() && scan_size((#[trigger] entries[ii]).tree).is_some()
                ==> some_child_models(cpost, entries[ii], dir),
{
    cpre.to_multiset_ensures();
    cpost.to_multiset_ensures();
    assert forall|j: int|
        0 <= j < cpost.len() implies (#[trigger] cpost[j]).wf() && models_some_entry(
        cpost[j],
        entries,
        dir,
    ) by {
        let y = cpost[j];
        assert(cpost.contains(y));
        assert(cpost.to_multiset().count(y) > 0);
        assert(cpre.to_multiset().count(y) > 0);
        assert(cpre.contains(y));
        let jj = choose|jj: int| 0 <= jj < cpre.len() && cpre[jj] == y;
        assert(cpre[jj].wf());
        assert(models_some_entry(cpre[jj], entries, dir));
    }
    assert forall|ii: int|
        0 <= ii < entries.len() && scan_size(
        (#[trigger] entries[ii]).tree,
    ).is_some() implies some_child_models(cpost, entries[ii], dir) by {
        assert(some_child_models(cpre, entries[ii], dir));
        let j = choose|j: int|
            0 <= j < cpre.len() && entry_models(#[trigger] cpre[j], entries[ii], dir);
        let y = cpre[j];
        assert(cpre.contains(y));
        assert(cpre.to_multiset().count(y) > 0);
        assert(cpost.to_multiset().count(y) > 0);
        assert(cpost.contains(y));
        let j2 = choose|j2: int| 0 <= j2 < cpost.len() && cpost[j2] == y;
        assert(entry_models(cpost[j2], entries[ii], dir));
    }
}

/// Traces concatenate.
pub proof fn lemma_events_match_concat(
    a: Seq<Message>,
    ta: Seq<TraceEvent>,
    b: Seq<Message>,
    tb: Seq<TraceEvent>,
)
    requires
        events_match(a, ta),
        events_match(b, tb),
    ensures
        events_match(a + b, ta + tb),
{
    assert forall|i: int| 0 <= i < (a + b).len() implies event_matches(
        #[trigger] (a + b)[i],
        (ta + tb)[i],
    ) by {
        if i < a.len() {
            assert((a + b)[i] == a[i] && (ta + tb)[i] == ta[i]);
        } else {
            assert((a + b)[i] == b[i - a.len()] && (ta + tb)[i] == tb[i - a.len()]);
        }
    }
}

/// What a scan writes as it walks: the denied and progress messages, in
/// order, and the cumulative byte counter the progress reports carry.
pub struct ScanLog {
    pub events: Vec<Message>,
    pub bytes: u64,
}

impl ScanLog {
    pub fn new() -> (r: ScanLog)
        ensures
            r.events@.len() == 0,
            r.bytes == 0,
    {
        ScanLog { events: Vec::new(), bytes: 0 }
    }
}

/// Copies a byte string.
fn copy_bytes(v: &Vec<u8>) -> (r: Vec<u8>)
    ensures
        r@ == v@,
{
    let mut r: Vec<u8> = Vec::new();
    let mut i: usize = 0;
    while i < v.len()
        invariant
            i <= v.len(),
            r@ == v@.take(i as int),
        decreases v.len() - i,
    {
        r.push(v[i]);
        proof {
            assert(v@.take(i + 1 as int) =~= v@.take(i as int).push(v@[i as int]));
        }
        i = i + 1;
    }
    proof {
        assert(v@.take(v@.len() as int) =~= v@);
    }
    r
}

/// The path with one trailing slash removed, if any.
fn strip_path(path: &Vec<u8>) -> (r: Vec<u8>)
    ensures
        r@ == stripped(path@),
{
    let mut r = copy_bytes(path);
    if r.len() > 0 && r[r.len() - 1] == SEP_SLASH {
        r.pop();
        proof {
            assert(r@ =~= path@.drop_last());
        }
    }
    r
}

/// The path of an entry: the directory's path, a slash, the entry's name.
fn join_path(dir: &Vec<u8>, name: &Vec<u8>) -> (r: Vec<u8>)
    ensures
        r@ == dir@ + seq![SEP_SLASH] + name@,
{
    let mut r = copy_bytes(dir);
    r.push(SEP_SLASH);
    let mut i: usize = 0;
    while i < name.len()
        invariant
            i <= name.len(),
            r@ == dir@ + seq![SEP_SLASH] + name@.take(i as int),
        decreases name.len() - i,
    {
        r.push(name[i]);
        proof {
            assert(dir@ + seq![SEP_SLASH] + name@.take(i + 1 as int) =~= (dir@ + seq![SEP_SLASH]
                + name@.take(i as int)).push(name@[i as int]));
        }
        i = i + 1;
    }
    proof {
        assert(name@.take(name@.len() as int) =~= name@);
    }
    r
}

impl Node {
    /// Assembles a directory node: children sorted ascending by size, the
    /// summed size, the path split into prefix and name, and a fresh color.
    fn dir_node(children: Vec<Node>, total: u128, path: &Vec<u8>, rng: &mut SplitRng) -> (r: Node)
        requires
            total <= u64::MAX,
            seq_sum(sizes_of(children@)) == total,
            forall|j: int| 0 <= j < children@.len() ==> (#[trigger] children@[j]).wf(),
        ensures
            r.size == total,
            r.children@.to_multiset() == children@.to_multiset(),
            r.children@.len() == children@.len(),
            sorted_by_size(r.children@),
            r.wf(),
            r.path_prefix@ == spec_prefix_of(path@),
            r.name@ == spec_name_of(path@),
            !r.expanded,
            !r.hovered,
            r.outer_rect == rect_unset(),
            r.inner_rect == rect_unset(),
            r.color.wf(),
    {
        let mut children = children;
        let ghost cpre = children@;
        sort_children(&mut children);
        proof {
            cpre.to_multiset_ensures();
            children@.to_multiset_ensures();
            assert forall|j: int| 0 <= j < children@.len() implies (#[trigger] children@[j]).wf()
                by {
                let y = children@[j];
                assert(children@.contains(y));
                assert(children@.to_multiset().count(y) > 0);
                assert(cpre.to_multiset().count(y) > 0);
                assert(cpre.contains(y));
                let jj = choose|jj: int| 0 <= jj < cpre.len() && cpre[jj] == y;
                assert(cpre[jj].wf());
            }
        }
        let (prefix, name) = split_path(path);
        let h: u64 = rng.next_below(HSV_UNIT as u64);
        let s: u64 = rng.next_below((HSV_UNIT - SAT_MIN + 1) as u64);
        let color = Hsv { h: h as u16, s: SAT_MIN + s as u16, v: DIR_VALUE };
        Node {
            path_prefix: prefix,
            name,
            size: total as u64,
            children,
            outer_rect: Rect { x: 0, y: 0, w: 0, h: 0 },
            inner_rect: Rect { x: 0, y: 0, w: 0, h: 0 },
            expanded: false,
            hovered: false,
            color,
        }
    }

    /// Scans the snapshot `fs` at `path`, producing the weighted subtree
    /// for it, or nothing when the path itself is unreadable (or its total
    /// would not fit the size type).  Denied paths and progress reports
    /// are appended to the log exactly as `scan_trace` lays them out;
    /// node colors are drawn from the injected generator.
    #[verifier::rlimit(60)]
    pub fn new(fs: &FsTree, path: &Vec<u8>, rng: &mut SplitRng, log: &mut ScanLog) -> (r: Option<
        Node,
    >)
        ensures
            r.is_some() == scan_size(*fs).is_some(),
            r.is_some() ==> r.unwrap().wf() && node_models(r.unwrap(), *fs, path@),
            ({
                let tr = scan_trace(*fs, path@, old(log).bytes as int);
                &&& final(log).bytes as int == tr.1
                &&& final(log).events@.len() == old(log).events@.len() + tr.0.len()
                &&& final(log).events@.take(old(log).events@.len() as int) == old(log).events@
                &&& events_match(final(log).events@.skip(old(log).events@.len() as int), tr.0)
            }),
        decreases *fs,
    {
        match fs {
            FsTree::File { size } => {
                let s2: u64 = *size;
                let b: u64 = log.bytes;
                log.bytes = if b > u64::MAX - s2 {
                    u64::MAX
                } else {
                    b + s2
                };
                let (prefix, name) = split_path(path);
                let h: u64 = rng.next_below(HSV_UNIT as u64);
                let s: u64 = rng.next_below((HSV_UNIT - SAT_MIN + 1) as u64);
                let color = Hsv { h: h as u16, s: SAT_MIN + s as u16, v: FILE_VALUE };
                let node = Node {
                    path_prefix: prefix,
                    name,
                    size: s2,
                    children: Vec::new(),
                    outer_rect: Rect { x: 0, y: 0, w: 0, h: 0 },
                    inner_rect: Rect { x: 0, y: 0, w: 0, h: 0 },
                    expanded: false,
                    hovered: false,
                    color,
                };
                proof {
                    let tr = scan_trace(*fs, path@, old(log).bytes as int);
                    assert(log.events@.take(old(log).events@.len() as int) =~= old(log).events@);
                    assert(log.events@.skip(old(log).events@.len() as int) =~= Seq::<
                        Message,
                    >::empty());
                    assert(events_match(Seq::<Message>::empty(), tr.0));
                }
                Some(node)
            },
            FsTree::Unreadable => {
                let p = copy_bytes(path);
                let msg = Message::Denied(p);
                let ghost gm = msg;
                log.events.push(msg);
                proof {
                    assert(old(log).events@.take(old(log).events@.len() as int) =~= old(
                        log,
                    ).events@);
                    assert(old(log).events@.skip(old(log).events@.len() as int) =~= Seq::<
                        Message,
                    >::empty());
                    lemma_log_push(
                        old(log).events@,
                        old(log).events@,
                        gm,
                        Seq::<TraceEvent>::empty(),
                        TraceEvent::Denied(path@),
                    );
                    assert(Seq::<TraceEvent>::empty() + seq![TraceEvent::Denied(path@)] =~= seq![
                        TraceEvent::Denied(path@),
                    ]);
                }
                None
            },
            FsTree::Dir { entries } => {
                let base = strip_path(path);
                let mut children: Vec<Node> = Vec::new();
                let mut total: u128 = 0;
                let mut i: usize = 0;
                while i < entries.len()
                    invariant
                        i <= entries@.len(),
                        fs is Dir,
                        fs->Dir_entries == *entries,
                        base@ == stripped(path@),
                        ({
                            let sub = entries_trace(
                                entries@.take(i as int),
                                stripped(path@),
                                old(log).bytes as int,
                            );
                            &&& log.bytes as int == sub.1
                            &&& log.events@.len() == old(log).events@.len() + sub.0.len()
                            &&& log.events@.take(old(log).events@.len() as int) == old(
                                log,
                            ).events@
                            &&& events_match(
                                log.events@.skip(old(log).events@.len() as int),
                                sub.0,
                            )
                        }),
                        total == entries_size(entries@.take(i as int)),
                        seq_sum(sizes_of(children@)) == total,
                        children@.len() == count_ok(entries@.take(i as int)),
                        forall|j: int| 0 <= j < children@.len() ==> (#[trigger] children@[j]).wf(),
                        forall|j: int|
                            0 <= j < children@.len() ==> models_some_entry(
                                (#[trigger] children@[j]),
                                entries@.take(i as int),
                                stripped(path@),
                            ),
                        forall|ii: int|
                            0 <= ii < i && scan_size((#[trigger] entries@[ii]).tree).is_some()
                                ==> some_child_models(children@, entries@[ii], stripped(path@)),
                    decreases entries@.len() - i,
                {
                    let ghost eprev = log.events@;
                    let ghost bprev = log.bytes;
                    let ghost cprev = children@;
                    let ghost subi = entries_trace(
                        entries@.take(i as int),
                        stripped(path@),
                        old(log).bytes as int,
                    );
                    let child_path = join_path(&base, &entries[i].name);
                    proof {
                        assert(decreases_to!(*fs => fs->Dir_entries));
                        assert(fs->Dir_entries == *entries);
                        assert(decreases_to!(*entries => entries@));
                        assert(decreases_to!(entries@ => entries@[i as int]));
                        assert(decreases_to!(entries@[i as int] => entries@[i as int].tree));
                    }
                    let c = Node::new(&entries[i].tree, &child_path, rng, log);
                    let ghost childtr = scan_trace(
                        entries@[i as int].tree,
                        child_path@,
                        bprev as int,
                    );
                    proof {
                        lemma_scan_size_bound(entries@[i as int].tree);
                        lemma_entries_size_bound(entries@.take(i as int));
                        assert(entries@.take(i + 1 as int).drop_last() =~= entries@.take(i as int));
                        assert(entries@.take(i + 1 as int).last() == entries@[i as int]);
                    }
                    match c {
                        Some(node) => {
                            total = total + node.size as u128;
                            children.push(node);
                            proof {
                                assert(sizes_of(children@) =~= sizes_of(cprev).push(node.size));
                                assert(sizes_of(cprev).push(node.size).drop_last() =~= sizes_of(
                                    cprev,
                                ));
                                assert(children@.drop_last() =~= cprev);
                                assert(entry_models(
                                    children@.last(),
                                    entries@[i as int],
                                    stripped(path@),
                                ));
                            }
                        },
                        None => {},
                    }
                    proof {
                        lemma_log_extends(old(log).events@, eprev, log.events@, subi.0, childtr.0);
                        lemma_children_extend(
                            cprev,
                            children@,
                            entries@,
                            i as int,
                            stripped(path@),
                        );
                    }
                    i = i + 1;
                }
                proof {
                    assert(entries@.take(entries@.len() as int) =~= entries@);
                    lemma_entries_size_bound(entries@);
                }
                let ghost subn = entries_trace(entries@, stripped(path@), old(log).bytes as int);
                if total > u64::MAX as u128 {
                    let ghost eprev = log.events@;
                    let p = copy_bytes(path);
                    let msg = Message::Denied(p);
                    let ghost gm = msg;
                    log.events.push(msg);
                    proof {
                        lemma_log_push(
                            old(log).events@,
                            eprev,
                            gm,
                            subn.0,
                            TraceEvent::Denied(path@),
                        );
                    }
                    return None;
                }
                let ghost cpre = children@;
                let node = Self::dir_node(children, total, path, rng);
                let ghost eprev = log.events@;
                let bytes_now: u64 = log.bytes;
                let msg = Message::Progress(bytes_now);
                let ghost gm = msg;
                log.events.push(msg);
                proof {
                    lemma_log_push(
                        old(log).events@,
                        eprev,
                        gm,
                        subn.0,
                        TraceEvent::Progress(subn.1),
                    );
                    lemma_children_permuted(cpre, node.children@, entries@, stripped(path@));
                    assert(node_models(node, *fs, path@));
                }
                Some(node)
            },
        }
    }
}

/// Sorts a run of nodes ascending by size (ties keep no particular
/// order, as in an unstable sort), preserving exactly the collection of
/// nodes and hence the total of their sizes.
fn sort_children(v: &mut Vec<Node>)
    ensures
        final(v)@.len() == old(v)@.len(),
        sorted_by_size(final(v)@),
        final(v)@.to_multiset() == old(v)@.to_multiset(),
        seq_sum(sizes_of(final(v)@)) == seq_sum(sizes_of(old(v)@)),
{
    let mut out: Vec<Node> = Vec::new();
    proof {
        assert(out@.to_multiset().add(v@.to_multiset()) =~= v@.to_multiset()) by {
            out@.to_multiset_ensures();
        }
        assert(sizes_of(out@) =~= Seq::<u64>::empty());
    }
    while v.len() > 0
        invariant
            out@.to_multiset().add(v@.to_multiset()) == old(v)@.to_multiset(),
            out@.len() + v@.len() == old(v)@.len(),
            sorted_by_size(out@),
            forall|x: int, y: int|
                0 <= x < out@.len() && 0 <= y < v@.len() ==> #[trigger] out@[x].size
                    <= #[trigger] v@[y].size,
            seq_sum(sizes_of(out@)) + seq_sum(sizes_of(v@)) == seq_sum(sizes_of(old(v)@)),
        decreases v.len(),
    {
        let mut m: usize = 0;
        let mut t: usize = 1;
        while t < v.len()
            invariant
                v@.len() > 0,
                m < t,
                t <= v@.len(),
                forall|y: int| 0 <= y < t ==> v@[m as int].size <= #[trigger] v@[y].size,
            decreases v@.len() - t,
        {
            if v[t].size < v[m].size {
                m = t;
            }
            t = t + 1;
        }
        let ghost vpre = v@;
        let ghost opre = out@;
        let x = v.remove(m);
        out.push(x);
        proof {
            vpre.to_multiset_ensures();
            opre.to_multiset_ensures();
            assert(out@.to_multiset() =~= opre.to_multiset().insert(x));
            assert(v@.to_multiset() =~= vpre.to_multiset().remove(x));
            assert(vpre.contains(x)) by {
                assert(vpre[m as int] == x);
            }
            assert(vpre.to_multiset().count(x) > 0);
            assert(out@.to_multiset().add(v@.to_multiset()) =~= opre.to_multiset().add(
                vpre.to_multiset(),
            ));
            crate::layout::lemma_seq_sum_remove(sizes_of(vpre), m as int);
            assert(sizes_of(v@) =~= sizes_of(vpre).remove(m as int));
            assert(sizes_of(out@) =~= sizes_of(opre).push(x.size));
            assert(seq_sum(sizes_of(opre).push(x.size)) == seq_sum(sizes_of(opre)) + x.size) by {
                assert(sizes_of(opre).push(x.size).drop_last() =~= sizes_of(opre));
            }
            assert forall|y: int| 0 <= y < v@.len() implies x.size <= #[trigger] v@[y].size by {
                if y < m {
                    assert(v@[y] == vpre[y]);
                } else {
                    assert(v@[y] == vpre[y + 1]);
                }
            }
            assert forall|a: int, b: int| 0 <= a <= b < out@.len() implies #[trigger] out@[a].size
                <= #[trigger] out@[b].size by {
                if b < out@.len() - 1 {
                    assert(opre[a].size <= opre[b].size);
                } else if a < out@.len() - 1 {
                    assert(opre[a].size <= vpre[m as int].size);
                }
            }
        }
    }
    proof {
        assert(v@ =~= Seq::<Node>::empty());
        assert(sizes_of(v@) =~= Seq::<u64>::empty());
        v@.to_multiset_ensures();
        assert(v@.to_multiset().len() == 0);
        assert(out@.to_multiset().add(v@.to_multiset()) =~= out@.to_multiset());
    }
    let out2 = out;
    *v = out2;
}

/// Splits a path into the stored prefix (up to and including the last
/// separator) and the display name after it, with a placeholder name when
/// the path has no separator.
pub fn split_path(path: &Vec<u8>) -> (r: (Vec<u8>, Vec<u8>))
    ensures
        r.0@ == spec_prefix_of(path@),
        r.1@ == spec_name_of(path@),
{
    let p = strip_path(path);
    let mut last: Option<usize> = None;
    let mut i: usize = 0;
    while i < p.len()
        invariant
            i <= p.len(),
            p@ == stripped(path@),
            match last {
                Some(j) => j < i && last_sep(p@.take(i as int)) == j,
                None => last_sep(p@.take(i as int)) == -1,
            },
        decreases p.len() - i,
    {
        proof {
            assert(p@.take(i + 1 as int).drop_last() =~= p@.take(i as int));
        }
        if p[i] == SEP_SLASH || p[i] == SEP_BACKSLASH {
            last = Some(i);
        }
        i = i + 1;
    }
    proof {
        assert(p@.take(p@.len() as int) =~= p@);
    }
    match last {
        Some(j) => {
            let mut prefix: Vec<u8> = Vec::new();
            let mut name: Vec<u8> = Vec::new();
            let mut t: usize = 0;
            while t < j + 1
                invariant
                    t <= j + 1,
                    j < p.len(),
                    prefix@ == p@.take(t as int),
                decreases j + 1 - t,
            {
                prefix.push(p[t]);
                proof {
                    assert(p@.take(t + 1 as int) =~= p@.take(t as int).push(p@[t as int]));
                }
                t = t + 1;
            }
            let mut u: usize = j + 1;
            while u < p.len()
                invariant
                    j + 1 <= u <= p.len(),
                    j < p.len(),
                    name@ == p@.subrange(j + 1 as int, u as int),
                decreases p.len() - u,
            {
                name.push(p[u]);
                proof {
                    assert(p@.subrange(j + 1 as int, u + 1 as int) =~= p@.subrange(
                        j + 1 as int,
                        u as int,
                    ).push(p@[u as int]));
                }
                u = u + 1;
            }
            proof {
                assert(name@ =~= p@.skip(j + 1 as int));
            }
            (prefix, name)
        },
        None => {
            let prefix = p;
            let mut name: Vec<u8> = Vec::new();
            name.push(NAME_PLACEHOLDER);
            proof {
                assert(name@ =~= seq![NAME_PLACEHOLDER]);
            }
            (prefix, name)
        },
    }
}

} // verus!
