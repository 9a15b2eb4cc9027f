//! The scan session: messages and the session state machine.
//!
//! A session is `Empty` (no data), `Processing` (a scan is in flight and
//! the session owns the receiving end of its channel), or `Ready` (a
//! finished tree with its totals).  Exactly one scan may be in flight:
//! requesting one while `Processing` is a no-op that creates no second
//! channel and changes nothing.  Each tick the session drains whatever
//! messages are already in the channel without blocking; the terminal
//! message swaps the finished tree in wholesale and seeds the root's
//! geometry.

use std::sync::mpsc::Receiver;
use std::sync::mpsc::Sender;
use vstd::prelude::*;

use crate::node::Node;
use crate::rect::Rect;
use crate::rect::UNIT;
use crate::rng::SplitRng;
use crate::scan::FsTree;
use crate::scan::ScanLog;
use crate::scan::sat_add;

verus! {

/// A message streamed from a scan to the session: a path that could not be
/// read, a new cumulative byte total, or the terminal message carrying the
/// finished tree (`None` when the root itself was unreadable).
#[derive(Debug)]
pub enum Message {
    Denied(Vec<u8>),
    Progress(u64),
    Finished(Option<Node>),
}

#[verifier::external_type_specification]
#[verifier::external_body]
#[verifier::reject_recursive_types(T)]
pub struct ExReceiver<T>(Receiver<T>);

#[verifier::external_type_specification]
#[verifier::external_body]
#[verifier::reject_recursive_types(T)]
pub struct ExSender<T>(Sender<T>);

/// How much the displayed file counter advances per progress report.
pub const FILES_PER_PROGRESS: u64 = 100;

/// Most messages one tick will drain; far more than a channel ever
/// holds, and only there so that every tick provably ends.  Anything
/// beyond it is drained on the next tick.
pub const DRAIN_BUDGET: u64 = 1073741824;

/// The square the finished tree's root is laid out into.
pub open spec fn root_square() -> Rect {
    Rect { x: 0, y: 0, w: UNIT, h: UNIT }
}

/// Relies on std::sync::mpsc::channel: a fresh asynchronous channel,
/// sender and receiver ends.
#[verifier::external_body]
fn new_channel() -> (Sender<Message>, Receiver<Message>) {
    std::sync::mpsc::channel()
}

/// Relies on std::sync::mpsc::Receiver::try_recv: the next message
/// already sitting in the channel, or nothing, never blocking.  What
/// arrives depends on the scanning task, so nothing is claimed of it.
#[verifier::external_body]
fn try_next(rx: &Receiver<Message>) -> (r: Option<Message>) {
    match rx.try_recv() {
        Ok(m) => Some(m),
        Err(_) => None,
    }
}

/// Relies on std::sync::mpsc::Sender::send: hands the message to the
/// channel; false reports a hung-up receiver.
#[verifier::external_body]
pub fn send_message(tx: &Sender<Message>, m: Message) -> (r: bool) {
    tx.send(m).is_ok()
}

/// The body of a scanning task: scans the snapshot at `path` (colors
/// seeded from `seed`), then streams every denied and progress message in
/// order, ending with the terminal message that carries the root — or
/// nothing, when the root itself was unreadable.  What each message holds
/// is pinned by the scanner's own contract; the sends go into an opaque
/// channel, so all this reports is whether every message was accepted
/// (false once the receiving session is gone).
pub fn run_scan(fs: &FsTree, path: &Vec<u8>, seed: u64, tx: &Sender<Message>) -> (delivered: bool)
{
    let mut rng = SplitRng::new(seed);
    let mut log = ScanLog::new();
    let root = Node::new(fs, path, &mut rng, &mut log);
    let mut ok = true;
    let mut events = log.events;
    while events.len() > 0
        decreases events.len(),
    {
        let m = events.remove(0);
        let sent = send_message(tx, m);
        ok = ok && sent;
    }
    let sent = send_message(tx, Message::Finished(root));
    ok && sent
}

/// The scan session.
pub enum Tree {
    Empty,
    /// Cumulative bytes and files displayed so far, and the receiving end
    /// of the in-flight scan's channel.
    Processing(u64, u64, Receiver<Message>),
    /// The finished tree and its byte and file totals.
    Ready(Node, u64, u64),
}

impl Tree {
    pub open spec fn spec_is_empty(self) -> bool {
        self is Empty
    }

    pub open spec fn spec_is_processing(self) -> bool {
        self is Processing
    }

    pub open spec fn spec_is_ready(self) -> bool {
        self is Ready
    }

    /// Whether a scan is in flight.
    pub fn is_processing(&self) -> (r: bool)
        ensures
            r == self.spec_is_processing(),
    {
        match self {
            Tree::Empty => false,
            Tree::Processing(_, _, _) => true,
            Tree::Ready(_, _, _) => false,
        }
    }

    /// Requests a scan.  While one is already in flight this is a no-op:
    /// no channel is created and the session is untouched.  Otherwise the
    /// session enters `Processing` with zeroed counters, owning the
    /// receiver of a fresh channel, and hands the sender back for the
    /// scanning task (a `Ready` tree is discarded).
    pub fn scan(&mut self) -> (r: Option<Sender<Message>>)
        ensures
            old(self).spec_is_processing() ==> *final(self) == *old(self) && r is None,
            !old(self).spec_is_processing() ==> final(self).spec_is_processing() && r is Some
                && final(self)->Processing_0 == 0 && final(self)->Processing_1 == 0,
    {
        if self.is_processing() {
            return None;
        }
        let (tx, rx) = new_channel();
        *self = Tree::Processing(0, 0, rx);
        Some(tx)
    }

    /// Applies one drained message: a progress report replaces the byte
    /// counter and advances the file counter by one reporting step, a
    /// denied path is appended to the list, and the terminal message
    /// yields the finished root for the caller to install.
    pub fn apply_message(
        bytes: &mut u64,
        files: &mut u64,
        denied: &mut Vec<Vec<u8>>,
        m: Message,
    ) -> (r: Option<Option<Node>>)
        ensures
            match m {
                Message::Progress(b) => {
                    &&& *final(bytes) == b
                    &&& *final(files) as int == sat_add(
                        *old(files) as int,
                        FILES_PER_PROGRESS as int,
                    )
                    &&& final(denied)@ == old(denied)@
                    &&& r is None
                },
                Message::Denied(p) => {
                    &&& *final(bytes) == *old(bytes)
                    &&& *final(files) == *old(files)
                    &&& final(denied)@ == old(denied)@.push(p)
                    &&& r is None
                },
                Message::Finished(n) => {
                    &&& *final(bytes) == *old(bytes)
                    &&& *final(files) == *old(files)
                    &&& final(denied)@ == old(denied)@
                    &&& r == Some(n)
                },
            },
    {
        match m {
            Message::Progress(b) => {
                *bytes = b;
                *files = if *files > u64::MAX - FILES_PER_PROGRESS {
                    u64::MAX
                } else {
                    *files + FILES_PER_PROGRESS
                };
                None
            },
            Message::Denied(p) => {
                denied.push(p);
                None
            },
            Message::Finished(n) => Some(n),
        }
    }

    /// Drains every message already in the channel (up to the drain
    /// budget), applying each to the counters and the denied list, and
    /// returns the payload of the terminal message if one was drained,
    /// together with the counters as they stood at that moment.
    fn drain(
        bytes: &mut u64,
        files: &mut u64,
        denied: &mut Vec<Vec<u8>>,
        rx: &Receiver<Message>,
    ) -> (r: Option<(Option<Node>, u64, u64)>)
        ensures
            old(denied)@.is_prefix_of(final(denied)@),
    {
        let mut fin: Option<(Option<Node>, u64, u64)> = None;
        let mut budget: u64 = DRAIN_BUDGET;
        proof {
            assert(old(denied)@.is_prefix_of(old(denied)@)) by {
                assert(old(denied)@.subrange(0, old(denied)@.len() as int) =~= old(denied)@);
            }
        }
        while budget > 0
            invariant
                old(denied)@.is_prefix_of(denied@),
            decreases budget,
        {
            budget = budget - 1;
            let ghost dprev = denied@;
            let m = try_next(rx);
            match m {
                Some(msg) => {
                    let step = Tree::apply_message(bytes, files, denied, msg);
                    proof {
                        assert(old(denied)@.is_prefix_of(denied@)) by {
                            assert(denied@.subrange(0, dprev.len() as int) =~= dprev);
                            assert(denied@.subrange(0, old(denied)@.len() as int) =~= dprev.subrange(
                                0,
                                old(denied)@.len() as int,
                            ));
                        }
                    }
                    match step {
                        Some(n) => {
                            fin = Some((n, *bytes, *files));
                        },
                        None => {},
                    }
                },
                None => {
                    return fin;
                },
            }
        }
        fin
    }

    /// One tick of the session: drains whatever the in-flight scan has
    /// streamed so far, and applies the terminal transition if its
    /// message was among them — the finished tree is installed wholesale
    /// with its root laid out into the unit square and the tick reports
    /// true; a scan whose root was unreadable empties the session.  In
    /// any state but `Processing` nothing happens.
    pub fn process(&mut self, denied: &mut Vec<Vec<u8>>) -> (finished: bool)
        ensures
            !old(self).spec_is_processing() ==> *final(self) == *old(self) && final(denied)@ == old(
                denied,
            )@ && !finished,
            old(denied)@.is_prefix_of(final(denied)@),
            finished ==> old(self).spec_is_processing() && final(self).spec_is_ready(),
            finished ==> final(self)->Ready_0.outer_rect == root_square()
                && final(self)->Ready_0.inner_rect == root_square().spec_shrunk(),
            old(self).spec_is_processing() && !finished ==> final(self).spec_is_processing()
                || final(self).spec_is_empty(),
    {
        let mut outcome: Option<(Option<Node>, u64, u64)> = None;
        match &mut *self {
            Tree::Processing(bytes, files, receiver) => {
                outcome = Self::drain(bytes, files, denied, receiver);
            },
            _ => {},
        }
        match outcome {
            Some((n, b, f)) => {
                match n {
                    Some(mut root) => {
                        let target = Rect { x: 0, y: 0, w: UNIT, h: UNIT };
                        root.outer_rect = target;
                        root.inner_rect = target.shrunk();
                        *self = Tree::Ready(root, b, f);
                        true
                    },
                    None => {
                        *self = Tree::Empty;
                        false
                    },
                }
            },
            None => false,
        }
    }
}

} // verus!
