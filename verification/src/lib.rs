//! Verified core of a treemap disk-usage visualizer.
//!
//! A filesystem subtree is scanned into a weighted node tree, each node is
//! assigned a rectangle with area proportional to its byte size, and
//! directories can be expanded and collapsed interactively.  This crate holds
//! the verified core: the scanner that aggregates sizes bottom-up, the
//! recursive layout engine, the scan-session state machine, and the
//! expand/collapse interaction logic.  Drawing and real filesystem I/O live
//! outside, and feed the core plain values.

pub mod interact;
pub mod layout;
pub mod node;
pub mod rect;
pub mod rng;
pub mod scan;
pub mod tree;
