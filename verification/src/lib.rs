//! Rendering of directory trees as indented text, one line per entry, with
//! connector glyphs in the manner of the `tree` utility:
//!
//! ```text
//! a
//! ├── b
//! |   └── x
//! └── c
//! ```
//!
//! - [`prefix`] builds what stands before an entry's name: a column for
//!   each ancestor level and the connector.
//! - [`tree`] renders a tree that is held in memory, down to a depth limit.
//! - [`walk`] renders step by step, for a caller that lists directories
//!   only when asked to; [`agreement`] shows that both give the same lines.
//! - [`shape`] says what holds of every rendering.
//! - [`invocation`] reads the command line.

pub mod agreement;
pub mod invocation;
pub mod prefix;
pub mod shape;
pub mod tree;
pub mod walk;
