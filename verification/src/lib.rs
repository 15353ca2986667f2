//! The core of a terminal task manager: two ordered collections of work
//! items, active and completed, whose items may own nested subtasks.
//!
//! Every collection is a forest flattened in pre-order into one sequence.
//! Parents and subtasks refer to each other by position, so every edit that
//! moves items lets the links follow.
//!
//! - [`item`], [`timestamp`], [`text`]: the record of one task, its date, and
//!   its text with the single-line edit buffer.
//! - [`forest`], [`activity`], [`edits`]: what it means for a list to be well
//!   formed, and why marking, inserting, deleting, dragging and transferring
//!   keep it so.
//! - [`list`]: one collection with its cursor and its snapshots.
//! - [`engine`]: both collections, the focus, the status line and undo.
//! - [`codec`], [`stored`], [`roundtrip`]: the plain-text form of the
//!   collections, read and written line by line.
//! - [`laws`]: what holds of lists and of the application whatever they hold.
//! - [`flat`]: the plain variant of the two lists, without subtasks.
//! - [`geometry`], [`layout`], [`screen`], [`term`]: what the screen needs
//!   from the core.

pub mod timestamp;
pub mod text;
pub mod item;
pub mod forest;
pub mod activity;
pub mod edits;
pub mod list;
pub mod engine;
pub mod laws;
pub mod codec;
pub mod stored;
pub mod roundtrip;
pub mod flat;
pub mod geometry;
pub mod layout;
pub mod screen;
pub mod term;
