//! Finding out what the local chat store of Cursor holds, and cleaning it up.
//!
//! The store is an SQLite database: a table of rows under keys, a table of session headers,
//! and a few JSON documents, some of them in the databases of workspaces. This library
//! decides and computes; what it works on are rows, bytes and texts that a program reads,
//! and what it hands back are plans, steps and texts that the program carries out and shows.
//!
//! - [`headers`], [`lineage`] and [`workspace`] say which sessions there are, which of them
//!   are alive, and where they belong.
//! - [`scan`] attributes each row to a session and counts what there is.
//! - [`sweep`], [`rows`], [`delete`], [`trim`] and [`gc`] with [`mark`] and [`messages`] say
//!   which rows go; [`steps`] in which order, and what a restore brings back.
//! - [`vacuum`] gives free pages back; [`safety`] and [`db`] guard the way to the database.
//! - [`tui`] with [`entries`], [`panes`], [`labels`], [`tree`], [`patch`] and [`keys`] is the
//!   state behind the screen; [`screen`], [`summary`] and [`report`] are the texts on it.
//! - [`types`], [`error`], [`progress`], [`json`], [`fx`] and [`text`] serve them all.

pub mod db;
pub mod delete;
pub mod entries;
pub mod error;
pub mod fx;
pub mod gc;
pub mod headers;
pub mod json;
pub mod keys;
pub mod labels;
pub mod lineage;
pub mod mark;
pub mod messages;
mod order;
pub mod panes;
pub mod patch;
pub mod progress;
pub mod report;
pub mod rows;
pub mod safety;
pub mod scan;
pub mod screen;
pub mod steps;
pub mod summary;
pub mod sweep;
pub mod text;
pub mod tree;
pub mod trim;
pub mod tui;
pub mod types;
pub mod vacuum;
pub mod workspace;
