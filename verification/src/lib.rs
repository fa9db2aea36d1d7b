//! Mirrors a source directory onto a target directory (one-way sync).
//!
//! This crate holds every decision of the tool: how two scanned trees are
//! compared, which actions bring the target in line, in which order they run,
//! when a run must stop, and how single files are copied safely. Reading and
//! writing the disk is left to the program around it, which hands in plain
//! values and carries out what it is told.
//!
//! The modules, from the ground up:
//!
//! - [`order`], [`path`], [`entry`], [`tree`]: paths as bytes, what a scan
//!   records, and sorted collections of it.
//! - [`filter`], [`scan`]: exclusion patterns, and the tree of a walk.
//! - [`picks`], [`plan`], [`losses`]: the comparison of two trees, the plan that
//!   comes of it, and how many entries it costs.
//! - [`agreement`], [`mirror`]: what holds of plans. Carrying one out makes the
//!   target a mirror of the source.
//! - [`digest`]: content hashes.
//! - [`temp`], [`copy`], [`sync`]: carrying out a plan.
//! - [`resolve`], [`session`]: keeping source and target apart, and the course
//!   of a run.
//! - [`safety`]: what a run may write, and that the source is left alone.
//! - [`text`], [`report`], [`progress`]: what is read from and shown to the
//!   user.
//! - [`laws`]: what the operations promise, stated over their calls.

pub mod agreement;
pub mod copy;
pub mod digest;
pub mod entry;
pub mod filter;
pub mod laws;
pub mod losses;
pub mod mirror;
pub mod order;
pub mod path;
pub mod picks;
pub mod plan;
pub mod progress;
pub mod report;
pub mod resolve;
pub mod safety;
pub mod scan;
pub mod session;
pub mod sync;
pub mod temp;
pub mod text;
pub mod tree;
