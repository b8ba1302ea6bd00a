//! Verified solvers for a set of small text puzzles.
//!
//! The heart of the crate is an engine that remaps intervals through a chain
//! of translation tables without ever listing the integers in them:
//!
//! - `range`: half-open integer intervals and their three-way split;
//! - `stage`: one translation table and its application to a collection of
//!   intervals, with the proof that no integer is lost or gained;
//! - `points`: what a table does to single integers, and the proof that its
//!   work on intervals is that, integer by integer;
//! - `chain`: the single-successor graph of categories through which
//!   intervals are routed, and the proof that a walk which runs out of steps
//!   never arrives;
//! - `together`: the proof that routing intervals one by one and routing
//!   them all together give the same intervals;
//! - `parse`: reading an almanac from text;
//! - `error`: what can go wrong on the way.
//!
//! Around it stand the smaller puzzles:
//!
//! - `trebuchet`: calibration values;
//! - `cubes`: a game of coloured cubes;
//! - `schematic`: numbers next to symbols on a grid;
//! - `scratch`: scratch cards;
//! - `camel`, `camel_order` and `jokers`: hands of cards and their order;
//! - `network` and `rounds`: a walk through a network of nodes, and the
//!   proof that a walk which runs out of steps never arrives.
//!
//! `text` cuts text into pieces and reads numbers, `pattern` hands on what
//! the `regex` crate finds, and `tally` what the `counter` crate counts.
pub mod camel;
pub mod camel_order;
pub mod chain;
pub mod cubes;
pub mod error;
pub mod jokers;
pub mod network;
pub mod parse;
pub mod pattern;
pub mod points;
pub mod range;
pub mod rounds;
pub mod schematic;
pub mod scratch;
pub mod stage;
pub mod tally;
pub mod text;
pub mod together;
pub mod trebuchet;
