//! Typed storage structures that keep their data in growable memory regions
//! and find it there again after a restart.
//!
//! The structures work on encoded bytes. Keys and values have limits that
//! are fixed by the type of the structure, as constant parameters.
//!
//! - [`key_pair`] packs two keys into one, as [`encoding`] describes it, so
//!   that the keys of one first key lie side by side in the order of
//!   [`order`].
//! - [`multimap`] stores a value under each pair of keys, and [`model`] says
//!   what it holds.
//! - [`structures`] binds a cell, a map, the multimap and a log to their
//!   regions, and [`unbounded`] a map whose values may have any length.
//! - [`memory`] hands out the regions.
//! - [`byte_map`], [`byte_cell`] and [`byte_log`] hold what is taken on
//!   trust of the storage crate underneath.

pub mod balances;
pub mod byte_cell;
pub mod byte_log;
pub mod byte_map;
pub mod encoding;
pub mod error;
pub mod key_pair;
pub mod memory;
pub mod model;
pub mod multimap;
pub mod order;
pub mod structures;
pub mod unbounded;
pub mod value;
