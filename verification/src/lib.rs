//! A durable, append-only store of finalized blocks, bound to the genesis of
//! one chain instance.
//!
//! The store takes blocks in the order of their numbers, without a gap, and
//! gives any persisted block back by its number. What it persists lives in an
//! ordered key-value engine: the genesis record under a key of its own, each
//! block under the big-endian form of its number, so that a scan in key order
//! meets the blocks in ascending order. The store keeps no state beside the
//! engine: the number of the last block is read from the greatest key.
//!
//! The engine is made durable by its journal, one record for each write. A
//! restart replays the journal; a record that a crash cut short is left out.
//! The library frames and reads the bytes, the host writes them to disk.
//!
//! - [`bytes`], [`wire`]: byte strings, their order, numbers of fixed width.
//! - [`genesis`], [`block`]: the records of the store and their keys.
//! - [`engine`], [`journal`]: the ordered engine and its durable form.
//! - [`store`]: the contract of a block store and the store over the engine.
//! - [`lock`], [`handle`]: one open handle for each directory.
//! - [`laws`]: what holds of every store, proved.
//! - [`config`], [`random`]: the configuration of a node, its binary form,
//!   and random configurations.

pub mod block;
pub mod bytes;
pub mod config;
pub mod engine;
pub mod error;
pub mod genesis;
pub mod handle;
pub mod journal;
pub mod laws;
pub mod lock;
pub mod random;
pub mod store;
pub mod wire;
