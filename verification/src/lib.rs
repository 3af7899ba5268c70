//! Positional state-read witnesses.
//!
//! A witness is the sequence of values a block's execution read from state
//! (account by account, slot by slot, in the order a fresh state sent them to
//! its database) and nothing else: no keys, no ordering information, no code,
//! no block hashes. That is what makes it small and what makes replaying it
//! free of lookups: a re-executor runs the block against a fresh state whose
//! database answers each read with the next value in the stream.
//!
//! It also fixes the contract between the two sides. The stream is correct for
//! a re-executor exactly when that re-executor asks its database the same
//! questions in the same order the recorder's fresh state did.
//!
//! - [`stream`] is the byte format of one block's values.
//! - [`store`] keeps the streams of a chain, one entry per block: [`index`] is
//!   the format of its index and [`frame`] that of a block's data.
//! - [`record`] decides what is recorded while a block executes.
//! - [`replay`] is the database that serves a stream back to an executor, and
//!   the one-call re-execution of a block from its witness.
//! - [`roots`] and [`payload_cache`] stand beside these: BLAKE3 roots of a
//!   block's transactions and receipts, and the caches for execution results.
//!
//! The library touches no file and runs no executor. Where a file is to be
//! written, it says which and with what; [`disk`] is the mathematics of what
//! that comes to.
pub mod digits;
pub mod disk;
pub mod frame;
pub mod index;
pub mod payload_cache;
pub mod primitives;
pub mod record;
pub mod replay;
pub mod roots;
pub mod store;
pub mod stream;
pub mod text;

pub use record::WitnessRecorder;
pub use replay::{replay_block, ReplayError, WitnessDb};
pub use store::{StoreError, WitnessStore, WitnessWriter};
pub use stream::{StreamError, StreamReader};
