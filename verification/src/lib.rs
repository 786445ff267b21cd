//! The state and the decisions of a decoder for the stream of shreds that a
//! Solana validator sends: which shreds to keep, which erasure (FEC) sets to
//! recover and where, which runs of data shreds to hand on, and what to report
//! of the transactions in them.
//!
//! Sockets, threads, Reed-Solomon decoding and the reassembly of payloads are
//! left to the program around this library; it tells the library what came in
//! and is told what to do.
pub mod builder;
pub mod decoder;
pub mod entries;
pub mod fec_set;
pub mod guarantees;
pub mod laws;
pub mod model;
pub mod recovery;
pub mod shred;
pub mod state;
pub mod stats;
pub mod table;
pub mod types;
pub mod worklist;

pub use builder::{DecoderSettings, ShredDecoderBuilder};
pub use solana_sdk::clock::Slot;
pub use solana_sdk::signature::Signature;
pub use solana_sdk::transaction::VersionedTransaction;
pub use stats::DecoderStats;
pub use types::{DecoderError, ShredHandler, TransactionEvent};
