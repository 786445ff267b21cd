//! What the decoder reports, to whom, and how it fails.
use solana_sdk::signature::Signature;
use solana_sdk::transaction::VersionedTransaction;
use vstd::prelude::*;
use vstd::string::StringExecFns;

use crate::entries::{default_signature, signature_bytes, DecodedTransaction};

verus! {

/// A transaction found in the shred stream.
pub struct TransactionEvent<'a> {
    /// The slot that the transaction is in.
    pub slot: u64,
    /// The transaction's first signature; zeros if it has none.
    pub signature: Signature,
    pub transaction: &'a VersionedTransaction,
    /// When the event was made, in microseconds since the Unix epoch.
    pub processed_at_micros: u64,
}

/// Receives the transactions that the decoder finds. It is called from the
/// ingest thread, which does nothing else meanwhile.
pub trait ShredHandler: Send + Sync {
    fn handle_transaction(&self, event: &TransactionEvent<'_>);
}

impl<'a> TransactionEvent<'a> {
    /// The report of a transaction found in `slot`.
    pub fn new(slot: u64, tx: &'a DecodedTransaction, processed_at_micros: u64) -> (event:
        TransactionEvent<'a>)
        ensures
            event.slot == slot,
            if tx@.signatures.len() > 0 {
                event.signature == tx@.signatures[0]
            } else {
                signature_bytes(event.signature) == Seq::new(64, |i: int| 0u8)
            },
            *event.transaction == tx.transaction,
            event.processed_at_micros == processed_at_micros,
    {
        let signature: Signature = if tx.signatures.len() > 0 {
            tx.signatures[0]
        } else {
            default_signature()
        };
        TransactionEvent { slot, signature, transaction: &tx.transaction, processed_at_micros }
    }
}

/// An error of the operating system; it is only passed on.
#[verifier::external_type_specification]
#[verifier::external_body]
pub struct ExIoError(std::io::Error);

/// Why a decoder could not be started.
#[derive(Debug)]
pub enum DecoderError {
    /// The address could not be bound.
    Bind { addr: String, source: std::io::Error },
    /// No handler was given.
    MissingHandler,
    /// No address was given.
    MissingBind,
    Io(std::io::Error),
    Other(String),
}

impl DecoderError {
    /// The text of an error whose source reads `source`.
    pub open spec fn text(self, source: Seq<char>) -> Seq<char> {
        match self {
            DecoderError::Bind { addr, source: _ } => "failed to bind UDP socket on "@ + addr@
                + ": "@ + source,
            DecoderError::MissingHandler =>
                "handler not provided — call builder.handler(...) before build()"@,
            DecoderError::MissingBind =>
                "bind address not provided — call builder.bind(...) before build()"@,
            DecoderError::Io(_) => "io error: "@ + source,
            DecoderError::Other(message) => "other: "@ + message@,
        }
    }

    /// Computes [`DecoderError::text`]. `source` is the text of the operating
    /// system's error; errors that carry none do not read it.
    pub fn message(&self, source: &str) -> (message: String)
        ensures
            message@ == self.text(source@),
    {
        match self {
            DecoderError::Bind { addr, source: _ } => String::from_str(
                "failed to bind UDP socket on ",
            ).concat(addr.as_str()).concat(": ").concat(source),
            DecoderError::MissingHandler => String::from_str(
                "handler not provided — call builder.handler(...) before build()",
            ),
            DecoderError::MissingBind => String::from_str(
                "bind address not provided — call builder.bind(...) before build()",
            ),
            DecoderError::Io(_) => String::from_str("io error: ").concat(source),
            DecoderError::Other(message) => String::from_str("other: ").concat(message.as_str()),
        }
    }
}

} // verus!
