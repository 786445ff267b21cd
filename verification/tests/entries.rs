use std::sync::{Arc, Mutex};

use shred_decoder::decoder::IngestState;
use shred_decoder::entries::{all_transactions, decode_entries, DecodedTransaction};
use shred_decoder::{DecoderStats, ShredHandler, Signature, TransactionEvent, VersionedTransaction};
use solana_entry::entry::Entry;

fn transaction(signatures: &[u8]) -> VersionedTransaction {
    VersionedTransaction {
        signatures: signatures.iter().map(|b| Signature::from([*b; 64])).collect(),
        ..VersionedTransaction::default()
    }
}

fn entry(transactions: Vec<VersionedTransaction>) -> Entry {
    Entry {
        num_hashes: 1,
        transactions,
        ..Entry::default()
    }
}

fn payload() -> Vec<u8> {
    bincode::serialize(&vec![
        entry(vec![transaction(&[1, 9]), transaction(&[2])]),
        entry(vec![]),
        entry(vec![transaction(&[3])]),
    ])
    .unwrap()
}

fn first_bytes(transactions: &[DecodedTransaction]) -> Vec<u8> {
    transactions.iter().map(|t| t.signatures[0].as_ref()[0]).collect()
}

#[test]
fn entries_are_decoded() {
    let entries = decode_entries(&payload()).unwrap();
    let sizes: Vec<usize> = entries.iter().map(|e| e.len()).collect();
    assert_eq!(sizes, vec![2, 0, 1]);
    assert_eq!(entries[0][0].signatures.len(), 2);
    assert_eq!(entries[0][1].transaction, transaction(&[2]));
}

#[test]
fn an_empty_list_of_entries_is_decoded() {
    let bytes = bincode::serialize(&Vec::<Entry>::new()).unwrap();
    assert_eq!(decode_entries(&bytes).unwrap().len(), 0);
}

#[test]
fn malformed_entries_are_not_decoded() {
    assert!(decode_entries(&vec![]).is_none());
    let mut cut = payload();
    cut.pop();
    assert!(decode_entries(&cut).is_none());
}

#[test]
fn bytes_behind_the_entries_are_not_read() {
    let mut padded = payload();
    padded.extend([0; 20]);
    assert_eq!(decode_entries(&padded).unwrap().len(), 3);
}

#[test]
fn transactions_are_listed_in_ledger_order() {
    let transactions = all_transactions(decode_entries(&payload()).unwrap());
    assert_eq!(first_bytes(&transactions), vec![1, 2, 3]);
}

#[test]
fn decoded_runs_are_counted() {
    let mut state = IngestState::new();
    let transactions = state.decode_segment(Ok(payload())).unwrap();
    assert_eq!(first_bytes(&transactions), vec![1, 2, 3]);
    assert_eq!(
        *state.stats(),
        DecoderStats {
            entry_count: 3,
            txn_count: 3,
            ..DecoderStats::default()
        }
    );
    state.decode_segment(Ok(payload()));
    assert_eq!(state.stats().entry_count, 6);
}

#[test]
fn runs_that_do_not_reassemble_are_counted() {
    let mut state = IngestState::new();
    assert!(state.decode_segment(Err("too few shreds".to_string())).is_none());
    assert_eq!(
        *state.stats(),
        DecoderStats {
            fec_recovery_error_count: 1,
            ..DecoderStats::default()
        }
    );
}

#[test]
fn runs_that_do_not_decode_are_counted() {
    let mut state = IngestState::new();
    assert!(state.decode_segment(Ok(vec![1, 2, 3])).is_none());
    assert!(state.accept_entries(None).is_none());
    assert_eq!(
        *state.stats(),
        DecoderStats {
            bincode_deserialize_error_count: 2,
            ..DecoderStats::default()
        }
    );
}

#[test]
fn events_carry_the_first_signature() {
    let tx = DecodedTransaction {
        signatures: vec![Signature::from([5; 64]), Signature::from([6; 64])],
        transaction: transaction(&[5, 6]),
    };
    let event = TransactionEvent::new(11, &tx, 1_234);
    assert_eq!(event.slot, 11);
    assert_eq!(event.signature, Signature::from([5; 64]));
    assert_eq!(*event.transaction, transaction(&[5, 6]));
    assert_eq!(event.processed_at_micros, 1_234);
}

#[test]
fn events_of_unsigned_transactions_carry_zeros() {
    let tx = DecodedTransaction {
        signatures: vec![],
        transaction: transaction(&[]),
    };
    assert_eq!(TransactionEvent::new(11, &tx, 0).signature, Signature::from([0; 64]));
}

struct Recorder(Mutex<Vec<(u64, Signature)>>);

impl ShredHandler for Recorder {
    fn handle_transaction(&self, event: &TransactionEvent<'_>) {
        self.0.lock().unwrap().push((event.slot, event.signature));
    }
}

#[test]
fn handlers_see_every_transaction_in_order() {
    let recorder = Arc::new(Recorder(Mutex::new(vec![])));
    let handler: Arc<dyn ShredHandler> = recorder.clone();
    let mut state = IngestState::new();
    for tx in state.decode_segment(Ok(payload())).unwrap() {
        handler.handle_transaction(&TransactionEvent::new(4, &tx, 0));
    }
    let seen = recorder.0.lock().unwrap();
    let expected: Vec<(u64, Signature)> =
        [1u8, 2, 3].iter().map(|b| (4, Signature::from([*b; 64]))).collect();
    assert_eq!(*seen, expected);
}

#[test]
fn settling_counts_like_decoding() {
    let mut state = IngestState::new();
    let transactions = state.settle_segment(1, 0, 0, Ok(payload())).unwrap();
    assert_eq!(first_bytes(&transactions), vec![1, 2, 3]);
    assert!(state.settle_segment(1, 0, 0, Ok(vec![1])).is_none());
    assert!(state.settle_segment(1, 0, 0, Err("failed".to_string())).is_none());
    assert_eq!(
        *state.stats(),
        DecoderStats {
            entry_count: 3,
            txn_count: 3,
            fec_recovery_error_count: 1,
            bincode_deserialize_error_count: 1,
            ..DecoderStats::default()
        }
    );
}
