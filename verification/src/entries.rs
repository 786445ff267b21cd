//! Entries and their transactions, decoded from a reassembled run of shreds.
use solana_entry::entry::Entry;
use solana_sdk::signature::Signature;
use solana_sdk::transaction::VersionedTransaction;
use vstd::prelude::*;

verus! {

/// A transaction as the Solana SDK holds it; it is only passed on.
#[verifier::external_type_specification]
#[verifier::external_body]
pub struct ExVersionedTransaction(VersionedTransaction);

/// A signature as the Solana SDK holds it.
#[verifier::external_type_specification]
#[verifier::external_body]
pub struct ExSignature(Signature);

/// The error of conversions into a signature, which none here makes.
#[verifier::external_type_specification]
#[verifier::external_body]
pub struct ExTryFromSliceError(std::array::TryFromSliceError);

/// The bytes of a signature.
pub uninterp spec fn signature_bytes(signature: Signature) -> Seq<u8>;

/// Calls `Signature::default` of the Solana SDK: a signature of sixty-four
/// zeros.
#[verifier::external_body]
pub(crate) fn default_signature() -> (signature: Signature)
    ensures
        signature_bytes(signature) == Seq::new(64, |i: int| 0u8),
{
    Signature::default()
}

/// A decoded transaction and its signatures.
pub struct DecodedTransaction {
    pub signatures: Vec<Signature>,
    pub transaction: VersionedTransaction,
}

/// The value of a [`DecodedTransaction`].
#[verifier::ext_equal]
pub struct TransactionView {
    pub signatures: Seq<Signature>,
    pub transaction: VersionedTransaction,
}

impl View for DecodedTransaction {
    type V = TransactionView;

    open spec fn view(&self) -> TransactionView {
        TransactionView { signatures: self.signatures@, transaction: self.transaction }
    }
}

/// The values of some transactions.
pub open spec fn transaction_views(transactions: Seq<DecodedTransaction>) -> Seq<TransactionView> {
    transactions.map_values(|t: DecodedTransaction| t@)
}

/// The transactions of some entries, entry by entry.
pub open spec fn entry_views(entries: Seq<Vec<DecodedTransaction>>) -> Seq<Seq<TransactionView>> {
    entries.map_values(|e: Vec<DecodedTransaction>| transaction_views(e@))
}

/// What `bincode` reads from `payload` as a list of entries: of each entry
/// its transactions, each with its signatures. `None` where it reads no such
/// list.
pub uninterp spec fn entries_in(payload: Seq<u8>) -> Option<Seq<Seq<TransactionView>>>;

/// Calls `bincode::deserialize` for a `Vec` of `solana_entry::entry::Entry`,
/// and takes each entry's transactions with their signatures out of the
/// result. Claimed of it: what comes out is a function of the bytes.
#[verifier::external_body]
fn deserialize_entries(payload: &Vec<u8>) -> (entries: Option<Vec<Vec<DecodedTransaction>>>)
    ensures
        match entries {
            Some(list) => entries_in(payload@) == Some(entry_views(list@)),
            None => entries_in(payload@) is None,
        },
{
    let entries: Vec<Entry> = bincode::deserialize(payload).ok()?;
    let decoded = |tx: VersionedTransaction| DecodedTransaction {
        signatures: tx.signatures.clone(),
        transaction: tx,
    };
    Some(entries.into_iter().map(|e| e.transactions.into_iter().map(decoded).collect()).collect())
}

/// Decodes a reassembled run of shreds.
pub fn decode_entries(payload: &Vec<u8>) -> (entries: Option<Vec<Vec<DecodedTransaction>>>)
    ensures
        match entries {
            Some(list) => entries_in(payload@) == Some(entry_views(list@)),
            None => entries_in(payload@) is None,
        },
{
    deserialize_entries(payload)
}

/// The transactions of all entries in one list, in the order in which they
/// stand in the ledger.
pub fn all_transactions(entries: Vec<Vec<DecodedTransaction>>) -> (transactions: Vec<
    DecodedTransaction,
>)
    ensures
        transaction_views(transactions@) == entry_views(entries@).flatten(),
{
    let mut transactions: Vec<DecodedTransaction> = Vec::new();
    let ghost lists = entry_views(entries@);
    assert(transaction_views(transactions@) =~= Seq::empty());
    assert(lists.take(0) =~= Seq::empty());
    for entry in walk: entries
        invariant
            entry_views(walk.seq()) == lists,
            transaction_views(transactions@) == lists.take(walk.index()).flatten(),
    {
        let ghost n = walk.index();
        let mut entry = entry;
        proof {
            assert(lists[n] == transaction_views(entry@));
            assert(lists.take(n + 1) =~= lists.take(n).push(lists[n]));
            lists.take(n).lemma_flatten_push(lists[n]);
        }
        let ghost before = transactions@;
        let ghost added = entry@;
        transactions.append(&mut entry);
        assert(transaction_views(transactions@) =~= transaction_views(before)
            + transaction_views(added));
    }
    assert(lists.take(lists.len() as int) =~= lists);
    transactions
}

} // verus!
