//! Counters of what the decoder has done.
use vstd::prelude::*;

verus! {

/// Totals since the decoder started. Each counter starts over at zero after
/// its largest value.
#[derive(Clone, Copy, Debug, PartialEq, Eq, Structural)]
pub struct DecoderStats {
    /// Shreds that recoveries brought back and that were of use.
    pub recovered_count: u64,
    /// Entries decoded.
    pub entry_count: u64,
    /// Transactions in those entries.
    pub txn_count: u64,
    /// Recoveries that brought nothing back, and runs that did not reassemble.
    pub fec_recovery_error_count: u64,
    /// Reassembled runs that did not decode.
    pub bincode_deserialize_error_count: u64,
}

impl Default for DecoderStats {
    fn default() -> (stats: Self)
        ensures
            stats == DecoderStats::zero(),
    {
        DecoderStats {
            recovered_count: 0,
            entry_count: 0,
            txn_count: 0,
            fec_recovery_error_count: 0,
            bincode_deserialize_error_count: 0,
        }
    }
}

/// A counter after `n` more.
pub open spec fn counted(count: u64, n: nat) -> u64 {
    ((count + n) % 0x1_0000_0000_0000_0000) as u64
}

impl DecoderStats {
    pub open spec fn zero() -> DecoderStats {
        DecoderStats {
            recovered_count: 0,
            entry_count: 0,
            txn_count: 0,
            fec_recovery_error_count: 0,
            bincode_deserialize_error_count: 0,
        }
    }

    pub open spec fn with_recovered(self, n: nat) -> DecoderStats {
        DecoderStats { recovered_count: counted(self.recovered_count, n), ..self }
    }

    pub open spec fn with_recovery_error(self) -> DecoderStats {
        DecoderStats {
            fec_recovery_error_count: counted(self.fec_recovery_error_count, 1),
            ..self
        }
    }

    pub open spec fn with_decode_error(self) -> DecoderStats {
        DecoderStats {
            bincode_deserialize_error_count: counted(self.bincode_deserialize_error_count, 1),
            ..self
        }
    }

    pub open spec fn with_entries(self, entries: nat, transactions: nat) -> DecoderStats {
        DecoderStats {
            entry_count: counted(self.entry_count, entries),
            txn_count: counted(self.txn_count, transactions),
            ..self
        }
    }

    /// Counts recovered shreds.
    pub fn add_recovered(&mut self, n: u64)
        ensures
            *final(self) == old(self).with_recovered(n as nat),
    {
        self.recovered_count = self.recovered_count.wrapping_add(n);
    }

    /// Counts a recovery that brought nothing back, or a run that did not
    /// reassemble.
    pub fn add_recovery_error(&mut self)
        ensures
            *final(self) == old(self).with_recovery_error(),
    {
        self.fec_recovery_error_count = self.fec_recovery_error_count.wrapping_add(1);
    }

    /// Counts a run that did not decode.
    pub fn add_decode_error(&mut self)
        ensures
            *final(self) == old(self).with_decode_error(),
    {
        self.bincode_deserialize_error_count = self.bincode_deserialize_error_count.wrapping_add(1);
    }

    /// Counts decoded entries and the transactions in them.
    pub fn add_entries(&mut self, entries: u64, transactions: u64)
        ensures
            *final(self) == old(self).with_entries(entries as nat, transactions as nat),
    {
        self.entry_count = self.entry_count.wrapping_add(entries);
        self.txn_count = self.txn_count.wrapping_add(transactions);
    }
}

} // verus!
