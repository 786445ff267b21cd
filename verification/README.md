# shred_decoder

A UDP shred decoder for Solana with parallel Reed-Solomon recovery. Given a
bind address and a handler, it reports every transaction that it finds in the
stream of shreds.

What the decoder decides is a library written in Verus, under `src/`. What it
does with sockets, threads, clocks and the ledger crate stands around that
library, under `app/`.

## Layout

- `src/shred.rs`: shreds as plain values, and when two of them say the same.
- `src/state.rs`: the tables of one slot; entering a shred, finding a run.
- `src/fec_set.rs`: the shreds of one erasure set; how many there should be,
  and in which order a recovery takes them.
- `src/worklist.rs`: sorted lists of erasure sets.
- `src/table.rs`: hash maps with the hasher of `ahash`.
- `src/recovery.rs`: the queues to and from the recovery workers.
- `src/entries.rs`: decoding a reassembled run into transactions.
- `src/stats.rs`, `src/types.rs`, `src/builder.rs`: counters, events, errors
  and settings.
- `src/model.rs`: the ingest state as a mathematical value, and what each
  operation makes of it.
- `src/decoder.rs`: the ingest state itself, and the steps of its thread.
- `src/laws.rs`: what holds over several operations.
- `app/`: the running decoder: `ShredDecoder`, its builder, and its threads.

## What is proved

Every operation of the ingest thread is proved to do to the state what
`model.rs` says, with no arithmetic overflow and no index out of bounds. On top
of that, among others:

- every run of a touched erasure set is handed on, if it decodes, and the shred
  or the recovery that completes a run touches a set that it is a run of;
- no shred is handed on twice while its slot is in memory;
- of the jobs that a pass offers to the workers: at most one for each set, that
  of a set that can and needs to be recovered, with all the shreds held of it;
  none while a recovery of the set is under way, and none after one was turned
  away;
- a job that was turned away waits, and is offered in the next pass;
- nothing that comes in takes a shred out of a slot's tables, and shreds that
  come in take none out of an erasure set.

## What is trusted

The functions marked `external_body` call `ahash`, `bincode`,
`crossbeam-channel`, `itertools`, the Solana SDK and the standard library. The
comment above each says what is believed of the call.

## Reading shreds

The ledger crate parses packets, decodes erasure sets and reassembles
payloads; `app/ledger.rs` holds those calls and turns its shreds into the
library's.
