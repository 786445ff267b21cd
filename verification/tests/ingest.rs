use shred_decoder::decoder::{
    dedup_check_due, is_candidate_packet, next_step, IngestEvent, IngestState, PlannedRecovery,
    TickStep,
};
use shred_decoder::model::{INLINE_RECOVERY_MISSING_THRESHOLD, MAX_PROCESSING_AGE};
use shred_decoder::recovery::{job_result, RecoveryJob, RecoveryPool, RecoveryResult};
use shred_decoder::shred::{
    CodingHeader, CommonHeader, DataHeader, Shred, ShredCode, ShredData, ShredType, ShredVariant,
};
use shred_decoder::stats::DecoderStats;

fn header(variant: ShredVariant, slot: u64, index: u32, fec_set_index: u32) -> CommonHeader {
    CommonHeader {
        signature: [0; 64],
        shred_variant: variant,
        slot,
        index,
        version: 0,
        fec_set_index,
    }
}

fn data(slot: u64, index: u32, fec_set_index: u32, data_complete: bool) -> Shred {
    let variant = ShredVariant::MerkleData {
        proof_size: 1,
        chained: false,
        resigned: false,
    };
    Shred::ShredData(ShredData {
        common_header: header(variant, slot, index, fec_set_index),
        data_header: DataHeader {
            parent_offset: 0,
            flags: 0,
            size: 0,
        },
        payload: vec![slot as u8, index as u8],
        data: Some(vec![index as u8]),
        data_complete,
        last_in_slot: false,
    })
}

fn code(slot: u64, index: u32, fec_set_index: u32, num_data_shreds: u16) -> Shred {
    let variant = ShredVariant::MerkleCode {
        proof_size: 1,
        chained: false,
        resigned: false,
    };
    Shred::ShredCode(ShredCode {
        common_header: header(variant, slot, index, fec_set_index),
        coding_header: CodingHeader {
            num_data_shreds,
            num_coding_shreds: num_data_shreds,
            position: 0,
        },
        payload: vec![index as u8; 1228],
    })
}

fn segments(state: &mut IngestState) -> Vec<(u64, usize, usize, Vec<Vec<u8>>)> {
    let mut found = Vec::new();
    let mut walk = state.begin_emit();
    loop {
        let (slot, start, end, payloads) = match state.next_segment(&mut walk) {
            None => break,
            Some(s) => (
                s.slot,
                s.start,
                s.end,
                s.payloads.iter().map(|p| p.to_vec()).collect(),
            ),
        };
        state.mark_deshredded(slot, start, end);
        found.push((slot, start, end, payloads));
    }
    state.end_emit();
    found
}

fn dispatch_all(
    state: &mut IngestState,
    pool: &mut RecoveryPool,
    threshold: u16,
) -> Vec<RecoveryJob> {
    let mut inline = Vec::new();
    let mut round = state.begin_dispatch();
    while let Some(job) = state.dispatch_recoveries(&mut round, pool, threshold) {
        inline.push(job);
    }
    inline
}

fn is_queued(state: &IngestState, slot: u64, fec_set_index: u32) -> bool {
    matches!(
        state.plan_recovery(slot, fec_set_index, 0),
        PlannedRecovery::Queue(_)
    )
}

fn is_idle(state: &IngestState, slot: u64, fec_set_index: u32) -> bool {
    matches!(
        state.plan_recovery(slot, fec_set_index, 0),
        PlannedRecovery::Nothing
    )
}

#[test]
fn complete_runs_are_handed_on_in_index_order() {
    let mut state = IngestState::new();
    state.ingest_batch(vec![
        data(7, 2, 0, true),
        data(7, 0, 0, false),
        data(7, 1, 0, false),
    ]);
    let payloads = vec![vec![7, 0], vec![7, 1], vec![7, 2]];
    assert_eq!(segments(&mut state), vec![(7, 0, 2, payloads)]);
}

#[test]
fn runs_are_handed_on_once() {
    let mut state = IngestState::new();
    let batch = vec![data(7, 0, 0, false), data(7, 1, 0, true)];
    state.ingest_batch(batch.clone());
    assert_eq!(segments(&mut state).len(), 1);
    state.ingest_batch(batch);
    assert_eq!(segments(&mut state), vec![]);
}

#[test]
fn incomplete_runs_wait() {
    let mut state = IngestState::new();
    state.ingest_batch(vec![data(7, 0, 0, false), data(7, 2, 0, true)]);
    assert_eq!(segments(&mut state), vec![]);
    state.ingest_batch(vec![data(7, 1, 0, false)]);
    assert_eq!(segments(&mut state).len(), 1);
}

#[test]
fn known_runs_wait_until_they_are_handed_on() {
    let mut state = IngestState::new();
    state.ingest_batch(vec![data(7, 0, 0, true)]);
    state.ingest_batch(vec![data(7, 1, 1, false), data(8, 0, 0, true)]);
    let found = segments(&mut state);
    assert_eq!(found.len(), 2);
    assert_eq!((found[0].0, found[0].1, found[0].2), (7, 0, 0));
    assert_eq!((found[1].0, found[1].1, found[1].2), (8, 0, 0));
}

#[test]
fn every_run_of_an_erasure_set_is_handed_on() {
    let mut state = IngestState::new();
    state.ingest_batch(vec![
        data(7, 0, 0, false),
        data(7, 1, 0, true),
        data(7, 2, 0, false),
        data(7, 3, 0, true),
    ]);
    let runs: Vec<(usize, usize)> = segments(&mut state).iter().map(|s| (s.1, s.2)).collect();
    assert_eq!(runs, vec![(0, 1), (2, 3)]);
    assert_eq!(segments(&mut state), vec![]);
}

#[test]
fn the_rest_of_a_set_is_taken_after_its_first_run_was_handed_on() {
    let mut state = IngestState::new();
    // One shred of the second run is here when the first is handed on.
    state.ingest_batch(vec![data(7, 0, 0, true), data(7, 2, 0, true)]);
    let runs: Vec<(usize, usize)> = segments(&mut state).iter().map(|s| (s.1, s.2)).collect();
    assert_eq!(runs, vec![(0, 0)]);
    state.ingest_batch(vec![data(7, 1, 0, false)]);
    let runs: Vec<(usize, usize)> = segments(&mut state).iter().map(|s| (s.1, s.2)).collect();
    assert_eq!(runs, vec![(1, 2)]);
    state.ingest_batch(vec![code(8, 0, 0, 3), data(8, 0, 0, true)]);
    assert_eq!(segments(&mut state).len(), 1);
    // A coding shred has said that there is more.
    state.ingest_batch(vec![data(8, 1, 0, false), data(8, 2, 0, true)]);
    let runs: Vec<(usize, usize)> = segments(&mut state).iter().map(|s| (s.1, s.2)).collect();
    assert_eq!(runs, vec![(1, 2)]);
    state.ingest_batch(vec![code(8, 1, 0, 3), code(8, 2, 0, 3)]);
    assert!(is_idle(&state, 8, 0));
}

#[test]
fn the_rest_of_a_set_is_taken_though_nothing_spoke_of_it() {
    let mut state = IngestState::new();
    state.ingest_batch(vec![data(7, 0, 0, true)]);
    assert_eq!(segments(&mut state).len(), 1);
    state.ingest_batch(vec![data(7, 1, 0, false), data(7, 0, 0, true), data(7, 2, 0, true)]);
    let runs: Vec<(usize, usize)> = segments(&mut state).iter().map(|s| (s.1, s.2)).collect();
    assert_eq!(runs, vec![(1, 2)]);
}

#[test]
fn a_recovery_under_way_brings_the_rest_of_a_set() {
    let mut state = IngestState::new();
    let (mut pool, channels, _) = RecoveryPool::new(1);
    state.ingest_batch(vec![data(7, 0, 0, true), code(7, 0, 0, 2)]);
    dispatch_all(&mut state, &mut pool, 0);
    assert_eq!(segments(&mut state).len(), 1);
    let outcome = Ok(vec![Ok(data(7, 1, 0, true))]);
    channels.result_tx.send(job_result(7, 0, outcome)).unwrap();
    assert!(state.drain_recovery_results(&mut pool).is_ok());
    assert_eq!(state.stats().recovered_count, 1);
    let runs: Vec<(usize, usize)> = segments(&mut state).iter().map(|s| (s.1, s.2)).collect();
    assert_eq!(runs, vec![(1, 1)]);
}

#[test]
fn a_set_that_awaits_more_can_be_recovered_after_a_run_was_handed_on() {
    let mut state = IngestState::new();
    state.ingest_batch(vec![code(8, 0, 0, 2), data(8, 0, 0, true)]);
    assert_eq!(segments(&mut state).len(), 1);
    assert!(is_queued(&state, 8, 0));
}

#[test]
fn runs_across_erasure_sets_are_handed_on_once() {
    let mut state = IngestState::new();
    state.ingest_batch(vec![data(7, 0, 0, false), data(7, 1, 1, true)]);
    assert_eq!(segments(&mut state).len(), 1);
    assert_eq!(segments(&mut state), vec![]);
}

#[test]
fn runs_that_fail_are_found_again_and_others_are_not() {
    let mut state = IngestState::new();
    state.ingest_batch(vec![data(7, 0, 0, true), data(7, 1, 0, true)]);
    for pass in 0..2 {
        let mut walk = state.begin_emit();
        let mut ends = Vec::new();
        while let Some(segment) = state.next_segment(&mut walk) {
            let (slot, start, end) = (segment.slot, segment.start, segment.end);
            ends.push(end);
            let reassembled = match end {
                0 => Ok(vec![0; 8]),
                _ => Err("no reassembly".to_string()),
            };
            let settled = state.settle_segment(slot, start, end, reassembled);
            assert_eq!(settled.is_some(), end == 0);
        }
        assert_eq!(ends, if pass == 0 { vec![0, 1] } else { vec![1] });
    }
    assert_eq!(state.stats().fec_recovery_error_count, 2);
}

#[test]
fn a_touched_set_is_walked_over_once() {
    let mut state = IngestState::new();
    state.ingest_batch(vec![
        data(9, 0, 0, true),
        data(8, 1, 1, true),
        data(8, 0, 0, true),
        code(8, 1, 1, 3),
    ]);
    let order: Vec<(u64, usize)> = segments(&mut state).iter().map(|s| (s.0, s.1)).collect();
    assert_eq!(order, vec![(8, 0), (8, 1), (9, 0)]);
}

#[test]
fn a_run_that_is_passed_over_is_not_marked() {
    let mut state = IngestState::new();
    state.ingest_batch(vec![data(7, 0, 0, true)]);
    let mut walk = state.begin_emit();
    assert!(state.next_segment(&mut walk).is_some());
    assert!(state.next_segment(&mut walk).is_none());
    assert!(state.next_segment(&mut walk).is_none());
    let mut again = state.begin_emit();
    assert!(state.next_segment(&mut again).is_some());
}

#[test]
fn shreds_far_behind_are_dropped() {
    let mut state = IngestState::new();
    state.ingest_batch(vec![data(100, 0, 0, true)]);
    state.ingest_batch(vec![data(49, 0, 0, true), data(50, 0, 0, true)]);
    let slots: Vec<u64> = segments(&mut state).iter().map(|s| s.0).collect();
    assert_eq!(slots, vec![50, 100]);
}

#[test]
fn shreds_with_indexes_outside_the_tables_are_dropped() {
    let mut state = IngestState::new();
    state.ingest_batch(vec![
        data(7, 32_768, 0, true),
        data(7, 0, 32_768, true),
        data(7, 32_767, 32_767, true),
    ]);
    let found = segments(&mut state);
    assert_eq!(found.len(), 1);
    assert_eq!(found[0].1, 32_767);
}

#[test]
fn the_first_shred_at_an_index_stays() {
    let mut state = IngestState::new();
    let mut other = data(7, 0, 0, true);
    if let Shred::ShredData(s) = &mut other {
        s.payload = vec![99];
    }
    state.ingest_batch(vec![data(7, 0, 0, true), other]);
    assert_eq!(segments(&mut state), vec![(7, 0, 0, vec![vec![7, 0]])]);
}

#[test]
fn sets_with_enough_shreds_are_recovered() {
    let mut state = IngestState::new();
    state.ingest_batch(vec![data(7, 0, 0, false)]);
    assert!(is_idle(&state, 7, 0));
    state.ingest_batch(vec![code(7, 1, 0, 3)]);
    assert!(is_idle(&state, 7, 0));
    state.ingest_batch(vec![code(7, 0, 0, 3)]);
    let job = match state.plan_recovery(7, 0, 0) {
        PlannedRecovery::Queue(job) => job,
        _ => panic!("a recovery is due"),
    };
    assert_eq!((job.slot, job.fec_set_index), (7, 0));
    let order: Vec<(ShredType, u32)> =
        job.shreds.iter().map(|s| (s.shred_type(), s.index())).collect();
    assert_eq!(
        order,
        vec![(ShredType::Data, 0), (ShredType::Code, 0), (ShredType::Code, 1)]
    );
    assert!(is_idle(&state, 8, 0));
    assert!(is_idle(&state, 7, 1));
}

#[test]
fn sets_whose_data_shreds_are_all_here_are_not_recovered() {
    let mut state = IngestState::new();
    state.ingest_batch(vec![
        data(7, 0, 0, false),
        data(7, 1, 0, false),
        code(7, 0, 0, 2),
    ]);
    assert!(is_idle(&state, 7, 0));
}

#[test]
fn a_repeated_coding_shred_does_not_make_a_set_recoverable() {
    let mut state = IngestState::new();
    state.ingest_batch(vec![code(7, 0, 0, 2), code(7, 0, 0, 2)]);
    assert!(is_idle(&state, 7, 0));
    state.ingest_batch(vec![code(7, 1, 0, 2)]);
    assert!(is_queued(&state, 7, 0));
}

#[test]
fn the_threshold_decides_where_a_set_is_recovered() {
    let mut state = IngestState::new();
    state.ingest_batch(vec![data(7, 0, 0, false), code(7, 0, 0, 3), code(7, 1, 0, 3)]);
    assert!(matches!(state.plan_recovery(7, 0, 0), PlannedRecovery::Queue(_)));
    assert!(matches!(state.plan_recovery(7, 0, 1), PlannedRecovery::Queue(_)));
    assert!(matches!(state.plan_recovery(7, 0, 2), PlannedRecovery::Inline(_)));
    assert_eq!(INLINE_RECOVERY_MISSING_THRESHOLD, 0);
}

#[test]
fn a_threshold_of_zero_recovers_nothing_inline() {
    let mut state = IngestState::new();
    // More data shreds than the coding shred speaks of: none is missing.
    state.ingest_batch(vec![
        data(7, 0, 0, false),
        data(7, 1, 0, false),
        code(7, 0, 0, 1),
    ]);
    assert!(matches!(state.plan_recovery(7, 0, 0), PlannedRecovery::Queue(_)));
    assert!(matches!(state.plan_recovery(7, 0, 1), PlannedRecovery::Inline(_)));
}

#[test]
fn a_recovery_completes_a_run() {
    let mut state = IngestState::new();
    let (mut pool, channels, _) = RecoveryPool::new(1);
    state.ingest_batch(vec![data(7, 0, 0, false), code(7, 0, 0, 2)]);
    assert_eq!(dispatch_all(&mut state, &mut pool, 0).len(), 0);
    let job = channels.job_rx.try_recv().unwrap();
    assert_eq!((job.slot, job.fec_set_index, job.shreds.len()), (7, 0, 2));
    assert_eq!(segments(&mut state), vec![]);

    let outcome = Ok(vec![
        Ok(data(7, 1, 0, true)),
        Ok(code(7, 1, 0, 2)),
        Err("unsound".to_string()),
    ]);
    channels.result_tx.send(job_result(job.slot, job.fec_set_index, outcome)).unwrap();
    let result = pool.try_recv().unwrap();
    assert!(pool.try_recv().is_none());
    assert!(state.accepts_result(&result));
    state.apply_recovery_result(result);
    assert_eq!(state.stats().recovered_count, 2);
    assert_eq!(
        segments(&mut state),
        vec![(7, 0, 1, vec![vec![7, 0], vec![7, 1]])]
    );
    assert!(is_idle(&state, 7, 0));
}

#[test]
fn waiting_results_are_all_applied() {
    let mut state = IngestState::new();
    let (mut pool, channels, _) = RecoveryPool::new(1);
    state.ingest_batch(vec![data(7, 0, 0, false), data(7, 2, 2, false)]);
    channels.result_tx.send(job_result(7, 0, Ok(vec![Ok(data(7, 1, 0, true))]))).unwrap();
    channels.result_tx.send(job_result(7, 2, Ok(vec![Ok(data(7, 3, 2, true))]))).unwrap();
    channels.result_tx.send(job_result(7, 4, Err("failed".to_string()))).unwrap();
    assert!(state.drain_recovery_results(&mut pool).is_ok());
    assert_eq!(state.stats().recovered_count, 2);
    assert_eq!(state.stats().fec_recovery_error_count, 1);
    assert_eq!(segments(&mut state).len(), 2);
    assert!(state.drain_recovery_results(&mut pool).is_ok());
}

#[test]
fn a_result_outside_the_tables_comes_back() {
    let mut state = IngestState::new();
    let (mut pool, channels, _) = RecoveryPool::new(1);
    state.ingest_batch(vec![data(7, 0, 0, false)]);
    channels.result_tx.send(job_result(7, 40_000, Ok(vec![]))).unwrap();
    channels.result_tx.send(job_result(7, 0, Ok(vec![]))).unwrap();
    let back = state.drain_recovery_results(&mut pool).unwrap_err();
    assert_eq!(back.fec_set_index, 40_000);
    assert_eq!(state.stats().fec_recovery_error_count, 0);
    assert!(state.drain_recovery_results(&mut pool).is_ok());
    assert_eq!(state.stats().fec_recovery_error_count, 1);
}

#[test]
fn only_recovered_shreds_of_use_are_counted() {
    let mut state = IngestState::new();
    state.ingest_batch(vec![data(7, 0, 0, false)]);
    state.apply_recovery_result(RecoveryResult {
        slot: 7,
        fec_set_index: 0,
        recovered: vec![data(7, 0, 0, false), data(7, 1, 0, true)],
    });
    assert_eq!(state.stats().recovered_count, 1);
    assert_eq!(state.stats().fec_recovery_error_count, 0);
}

#[test]
fn a_recovery_in_flight_is_not_repeated_and_a_failed_one_is() {
    let mut state = IngestState::new();
    let (mut pool, channels, _) = RecoveryPool::new(1);
    state.ingest_batch(vec![data(7, 0, 0, false), code(7, 0, 0, 2)]);
    dispatch_all(&mut state, &mut pool, 0);
    assert!(is_idle(&state, 7, 0));
    state.ingest_batch(vec![code(7, 1, 0, 2)]);
    dispatch_all(&mut state, &mut pool, 0);
    assert_eq!(channels.job_rx.len(), 1);
    assert_eq!(channels.job_rx.recv().unwrap().shreds.len(), 2);

    state.apply_recovery_result(job_result(7, 0, Err("no decode".to_string())));
    assert_eq!(state.stats().fec_recovery_error_count, 1);
    assert_eq!(state.stats().recovered_count, 0);
    assert!(is_queued(&state, 7, 0));
    state.ingest_batch(vec![code(7, 2, 0, 2)]);
    dispatch_all(&mut state, &mut pool, 0);
    assert_eq!(channels.job_rx.recv().unwrap().shreds.len(), 4);
}

#[test]
fn a_recovered_set_is_done() {
    let mut state = IngestState::new();
    state.ingest_batch(vec![code(7, 0, 0, 2), code(7, 1, 0, 2)]);
    state.apply_recovery_result(RecoveryResult {
        slot: 7,
        fec_set_index: 0,
        recovered: vec![data(7, 0, 0, false)],
    });
    state.ingest_batch(vec![data(7, 1, 0, true), code(7, 2, 0, 2), code(7, 3, 0, 2)]);
    assert!(is_idle(&state, 7, 0));
    assert_eq!(segments(&mut state), vec![]);
}

#[test]
fn handing_on_a_run_ends_the_work_on_its_sets() {
    let mut state = IngestState::new();
    state.ingest_batch(vec![data(7, 0, 0, true)]);
    assert_eq!(segments(&mut state).len(), 1);
    state.ingest_batch(vec![code(7, 0, 0, 2), code(7, 1, 0, 2)]);
    assert!(is_idle(&state, 7, 0));
}

#[test]
fn results_for_unknown_slots_are_dropped() {
    let mut state = IngestState::new();
    let result = RecoveryResult {
        slot: 7,
        fec_set_index: 40_000,
        recovered: vec![data(7, 40_000, 40_000, true)],
    };
    assert!(state.accepts_result(&result));
    state.apply_recovery_result(result);
    assert_eq!(*state.stats(), DecoderStats::default());
    assert_eq!(segments(&mut state), vec![]);
}

#[test]
fn results_outside_the_tables_are_recognised() {
    let mut state = IngestState::new();
    state.ingest_batch(vec![data(7, 0, 0, false)]);
    let with = |fec_set_index: u32, recovered: Vec<Shred>| RecoveryResult {
        slot: 7,
        fec_set_index,
        recovered,
    };
    assert!(!state.accepts_result(&with(32_768, vec![])));
    assert!(state.accepts_result(&with(32_767, vec![])));
    assert!(!state.accepts_result(&with(0, vec![data(7, 32_768, 0, true)])));
    assert!(state.accepts_result(&with(0, vec![code(7, 32_768, 0, 2)])));
    assert!(!state.accepts_result(&with(0, vec![code(7, 0, 32_768, 2)])));
}

#[test]
fn jobs_for_which_the_queue_has_no_room_are_sent_in_the_next_pass() {
    let mut state = IngestState::new();
    let (mut pool, channels, _) = RecoveryPool::new(1);
    let mut batch = Vec::new();
    for set in 0..6 {
        batch.push(data(7, set * 2, set * 2, false));
        batch.push(code(7, set * 2, set * 2, 2));
    }
    state.ingest_batch(batch);
    dispatch_all(&mut state, &mut pool, 0);
    state.end_emit();
    assert_eq!(channels.job_rx.len(), 4);
    assert!(is_queued(&state, 7, 8));
    assert!(is_queued(&state, 7, 10));

    let mut sets: Vec<u32> = channels.job_rx.try_iter().map(|j| j.fec_set_index).collect();
    dispatch_all(&mut state, &mut pool, 0);
    state.end_emit();
    sets.extend(channels.job_rx.try_iter().map(|j| j.fec_set_index));
    assert_eq!(sets, vec![0, 2, 4, 6, 8, 10]);
    dispatch_all(&mut state, &mut pool, 0);
    assert_eq!(channels.job_rx.len(), 0);
}

#[test]
fn small_recoveries_go_on_behind_a_full_queue() {
    let mut state = IngestState::new();
    let (mut pool, channels, _) = RecoveryPool::new(1);
    drop(channels);
    state.ingest_batch(vec![
        // Two missing.
        data(7, 0, 0, false),
        code(7, 0, 0, 3),
        code(7, 1, 0, 3),
        // One missing.
        data(7, 4, 4, false),
        code(7, 4, 4, 2),
    ]);
    let inline = dispatch_all(&mut state, &mut pool, 1);
    assert_eq!(inline.len(), 1);
    assert_eq!(inline[0].fec_set_index, 4);
    assert!(is_queued(&state, 7, 0));
}

#[test]
fn a_repeated_batch_changes_nothing() {
    let mut state = IngestState::new();
    let batch = vec![data(7, 0, 0, false), data(7, 2, 0, true), data(60, 0, 0, false)];
    state.ingest_batch(batch.clone());
    state.end_emit();
    state.ingest_batch(batch);
    assert!(state.next_segment(&mut IngestState::new().begin_emit()).is_none());
    state.ingest_batch(vec![data(60, 1, 0, true)]);
    assert_eq!(segments(&mut state).len(), 1);
}

#[test]
fn old_slots_are_dropped_once_there_are_too_many() {
    let mut state = IngestState::new();
    for slot in 1..=150 {
        state.ingest_batch(vec![data(slot, 0, 0, true)]);
    }
    assert_eq!(MAX_PROCESSING_AGE, 150);
    assert_eq!(state.cleanup(), 0);
    // The sets of one old slot are done.
    state.mark_deshredded(5, 0, 0);
    state.ingest_batch(vec![data(151, 0, 0, true)]);
    // The slots below 101 go.
    assert_eq!(state.cleanup(), 99);
    assert_eq!(state.cleanup(), 0);
    let slots: Vec<u64> = segments(&mut state).iter().map(|s| s.0).collect();
    assert_eq!(slots, (101..=151).collect::<Vec<u64>>());
}

#[test]
fn the_limit_on_slots_is_that_of_the_runtime() {
    assert_eq!(MAX_PROCESSING_AGE, solana_sdk::clock::MAX_PROCESSING_AGE);
}

#[test]
fn events_are_taken_in() {
    let mut state = IngestState::new();
    assert!(state.on_event(IngestEvent::Idle));
    assert!(state.on_event(IngestEvent::ResultsClosed));
    assert!(state.on_event(IngestEvent::Packets(vec![data(7, 0, 0, false)])));
    assert!(state.on_event(IngestEvent::Recovered(RecoveryResult {
        slot: 7,
        fec_set_index: 0,
        recovered: vec![data(7, 1, 0, true)],
    })));
    assert_eq!(segments(&mut state).len(), 1);
    assert!(!state.on_event(IngestEvent::PacketsClosed));
}

#[test]
fn a_tick_drains_results_before_the_wait_and_before_handing_on() {
    let mut step = TickStep::CheckExit;
    let mut seen = Vec::new();
    for _ in 0..7 {
        step = next_step(step, false);
        seen.push(step);
    }
    assert_eq!(
        seen,
        vec![
            TickStep::DrainBefore,
            TickStep::AwaitEvent,
            TickStep::Dispatch,
            TickStep::DrainAfter,
            TickStep::Emit,
            TickStep::Cleanup,
            TickStep::CheckExit,
        ]
    );
}

#[test]
fn the_thread_stops_when_asked_to_or_without_packets() {
    assert_eq!(next_step(TickStep::CheckExit, true), TickStep::Stop);
    assert_eq!(next_step(TickStep::AwaitEvent, true), TickStep::Stop);
    assert_eq!(next_step(TickStep::Emit, true), TickStep::Cleanup);
    assert_eq!(next_step(TickStep::Stop, false), TickStep::Stop);
}

#[test]
fn short_packets_are_not_looked_at() {
    assert!(!is_candidate_packet(&[0; 63]));
    assert!(is_candidate_packet(&[0; 64]));
}

#[test]
fn the_packet_filter_is_looked_after_every_two_seconds() {
    assert!(!dedup_check_due(0));
    assert!(!dedup_check_due(1));
    assert!(dedup_check_due(2));
}
