use shred_decoder::shred::{
    CodingHeader, CommonHeader, DataHeader, Shred, ShredCode, ShredData, ShredVariant,
};
use shred_decoder::state::{
    can_offer, get_indexes, next_run, offer_all, update_state_tracker, ShredStatus,
    ShredsStateTracker,
};

fn header(index: u32, fec_set_index: u32) -> CommonHeader {
    CommonHeader {
        signature: [0; 64],
        shred_variant: ShredVariant::LegacyData,
        slot: 1,
        index,
        version: 0,
        fec_set_index,
    }
}

fn data(index: u32, fec_set_index: u32, data_complete: bool, last_in_slot: bool) -> Shred {
    Shred::ShredData(ShredData {
        common_header: header(index, fec_set_index),
        data_header: DataHeader {
            parent_offset: 0,
            flags: 0,
            size: 0,
        },
        payload: vec![index as u8],
        data: Some(vec![index as u8]),
        data_complete,
        last_in_slot,
    })
}

fn code(index: u32, fec_set_index: u32) -> Shred {
    Shred::ShredCode(ShredCode {
        common_header: header(index, fec_set_index),
        coding_header: CodingHeader {
            num_data_shreds: 2,
            num_coding_shreds: 2,
            position: 0,
        },
        payload: vec![],
    })
}

fn with_statuses(statuses: &[ShredStatus]) -> ShredsStateTracker {
    let mut t = ShredsStateTracker::default();
    for (i, s) in statuses.iter().enumerate() {
        t.data_status[i] = *s;
    }
    t
}

const U: ShredStatus = ShredStatus::Unknown;
const N: ShredStatus = ShredStatus::NotDataComplete;
const C: ShredStatus = ShredStatus::DataComplete;

#[test]
fn new_tables_are_empty_and_full_sized() {
    let t = ShredsStateTracker::default();
    assert_eq!(t.data_status.len(), 32_768);
    assert!(t.data_status.iter().all(|s| *s == ShredStatus::Unknown));
    assert!(t.data_shreds.iter().all(|s| s.is_none()));
    assert!(!t.already_recovered_fec_sets.contains(&true));
    assert!(!t.already_deshredded.contains(&true));
    assert!(!t.recovery_in_flight.contains(&true));
}

#[test]
fn status_starts_unknown() {
    assert_eq!(ShredStatus::default(), ShredStatus::Unknown);
}

#[test]
fn data_shreds_are_recorded_once() {
    let mut t = ShredsStateTracker::default();
    assert_eq!(update_state_tracker(&data(5, 4, false, false), &mut t), Some(5));
    assert_eq!(t.data_status[5], N);
    assert!(t.data_shreds[5].is_some());
    assert_eq!(update_state_tracker(&data(5, 4, true, false), &mut t), None);
    assert_eq!(t.data_status[5], N);
}

#[test]
fn the_last_shreds_of_runs_and_slots_complete() {
    let mut t = ShredsStateTracker::default();
    update_state_tracker(&data(6, 4, true, false), &mut t);
    update_state_tracker(&data(7, 4, false, true), &mut t);
    assert_eq!(t.data_status[6], C);
    assert_eq!(t.data_status[7], C);
}

#[test]
fn code_shreds_leave_no_trace() {
    let mut t = ShredsStateTracker::default();
    assert_eq!(update_state_tracker(&code(5, 4), &mut t), Some(5));
    assert_eq!(update_state_tracker(&code(5, 4), &mut t), Some(5));
    assert_eq!(t.data_status[5], U);
    assert!(t.data_shreds[5].is_none());
}

#[test]
fn shreds_of_a_finished_set_are_turned_away() {
    let mut t = ShredsStateTracker::default();
    t.already_recovered_fec_sets[4] = true;
    assert_eq!(update_state_tracker(&data(5, 4, false, false), &mut t), None);
    assert_eq!(update_state_tracker(&code(5, 4), &mut t), None);
    assert!(t.data_shreds[5].is_none());
}

#[test]
fn offers_outside_the_tables_are_recognised() {
    let mut t = ShredsStateTracker::default();
    assert!(can_offer(&t, &data(32_767, 0, false, false)));
    assert!(!can_offer(&t, &data(32_768, 0, false, false)));
    assert!(can_offer(&t, &code(32_768, 0)));
    assert!(!can_offer(&t, &code(0, 32_768)));
    t.already_recovered_fec_sets[0] = true;
    assert!(can_offer(&t, &data(32_768, 0, false, false)));
}

#[test]
fn offering_counts_what_is_of_use() {
    let mut t = ShredsStateTracker::default();
    let shreds = vec![
        data(0, 0, false, false),
        data(0, 0, true, false),
        code(1, 0),
        data(1, 0, true, false),
    ];
    assert_eq!(offer_all(&shreds, &mut t), 3);
    assert_eq!(t.data_status[0], N);
    assert_eq!(t.data_status[1], C);
}

#[test]
fn a_run_at_the_start_of_the_slot_is_found() {
    let t = with_statuses(&[N, N, C, N]);
    assert_eq!(get_indexes(&t, 0), Some((0, 2, false)));
    assert_eq!(get_indexes(&t, 1), Some((0, 2, false)));
    assert_eq!(get_indexes(&t, 2), Some((0, 2, false)));
    assert_eq!(get_indexes(&t, 3), None);
}

#[test]
fn a_run_of_one_shred_is_found() {
    let t = with_statuses(&[C]);
    assert_eq!(get_indexes(&t, 0), Some((0, 0, false)));
}

#[test]
fn a_run_after_another_is_found() {
    let t = with_statuses(&[N, C, N, N, C]);
    assert_eq!(get_indexes(&t, 3), Some((2, 4, false)));
    assert_eq!(get_indexes(&t, 4), Some((2, 4, false)));
}

#[test]
fn a_run_after_a_gap_has_an_unknown_start() {
    let t = with_statuses(&[U, N, N, C]);
    assert_eq!(get_indexes(&t, 2), Some((1, 3, true)));
    assert_eq!(get_indexes(&t, 1), Some((1, 3, true)));
}

#[test]
fn a_run_with_a_gap_is_not_found() {
    let t = with_statuses(&[N, U, C]);
    assert_eq!(get_indexes(&t, 0), None);
    assert_eq!(get_indexes(&t, 1), None);
    assert_eq!(get_indexes(&t, 2), Some((2, 2, true)));
}

#[test]
fn a_run_that_was_handed_on_is_not_found() {
    let mut t = with_statuses(&[N, N, C]);
    t.already_deshredded[1] = true;
    assert_eq!(get_indexes(&t, 0), None);
    assert_eq!(get_indexes(&t, 1), None);
    assert_eq!(get_indexes(&t, 2), None);
}

#[test]
fn a_finished_run_before_does_not_matter() {
    let mut t = with_statuses(&[N, C, N, C]);
    t.already_deshredded[0] = true;
    t.already_deshredded[1] = true;
    assert_eq!(get_indexes(&t, 3), Some((2, 3, false)));
}

#[test]
fn an_index_outside_the_tables_has_no_run() {
    let t = with_statuses(&[C]);
    assert_eq!(get_indexes(&t, 32_768), None);
    assert_eq!(get_indexes(&t, usize::MAX), None);
}

#[test]
fn a_run_that_never_ends_is_not_found() {
    let mut t = ShredsStateTracker::default();
    for s in t.data_status.iter_mut() {
        *s = N;
    }
    assert_eq!(get_indexes(&t, 32_000), None);
}

#[test]
fn each_index_of_a_run_finds_the_same_run() {
    let t = with_statuses(&[N, C, N, N, N, C]);
    for index in 2..=5 {
        assert_eq!(get_indexes(&t, index), Some((2, 5, false)));
    }
}

#[test]
fn the_runs_of_a_set_are_found_one_after_the_other() {
    let mut t = ShredsStateTracker::default();
    for (index, set, ends) in [(0, 0, true), (1, 0, false), (2, 2, true), (3, 2, true)] {
        update_state_tracker(&data(index, set, ends, false), &mut t);
    }
    assert_eq!(next_run(&t, 0, 0), Some((0, 0)));
    assert_eq!(next_run(&t, 0, 1), Some((1, 2)));
    assert_eq!(next_run(&t, 0, 3), None);
    assert_eq!(next_run(&t, 2, 0), Some((1, 2)));
    assert_eq!(next_run(&t, 2, 3), Some((3, 3)));
    assert_eq!(next_run(&t, 4, 0), None);
    t.already_deshredded[1] = true;
    assert_eq!(next_run(&t, 2, 0), Some((3, 3)));
}

#[test]
fn a_run_that_may_begin_earlier_is_found_from_its_sets_first_index_only() {
    let mut t = ShredsStateTracker::default();
    for (index, set, ends) in [(4, 2, false), (5, 2, true), (8, 8, true)] {
        update_state_tracker(&data(index, set, ends, false), &mut t);
    }
    assert_eq!(next_run(&t, 2, 0), None);
    assert_eq!(next_run(&t, 8, 0), Some((8, 8)));
    update_state_tracker(&data(3, 2, true, false), &mut t);
    assert_eq!(next_run(&t, 2, 0), Some((4, 5)));
}
