use shred_decoder::fec_set::{get_data_shred_info, recovery_key, shreds_for_recovery, FecSet};
use shred_decoder::shred::{
    CodingHeader, CommonHeader, ComparableShred, DataHeader, Shred, ShredCode, ShredData,
    ShredType, ShredVariant,
};
use shred_decoder::worklist::sort_and_dedup;

fn header(variant: ShredVariant, index: u32) -> CommonHeader {
    CommonHeader {
        signature: [0; 64],
        shred_variant: variant,
        slot: 1,
        index,
        version: 0,
        fec_set_index: 10,
    }
}

fn data(index: u32, data_complete: bool) -> ComparableShred {
    ComparableShred(Shred::ShredData(ShredData {
        common_header: header(
            ShredVariant::MerkleData {
                proof_size: 1,
                chained: false,
                resigned: false,
            },
            index,
        ),
        data_header: DataHeader {
            parent_offset: 0,
            flags: 0,
            size: 0,
        },
        payload: vec![index as u8],
        data: Some(vec![index as u8]),
        data_complete,
        last_in_slot: false,
    }))
}

fn code(index: u32, num_data_shreds: u16, num_coding_shreds: u16) -> ComparableShred {
    ComparableShred(Shred::ShredCode(ShredCode {
        common_header: header(
            ShredVariant::MerkleCode {
                proof_size: 1,
                chained: false,
                resigned: false,
            },
            index,
        ),
        coding_header: CodingHeader {
            num_data_shreds,
            num_coding_shreds,
            position: 0,
        },
        payload: vec![index as u8; 1228],
    }))
}

#[test]
fn info_of_no_shreds_is_zero() {
    assert_eq!(get_data_shred_info(&vec![]), (0, 0, 0, 0));
}

#[test]
fn coding_shreds_tell_the_size_of_the_set() {
    let shreds = vec![data(10, false), code(0, 4, 3), data(11, true)];
    assert_eq!(get_data_shred_info(&shreds), (4, 3, 2, 1));
}

#[test]
fn the_last_data_shred_tells_the_size_without_coding_shreds() {
    let shreds = vec![data(10, false), data(13, true)];
    assert_eq!(get_data_shred_info(&shreds), (4, 0, 2, 0));
}

#[test]
fn the_first_run_end_counts_and_coding_shreds_override_it() {
    let shreds = vec![data(11, true), data(13, true)];
    assert_eq!(get_data_shred_info(&shreds), (2, 0, 2, 0));
    let shreds = vec![data(11, true), code(0, 5, 5), code(1, 6, 7)];
    assert_eq!(get_data_shred_info(&shreds), (6, 7, 1, 2));
}

#[test]
fn a_data_shred_before_its_set_wraps() {
    let shreds = vec![data(9, true)];
    assert_eq!(get_data_shred_info(&shreds), (0, 0, 1, 0));
    let shreds = vec![data(8, true)];
    assert_eq!(get_data_shred_info(&shreds), (65_535, 0, 1, 0));
}

#[test]
fn info_ignores_order_where_coding_shreds_agree() {
    let a = vec![code(0, 3, 2), data(10, false), data(12, true)];
    let b = vec![data(12, true), data(10, false), code(0, 3, 2)];
    assert_eq!(get_data_shred_info(&a), get_data_shred_info(&b));
    assert_eq!(get_data_shred_info(&a), (3, 2, 2, 1));
}

#[test]
fn a_set_takes_a_shred_once() {
    let mut set = FecSet::new();
    assert_eq!(set.len(), 0);
    assert!(set.insert(data(10, false)));
    assert!(set.insert(data(11, false)));
    assert!(!set.insert(data(10, false)));
    assert!(set.insert(code(10, 2, 2)));
    assert_eq!(set.len(), 3);
    assert_eq!(set.shreds().len(), 3);
    set.clear();
    assert_eq!(set.len(), 0);
}

#[test]
fn a_set_takes_shreds_that_cannot_be_compared_every_time() {
    let mut bad = data(10, false);
    if let Shred::ShredData(s) = &mut bad.0 {
        s.data = None;
    }
    let mut set = FecSet::new();
    assert!(set.insert(bad.clone()));
    assert!(set.insert(bad));
    assert_eq!(set.len(), 2);
}

#[test]
fn recoveries_take_data_shreds_first_and_by_index() {
    let mut set = FecSet::new();
    set.insert(code(1, 4, 4));
    set.insert(data(13, true));
    set.insert(code(0, 4, 4));
    set.insert(data(10, false));
    let order: Vec<(ShredType, u32)> = shreds_for_recovery(&set)
        .iter()
        .map(|s| (s.shred_type(), s.index()))
        .collect();
    assert_eq!(
        order,
        vec![
            (ShredType::Data, 10),
            (ShredType::Data, 13),
            (ShredType::Code, 0),
            (ShredType::Code, 1),
        ]
    );
}

#[test]
fn recoveries_keep_the_order_of_shreds_with_one_index() {
    let mut set = FecSet::new();
    let mut second = data(10, false);
    if let Shred::ShredData(s) = &mut second.0 {
        s.data = Some(vec![99]);
        s.payload = vec![99];
    }
    set.insert(data(11, false));
    set.insert(second);
    set.insert(data(10, false));
    let payloads: Vec<u8> = shreds_for_recovery(&set)
        .iter()
        .map(|s| s.payload()[0])
        .collect();
    assert_eq!(payloads, vec![99, 10, 11]);
}

#[test]
fn keys_rank_data_below_code() {
    assert!(recovery_key(&data(30, false).0) < recovery_key(&code(0, 1, 1).0));
    assert!(recovery_key(&data(3, false).0) < recovery_key(&data(4, false).0));
}

#[test]
fn worklists_are_sorted_and_deduplicated() {
    let mut keys = vec![(2, 1), (1, 9), (2, 1), (1, 3), (1, 9), (2, 0)];
    sort_and_dedup(&mut keys);
    assert_eq!(keys, vec![(1, 3), (1, 9), (2, 0), (2, 1)]);
    let mut none: Vec<(u64, u32)> = vec![];
    sort_and_dedup(&mut none);
    assert!(none.is_empty());
}
