use shred_decoder::shred::{
    CodingHeader, CommonHeader, ComparableShred, DataHeader, Shred, ShredCode, ShredData,
    ShredType, ShredVariant, SIZE_OF_CODE_PAYLOAD,
};

fn header(variant: ShredVariant) -> CommonHeader {
    CommonHeader {
        signature: [7; 64],
        shred_variant: variant,
        slot: 9,
        index: 3,
        version: 1,
        fec_set_index: 2,
    }
}

fn merkle_code(proof_size: u8, resigned: bool) -> ShredVariant {
    ShredVariant::MerkleCode {
        proof_size,
        chained: true,
        resigned,
    }
}

fn code(variant: ShredVariant, payload: Vec<u8>) -> ComparableShred {
    ComparableShred(Shred::ShredCode(ShredCode {
        common_header: header(variant),
        coding_header: CodingHeader {
            num_data_shreds: 32,
            num_coding_shreds: 32,
            position: 0,
        },
        payload,
    }))
}

fn data(bytes: Option<Vec<u8>>, payload: Vec<u8>) -> ComparableShred {
    ComparableShred(Shred::ShredData(ShredData {
        common_header: header(ShredVariant::MerkleData {
            proof_size: 6,
            chained: false,
            resigned: false,
        }),
        data_header: DataHeader {
            parent_offset: 1,
            flags: 0,
            size: 100,
        },
        payload,
        data: bytes,
        data_complete: false,
        last_in_slot: false,
    }))
}

#[test]
fn accessors_read_the_headers() {
    let shred = code(merkle_code(6, false), vec![1, 2]).0;
    assert_eq!(shred.slot(), 9);
    assert_eq!(shred.index(), 3);
    assert_eq!(shred.fec_set_index(), 2);
    assert_eq!(shred.shred_type(), ShredType::Code);
    assert_eq!(shred.payload(), &vec![1, 2]);
    assert!(shred.is_in_range());
    assert_eq!(data(None, vec![]).shred_type(), ShredType::Data);
}

#[test]
fn indexes_beyond_the_tables_are_out_of_range() {
    let mut h = header(merkle_code(6, false));
    h.index = 32_768;
    let shred = Shred::ShredCode(ShredCode {
        common_header: h,
        coding_header: CodingHeader {
            num_data_shreds: 1,
            num_coding_shreds: 1,
            position: 0,
        },
        payload: vec![],
    });
    assert!(!shred.is_in_range());
}

#[test]
fn code_shreds_are_compared_up_to_the_proof() {
    // Six proof entries of twenty bytes are left out.
    let compared = SIZE_OF_CODE_PAYLOAD - 120;
    let base = vec![5u8; SIZE_OF_CODE_PAYLOAD];
    let mut other_proof = base.clone();
    other_proof[compared] = 6;
    let mut other_body = base.clone();
    other_body[compared - 1] = 6;
    let v = merkle_code(6, false);
    assert!(code(v, base.clone()) == code(v, other_proof));
    assert!(code(v, base.clone()) != code(v, other_body));
}

#[test]
fn code_shreds_are_compared_up_to_the_retransmitter_signature() {
    let compared = SIZE_OF_CODE_PAYLOAD - 120 - 64;
    let base = vec![5u8; SIZE_OF_CODE_PAYLOAD];
    let mut tail = base.clone();
    tail[compared] = 6;
    let mut body = base.clone();
    body[compared - 1] = 6;
    let v = merkle_code(6, true);
    assert!(code(v, base.clone()) == code(v, tail));
    assert!(code(v, base) != code(v, body));
}

#[test]
fn code_shreds_with_an_oversized_proof_compare_by_headers_alone() {
    let v = merkle_code(255, false);
    assert!(code(v, vec![1; 1228]) == code(v, vec![2; 1228]));
}

#[test]
fn legacy_code_shreds_are_equal_to_none() {
    let a = code(ShredVariant::LegacyCode, vec![1; 1228]);
    let b = code(ShredVariant::LegacyCode, vec![1; 1228]);
    assert!(a != b);
}

#[test]
fn code_shreds_with_different_headers_differ() {
    let payload = vec![1u8; 1228];
    let a = code(merkle_code(6, false), payload.clone());
    let b = code(merkle_code(7, false), payload.clone());
    assert!(a != b);
    let mut c = a.clone();
    if let Shred::ShredCode(s) = &mut c.0 {
        s.common_header.signature[63] = 0;
    }
    assert!(a != c);
    let mut d = a.clone();
    if let Shred::ShredCode(s) = &mut d.0 {
        s.coding_header.position = 1;
    }
    assert!(a != d);
    assert!(a == a.clone());
}

#[test]
fn data_shreds_are_compared_by_their_data() {
    let a = data(Some(vec![1, 2, 3]), vec![1, 2, 3, 4]);
    let b = data(Some(vec![1, 2, 3]), vec![1, 2, 3, 5]);
    let c = data(Some(vec![1, 2, 4]), vec![1, 2, 3, 4]);
    assert!(a == b && b == a);
    assert!(a != c);
}

#[test]
fn data_shreds_without_data_are_equal_to_none() {
    let a = data(None, vec![1]);
    assert!(a != a.clone());
    assert!(a != data(Some(vec![]), vec![1]));
}

#[test]
fn data_and_code_shreds_differ() {
    let a = data(Some(vec![1]), vec![1]);
    let b = code(merkle_code(6, false), vec![1]);
    assert!(a != b && b != a);
}

#[test]
fn shreds_that_say_the_same_as_a_third_say_the_same() {
    let a = data(Some(vec![1, 2]), vec![1, 2, 3]);
    let b = data(Some(vec![1, 2]), vec![1, 2, 4]);
    let c = data(Some(vec![1, 2]), vec![1, 2, 5]);
    assert!(a == b && b == c && a == c);
}
