use ksero::candidate::ContentKey;
use ksero::grouping::group_positions;

#[test]
fn nothing_gives_no_classes() {
    assert_eq!(group_positions(&vec![]), Vec::<Vec<usize>>::new());
}

#[test]
fn classes_come_in_order_of_first_occurrence() {
    let codes: Vec<u128> = vec![5, 7, 5, 9, 7, 5];
    assert_eq!(group_positions(&codes), vec![vec![0, 2, 5], vec![1, 4], vec![3]]);
}

#[test]
fn distinct_codes_stand_alone() {
    let codes: Vec<u128> = vec![3, 2, 1];
    assert_eq!(group_positions(&codes), vec![vec![0], vec![1], vec![2]]);
}

#[test]
fn equal_codes_share_one_class() {
    let codes: Vec<u128> = vec![u128::MAX; 4];
    assert_eq!(group_positions(&codes), vec![vec![0, 1, 2, 3]]);
}

#[test]
fn a_key_packs_digest_above_size() {
    let key = ContentKey { hash: 1, size: 2 };
    assert_eq!(key.packed(), (1u128 << 64) + 2);
    let key = ContentKey { hash: u64::MAX, size: u64::MAX };
    assert_eq!(key.packed(), u128::MAX);
    let key = ContentKey { hash: 0, size: 0 };
    assert_eq!(key.packed(), 0);
}

#[test]
fn keys_that_differ_pack_differently() {
    let a = ContentKey { hash: 1, size: 0 };
    let b = ContentKey { hash: 0, size: 1 };
    assert_ne!(a.packed(), b.packed());
    assert_ne!(a, b);
}
