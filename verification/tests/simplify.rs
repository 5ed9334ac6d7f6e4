use rumba_core::simplify::{
    complete_truth_table, get_signed, infer_bitwise_truth_tables, sub_coeff,
};

#[test]
fn get_signed_reads_twos_complement() {
    assert_eq!(get_signed(0xff, 8), -1);
    assert_eq!(get_signed(0x7f, 8), 127);
    assert_eq!(get_signed(0x80, 8), -128);
    assert_eq!(get_signed(0x1ff, 8), -1);
    assert_eq!(get_signed(u64::MAX, 64), -1);
    assert_eq!(get_signed(5, 1), -1);
    assert_eq!(get_signed(4, 1), 0);
}

#[test]
fn sub_coeff_updates_the_covered_entries() {
    let mut tt = [10u64; 8];
    sub_coeff(&mut tt, 3, 1, &[0]);
    assert_eq!(tt, [10, 7, 10, 7, 10, 7, 10, 7]);

    let mut tt = [10u64; 8];
    sub_coeff(&mut tt, 3, 1, &[0, 2]);
    assert_eq!(tt, [10, 10, 10, 10, 10, 7, 10, 7]);

    let mut tt = [0u64; 8];
    sub_coeff(&mut tt, 1, 2, &[1]);
    assert_eq!(tt, [0, 0, u64::MAX, u64::MAX, 0, 0, u64::MAX, u64::MAX]);
}

#[test]
fn complete_truth_table_enumerates_free_inputs_in_order() {
    assert_eq!(
        complete_truth_table(&[Some(true), None, Some(false), None]),
        vec![1, 3, 9, 11]
    );
    assert_eq!(complete_truth_table(&[Some(false), Some(true)]), vec![2]);
    assert_eq!(complete_truth_table(&[]), vec![0]);
    assert_eq!(complete_truth_table(&[None, None]), vec![0, 1, 2, 3]);
}

#[test]
fn infer_bitwise_truth_tables_recovers_and() {
    let x = [0b0101u64];
    let y = [0b0011u64];
    let target = [0b0001u64];
    assert_eq!(infer_bitwise_truth_tables(&target, &[&x, &y], 4), vec![8]);
}

#[test]
fn infer_bitwise_truth_tables_leaves_unseen_inputs_free() {
    let x = [0u64];
    assert_eq!(infer_bitwise_truth_tables(&[1], &[&x], 1), vec![1, 3]);
}

#[test]
fn infer_bitwise_truth_tables_rejects_conflicting_observations() {
    let x = [0b00u64];
    assert_eq!(infer_bitwise_truth_tables(&[0b01], &[&x], 2), Vec::<u8>::new());
}
