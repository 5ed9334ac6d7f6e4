use rumba_core::lambda::{find_lambda_int, find_two_lambdas_int};

#[test]
fn lambda_narrows_candidates_entry_by_entry() {
    // x = a + 2 y on the first two entries, and b where y is 0
    assert_eq!(find_lambda_int(&[5, 5, 3], &[1, 2, 0], 3, 1, 64), Some(2));
}

#[test]
fn lambda_reads_entries_as_signed_and_masks_the_result() {
    // 0xff is -1 on eight bits: -1 - (-1) * 1 == 0
    assert_eq!(find_lambda_int(&[0xff], &[1], 0, 1, 8), Some(0xff));
}

#[test]
fn lambda_is_zero_when_no_entry_needs_correcting() {
    assert_eq!(find_lambda_int(&[1, 0], &[0, 0], 0, 1, 64), Some(0));
    assert_eq!(find_lambda_int(&[], &[], 0, 1, 64), Some(0));
}

#[test]
fn lambda_refuses_contradicting_entries() {
    // an entry with zero y must already be a or b
    assert_eq!(find_lambda_int(&[2], &[0], 0, 1, 64), None);
    // the second entry wants a multiplier the first does not allow
    assert_eq!(find_lambda_int(&[0, 5], &[1, 1], 0, 1, 64), None);
    // no multiplier divides exactly
    assert_eq!(find_lambda_int(&[3], &[2], 0, 0, 64), None);
}

#[test]
fn lambda_turns_entry_zero_into_a() {
    // both 1 and 0 are candidates; only 1 turns entry 0 into a = 0
    assert_eq!(find_lambda_int(&[1], &[1], 0, 1, 64), Some(1));
    // -4 turns both entries into a = 5
    assert_eq!(find_lambda_int(&[1, 1], &[1, 1], 5, 0, 64), Some((-4i64) as u64));
}

#[test]
fn two_lambdas_solve_the_paired_equations() {
    // x = 7 + 3 y + 5 z
    let y = [1, 0, 2];
    let z = [0, 1, 1];
    let x = [10, 12, 18];
    assert_eq!(find_two_lambdas_int(&x, &y, &z, 7, 9, 64), Some((3, 5)));
}

#[test]
fn two_lambdas_need_a_nonzero_entry_and_a_fit() {
    assert_eq!(find_two_lambdas_int(&[1, 2], &[0, 0], &[0, 0], 0, 1, 64), None);
    // x = 1 + y on entry 0 but entry 1 cannot be matched to 0 or 1
    assert_eq!(find_two_lambdas_int(&[2, 9], &[1, 1], &[0, 0], 1, 0, 64), None);
}

#[test]
fn two_lambdas_are_masked_to_the_width() {
    // on eight bits, x = 0 - y - z reads -2 at entry 0
    let mask = 0xff;
    let result = find_two_lambdas_int(&[0xfe, 0xff, 0xff], &[1, 1, 0], &[1, 0, 1], 0, 0, 8);
    assert_eq!(result, Some((mask, mask)));
}
