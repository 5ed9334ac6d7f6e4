use rumba_core::names::Names;

#[test]
fn interns_names_in_order_of_first_appearance() {
    let (src, names) = Names::rewrite("rax + rbx - (rax & rbx)");

    assert_eq!(src, "v0 + v1 - (v0 & v1)");
    assert_eq!(names.restore("v0 | v1"), "rax | rbx");
}

#[test]
fn leaves_numbers_alone() {
    let (src, names) = Names::rewrite("x * 0x1f + 12 - 0xdeadbeef");

    assert_eq!(src, "v0 * 0x1f + 12 - 0xdeadbeef");
    assert_eq!(names.restore(&src), "x * 0x1f + 12 - 0xdeadbeef");
}

#[test]
fn does_not_read_an_identifier_out_of_a_hex_literal() {
    let (src, _) = Names::rewrite("0xff & 0Xab");

    assert_eq!(src, "0xff & 0Xab");
}

#[test]
fn plain_v_indices_round_trip() {
    let (src, names) = Names::rewrite("v0 ^ v1");

    assert_eq!(src, "v0 ^ v1");
    assert_eq!(names.restore(&src), "v0 ^ v1");
}

#[test]
fn renumbers_and_restores_shuffled_v_names() {
    let (src, names) = Names::rewrite("v1 | v0");

    assert_eq!(src, "v0 | v1");
    assert_eq!(names.restore(&src), "v1 | v0");
}

#[test]
fn accepts_underscores_and_digits_within_a_name() {
    let (src, names) = Names::rewrite("_tmp1 ^ r8d");

    assert_eq!(src, "v0 ^ v1");
    assert_eq!(names.restore(&src), "_tmp1 ^ r8d");
}

#[test]
fn unknown_index_falls_back_to_its_v_form() {
    let (_, names) = Names::rewrite("x");

    assert_eq!(names.restore("v0 + v7"), "x + v7");
}

#[test]
fn get_returns_the_name_or_the_v_form() {
    let (_, names) = Names::rewrite("alpha + beta");
    assert_eq!(names.get(1), "beta");
    assert_eq!(names.get(12), "v12");
}

#[test]
fn an_identifier_glued_to_a_number_does_not_round_trip() {
    let (src, names) = Names::rewrite("1x");
    assert_eq!(src, "1v0");
    assert_eq!(names.restore(&src), "1v0");
}

#[test]
fn oversized_index_is_left_as_written() {
    let (_, names) = Names::rewrite("x");
    let huge = "v99999999999999999999999";
    assert_eq!(names.restore(huge), huge);
}
