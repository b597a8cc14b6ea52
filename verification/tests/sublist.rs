use katas::sublist::{sublist, sublist2, Comparison};

fn both(a: &[u32], b: &[u32]) -> Comparison {
    let first = sublist(a, b);
    let second = sublist2(a, b);
    assert_eq!(first, second);
    first
}

#[test]
fn empty_lists_are_equal() {
    assert_eq!(both(&[], &[]), Comparison::Equal);
}

#[test]
fn empty_list_within_non_empty_list() {
    assert_eq!(both(&[], &[1, 2, 3]), Comparison::Sublist);
}

#[test]
fn non_empty_list_contains_empty_list() {
    assert_eq!(both(&[1, 2, 3], &[]), Comparison::Superlist);
}

#[test]
fn list_equals_itself() {
    assert_eq!(both(&[1, 2, 3], &[1, 2, 3]), Comparison::Equal);
}

#[test]
fn different_lists_of_equal_length() {
    assert_eq!(both(&[1, 2, 3], &[2, 3, 4]), Comparison::Unequal);
}

#[test]
fn false_start() {
    assert_eq!(both(&[1, 2, 5], &[0, 1, 2, 3, 1, 2, 5, 6]), Comparison::Sublist);
}

#[test]
fn consecutive_partial_matches() {
    assert_eq!(both(&[1, 1, 2], &[0, 1, 1, 1, 2, 1, 2]), Comparison::Sublist);
}

#[test]
fn sublist_at_start() {
    assert_eq!(both(&[0, 1, 2], &[0, 1, 2, 3, 4, 5]), Comparison::Sublist);
}

#[test]
fn sublist_at_end() {
    assert_eq!(both(&[3, 4, 5], &[0, 1, 2, 3, 4, 5]), Comparison::Sublist);
}

#[test]
fn superlist_at_start_middle_and_end() {
    assert_eq!(both(&[0, 1, 2, 3, 4, 5], &[0, 1, 2]), Comparison::Superlist);
    assert_eq!(both(&[0, 1, 2, 3, 4, 5], &[2, 3]), Comparison::Superlist);
    assert_eq!(both(&[0, 1, 2, 3, 4, 5], &[3, 4, 5]), Comparison::Superlist);
}

#[test]
fn same_elements_in_another_order_are_unequal() {
    assert_eq!(both(&[1, 2, 3], &[3, 2, 1]), Comparison::Unequal);
}

#[test]
fn a_run_with_a_gap_is_no_sublist() {
    assert_eq!(both(&[1, 3], &[1, 2, 3]), Comparison::Unequal);
    assert_eq!(both(&[1, 2, 3], &[1, 3]), Comparison::Unequal);
}

#[test]
fn recurring_values_unequal() {
    assert_eq!(both(&[1, 2, 1, 2, 3], &[1, 2, 3, 1, 2, 3, 2, 3, 2, 1]), Comparison::Unequal);
}

#[test]
fn superlist_early_and_late_in_a_long_list() {
    let huge: Vec<u32> = (1..100_000).collect();
    assert_eq!(both(&huge, &[3, 4, 5]), Comparison::Superlist);
    assert_eq!(both(&huge, &[99_997, 99_998, 99_999]), Comparison::Superlist);
    assert_eq!(both(&[99_997, 99_998, 99_999], &huge), Comparison::Sublist);
    let inner: Vec<u32> = (10..90_000).collect();
    assert_eq!(both(&huge, &inner), Comparison::Superlist);
}

#[test]
fn turning_the_arguments_round_turns_the_answer_round() {
    assert_eq!(both(&[2, 3], &[1, 2, 3]), Comparison::Sublist);
    assert_eq!(both(&[1, 2, 3], &[2, 3]), Comparison::Superlist);
}
