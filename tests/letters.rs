use boolean_logic::letter_table::{evaluate, generate_truth_row, is_operand, unique_ids};

#[test]
fn operands_are_non_letters() {
    assert!(is_operand('&'));
    assert!(is_operand('1'));
    assert!(!is_operand('a'));
    assert!(!is_operand('Z'));
}

#[test]
fn identifiers_sorted_and_distinct() {
    assert_eq!(unique_ids("bA&a|b&"), vec!['A', 'a', 'b']);
    assert_eq!(unique_ids("10&"), Vec::<char>::new());
}

#[test]
fn rows_from_bits() {
    let ids = vec!['A', 'B', 'C'];
    assert_eq!(generate_truth_row(&ids, 5), vec![('A', true), ('B', false), ('C', true)]);
    assert_eq!(generate_truth_row(&ids, 0), vec![('A', false), ('B', false), ('C', false)]);
}

#[test]
fn evaluation_under_a_row() {
    let ids = unique_ids("AB&C|");
    let row = generate_truth_row(&ids, 6);
    assert_eq!(evaluate("AB&C|", &ids, &row), true);
    let row = generate_truth_row(&ids, 4);
    assert_eq!(evaluate("AB&C|", &ids, &row), false);
    let ids = unique_ids("ab|");
    let row = generate_truth_row(&ids, 1);
    assert_eq!(evaluate("ab|", &ids, &row), true);
}

#[test]
fn letter_table_rows() {
    let rows = boolean_logic::letter_table::letter_truth_table("ab&").unwrap();
    assert_eq!(rows.len(), 4);
    assert_eq!(rows[3], (vec![('a', true), ('b', true)], true));
    assert_eq!(rows[2].1, false);
    let none = boolean_logic::letter_table::letter_truth_table("10&").unwrap();
    assert_eq!(none.len(), 1);
    assert_eq!(none[0], (vec![], false));
}
