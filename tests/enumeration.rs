use std::collections::BTreeMap;

use boolean_logic::sat::sat;
use boolean_logic::set_evaluation::{eval_set, try_eval_set, MySet, SetEvalError};
use boolean_logic::truth_table::{create_dict, substitute_vars, truth_table, update_dict, TableError};

#[test]
fn test_truth_table_substitute_vars() {
    let mut dict = BTreeMap::new();
    dict.insert('A', true);
    dict.insert('B', false);
    let dict: Vec<(char, bool)> = dict.into_iter().collect();
    assert_eq!(substitute_vars("AB&", &dict), "10&");
}

#[test]
fn test_truth_table_create_dict() {
    let dict = create_dict("AB&C");
    assert!(dict.iter().any(|(k, _)| *k == 'A'));
    assert!(dict.iter().any(|(k, _)| *k == 'B'));
    assert!(dict.iter().any(|(k, _)| *k == 'C'));
}

#[test]
fn create_dict_is_sorted_and_distinct() {
    assert_eq!(create_dict("CAB&A|&"), vec![('A', false), ('B', false), ('C', false)]);
    assert_eq!(create_dict("A1&"), vec![]);
    assert_eq!(create_dict("!&"), vec![]);
}

#[test]
fn test_truth_table_update_dict() {
    let mut dict = BTreeMap::new();
    dict.insert('A', false);
    dict.insert('B', false);
    let mut dict: Vec<(char, bool)> = dict.into_iter().collect();
    update_dict(&mut dict, 1);
    assert_eq!(dict.iter().find(|(k, _)| *k == 'B').unwrap().1, true);
}

#[test]
fn update_dict_bits() {
    let mut dict = vec![('A', false), ('B', false), ('C', false)];
    update_dict(&mut dict, 6);
    assert_eq!(dict, vec![('A', true), ('B', true), ('C', false)]);
}

#[test]
fn test_truth_table_print_truth_table() {
    let rows = truth_table("AB&C").unwrap_err();
    assert_eq!(rows, TableError::InvalidFormula);
}

#[test]
fn truth_table_rows() {
    let rows = truth_table("AB&C|").unwrap();
    assert_eq!(rows.len(), 8);
    let values: Vec<bool> = rows.iter().map(|(_, v)| *v).collect();
    assert_eq!(values, vec![false, true, false, true, false, true, true, true]);
    assert_eq!(rows[6].0, vec![('A', true), ('B', true), ('C', false)]);
    let repeated = truth_table("AA!&").unwrap();
    assert_eq!(repeated.len(), 2);
    assert!(repeated.iter().all(|(_, v)| !*v));
    assert_eq!(truth_table("10&").unwrap_err(), TableError::NoVariables);
    assert_eq!(truth_table("1011").unwrap_err(), TableError::InvalidFormula);
}

#[test]
fn test_sat() {
    assert_eq!(sat("AB|"), true);
    assert_eq!(sat("AB&"), true);
    assert_eq!(sat("AA!&"), false);
}

#[test]
fn sat_edge_cases() {
    assert_eq!(sat("AA^"), false);
    assert_eq!(sat("1011"), false);
    assert_eq!(sat("11&"), false);
    assert_eq!(sat("A!"), true);
}

#[test]
fn test_set_evaluation_eval_set() {
    let sets = vec![vec![0, 1, 2], vec![0, 3, 4]];
    assert_eq!(eval_set("AB&", sets), vec![0]);
}

#[test]
fn set_evaluation_operators() {
    assert_eq!(eval_set("AB|", vec![vec![0, 1, 2], vec![3, 4, 5]]), vec![0, 1, 2, 3, 4, 5]);
    assert_eq!(eval_set("A!", vec![vec![0, 1, 2]]), Vec::<i32>::new());
    assert_eq!(eval_set("A!", vec![vec![0, 1, 2], vec![3, 4, 5], vec![6, 7, 8]]), vec![3, 4, 5, 6, 7, 8]);
    assert_eq!(eval_set("AB>", vec![vec![1, 2], vec![2, 3]]), vec![3, 2]);
    assert_eq!(eval_set("AC&", vec![vec![1], vec![2]]), Vec::<i32>::new());
    assert_eq!(eval_set("1011", vec![vec![1]]), Vec::<i32>::new());
}

#[test]
fn set_operations() {
    let a = MySet(vec![0, 1, 2]);
    let b = MySet(vec![2, 3]);
    assert_eq!(a.bitand(b).0, vec![2]);
    let a = MySet(vec![0, 1, 2]);
    let b = MySet(vec![2, 3]);
    assert_eq!(a.bitor(b).0, vec![0, 1, 2, 3]);
    let u = MySet(vec![0, 1, 2, 3]);
    assert_eq!(MySet(vec![1, 3]).not(&u).0, vec![0, 2]);
}

#[test]
fn set_evaluation_errors() {
    assert_eq!(try_eval_set("AC&", vec![vec![1], vec![2]]), Err(SetEvalError::IndexOutOfBounds));
    assert_eq!(try_eval_set("A1&", vec![vec![1]]), Err(SetEvalError::ConstantInFormula));
    assert_eq!(try_eval_set("AB", vec![vec![1], vec![2]]), Err(SetEvalError::InvalidFormula));
    assert_eq!(try_eval_set("AB&", vec![vec![1], vec![2]]), Ok(vec![]));
    assert_eq!(try_eval_set("AB&", vec![vec![0, 1, 2], vec![0, 3, 4]]), Ok(vec![0]));
}
