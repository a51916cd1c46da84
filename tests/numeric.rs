use boolean_logic::boolean_evaluation::build_ast;
use boolean_logic::display::mathematical_formula;
use boolean_logic::space_filling::{morton32, morton_decode};
use boolean_logic::adder::adder;
use boolean_logic::gray_code::gray_code;
use boolean_logic::multiplier::multiplier;
use boolean_logic::powerset::powerset;

#[test]
fn test_adder() {
    assert_eq!(adder(5, 7), 12);
    assert_eq!(adder(15, 27), 42);
    assert_eq!(adder(0, 0), 0);
    assert_eq!(adder(1, 1), 2);
}

#[test]
fn adder_wraps() {
    assert_eq!(adder(u32::MAX, 1), 0);
    assert_eq!(adder(u32::MAX, u32::MAX), u32::MAX - 1);
    assert_eq!(adder(4, 12), 16);
}

#[test]
fn test_multiplier() {
    assert_eq!(multiplier(15, 27), 405);
    assert_eq!(multiplier(30, 40), 1200);
    assert_eq!(multiplier(0, 5), 0);
    assert_eq!(multiplier(1, 1), 1);
}

#[test]
fn multiplier_wraps() {
    assert_eq!(multiplier(3, 17), 51);
    assert_eq!(multiplier(0x1_0000, 0x1_0000), 0);
    assert_eq!(multiplier(u32::MAX, 2), u32::MAX - 1);
}

#[test]
fn test_gray_code() {
    assert_eq!(gray_code(10), 15);
    assert_eq!(gray_code(25), 21);
    assert_eq!(gray_code(0), 0);
    assert_eq!(gray_code(1), 1);
}

#[test]
fn gray_code_of_80() {
    assert_eq!(gray_code(80), 120);
}

#[test]
fn test_powerset() {
    assert_eq!(
        powerset(vec![1, 2, 3]),
        vec![
            vec![],
            vec![1],
            vec![2],
            vec![1, 2],
            vec![3],
            vec![1, 3],
            vec![2, 3],
            vec![1, 2, 3]
        ]
    );
    assert_eq!(powerset(vec![]), vec![Vec::<i32>::new()]);
    assert_eq!(powerset(vec![5]), vec![vec![], vec![5]]);
}

#[test]
fn powerset_size() {
    assert_eq!(powerset(vec![5, 10, 15, 20]).len(), 16);
}

#[test]
fn morton_codes() {
    assert_eq!(morton32(5, 7), 59);
    assert_eq!(morton32(0, 0), 0);
    assert_eq!(morton32(u16::MAX, u16::MAX), u32::MAX as u64);
    assert_eq!(morton_decode(59), (5, 7));
    assert_eq!(morton_decode(morton32(30000, 40000)), (30000, 40000));
}

#[test]
fn infix_display() {
    let tree = build_ast("AB&!").unwrap();
    assert_eq!(mathematical_formula(&tree), " ¬ ((A) ∧ (B))");
    let tree = build_ast("10>").unwrap();
    assert_eq!(mathematical_formula(&tree), "(⊤) → (⊥)");
}

#[test]
fn stack_evaluation_of_constants() {
    let eval = boolean_logic::stack_evaluation::eval_formula;
    assert_eq!(eval("10&"), false);
    assert_eq!(eval("10|"), true);
    assert_eq!(eval("0!"), true);
    assert_eq!(eval("1011||&"), true);
    assert_eq!(eval("1&"), false);
    assert_eq!(eval("1&1"), true);
    assert_eq!(eval("11"), false);
    assert_eq!(eval("11>"), false);
    assert_eq!(eval(""), false);
}
