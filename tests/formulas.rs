use boolean_logic::ast::ASTNode;
use boolean_logic::boolean_evaluation::{build_ast, eval_formula, eval_node, parse_formula, ParseError};
use boolean_logic::conjunctive_normal_form::{conjunctive_normal_form, to_cnf};
use boolean_logic::negation_normal_form::{negation_normal_form, to_nnf, tree_to_almost_nnf, tree_to_string};
use boolean_logic::nnf_direct;

#[test]
fn test_boolean_evaluation_build_ast() {
    assert!(build_ast("10&").is_some());
    assert!(build_ast("AB&").is_some());
    assert!(build_ast("invalid").is_none());
}

#[test]
fn test_boolean_evaluation_eval_formula() {
    assert_eq!(eval_formula("10&"), false);
    assert_eq!(eval_formula("10|"), true);
    assert_eq!(eval_formula("11>"), true);
    assert_eq!(eval_formula("10="), false);
}

#[test]
fn test_negation_normal_form() {
    assert_eq!(negation_normal_form("AB&!"), "B!A!|");
}

#[test]
fn test_conjunctive_normal_form() {
    assert_eq!(conjunctive_normal_form("AB|!"), "B!A!&");
}

#[test]
fn implication() {
    assert_eq!(nnf_direct::rpn_to_nnf_rpn("AB>").unwrap(), "A!B|");
}

#[test]
fn direct_nnf_examples() {
    assert_eq!(nnf_direct::negation_normal_form("AB&!"), "A!B!|");
    assert_eq!(nnf_direct::negation_normal_form("AB>"), "A!B|");
    assert_eq!(nnf_direct::rpn_to_nnf_rpn("AB=").unwrap(), "AB&A!B!&|");
    assert_eq!(nnf_direct::rpn_to_nnf_rpn("AB^").unwrap(), "AB!&A!B&|");
    assert_eq!(nnf_direct::rpn_to_nnf_rpn("A!!").unwrap(), "A");
    assert_eq!(nnf_direct::rpn_to_nnf_rpn("AB|C&!").unwrap(), "A!B!&C!|");
    assert_eq!(nnf_direct::rpn_to_nnf_rpn("A B &").unwrap(), "AB&");
    assert_eq!(nnf_direct::rpn_to_nnf_rpn("A\u{3000}B\t\n&").unwrap(), "AB&");
    assert_eq!(nnf_direct::rpn_to_nnf_rpn("A\u{200B}").unwrap_err(), "unexpected token \u{200B}");
}

#[test]
fn direct_nnf_errors() {
    assert_eq!(nnf_direct::rpn_to_nnf_rpn("!").unwrap_err(), "underflow for !");
    assert_eq!(nnf_direct::rpn_to_nnf_rpn("&").unwrap_err(), "underflow (rhs)");
    assert_eq!(nnf_direct::rpn_to_nnf_rpn("A&").unwrap_err(), "underflow (lhs)");
    assert_eq!(nnf_direct::rpn_to_nnf_rpn("A#").unwrap_err(), "unexpected token #");
    assert_eq!(nnf_direct::rpn_to_nnf_rpn("AB").unwrap_err(), "extra operands or empty input");
    assert_eq!(nnf_direct::rpn_to_nnf_rpn("").unwrap_err(), "extra operands or empty input");
    assert_eq!(nnf_direct::negation_normal_form("AB"), "");
}

#[test]
fn parse_errors() {
    assert!(matches!(parse_formula("1011"), Err(ParseError::Malformed)));
    assert!(matches!(parse_formula("A&"), Err(ParseError::Underflow)));
    assert!(matches!(parse_formula("!"), Err(ParseError::Underflow)));
    assert!(matches!(parse_formula("ab&"), Err(ParseError::InvalidToken)));
    assert!(matches!(parse_formula(""), Err(ParseError::Malformed)));
    assert!(build_ast("1011").is_none());
    assert_eq!(eval_formula("1011"), false);
}

#[test]
fn parse_shape() {
    match parse_formula("AB>") {
        Ok(ASTNode::Op { operator, left, right }) => {
            assert_eq!(operator, '>');
            assert!(matches!(left.as_deref(), Some(ASTNode::Value('A'))));
            assert!(matches!(*right, ASTNode::Value('B')));
        }
        _ => panic!("AB> should parse"),
    }
}

#[test]
fn evaluation_of_every_operator() {
    assert_eq!(eval_formula("0!"), true);
    assert_eq!(eval_formula("11&"), true);
    assert_eq!(eval_formula("00|"), false);
    assert_eq!(eval_formula("10^"), true);
    assert_eq!(eval_formula("11^"), false);
    assert_eq!(eval_formula("10>"), false);
    assert_eq!(eval_formula("00="), true);
    assert_eq!(eval_formula("1011||="), true);
    assert_eq!(eval_formula("AB&"), false);
    let tree = build_ast("A1&").unwrap();
    assert_eq!(eval_node(&tree), None);
}

#[test]
fn nnf_of_each_connective() {
    assert_eq!(negation_normal_form("AB>"), "BA!|");
    assert_eq!(negation_normal_form("AB|!"), "B!A!&");
    assert_eq!(negation_normal_form("A!!"), "A");
    assert_eq!(negation_normal_form("AB^"), "BA!&B!A&|");
    assert_eq!(negation_normal_form("A1&"), "");
    assert_eq!(negation_normal_form("AB"), "");
}

#[test]
fn nnf_pass_flags() {
    let mut tree = build_ast("AB&").unwrap();
    let mut modified = false;
    tree_to_almost_nnf(&mut tree, &mut modified);
    assert!(!modified);
    assert_eq!(tree_to_string(&tree), "BA&");
    let mut tree = build_ast("AB>!").unwrap();
    tree_to_almost_nnf(&mut tree, &mut modified);
    assert!(modified);
    assert_eq!(tree_to_string(&tree), "BA!|!");
}

#[test]
fn nnf_is_idempotent_on_an_example() {
    let once = to_nnf(build_ast("AB^C=!").unwrap());
    let text = tree_to_string(&once);
    let twice = to_nnf(once);
    assert_eq!(tree_to_string(&twice), text);
}

#[test]
fn cnf_distributes() {
    assert_eq!(conjunctive_normal_form("AB&C|"), "CB|CA|&");
    assert_eq!(conjunctive_normal_form("AB&!C!|"), "C!B!A!||");
    assert_eq!(conjunctive_normal_form("AB|C|D|"), "DCBA|||");
    assert_eq!(conjunctive_normal_form("A0|"), "");
    let cnf = to_cnf(build_ast("AB&CD&|").unwrap());
    assert!(!tree_to_string(&cnf).is_empty());
}

#[test]
fn cnf_single_pass_distributes_left_conjunction() {
    let mut tree = build_ast("AB&C|").unwrap();
    let mut modified = false;
    boolean_logic::conjunctive_normal_form::tree_to_almost_cnf(&mut tree, &mut modified);
    assert!(modified);
    assert_eq!(tree_to_string(&tree), "CB|CA|&");
    let mut tree = build_ast("AB&C|").unwrap();
    let mut once = false;
    tree_to_almost_nnf(&mut tree, &mut once);
    assert!(!once);
}

#[test]
fn print_round_trip_example() {
    let tree = build_ast("AB&C|").unwrap();
    assert_eq!(tree_to_string(&tree), "CBA&|");
    assert!(build_ast(&tree_to_string(&tree)).is_some());
}

#[test]
fn nnf_text_returns_after_two_conversions() {
    let r1 = negation_normal_form("AB^C=!");
    let r2 = negation_normal_form(&r1);
    let r3 = negation_normal_form(&r2);
    assert_eq!(r3, r1);
    assert_ne!(r2, "");
}

#[test]
fn direct_nnf_text_is_idempotent() {
    for f in ["AB&!", "AB>", "AB=", "AB^C|!", "A!!", "ab|c&!"] {
        let once = nnf_direct::rpn_to_nnf_rpn(f).unwrap();
        assert_eq!(nnf_direct::rpn_to_nnf_rpn(&once).unwrap(), once);
    }
}
