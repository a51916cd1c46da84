use vstd::prelude::*;
use crate::ast::{ASTNode, apply, binary, copy_tree, equivalent, eval, leaves_are_operands, wf};
use crate::boolean_evaluation::{build_ast, lemma_parse_wf, parse, parse_from};
use crate::negation_normal_form::{
    contains_constant, has_constant, is_nnf, lemma_nnf_fix, lemma_printed_tree_reads_back, nnf_fix,
    to_nnf, to_postfix, tree_to_string,
};

verus! {

/// The tree is a conjunction `l & r` with both operands.
pub open spec fn is_and(t: ASTNode<char>) -> bool {
    match t {
        ASTNode::Op { operator, left, right } => operator == '&' && left is Some,
        ASTNode::Value(_) => false,
    }
}

/// The left operand of a binary node.
pub open spec fn lhs(t: ASTNode<char>) -> ASTNode<char> {
    match t {
        ASTNode::Op { operator, left: Some(l), right } => *l,
        _ => t,
    }
}

/// The right operand of a node.
pub open spec fn rhs(t: ASTNode<char>) -> ASTNode<char> {
    match t {
        ASTNode::Op { operator, left, right } => *right,
        _ => t,
    }
}

/// Number of nodes.
pub open spec fn tree_size(t: ASTNode<char>) -> nat
    decreases t,
{
    match t {
        ASTNode::Value(_) => 1,
        ASTNode::Op { operator, left, right } => {
            1 + tree_size(*right) + match left {
                Some(l) => tree_size(*l),
                None => 0,
            }
        },
    }
}

/// No disjunction has a conjunction as an operand.
pub open spec fn is_cnf(t: ASTNode<char>) -> bool
    decreases t,
{
    match t {
        ASTNode::Value(_) => true,
        ASTNode::Op { operator, left, right } => {
            &&& is_cnf(*right)
            &&& match left {
                Some(l) => is_cnf(*l) && (operator == '|' ==> !is_and(*l) && !is_and(*right)),
                None => true,
            }
        },
    }
}

/// A measure that each distribution step lowers: a disjunction weighs the product of
/// its operands, every other node the sum plus one.
pub open spec fn cnf_measure(t: ASTNode<char>) -> nat
    decreases t,
{
    match t {
        ASTNode::Value(_) => 2,
        ASTNode::Op { operator, left, right } => match left {
            Some(l) => if operator == '|' {
                cnf_measure(*l) * cnf_measure(*right)
            } else {
                cnf_measure(*l) + cnf_measure(*right) + 1
            },
            None => cnf_measure(*right) + 1,
        },
    }
}

#[via_fn]
proof fn cnf_pass_decreases(t: ASTNode<char>) {
    reveal_with_fuel(tree_size, 3);
}

/// One distribution pass: `A | (B & C)` becomes `(A | B) & (A | C)`, else
/// `(A & B) | C` becomes `(A | C) & (B | C)`; the pass goes on into the children of
/// the result. The flag tells whether any rule fired.
pub open spec fn cnf_pass(t: ASTNode<char>) -> (ASTNode<char>, bool)
    decreases tree_size(t),
    via cnf_pass_decreases
{
    match t {
        ASTNode::Value(_) => (t, false),
        ASTNode::Op { operator, left, right } => {
            let r = *right;
            match left {
                Some(lb) => {
                    let l = *lb;
                    if operator == '|' && is_and(r) {
                        (
                            binary(
                                '&',
                                cnf_pass(binary('|', l, lhs(r))).0,
                                cnf_pass(binary('|', l, rhs(r))).0,
                            ),
                            true,
                        )
                    } else if operator == '|' && is_and(l) {
                        (
                            binary(
                                '&',
                                cnf_pass(binary('|', lhs(l), r)).0,
                                cnf_pass(binary('|', rhs(l), r)).0,
                            ),
                            true,
                        )
                    } else {
                        (
                            binary(operator, cnf_pass(l).0, cnf_pass(r).0),
                            cnf_pass(l).1 || cnf_pass(r).1,
                        )
                    }
                },
                None => (
                    ASTNode::Op { operator, left: None, right: Box::new(cnf_pass(r).0) },
                    cnf_pass(r).1,
                ),
            }
        },
    }
}

proof fn lemma_cnf_measure_floor(t: ASTNode<char>)
    ensures
        cnf_measure(t) >= 2,
    decreases t,
{
    match t {
        ASTNode::Value(_) => {},
        ASTNode::Op { operator, left, right } => {
            lemma_cnf_measure_floor(*right);
            match left {
                Some(l) => {
                    lemma_cnf_measure_floor(*l);
                    let x = cnf_measure(*l);
                    let y = cnf_measure(*right);
                    assert(x * y >= 2) by (nonlinear_arith)
                        requires
                            x >= 2,
                            y >= 2,
                    ;
                },
                None => {},
            }
        },
    }
}

/// What the pass does to a well-formed tree: the result is well formed and equivalent,
/// keeps negation normal form, weighs less when a rule fired, and is the tree itself,
/// with no disjunction over a conjunction, when none fired.
#[verifier::rlimit(50)]
pub proof fn lemma_cnf_pass(t: ASTNode<char>)
    requires
        wf(t),
    ensures
        wf(cnf_pass(t).0),
        cnf_measure(cnf_pass(t).0) <= cnf_measure(t),
        cnf_pass(t).1 ==> cnf_measure(cnf_pass(t).0) < cnf_measure(t),
        !cnf_pass(t).1 ==> cnf_pass(t).0 == t && is_cnf(t),
        is_nnf(t) ==> is_nnf(cnf_pass(t).0),
        leaves_are_operands(t) ==> leaves_are_operands(cnf_pass(t).0),
        forall|a: spec_fn(char) -> bool| #[trigger] eval(cnf_pass(t).0, a) == eval(t, a),
    decreases tree_size(t),
{
    reveal_with_fuel(tree_size, 3);
    reveal_with_fuel(wf, 3);
    reveal_with_fuel(is_nnf, 3);
    reveal_with_fuel(leaves_are_operands, 3);
    reveal_with_fuel(eval, 3);
    reveal_with_fuel(cnf_measure, 3);
    match t {
        ASTNode::Value(_) => {
            assert(cnf_pass(t) == (t, false));
        },
        ASTNode::Op { operator, left, right } => {
            let r = *right;
            lemma_cnf_measure_floor(r);
            match left {
                Some(lb) => {
                    let l = *lb;
                    lemma_cnf_measure_floor(l);
                    if operator == '|' && is_and(r) {
                        let x = binary('|', l, lhs(r));
                        let y = binary('|', l, rhs(r));
                        lemma_cnf_pass(x);
                        lemma_cnf_pass(y);
                        let ml = cnf_measure(l);
                        let m1 = cnf_measure(lhs(r));
                        let m2 = cnf_measure(rhs(r));
                        assert(cnf_measure(r) == m1 + m2 + 1);
                        assert(ml * m1 + ml * m2 + 1 < ml * (m1 + m2 + 1)) by (nonlinear_arith)
                            requires
                                ml >= 2,
                        ;
                        assert forall|a: spec_fn(char) -> bool| #[trigger]
                            eval(cnf_pass(t).0, a) == eval(t, a) by {
                            assert(eval(cnf_pass(x).0, a) == eval(x, a));
                            assert(eval(cnf_pass(y).0, a) == eval(y, a));
                            assert(eval(r, a) == (eval(lhs(r), a) && eval(rhs(r), a)));
                        }
                    } else if operator == '|' && is_and(l) {
                        let x = binary('|', lhs(l), r);
                        let y = binary('|', rhs(l), r);
                        lemma_cnf_pass(x);
                        lemma_cnf_pass(y);
                        let mr = cnf_measure(r);
                        let m1 = cnf_measure(lhs(l));
                        let m2 = cnf_measure(rhs(l));
                        assert(cnf_measure(l) == m1 + m2 + 1);
                        assert(m1 * mr + m2 * mr + 1 < (m1 + m2 + 1) * mr) by (nonlinear_arith)
                            requires
                                mr >= 2,
                        ;
                        assert forall|a: spec_fn(char) -> bool| #[trigger]
                            eval(cnf_pass(t).0, a) == eval(t, a) by {
                            assert(eval(cnf_pass(x).0, a) == eval(x, a));
                            assert(eval(cnf_pass(y).0, a) == eval(y, a));
                            assert(eval(l, a) == (eval(lhs(l), a) && eval(rhs(l), a)));
                        }
                    } else {
                        lemma_cnf_pass(l);
                        lemma_cnf_pass(r);
                        let pl = cnf_pass(l).0;
                        let pr = cnf_pass(r).0;
                        lemma_cnf_measure_floor(pl);
                        lemma_cnf_measure_floor(pr);
                        if operator == '|' {
                            let a1 = cnf_measure(pl);
                            let b1 = cnf_measure(pr);
                            let a0 = cnf_measure(l);
                            let b0 = cnf_measure(r);
                            assert(a1 * b1 <= a0 * b0) by (nonlinear_arith)
                                requires
                                    2 <= a1 <= a0,
                                    2 <= b1 <= b0,
                            ;
                            assert((a1 < a0 || b1 < b0) ==> a1 * b1 < a0 * b0) by (nonlinear_arith)
                                requires
                                    2 <= a1 <= a0,
                                    2 <= b1 <= b0,
                            ;
                        }
                        assert forall|a: spec_fn(char) -> bool| #[trigger]
                            eval(cnf_pass(t).0, a) == eval(t, a) by {
                            assert(eval(pl, a) == eval(l, a));
                            assert(eval(pr, a) == eval(r, a));
                            assert(cnf_pass(t).0 == binary(operator, pl, pr));
                            assert(eval(t, a) == apply(operator, eval(l, a), eval(r, a)));
                        }
                    }
                },
                None => {
                    lemma_cnf_pass(r);
                    assert forall|a: spec_fn(char) -> bool| #[trigger]
                        eval(cnf_pass(t).0, a) == eval(t, a) by {
                        assert(eval(cnf_pass(r).0, a) == eval(r, a));
                    }
                },
            }
        },
    }
}

#[via_fn]
proof fn cnf_fix_decreases(t: ASTNode<char>) {
    if wf(t) {
        lemma_cnf_pass(t);
    }
}

/// Distribution passes repeated until one fires no rule.
pub open spec fn cnf_fix(t: ASTNode<char>) -> ASTNode<char>
    decreases cnf_measure(t),
    via cnf_fix_decreases
{
    if wf(t) && cnf_pass(t).1 {
        cnf_fix(cnf_pass(t).0)
    } else {
        t
    }
}

/// The fixed point of the distribution passes on a well-formed tree: well formed, with
/// no disjunction over a conjunction, in negation normal form when the tree was, and
/// equivalent to it.
pub proof fn lemma_cnf_fix(t: ASTNode<char>)
    requires
        wf(t),
    ensures
        wf(cnf_fix(t)),
        is_cnf(cnf_fix(t)),
        is_nnf(t) ==> is_nnf(cnf_fix(t)),
        leaves_are_operands(t) ==> leaves_are_operands(cnf_fix(t)),
        forall|a: spec_fn(char) -> bool| #[trigger] eval(cnf_fix(t), a) == eval(t, a),
    decreases cnf_measure(t),
{
    lemma_cnf_pass(t);
    if cnf_pass(t).1 {
        lemma_cnf_fix(cnf_pass(t).0);
    }
}

/// Whether a node is a conjunction with both operands.
fn is_and_node(t: &ASTNode<char>) -> (b: bool)
    ensures
        b == is_and(*t),
{
    match t {
        ASTNode::Op { operator, left, right } => *operator == '&' && left.is_some(),
        ASTNode::Value(_) => false,
    }
}

/// The two operands of a binary node.
fn into_operands(t: ASTNode<char>) -> (r: (ASTNode<char>, ASTNode<char>))
    requires
        is_and(t),
    ensures
        r == (lhs(t), rhs(t)),
{
    match t {
        ASTNode::Op { operator, left, right } => {
            let l = *left.unwrap();
            (l, *right)
        },
        ASTNode::Value(c) => (ASTNode::Value(c), ASTNode::Value(c)),
    }
}

/// One distribution pass, by value.
fn cnf_rewrite(t: ASTNode<char>) -> (r: (ASTNode<char>, bool))
    requires
        wf(t),
    ensures
        r == cnf_pass(t),
    decreases tree_size(t),
{
    proof {
        reveal_with_fuel(tree_size, 3);
        reveal_with_fuel(wf, 3);
    }
    match t {
        ASTNode::Value(c) => (ASTNode::Value(c), false),
        ASTNode::Op { operator, left, right } => {
            let r = *right;
            match left {
                Some(lb) => {
                    let l = *lb;
                    if operator == '|' && is_and_node(&r) {
                        let l2 = copy_tree(&l);
                        let (rl, rr) = into_operands(r);
                        let (a, _) = cnf_rewrite(
                            ASTNode::Op { operator: '|', left: Some(Box::new(l2)), right: Box::new(rl) },
                        );
                        let (b, _) = cnf_rewrite(
                            ASTNode::Op { operator: '|', left: Some(Box::new(l)), right: Box::new(rr) },
                        );
                        (ASTNode::Op { operator: '&', left: Some(Box::new(a)), right: Box::new(b) }, true)
                    } else if operator == '|' && is_and_node(&l) {
                        let r2 = copy_tree(&r);
                        let (ll, lr) = into_operands(l);
                        let (a, _) = cnf_rewrite(
                            ASTNode::Op { operator: '|', left: Some(Box::new(ll)), right: Box::new(r2) },
                        );
                        let (b, _) = cnf_rewrite(
                            ASTNode::Op { operator: '|', left: Some(Box::new(lr)), right: Box::new(r) },
                        );
                        (ASTNode::Op { operator: '&', left: Some(Box::new(a)), right: Box::new(b) }, true)
                    } else {
                        let (a, fa) = cnf_rewrite(l);
                        let (b, fb) = cnf_rewrite(r);
                        (ASTNode::Op { operator, left: Some(Box::new(a)), right: Box::new(b) }, fa || fb)
                    }
                },
                None => {
                    let (b, fb) = cnf_rewrite(r);
                    (ASTNode::Op { operator, left: None, right: Box::new(b) }, fb)
                },
            }
        },
    }
}

/// One distribution pass in place; `modified` is set when a rule fired and kept otherwise.
pub fn tree_to_almost_cnf(node: &mut ASTNode<char>, modified: &mut bool)
    requires
        wf(*old(node)),
    ensures
        *final(node) == cnf_pass(*old(node)).0,
        *final(modified) == (*old(modified) || cnf_pass(*old(node)).1),
        wf(*final(node)),
        equivalent(*final(node), *old(node)),
        is_nnf(*old(node)) ==> is_nnf(*final(node)),
        !cnf_pass(*old(node)).1 ==> *final(node) == *old(node) && is_cnf(*old(node)),
{
    proof {
        lemma_cnf_pass(*node);
    }
    let mut t = ASTNode::Value('\0');
    std::mem::swap(node, &mut t);
    let (r, fired) = cnf_rewrite(t);
    *node = r;
    if fired {
        *modified = true;
    }
}

/// Distributes disjunction over conjunction until no disjunction has a conjunction
/// as an operand.
pub fn to_cnf(tree: ASTNode<char>) -> (r: ASTNode<char>)
    requires
        wf(tree),
    ensures
        r == cnf_fix(tree),
        is_cnf(r),
        wf(r),
        is_nnf(tree) ==> is_nnf(r),
        equivalent(r, tree),
{
    proof {
        lemma_cnf_fix(tree);
    }
    let mut tree = tree;
    let ghost t0 = tree;
    let mut modified = true;
    while modified
        invariant
            wf(tree),
            cnf_fix(tree) == cnf_fix(t0),
            !modified ==> cnf_fix(tree) == tree,
        decreases cnf_measure(tree) + if modified {
            1nat
        } else {
            0nat
        },
    {
        modified = false;
        proof {
            lemma_cnf_pass(tree);
        }
        tree_to_almost_cnf(&mut tree, &mut modified);
    }
    tree
}

/// The conjunctive normal form of a postfix formula over variables, as postfix text;
/// empty for text with a constant or that is no formula.
pub open spec fn cnf_text(s: Seq<char>) -> Seq<char> {
    if has_constant(s) {
        Seq::empty()
    } else {
        match parse(s) {
            Ok(t) => to_postfix(cnf_fix(nnf_fix(t))),
            Err(_) => Seq::empty(),
        }
    }
}

/// Rewrites a postfix formula to conjunctive normal form.
pub fn conjunctive_normal_form(formula: &str) -> (r: String)
    ensures
        r@ == cnf_text(formula@),
{
    if contains_constant(formula) {
        return String::new();
    }
    let tree = match build_ast(formula) {
        Some(ast) => ast,
        None => {
            return String::new();
        },
    };
    proof {
        lemma_nnf_fix(tree);
    }
    let nnf = to_nnf(tree);
    let cnf = to_cnf(nnf);
    tree_to_string(&cnf)
}

/// Distribution after negation normal form leaves only `&`, `|`, and `!` directly above
/// a leaf, with no disjunction over a conjunction, and agrees with the tree under every
/// assignment.
pub proof fn lemma_cnf_of_nnf(t: ASTNode<char>, a: spec_fn(char) -> bool)
    requires
        wf(t),
    ensures
        is_nnf(cnf_fix(nnf_fix(t))),
        is_cnf(cnf_fix(nnf_fix(t))),
        eval(cnf_fix(nnf_fix(t)), a) == eval(t, a),
{
    lemma_nnf_fix(t);
    lemma_cnf_fix(nnf_fix(t));
}

/// The text that the conjunctive normal form of a formula prints reads back as a
/// formula that agrees with the input under every assignment.
pub proof fn lemma_cnf_text_reads_back(s: Seq<char>)
    requires
        parse(s) is Ok,
        !has_constant(s),
    ensures
        parse(cnf_text(s)) is Ok,
        equivalent(parse(cnf_text(s))->Ok_0, parse(s)->Ok_0),
{
    let t = parse(s)->Ok_0;
    lemma_parse_wf(seq![], s);
    assert(wf(parse_from(seq![], s)->Ok_0[0]));
    lemma_nnf_fix(t);
    lemma_cnf_fix(nnf_fix(t));
    lemma_printed_tree_reads_back(cnf_fix(nnf_fix(t)));
}

} // verus!
