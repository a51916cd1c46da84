use vstd::prelude::*;
use vstd::string::*;
use crate::ast::{
    ASTNode, apply, binary, copy_tree, equivalent, eval, is_constant, is_variable, leaves_are_operands,
    leaves_are_variables, negation, wf,
};
use crate::boolean_evaluation::{
    build_ast, lemma_parse_concat, lemma_parse_wf, parse, parse_from, parse_step, ParseError,
};
use crate::text::push_char;

verus! {

/// Postfix text of a tree. For `&` and `|` the right operand is written before the
/// left one; every other operator writes its operands in order.
pub open spec fn to_postfix(t: ASTNode<char>) -> Seq<char>
    decreases t,
{
    match t {
        ASTNode::Value(c) => seq![c],
        ASTNode::Op { operator, left, right } => {
            let l = match left {
                Some(x) => to_postfix(*x),
                None => Seq::empty(),
            };
            if operator == '&' || operator == '|' {
                to_postfix(*right) + l + seq![operator]
            } else {
                l + to_postfix(*right) + seq![operator]
            }
        },
    }
}

/// Serialises a tree to postfix text.
pub fn tree_to_string(node: &ASTNode<char>) -> (r: String)
    ensures
        r@ == to_postfix(*node),
    decreases node,
{
    match node {
        ASTNode::Value(v) => {
            let mut res = String::new();
            push_char(&mut res, *v);
            res
        },
        ASTNode::Op { operator, left, right } => {
            let mut res = String::new();
            if *operator == '&' || *operator == '|' {
                let r = tree_to_string(right);
                res.append(r.as_str());
            }
            if let Some(l) = left {
                let s = tree_to_string(l);
                res.append(s.as_str());
            }
            if *operator != '&' && *operator != '|' {
                let r = tree_to_string(right);
                res.append(r.as_str());
            }
            push_char(&mut res, *operator);
            proof {
                let l = match left {
                    Some(x) => to_postfix(**x),
                    None => Seq::empty(),
                };
                if *operator == '&' || *operator == '|' {
                    assert(res@ =~= to_postfix(**right) + l + seq![*operator]);
                } else {
                    assert(res@ =~= l + to_postfix(**right) + seq![*operator]);
                }
            }
            res
        },
    }
}

/// Negation normal form: only `&`, `|`, and `!` directly above a leaf.
pub open spec fn is_nnf(t: ASTNode<char>) -> bool
    decreases t,
{
    match t {
        ASTNode::Value(_) => true,
        ASTNode::Op { operator, left, right } => {
            if operator == '!' {
                left is None && (*right is Value)
            } else if operator == '&' || operator == '|' {
                match left {
                    Some(l) => is_nnf(*l) && is_nnf(*right),
                    None => false,
                }
            } else {
                false
            }
        },
    }
}

/// No implication, equivalence or exclusive or anywhere in the tree.
pub open spec fn no_sugar(t: ASTNode<char>) -> bool
    decreases t,
{
    match t {
        ASTNode::Value(_) => true,
        ASTNode::Op { operator, left, right } => {
            &&& no_sugar(*right)
            &&& match left {
                None => operator == '!',
                Some(l) => (operator == '&' || operator == '|') && no_sugar(*l),
            }
        },
    }
}

/// How far a tree is from negation normal form: 0 in it, 1 with only `!`, `&`, `|`, else 2.
pub open spec fn nnf_stage(t: ASTNode<char>) -> nat {
    if is_nnf(t) {
        0
    } else if no_sugar(t) {
        1
    } else {
        2
    }
}

/// A depth in which the connectives that a rewrite expands weigh more.
pub open spec fn nnf_weight(t: ASTNode<char>) -> nat
    decreases t,
{
    match t {
        ASTNode::Value(_) => 0,
        ASTNode::Op { operator, left, right } => {
            let l = match left {
                Some(x) => nnf_weight(*x),
                None => 0,
            };
            let r = nnf_weight(*right);
            let m = if l > r {
                l
            } else {
                r
            };
            if operator == '>' || operator == '^' {
                m + 3
            } else if operator == '=' {
                m + 5
            } else {
                m + 1
            }
        },
    }
}

/// One rewriting pass over a tree: the rule that matches at the root is applied, then
/// the pass goes on into the children of the result. The flag tells whether any rule fired.
pub open spec fn nnf_pass(t: ASTNode<char>) -> (ASTNode<char>, bool)
    decreases nnf_weight(t),
    via nnf_pass_decreases
{
    match t {
        ASTNode::Value(_) => (t, false),
        ASTNode::Op { operator, left, right } => {
            let r = *right;
            match left {
                Some(lb) => {
                    let l = *lb;
                    if operator == '>' {
                        (binary('|', nnf_pass(negation(l)).0, nnf_pass(r).0), true)
                    } else if operator == '=' {
                        (
                            binary(
                                '&',
                                nnf_pass(binary('>', l, r)).0,
                                nnf_pass(binary('>', r, l)).0,
                            ),
                            true,
                        )
                    } else if operator == '^' {
                        (
                            binary(
                                '|',
                                nnf_pass(binary('&', l, negation(r))).0,
                                nnf_pass(binary('&', negation(l), r)).0,
                            ),
                            true,
                        )
                    } else {
                        (
                            binary(operator, nnf_pass(l).0, nnf_pass(r).0),
                            nnf_pass(l).1 || nnf_pass(r).1,
                        )
                    }
                },
                None => {
                    if operator == '!' {
                        match r {
                            ASTNode::Op { operator: inner, left: il, right: ir } => {
                                if inner == '!' {
                                    (nnf_pass(*ir).0, true)
                                } else if inner == '&' || inner == '|' {
                                    match il {
                                        Some(ilb) => (
                                            binary(
                                                if inner == '|' {
                                                    '&'
                                                } else {
                                                    '|'
                                                },
                                                nnf_pass(negation(*ilb)).0,
                                                nnf_pass(negation(*ir)).0,
                                            ),
                                            true,
                                        ),
                                        None => (t, false),
                                    }
                                } else {
                                    (negation(nnf_pass(r).0), nnf_pass(r).1)
                                }
                            },
                            ASTNode::Value(_) => (t, false),
                        }
                    } else {
                        (t, false)
                    }
                },
            }
        },
    }
}

#[via_fn]
proof fn nnf_pass_decreases(t: ASTNode<char>) {
    reveal_with_fuel(nnf_weight, 3);
}

/// What the pass does to a well-formed tree: the result is well formed, equivalent,
/// free of `>`, `=`, `^`; in normal form when the input had only `!`, `&`, `|`; and a
/// tree already in normal form, or on which no rule fired, comes back unchanged.
#[verifier::rlimit(50)]
pub proof fn lemma_nnf_pass(t: ASTNode<char>)
    requires
        wf(t),
    ensures
        wf(nnf_pass(t).0),
        no_sugar(nnf_pass(t).0),
        no_sugar(t) ==> is_nnf(nnf_pass(t).0),
        is_nnf(t) ==> nnf_pass(t) == (t, false),
        !nnf_pass(t).1 ==> nnf_pass(t).0 == t,
        leaves_are_operands(t) ==> leaves_are_operands(nnf_pass(t).0),
        leaves_are_variables(t) ==> leaves_are_variables(nnf_pass(t).0),
        forall|a: spec_fn(char) -> bool| #[trigger] eval(nnf_pass(t).0, a) == eval(t, a),
    decreases nnf_weight(t),
{
    reveal_with_fuel(nnf_weight, 3);
    reveal_with_fuel(leaves_are_variables, 3);
    reveal_with_fuel(wf, 3);
    reveal_with_fuel(no_sugar, 3);
    reveal_with_fuel(is_nnf, 3);
    reveal_with_fuel(leaves_are_operands, 3);
    reveal_with_fuel(eval, 3);
    match t {
        ASTNode::Value(c) => {
            assert(nnf_pass(t) == (t, false));
            assert(no_sugar(t) && is_nnf(t));
            assert(leaves_are_operands(t) == crate::ast::is_operand(c));
        },
        ASTNode::Op { operator, left, right } => {
            let r = *right;
            match left {
                Some(lb) => {
                    let l = *lb;
                    if operator == '>' {
                        lemma_nnf_pass(negation(l));
                        lemma_nnf_pass(r);
                        assert forall|a: spec_fn(char) -> bool| #[trigger] eval(nnf_pass(t).0, a) == eval(t, a) by {
                            assert(eval(nnf_pass(negation(l)).0, a) == eval(negation(l), a));
                            assert(eval(nnf_pass(r).0, a) == eval(r, a));
                            assert(nnf_pass(t).0 == binary('|', nnf_pass(negation(l)).0, nnf_pass(r).0));
                            assert(eval(t, a) == apply('>', eval(l, a), eval(r, a)));
                        }
                    } else if operator == '=' {
                        lemma_nnf_pass(binary('>', l, r));
                        lemma_nnf_pass(binary('>', r, l));
                        assert forall|a: spec_fn(char) -> bool| #[trigger] eval(nnf_pass(t).0, a) == eval(t, a) by {
                            assert(eval(nnf_pass(binary('>', l, r)).0, a) == eval(binary('>', l, r), a));
                            assert(eval(nnf_pass(binary('>', r, l)).0, a) == eval(binary('>', r, l), a));
                            assert(nnf_pass(t).0 == binary('&', nnf_pass(binary('>', l, r)).0, nnf_pass(binary('>', r, l)).0));
                            assert(eval(t, a) == apply('=', eval(l, a), eval(r, a)));
                        }
                    } else if operator == '^' {
                        lemma_nnf_pass(binary('&', l, negation(r)));
                        lemma_nnf_pass(binary('&', negation(l), r));
                        assert forall|a: spec_fn(char) -> bool| #[trigger] eval(nnf_pass(t).0, a) == eval(t, a) by {
                            assert(eval(nnf_pass(binary('&', l, negation(r))).0, a) == eval(binary('&', l, negation(r)), a));
                            assert(eval(nnf_pass(binary('&', negation(l), r)).0, a) == eval(binary('&', negation(l), r), a));
                            assert(nnf_pass(t).0 == binary('|', nnf_pass(binary('&', l, negation(r))).0, nnf_pass(binary('&', negation(l), r)).0));
                            assert(eval(t, a) == apply('^', eval(l, a), eval(r, a)));
                        }
                    } else {
                        lemma_nnf_pass(l);
                        lemma_nnf_pass(r);
                        assert forall|a: spec_fn(char) -> bool| #[trigger] eval(nnf_pass(t).0, a) == eval(t, a) by {
                            assert(eval(nnf_pass(l).0, a) == eval(l, a));
                            assert(eval(nnf_pass(r).0, a) == eval(r, a));
                            assert(nnf_pass(t).0 == binary(operator, nnf_pass(l).0, nnf_pass(r).0));
                            assert(eval(t, a) == apply(operator, eval(l, a), eval(r, a)));
                        }
                    }
                },
                None => {
                    match r {
                        ASTNode::Op { operator: inner, left: il, right: ir } => {
                            if inner == '!' {
                                lemma_nnf_pass(*ir);
                                assert forall|a: spec_fn(char) -> bool| #[trigger] eval(nnf_pass(t).0, a) == eval(t, a) by {
                                    assert(eval(nnf_pass(*ir).0, a) == eval(*ir, a));
                                    assert(nnf_pass(t).0 == nnf_pass(*ir).0);
                                    assert(eval(t, a) == !eval(r, a));
                                    assert(eval(r, a) == !eval(*ir, a));
                                }
                            } else if inner == '&' || inner == '|' {
                                let ilb = il.unwrap();
                                lemma_nnf_pass(negation(*ilb));
                                lemma_nnf_pass(negation(*ir));
                                assert forall|a: spec_fn(char) -> bool| #[trigger] eval(nnf_pass(t).0, a) == eval(t, a) by {
                                    assert(eval(nnf_pass(negation(*ilb)).0, a) == !eval(*ilb, a));
                                    assert(eval(nnf_pass(negation(*ir)).0, a) == !eval(*ir, a));
                                    assert(nnf_pass(t).0 == binary(if inner == '|' { '&' } else { '|' }, nnf_pass(negation(*ilb)).0, nnf_pass(negation(*ir)).0));
                                    assert(eval(t, a) == !eval(r, a));
                                    assert(eval(r, a) == apply(inner, eval(*ilb, a), eval(*ir, a)));
                                }
                            } else {
                                lemma_nnf_pass(r);
                                assert forall|a: spec_fn(char) -> bool| #[trigger] eval(nnf_pass(t).0, a) == eval(t, a) by {
                                    assert(eval(nnf_pass(r).0, a) == eval(r, a));
                                    assert(nnf_pass(t).0 == negation(nnf_pass(r).0));
                                    assert(eval(t, a) == !eval(r, a));
                                }
                            }
                        },
                        ASTNode::Value(_) => {
                            assert(nnf_pass(t) == (t, false));
                        },
                    }
                },
            }
        },
    }
}

/// A pass that fires moves the tree strictly closer to normal form.
pub proof fn lemma_nnf_stage(t: ASTNode<char>)
    requires
        wf(t),
    ensures
        nnf_pass(t).1 ==> nnf_stage(nnf_pass(t).0) < nnf_stage(t),
{
    lemma_nnf_pass(t);
}

#[via_fn]
proof fn nnf_fix_decreases(t: ASTNode<char>) {
    if wf(t) {
        lemma_nnf_stage(t);
    }
}

/// Passes repeated until one fires no rule.
pub open spec fn nnf_fix(t: ASTNode<char>) -> ASTNode<char>
    decreases nnf_stage(t),
    via nnf_fix_decreases
{
    if wf(t) && nnf_pass(t).1 {
        nnf_fix(nnf_pass(t).0)
    } else {
        t
    }
}

/// The fixed point of the passes on a well-formed tree is in negation normal form,
/// well formed, and equivalent to the tree.
pub proof fn lemma_nnf_fix(t: ASTNode<char>)
    requires
        wf(t),
    ensures
        is_nnf(nnf_fix(t)),
        wf(nnf_fix(t)),
        leaves_are_operands(t) ==> leaves_are_operands(nnf_fix(t)),
        leaves_are_variables(t) ==> leaves_are_variables(nnf_fix(t)),
        forall|a: spec_fn(char) -> bool| #[trigger] eval(nnf_fix(t), a) == eval(t, a),
    decreases nnf_stage(t),
{
    lemma_nnf_pass(t);
    lemma_nnf_stage(t);
    let p = nnf_pass(t);
    if p.1 {
        lemma_nnf_fix(p.0);
    } else {
        lemma_nnf_pass(p.0);
    }
}

/// A tree written back and forth between owner and pass: one pass, by value.
fn nnf_rewrite(t: ASTNode<char>) -> (r: (ASTNode<char>, bool))
    requires
        wf(t),
    ensures
        r == nnf_pass(t),
    decreases nnf_weight(t),
{
    proof {
        reveal_with_fuel(nnf_weight, 3);
        reveal_with_fuel(wf, 3);
    }
    match t {
        ASTNode::Value(c) => (ASTNode::Value(c), false),
        ASTNode::Op { operator, left, right } => {
            let r = *right;
            match left {
                Some(lb) => {
                    let l = *lb;
                    if operator == '>' {
                        let (a, _) = nnf_rewrite(
                            ASTNode::Op { operator: '!', left: None, right: Box::new(l) },
                        );
                        let (b, _) = nnf_rewrite(r);
                        (ASTNode::Op { operator: '|', left: Some(Box::new(a)), right: Box::new(b) }, true)
                    } else if operator == '=' {
                        let l2 = copy_tree(&l);
                        let r2 = copy_tree(&r);
                        let (a, _) = nnf_rewrite(
                            ASTNode::Op { operator: '>', left: Some(Box::new(l)), right: Box::new(r) },
                        );
                        let (b, _) = nnf_rewrite(
                            ASTNode::Op { operator: '>', left: Some(Box::new(r2)), right: Box::new(l2) },
                        );
                        (ASTNode::Op { operator: '&', left: Some(Box::new(a)), right: Box::new(b) }, true)
                    } else if operator == '^' {
                        let l2 = copy_tree(&l);
                        let r2 = copy_tree(&r);
                        let not_r = ASTNode::Op { operator: '!', left: None, right: Box::new(r2) };
                        let not_l = ASTNode::Op { operator: '!', left: None, right: Box::new(l2) };
                        let (a, _) = nnf_rewrite(
                            ASTNode::Op { operator: '&', left: Some(Box::new(l)), right: Box::new(not_r) },
                        );
                        let (b, _) = nnf_rewrite(
                            ASTNode::Op { operator: '&', left: Some(Box::new(not_l)), right: Box::new(r) },
                        );
                        (ASTNode::Op { operator: '|', left: Some(Box::new(a)), right: Box::new(b) }, true)
                    } else {
                        let (a, fa) = nnf_rewrite(l);
                        let (b, fb) = nnf_rewrite(r);
                        (ASTNode::Op { operator, left: Some(Box::new(a)), right: Box::new(b) }, fa || fb)
                    }
                },
                None => {
                    match r {
                        ASTNode::Op { operator: inner, left: il, right: ir } => {
                            if inner == '!' {
                                let (a, _) = nnf_rewrite(*ir);
                                (a, true)
                            } else if inner == '&' || inner == '|' {
                                let rl = *il.unwrap();
                                let rr = *ir;
                                let (a, _) = nnf_rewrite(
                                    ASTNode::Op { operator: '!', left: None, right: Box::new(rl) },
                                );
                                let (b, _) = nnf_rewrite(
                                    ASTNode::Op { operator: '!', left: None, right: Box::new(rr) },
                                );
                                let dual = if inner == '|' {
                                    '&'
                                } else {
                                    '|'
                                };
                                (ASTNode::Op { operator: dual, left: Some(Box::new(a)), right: Box::new(b) }, true)
                            } else {
                                let (a, fa) = nnf_rewrite(
                                    ASTNode::Op { operator: inner, left: il, right: ir },
                                );
                                (ASTNode::Op { operator: '!', left: None, right: Box::new(a) }, fa)
                            }
                        },
                        ASTNode::Value(c) => (
                            ASTNode::Op { operator: '!', left: None, right: Box::new(ASTNode::Value(c)) },
                            false,
                        ),
                    }
                },
            }
        },
    }
}

/// One rewriting pass in place; `modified` is set when a rule fired and kept otherwise.
pub fn tree_to_almost_nnf(node: &mut ASTNode<char>, modified: &mut bool)
    requires
        wf(*old(node)),
    ensures
        *final(node) == nnf_pass(*old(node)).0,
        *final(modified) == (*old(modified) || nnf_pass(*old(node)).1),
        wf(*final(node)),
        no_sugar(*final(node)),
        equivalent(*final(node), *old(node)),
        !nnf_pass(*old(node)).1 ==> *final(node) == *old(node),
{
    proof {
        lemma_nnf_pass(*node);
    }
    let mut t = ASTNode::Value('\0');
    std::mem::swap(node, &mut t);
    let (r, fired) = nnf_rewrite(t);
    *node = r;
    if fired {
        *modified = true;
    }
}

/// Rewrites a well-formed tree to its negation normal form.
pub fn to_nnf(tree: ASTNode<char>) -> (r: ASTNode<char>)
    requires
        wf(tree),
    ensures
        r == nnf_fix(tree),
        is_nnf(r),
        wf(r),
        equivalent(r, tree),
{
    proof {
        lemma_nnf_fix(tree);
    }
    let mut tree = tree;
    let ghost t0 = tree;
    let mut modified = true;
    while modified
        invariant
            wf(tree),
            nnf_fix(tree) == nnf_fix(t0),
            !modified ==> nnf_fix(tree) == tree,
        decreases nnf_stage(tree) + if modified {
            1nat
        } else {
            0nat
        },
    {
        modified = false;
        proof {
            lemma_nnf_pass(tree);
            lemma_nnf_stage(tree);
        }
        tree_to_almost_nnf(&mut tree, &mut modified);
    }
    tree
}

/// The text holds a `0` or a `1`.
pub open spec fn has_constant(s: Seq<char>) -> bool {
    exists|i: int| 0 <= i < s.len() && is_constant(#[trigger] s[i])
}

/// Whether a formula's text holds a constant.
pub fn contains_constant(formula: &str) -> (r: bool)
    ensures
        r == has_constant(formula@),
{
    let n = formula.unicode_len();
    let mut i: usize = 0;
    while i < n
        invariant
            n == formula@.len(),
            i <= n,
            forall|k: int| 0 <= k < i ==> !is_constant(#[trigger] formula@[k]),
        decreases n - i,
    {
        let c = formula.get_char(i);
        if c == '0' || c == '1' {
            return true;
        }
        i = i + 1;
    }
    false
}

/// The negation normal form of a postfix formula over variables, as postfix text;
/// empty for text with a constant or that is no formula.
pub open spec fn nnf_text(s: Seq<char>) -> Seq<char> {
    if has_constant(s) {
        Seq::empty()
    } else {
        match parse(s) {
            Ok(t) => to_postfix(nnf_fix(t)),
            Err(_) => Seq::empty(),
        }
    }
}

/// Rewrites a postfix formula to negation normal form.
pub fn negation_normal_form(formula: &str) -> (r: String)
    ensures
        r@ == nnf_text(formula@),
{
    if contains_constant(formula) {
        return String::new();
    }
    let tree = match build_ast(formula) {
        Some(ast) => ast,
        None => {
            return String::new();
        },
    };
    let tree = to_nnf(tree);
    tree_to_string(&tree)
}

/// The tree that reading back a printed tree gives: the operands of `&` and `|` trade places.
pub open spec fn mirror(t: ASTNode<char>) -> ASTNode<char>
    decreases t,
{
    match t {
        ASTNode::Value(_) => t,
        ASTNode::Op { operator, left, right } => match left {
            Some(l) => if operator == '&' || operator == '|' {
                binary(operator, mirror(*right), mirror(*l))
            } else {
                binary(operator, mirror(*l), mirror(*right))
            },
            None => ASTNode::Op { operator, left: None, right: Box::new(mirror(*right)) },
        },
    }
}

proof fn lemma_mirror_equivalent(t: ASTNode<char>, a: spec_fn(char) -> bool)
    ensures
        eval(mirror(t), a) == eval(t, a),
    decreases t,
{
    match t {
        ASTNode::Value(_) => {},
        ASTNode::Op { operator, left, right } => {
            lemma_mirror_equivalent(*right, a);
            if let Some(l) = left {
                lemma_mirror_equivalent(*l, a);
            }
        },
    }
}

/// Reading the printed text of a tree pushes its mirror image on the stack.
proof fn lemma_read_printed(stack: Seq<ASTNode<char>>, t: ASTNode<char>)
    requires
        wf(t),
        leaves_are_operands(t),
    ensures
        parse_from(stack, to_postfix(t)) == Ok::<Seq<ASTNode<char>>, ParseError>(stack.push(mirror(t))),
    decreases t,
{
    match t {
        ASTNode::Value(c) => {
            let p = to_postfix(t);
            assert(p == seq![c]);
            assert(p.drop_last() =~= Seq::<char>::empty());
            assert(parse_from(stack, p.drop_last()) == Ok::<Seq<ASTNode<char>>, ParseError>(stack));
            assert(parse_step(stack, c) == Ok::<Seq<ASTNode<char>>, ParseError>(stack.push(t)));
        },
        ASTNode::Op { operator, left, right } => {
            let r = *right;
            let op = seq![operator];
            assert(op.drop_last() =~= Seq::<char>::empty());
            match left {
                Some(lb) => {
                    let l = *lb;
                    if operator == '&' || operator == '|' {
                        lemma_read_printed(stack, r);
                        lemma_read_printed(stack.push(mirror(r)), l);
                        lemma_parse_concat(stack, to_postfix(r), to_postfix(l));
                        lemma_parse_concat(stack, to_postfix(r) + to_postfix(l), op);
                        let st = stack.push(mirror(r)).push(mirror(l));
                        assert(st.take(st.len() - 2) =~= stack);
                        assert(to_postfix(t) == (to_postfix(r) + to_postfix(l)) + op);
                        assert(parse_from(stack, to_postfix(r) + to_postfix(l)) == Ok::<Seq<ASTNode<char>>, ParseError>(st));
                        assert(parse_from(st, op.drop_last()) == Ok::<Seq<ASTNode<char>>, ParseError>(st));
                        assert(parse_from(st, op) == parse_step(st, operator));
                        assert(st[st.len() - 2] == mirror(r) && st.last() == mirror(l));
                        assert(mirror(t) == binary(operator, mirror(r), mirror(l)));
                    } else {
                        lemma_read_printed(stack, l);
                        lemma_read_printed(stack.push(mirror(l)), r);
                        lemma_parse_concat(stack, to_postfix(l), to_postfix(r));
                        lemma_parse_concat(stack, to_postfix(l) + to_postfix(r), op);
                        let st = stack.push(mirror(l)).push(mirror(r));
                        assert(st.take(st.len() - 2) =~= stack);
                        assert(to_postfix(t) == (to_postfix(l) + to_postfix(r)) + op);
                        assert(parse_from(stack, to_postfix(l) + to_postfix(r)) == Ok::<Seq<ASTNode<char>>, ParseError>(st));
                        assert(parse_from(st, op.drop_last()) == Ok::<Seq<ASTNode<char>>, ParseError>(st));
                        assert(parse_from(st, op) == parse_step(st, operator));
                        assert(st[st.len() - 2] == mirror(l) && st.last() == mirror(r));
                        assert(mirror(t) == binary(operator, mirror(l), mirror(r)));
                    }
                },
                None => {
                    lemma_read_printed(stack, r);
                    lemma_parse_concat(stack, to_postfix(r), op);
                    assert(Seq::<char>::empty() + to_postfix(r) =~= to_postfix(r));
                    assert(stack.push(mirror(r)).drop_last() =~= stack);
                    let st = stack.push(mirror(r));
                    assert(to_postfix(t) == to_postfix(r) + op);
                    assert(parse_from(st, op.drop_last()) == Ok::<Seq<ASTNode<char>>, ParseError>(st));
                    assert(parse_from(st, op) == parse_step(st, operator));
                },
            }
        },
    }
}

/// Printing a well-formed tree with operand leaves and reading the text back gives a
/// tree that agrees with it under every assignment.
pub proof fn lemma_printed_tree_reads_back(t: ASTNode<char>)
    requires
        wf(t),
        leaves_are_operands(t),
    ensures
        parse(to_postfix(t)) is Ok,
        equivalent(parse(to_postfix(t))->Ok_0, t),
{
    lemma_read_printed(seq![], t);
    assert(seq![].push(mirror(t)) =~= seq![mirror(t)]);
    assert forall|a: spec_fn(char) -> bool| #[trigger] eval(mirror(t), a) == eval(t, a) by {
        lemma_mirror_equivalent(t, a);
    }
}

/// The text that the negation normal form of a formula prints reads back as a formula
/// in negation normal form that agrees with the input under every assignment.
pub proof fn lemma_nnf_text_reads_back(s: Seq<char>)
    requires
        parse(s) is Ok,
        !has_constant(s),
    ensures
        parse(nnf_text(s)) is Ok,
        equivalent(parse(nnf_text(s))->Ok_0, parse(s)->Ok_0),
{
    let t = parse(s)->Ok_0;
    lemma_parse_wf(seq![], s);
    assert(wf(parse_from(seq![], s)->Ok_0[0]));
    lemma_nnf_fix(t);
    lemma_printed_tree_reads_back(nnf_fix(t));
}

/// Printing the tree of a formula and reading the text back gives a tree that agrees
/// with the first under every assignment.
pub proof fn lemma_print_round_trip(s: Seq<char>)
    requires
        parse(s) is Ok,
    ensures
        parse(to_postfix(parse(s)->Ok_0)) is Ok,
        equivalent(parse(to_postfix(parse(s)->Ok_0))->Ok_0, parse(s)->Ok_0),
{
    lemma_parse_wf(seq![], s);
    assert(wf(parse_from(seq![], s)->Ok_0[0]));
    lemma_printed_tree_reads_back(parse(s)->Ok_0);
}

/// Normalising a tree that is already normalised changes nothing.
pub proof fn lemma_nnf_idempotent(t: ASTNode<char>)
    requires
        wf(t),
    ensures
        nnf_fix(nnf_fix(t)) == nnf_fix(t),
{
    lemma_nnf_fix(t);
    lemma_nnf_pass(nnf_fix(t));
}

/// The negation normal form of a tree agrees with it under every assignment.
pub proof fn lemma_nnf_equivalent(t: ASTNode<char>, a: spec_fn(char) -> bool)
    requires
        wf(t),
    ensures
        eval(nnf_fix(t), a) == eval(t, a),
{
    lemma_nnf_fix(t);
}

/// Mirroring keeps a tree's shape class and undoes itself.
proof fn lemma_mirror_facts(t: ASTNode<char>)
    ensures
        mirror(mirror(t)) == t,
        wf(t) ==> wf(mirror(t)),
        is_nnf(t) ==> is_nnf(mirror(t)),
        leaves_are_operands(t) ==> leaves_are_operands(mirror(t)),
        leaves_are_variables(t) ==> leaves_are_variables(mirror(t)),
    decreases t,
{
    match t {
        ASTNode::Value(_) => {},
        ASTNode::Op { operator, left, right } => {
            lemma_mirror_facts(*right);
            if let Some(l) = left {
                lemma_mirror_facts(*l);
            }
        },
    }
}

/// The printed text of a well-formed tree over variables holds no constant.
proof fn lemma_postfix_no_constant(t: ASTNode<char>)
    requires
        wf(t),
        leaves_are_variables(t),
    ensures
        !has_constant(to_postfix(t)),
    decreases t,
{
    match t {
        ASTNode::Value(c) => {
            assert(to_postfix(t) == seq![c]);
        },
        ASTNode::Op { operator, left, right } => {
            lemma_postfix_no_constant(*right);
            let r = to_postfix(*right);
            let l = match left {
                Some(x) => to_postfix(*x),
                None => Seq::empty(),
            };
            if let Some(x) = left {
                lemma_postfix_no_constant(*x);
            }
            let p = to_postfix(t);
            assert forall|i: int| 0 <= i < p.len() implies !is_constant(#[trigger] p[i]) by {
                if operator == '&' || operator == '|' {
                    assert(p == r + l + seq![operator]);
                    if i < r.len() {
                        assert(p[i] == r[i]);
                    } else if i < r.len() + l.len() {
                        assert(p[i] == l[i - r.len()]);
                    }
                } else {
                    assert(p == l + r + seq![operator]);
                    if i < l.len() {
                        assert(p[i] == l[i]);
                    } else if i < l.len() + r.len() {
                        assert(p[i] == r[i - l.len()]);
                    }
                }
            }
        },
    }
}

/// The tree that a formula over variables reads as has only variables at its leaves.
proof fn lemma_parse_variables(s: Seq<char>)
    requires
        parse(s) is Ok,
        !has_constant(s),
    ensures
        leaves_are_variables(parse(s)->Ok_0),
        wf(parse(s)->Ok_0),
        leaves_are_operands(parse(s)->Ok_0),
{
    let p = |c: char| is_variable(c);
    assert forall|k: int| 0 <= k < s.len() && crate::ast::is_operand(#[trigger] s[k]) implies p(s[k]) by {
        assert(!is_constant(s[k]));
    }
    crate::sat::lemma_parse_leaves(seq![], s, p);
    lemma_parse_wf(seq![], s);
    let t = parse_from(seq![], s)->Ok_0[0];
    assert(wf(t) && crate::sat::leaves_satisfy(t, p));
    lemma_leaves_variables(t, p);
}

proof fn lemma_leaves_variables(t: ASTNode<char>, p: spec_fn(char) -> bool)
    requires
        crate::sat::leaves_satisfy(t, p),
        forall|c: char| #[trigger] p(c) ==> is_variable(c),
    ensures
        leaves_are_variables(t),
    decreases t,
{
    match t {
        ASTNode::Value(_) => {},
        ASTNode::Op { operator, left, right } => {
            lemma_leaves_variables(*right, p);
            if let Some(l) = left {
                lemma_leaves_variables(*l, p);
            }
        },
    }
}

/// The negation normal form text of a formula over variables, converted again, reads
/// back as the first result's tree with the operands of `&` and `|` swapped; a third
/// conversion gives the first text again.
pub proof fn lemma_nnf_text_idempotent(s: Seq<char>)
    requires
        parse(s) is Ok,
        !has_constant(s),
    ensures
        parse(nnf_text(s)) is Ok,
        parse(nnf_text(nnf_text(s))) is Ok,
        parse(nnf_text(nnf_text(s)))->Ok_0 == mirror(parse(nnf_text(s))->Ok_0),
        nnf_text(nnf_text(nnf_text(s))) == nnf_text(s),
{
    let t = parse(s)->Ok_0;
    lemma_parse_variables(s);
    lemma_nnf_fix(t);
    let n = nnf_fix(t);
    let r1 = to_postfix(n);
    lemma_postfix_no_constant(n);
    lemma_read_printed(seq![], n);
    assert(seq![].push(mirror(n)) =~= seq![mirror(n)]);
    let m = mirror(n);
    lemma_mirror_facts(n);
    lemma_mirror_facts(m);
    lemma_nnf_pass(m);
    assert(nnf_fix(m) == m);
    let r2 = to_postfix(m);
    lemma_postfix_no_constant(m);
    lemma_read_printed(seq![], m);
    assert(seq![].push(mirror(m)) =~= seq![mirror(m)]);
    lemma_nnf_pass(n);
    assert(nnf_fix(n) == n);
}

} // verus!
