use vstd::prelude::*;
use vstd::string::*;
use crate::ast::ASTNode;
use crate::text::push_char;

verus! {

/// The mathematical symbol of a leaf: `⊥` for `0`, `⊤` for `1`, a variable as it is.
pub open spec fn leaf_symbol(v: char) -> char {
    if v == '0' {
        '⊥'
    } else if v == '1' {
        '⊤'
    } else {
        v
    }
}

/// The mathematical symbol of an operator glyph.
pub open spec fn operator_symbol(op: char) -> char {
    if op == '!' {
        '¬'
    } else if op == '&' {
        '∧'
    } else if op == '|' {
        '∨'
    } else if op == '^' {
        '⊕'
    } else if op == '>' {
        '→'
    } else if op == '=' {
        '↔'
    } else {
        op
    }
}

/// Infix text of a tree: each operand in parentheses, the operator between them with
/// a space on each side.
pub open spec fn infix_text(t: ASTNode<char>) -> Seq<char>
    decreases t,
{
    match t {
        ASTNode::Value(v) => seq![leaf_symbol(v)],
        ASTNode::Op { operator, left, right } => {
            let l = match left {
                Some(x) => seq!['('] + infix_text(*x) + seq![')'],
                None => Seq::empty(),
            };
            l + seq![' ', operator_symbol(operator), ' ', '('] + infix_text(*right) + seq![')']
        },
    }
}

fn leaf_glyph(v: char) -> (r: char)
    ensures
        r == leaf_symbol(v),
{
    if v == '0' {
        '⊥'
    } else if v == '1' {
        '⊤'
    } else {
        v
    }
}

fn operator_glyph(op: char) -> (r: char)
    ensures
        r == operator_symbol(op),
{
    if op == '!' {
        '¬'
    } else if op == '&' {
        '∧'
    } else if op == '|' {
        '∨'
    } else if op == '^' {
        '⊕'
    } else if op == '>' {
        '→'
    } else if op == '=' {
        '↔'
    } else {
        op
    }
}

/// Writes a tree in infix notation with logical symbols.
pub fn mathematical_formula(node: &ASTNode<char>) -> (r: String)
    ensures
        r@ == infix_text(*node),
    decreases node,
{
    match node {
        ASTNode::Value(v) => {
            let mut res = String::new();
            push_char(&mut res, leaf_glyph(*v));
            res
        },
        ASTNode::Op { operator, left, right } => {
            let mut res = String::new();
            if let Some(l) = left {
                push_char(&mut res, '(');
                let inner = mathematical_formula(l);
                res.append(inner.as_str());
                push_char(&mut res, ')');
            }
            push_char(&mut res, ' ');
            push_char(&mut res, operator_glyph(*operator));
            push_char(&mut res, ' ');
            push_char(&mut res, '(');
            let inner = mathematical_formula(right);
            res.append(inner.as_str());
            push_char(&mut res, ')');
            proof {
                let l = match left {
                    Some(x) => seq!['('] + infix_text(**x) + seq![')'],
                    None => Seq::empty(),
                };
                assert(res@ =~= l + seq![' ', operator_symbol(*operator), ' ', '(']
                    + infix_text(**right) + seq![')']);
            }
            res
        },
    }
}

} // verus!
