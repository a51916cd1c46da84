use vstd::prelude::*;

verus! {

/// A formula tree over atomic values of type `V`.
///
/// `Op` with operator `'!'` has no `left` child; every binary operator has both.
pub enum ASTNode<V> {
    Value(V),
    Op { operator: char, left: Option<Box<ASTNode<V>>>, right: Box<ASTNode<V>> },
}

/// The glyphs of the binary connectives: and, or, xor, implies, equivalent.
pub open spec fn is_binary_operator(c: char) -> bool {
    c == '&' || c == '|' || c == '^' || c == '>' || c == '='
}

pub open spec fn is_operator(c: char) -> bool {
    c == '!' || is_binary_operator(c)
}

pub open spec fn is_variable(c: char) -> bool {
    'A' <= c && c <= 'Z'
}

pub open spec fn is_constant(c: char) -> bool {
    c == '0' || c == '1'
}

pub open spec fn is_operand(c: char) -> bool {
    is_constant(c) || is_variable(c)
}

/// Arity discipline: `'!'` is unary, every other operator is a known binary one.
pub open spec fn wf<V>(t: ASTNode<V>) -> bool
    decreases t,
{
    match t {
        ASTNode::Value(_) => true,
        ASTNode::Op { operator, left, right } => {
            &&& wf(*right)
            &&& match left {
                None => operator == '!',
                Some(l) => is_binary_operator(operator) && wf(*l),
            }
        },
    }
}

/// Every leaf of the tree is a constant or a variable.
pub open spec fn leaves_are_operands(t: ASTNode<char>) -> bool
    decreases t,
{
    match t {
        ASTNode::Value(c) => is_operand(c),
        ASTNode::Op { operator, left, right } => {
            &&& leaves_are_operands(*right)
            &&& match left {
                None => true,
                Some(l) => leaves_are_operands(*l),
            }
        },
    }
}

/// Every leaf is a variable.
pub open spec fn leaves_are_variables(t: ASTNode<char>) -> bool
    decreases t,
{
    match t {
        ASTNode::Value(c) => is_variable(c),
        ASTNode::Op { operator, left, right } => {
            &&& leaves_are_variables(*right)
            &&& match left {
                None => true,
                Some(l) => leaves_are_variables(*l),
            }
        },
    }
}

/// The boolean meaning of an operator applied to its operands (`l` is ignored by `'!'`).
pub open spec fn apply(operator: char, l: bool, r: bool) -> bool {
    if operator == '!' {
        !r
    } else if operator == '&' {
        l && r
    } else if operator == '|' {
        l || r
    } else if operator == '^' {
        l != r
    } else if operator == '>' {
        !l || r
    } else {
        l == r
    }
}

/// The truth value of a tree under an assignment of the variables.
pub open spec fn eval(t: ASTNode<char>, a: spec_fn(char) -> bool) -> bool
    decreases t,
{
    match t {
        ASTNode::Value(c) => if c == '0' {
            false
        } else if c == '1' {
            true
        } else {
            a(c)
        },
        ASTNode::Op { operator, left, right } => {
            let l = match left {
                Some(x) => eval(*x, a),
                None => false,
            };
            apply(operator, l, eval(*right, a))
        },
    }
}

/// Two trees that agree under every assignment.
pub open spec fn equivalent(s: ASTNode<char>, t: ASTNode<char>) -> bool {
    forall|a: spec_fn(char) -> bool| #[trigger] eval(s, a) == eval(t, a)
}

/// The value of a tree whose leaves are all constants; `None` on a free variable,
/// an unknown operator or a missing operand.
pub open spec fn value_of(t: ASTNode<char>) -> Option<bool>
    decreases t,
{
    match t {
        ASTNode::Value(c) => if c == '0' {
            Some(false)
        } else if c == '1' {
            Some(true)
        } else {
            None
        },
        ASTNode::Op { operator, left, right } => {
            if operator == '!' {
                match value_of(*right) {
                    Some(r) => Some(!r),
                    None => None,
                }
            } else if is_binary_operator(operator) {
                match left {
                    None => None,
                    Some(l) => match (value_of(*l), value_of(*right)) {
                        (Some(x), Some(y)) => Some(apply(operator, x, y)),
                        _ => None,
                    },
                }
            } else {
                None
            }
        },
    }
}

/// Every leaf is a constant `0` or `1`.
pub open spec fn leaves_are_constants(t: ASTNode<char>) -> bool
    decreases t,
{
    match t {
        ASTNode::Value(c) => is_constant(c),
        ASTNode::Op { operator, left, right } => {
            &&& leaves_are_constants(*right)
            &&& match left {
                None => true,
                Some(l) => leaves_are_constants(*l),
            }
        },
    }
}

/// A well-formed tree has a value exactly when all its leaves are constants, and that
/// value is its truth value under any assignment.
pub proof fn lemma_value_of_eval(t: ASTNode<char>, a: spec_fn(char) -> bool)
    requires
        wf(t),
    ensures
        value_of(t) is Some <==> leaves_are_constants(t),
        leaves_are_constants(t) ==> value_of(t) == Some(eval(t, a)),
    decreases t,
{
    match t {
        ASTNode::Value(_) => {},
        ASTNode::Op { operator, left, right } => {
            lemma_value_of_eval(*right, a);
            if let Some(l) = left {
                lemma_value_of_eval(*l, a);
            }
        },
    }
}

/// Builds `op(l, r)`.
pub open spec fn binary<V>(operator: char, l: ASTNode<V>, r: ASTNode<V>) -> ASTNode<V> {
    ASTNode::Op { operator, left: Some(Box::new(l)), right: Box::new(r) }
}

/// Builds `!r`.
pub open spec fn negation<V>(r: ASTNode<V>) -> ASTNode<V> {
    ASTNode::Op { operator: '!', left: None, right: Box::new(r) }
}

/// A deep copy of a formula tree.
pub fn copy_tree(t: &ASTNode<char>) -> (r: ASTNode<char>)
    ensures
        r == *t,
    decreases t,
{
    match t {
        ASTNode::Value(c) => ASTNode::Value(*c),
        ASTNode::Op { operator, left, right } => {
            let new_left = match left {
                Some(l) => Some(Box::new(copy_tree(l))),
                None => None,
            };
            ASTNode::Op { operator: *operator, left: new_left, right: Box::new(copy_tree(right)) }
        },
    }
}

} // verus!
