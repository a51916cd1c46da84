use vstd::prelude::*;
use vstd::string::*;
use crate::ast::{ASTNode, binary, is_operand, is_operator, leaves_are_operands, negation, value_of, wf};

verus! {

/// Why a postfix formula could not be read.
#[derive(Debug, Clone, Copy, PartialEq, Eq, Structural)]
pub enum ParseError {
    /// A character that is neither an operand nor an operator.
    InvalidToken,
    /// An operator found fewer operands on the stack than its arity.
    Underflow,
    /// At the end the stack did not hold exactly one tree.
    Malformed,
}

/// One step of the postfix reader: what character `c` does to the operand stack.
pub open spec fn parse_step(stack: Seq<ASTNode<char>>, c: char) -> Result<
    Seq<ASTNode<char>>,
    ParseError,
> {
    if is_operand(c) {
        Ok(stack.push(ASTNode::Value(c)))
    } else if !is_operator(c) {
        Err(ParseError::InvalidToken)
    } else if c == '!' {
        if stack.len() < 1 {
            Err(ParseError::Underflow)
        } else {
            Ok(stack.drop_last().push(negation(stack.last())))
        }
    } else if stack.len() < 2 {
        Err(ParseError::Underflow)
    } else {
        Ok(
            stack.take(stack.len() - 2).push(
                binary(c, stack[stack.len() - 2], stack.last()),
            ),
        )
    }
}

/// The stack after reading all of `s`, starting from `stack`.
pub open spec fn parse_from(stack: Seq<ASTNode<char>>, s: Seq<char>) -> Result<
    Seq<ASTNode<char>>,
    ParseError,
>
    decreases s.len(),
{
    if s.len() == 0 {
        Ok(stack)
    } else {
        match parse_from(stack, s.drop_last()) {
            Ok(st) => parse_step(st, s.last()),
            Err(e) => Err(e),
        }
    }
}

/// The tree that the postfix text `s` denotes, or the first error met.
pub open spec fn parse(s: Seq<char>) -> Result<ASTNode<char>, ParseError> {
    match parse_from(seq![], s) {
        Ok(st) => if st.len() == 1 {
            Ok(st[0])
        } else {
            Err(ParseError::Malformed)
        },
        Err(e) => Err(e),
    }
}

/// `parse`, with the error dropped.
pub open spec fn parse_opt(s: Seq<char>) -> Option<ASTNode<char>> {
    match parse(s) {
        Ok(t) => Some(t),
        Err(_) => None,
    }
}

/// Once the reader has failed on a prefix, it fails in the same way on the whole text.
proof fn lemma_error_persists(stack: Seq<ASTNode<char>>, s: Seq<char>, j: int)
    requires
        0 <= j <= s.len(),
        parse_from(stack, s.take(j)) is Err,
    ensures
        parse_from(stack, s) == parse_from(stack, s.take(j)),
    decreases s.len() - j,
{
    if j == s.len() {
        assert(s.take(j) == s);
    } else {
        assert(s.take(j + 1).drop_last() == s.take(j));
        lemma_error_persists(stack, s, j + 1);
    }
}

/// Reading a concatenation is reading the second part from where the first left off.
pub proof fn lemma_parse_concat(stack: Seq<ASTNode<char>>, s1: Seq<char>, s2: Seq<char>)
    ensures
        parse_from(stack, s1 + s2) == match parse_from(stack, s1) {
            Ok(st) => parse_from(st, s2),
            Err(e) => Err(e),
        },
    decreases s2.len(),
{
    if s2.len() == 0 {
        assert(s1 + s2 == s1);
    } else {
        assert((s1 + s2).drop_last() == s1 + s2.drop_last());
        assert((s1 + s2).last() == s2.last());
        lemma_parse_concat(stack, s1, s2.drop_last());
    }
}

/// Every tree on the reader's stack is well formed and has operand leaves.
pub proof fn lemma_parse_wf(stack: Seq<ASTNode<char>>, s: Seq<char>)
    requires
        forall|k: int| 0 <= k < stack.len() ==> wf(#[trigger] stack[k]) && leaves_are_operands(stack[k]),
    ensures
        parse_from(stack, s) is Ok ==> forall|k: int|
            0 <= k < parse_from(stack, s)->Ok_0.len() ==> wf(#[trigger] parse_from(stack, s)->Ok_0[k])
                && leaves_are_operands(parse_from(stack, s)->Ok_0[k]),
    decreases s.len(),
{
    if s.len() > 0 {
        lemma_parse_wf(stack, s.drop_last());
        if let Ok(st) = parse_from(stack, s.drop_last()) {
            let c = s.last();
            if let Ok(st2) = parse_step(st, c) {
                assert forall|k: int| 0 <= k < st2.len() implies wf(#[trigger] st2[k])
                    && leaves_are_operands(st2[k]) by {
                    if k < st2.len() - 1 {
                        if c == '!' {
                            assert(st2[k] == st[k]);
                        } else if !is_operand(c) {
                            assert(st2[k] == st[k]);
                        }
                    } else if !is_operand(c) && c != '!' {
                        let t = st2[k];
                        assert(st[st.len() - 2] == st[st.len() - 2]);
                    }
                }
            }
        }
    }
}

/// Reads a postfix formula into a tree.
pub fn parse_formula(formula: &str) -> (r: Result<ASTNode<char>, ParseError>)
    ensures
        r == parse(formula@),
        r is Ok ==> wf(r->Ok_0) && leaves_are_operands(r->Ok_0),
{
    let n = formula.unicode_len();
    let mut stack: Vec<ASTNode<char>> = Vec::new();
    let mut i: usize = 0;
    proof {
        assert(formula@.take(0) =~= Seq::<char>::empty());
    }
    while i < n
        invariant
            n == formula@.len(),
            i <= n,
            parse_from(seq![], formula@.take(i as int)) == Ok::<Seq<ASTNode<char>>, ParseError>(
                stack@,
            ),
        decreases n - i,
    {
        let c = formula.get_char(i);
        proof {
            assert(formula@.take(i + 1).drop_last() == formula@.take(i as int));
            assert(formula@.take(i + 1).last() == c);
        }
        if c == '0' || c == '1' || (c >= 'A' && c <= 'Z') {
            stack.push(ASTNode::Value(c));
        } else {
            if !(c == '!' || c == '&' || c == '|' || c == '^' || c == '>' || c == '=') {
                proof {
                    lemma_error_persists(seq![], formula@, i + 1);
                }
                return Err(ParseError::InvalidToken);
            }
            if stack.len() < 1 || (stack.len() < 2 && c != '!') {
                proof {
                    lemma_error_persists(seq![], formula@, i + 1);
                }
                return Err(ParseError::Underflow);
            }
            let right = stack.pop().unwrap();
            if c == '!' {
                stack.push(ASTNode::Op { operator: c, left: None, right: Box::new(right) });
            } else {
                let left = stack.pop().unwrap();
                stack.push(
                    ASTNode::Op { operator: c, left: Some(Box::new(left)), right: Box::new(right) },
                );
            }
            proof {
                assert(stack@ =~= parse_step(
                    parse_from(seq![], formula@.take(i as int))->Ok_0,
                    c,
                )->Ok_0);
            }
        }
        i = i + 1;
    }
    proof {
        assert(formula@.take(n as int) == formula@);
        lemma_parse_wf(seq![], formula@);
    }
    if stack.len() != 1 {
        return Err(ParseError::Malformed);
    }
    Ok(stack.pop().unwrap())
}

/// Reads a postfix formula into a tree; `None` where it is not a formula.
pub fn build_ast(formula: &str) -> (r: Option<ASTNode<char>>)
    ensures
        r == parse_opt(formula@),
        r is Some ==> wf(r->Some_0) && leaves_are_operands(r->Some_0),
{
    match parse_formula(formula) {
        Ok(t) => Some(t),
        Err(_) => None,
    }
}

/// Evaluates a tree whose leaves are all constants.
pub fn eval_node(node: &ASTNode<char>) -> (r: Option<bool>)
    ensures
        r == value_of(*node),
    decreases node,
{
    match node {
        ASTNode::Value(c) => {
            if *c == '0' {
                Some(false)
            } else if *c == '1' {
                Some(true)
            } else {
                None
            }
        },
        ASTNode::Op { operator, left, right } => {
            let op = *operator;
            if op == '!' {
                match eval_node(right) {
                    Some(r) => Some(!r),
                    None => None,
                }
            } else if op == '&' || op == '|' || op == '^' || op == '>' || op == '=' {
                let l = match left {
                    Some(l) => eval_node(l),
                    None => {
                        return None;
                    },
                };
                let r = eval_node(right);
                match (l, r) {
                    (Some(x), Some(y)) => {
                        if op == '&' {
                            Some(x && y)
                        } else if op == '|' {
                            Some(x || y)
                        } else if op == '^' {
                            Some(x != y)
                        } else if op == '>' {
                            Some(!x || y)
                        } else {
                            Some(x == y)
                        }
                    },
                    _ => None,
                }
            } else {
                None
            }
        },
    }
}

/// The truth value of a formula over the constants `0` and `1`; `false` where it
/// cannot be read or holds a variable.
pub fn eval_formula(formula: &str) -> (r: bool)
    ensures
        r == (parse(formula@) is Ok && value_of(parse(formula@)->Ok_0) == Some(true)),
{
    match build_ast(formula) {
        Some(tree) => match eval_node(&tree) {
            Some(v) => v,
            None => false,
        },
        None => false,
    }
}

} // verus!
