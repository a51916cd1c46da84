//! Postfix text to negation normal form by structural recursion: parse, expand
//! `>`, `=`, `^`, push negations to the variables, print.

use vstd::prelude::*;
use vstd::string::*;
use crate::text::{is_whitespace, push_char, white_space};

verus! {

/// A formula with one variant per connective.
pub enum Node {
    Var(char),
    Not(Box<Node>),
    And(Box<Node>, Box<Node>),
    Or(Box<Node>, Box<Node>),
    Imp(Box<Node>, Box<Node>),
    Iff(Box<Node>, Box<Node>),
    Xor(Box<Node>, Box<Node>),
}

/// Why postfix text could not be read.
#[derive(Debug, Clone, Copy, PartialEq, Eq, Structural)]
pub enum RpnError {
    /// `!` with an empty stack.
    NotUnderflow,
    /// A binary operator with an empty stack.
    RhsUnderflow,
    /// A binary operator with one operand on the stack.
    LhsUnderflow,
    /// A character that is neither an operand, an operator nor white space.
    UnexpectedToken(char),
    /// At the end the stack did not hold exactly one formula.
    ExtraOperands,
}

/// Letters and digits are operands.
pub open spec fn is_rpn_operand(c: char) -> bool {
    ('A' <= c && c <= 'Z') || ('a' <= c && c <= 'z') || ('0' <= c && c <= '9')
}

/// The node that binary operator `c` builds.
pub open spec fn combine(c: char, l: Node, r: Node) -> Node {
    if c == '&' {
        Node::And(Box::new(l), Box::new(r))
    } else if c == '|' {
        Node::Or(Box::new(l), Box::new(r))
    } else if c == '>' {
        Node::Imp(Box::new(l), Box::new(r))
    } else if c == '=' {
        Node::Iff(Box::new(l), Box::new(r))
    } else {
        Node::Xor(Box::new(l), Box::new(r))
    }
}

pub open spec fn is_rpn_binary(c: char) -> bool {
    c == '&' || c == '|' || c == '>' || c == '=' || c == '^'
}

/// What character `c` does to the stack.
pub open spec fn rpn_step(stack: Seq<Node>, c: char) -> Result<Seq<Node>, RpnError> {
    if white_space(c) {
        Ok(stack)
    } else if is_rpn_operand(c) {
        Ok(stack.push(Node::Var(c)))
    } else if c == '!' {
        if stack.len() < 1 {
            Err(RpnError::NotUnderflow)
        } else {
            Ok(stack.drop_last().push(Node::Not(Box::new(stack.last()))))
        }
    } else if is_rpn_binary(c) {
        if stack.len() < 1 {
            Err(RpnError::RhsUnderflow)
        } else if stack.len() < 2 {
            Err(RpnError::LhsUnderflow)
        } else {
            Ok(stack.take(stack.len() - 2).push(combine(c, stack[stack.len() - 2], stack.last())))
        }
    } else {
        Err(RpnError::UnexpectedToken(c))
    }
}

/// The stack after reading all of `s`, starting from `stack`.
pub open spec fn rpn_run_from(stack: Seq<Node>, s: Seq<char>) -> Result<Seq<Node>, RpnError>
    decreases s.len(),
{
    if s.len() == 0 {
        Ok(stack)
    } else {
        match rpn_run_from(stack, s.drop_last()) {
            Ok(st) => rpn_step(st, s.last()),
            Err(e) => Err(e),
        }
    }
}

/// The stack after reading all of `s`.
pub open spec fn rpn_run(s: Seq<char>) -> Result<Seq<Node>, RpnError> {
    rpn_run_from(Seq::empty(), s)
}

/// The formula that postfix text denotes.
pub open spec fn rpn_parse(s: Seq<char>) -> Result<Node, RpnError> {
    match rpn_run(s) {
        Ok(st) => if st.len() == 1 {
            Ok(st[0])
        } else {
            Err(RpnError::ExtraOperands)
        },
        Err(e) => Err(e),
    }
}

proof fn lemma_rpn_error_persists(s: Seq<char>, j: int)
    requires
        0 <= j <= s.len(),
        rpn_run(s.take(j)) is Err,
    ensures
        rpn_run(s) == rpn_run(s.take(j)),
    decreases s.len() - j,
{
    if j == s.len() {
        assert(s.take(j) == s);
    } else {
        assert(s.take(j + 1).drop_last() == s.take(j));
        lemma_rpn_error_persists(s, j + 1);
    }
}

/// Reads postfix text; white space is skipped.
fn parse_rpn(rpn: &str) -> (r: Result<Node, RpnError>)
    ensures
        r == rpn_parse(rpn@),
{
    let n = rpn.unicode_len();
    let mut stack: Vec<Node> = Vec::new();
    let mut i: usize = 0;
    proof {
        assert(rpn@.take(0) =~= Seq::<char>::empty());
    }
    while i < n
        invariant
            n == rpn@.len(),
            i <= n,
            rpn_run(rpn@.take(i as int)) == Ok::<Seq<Node>, RpnError>(stack@),
        decreases n - i,
    {
        let ch = rpn.get_char(i);
        proof {
            assert(rpn@.take(i + 1).drop_last() == rpn@.take(i as int));
            assert(rpn@.take(i + 1).last() == ch);
        }
        if !is_whitespace(ch) {
            if ('A' <= ch && ch <= 'Z') || ('a' <= ch && ch <= 'z') || ('0' <= ch && ch <= '9') {
                stack.push(Node::Var(ch));
            } else if ch == '!' {
                match stack.pop() {
                    Some(a) => stack.push(Node::Not(Box::new(a))),
                    None => {
                        proof {
                            lemma_rpn_error_persists(rpn@, i + 1);
                        }
                        return Err(RpnError::NotUnderflow);
                    },
                }
            } else if ch == '&' || ch == '|' || ch == '>' || ch == '=' || ch == '^' {
                match bin(&mut stack, ch) {
                    Ok(()) => {},
                    Err(e) => {
                        proof {
                            lemma_rpn_error_persists(rpn@, i + 1);
                        }
                        return Err(e);
                    },
                }
            } else {
                proof {
                    lemma_rpn_error_persists(rpn@, i + 1);
                }
                return Err(RpnError::UnexpectedToken(ch));
            }
            proof {
                assert(stack@ =~= rpn_step(rpn_run(rpn@.take(i as int))->Ok_0, ch)->Ok_0);
            }
        }
        i = i + 1;
    }
    proof {
        assert(rpn@.take(n as int) == rpn@);
    }
    if stack.len() == 1 {
        Ok(stack.pop().unwrap())
    } else {
        Err(RpnError::ExtraOperands)
    }
}

/// Pops the two operands of binary operator `c` and pushes the node it builds.
fn bin(st: &mut Vec<Node>, c: char) -> (r: Result<(), RpnError>)
    requires
        is_rpn_binary(c),
        !white_space(c),
    ensures
        r is Ok <==> rpn_step(old(st)@, c) is Ok,
        r is Ok ==> final(st)@ == rpn_step(old(st)@, c)->Ok_0,
        r is Err ==> r->Err_0 == rpn_step(old(st)@, c)->Err_0,
{
    let r = match st.pop() {
        Some(x) => x,
        None => {
            return Err(RpnError::RhsUnderflow);
        },
    };
    let l = match st.pop() {
        Some(x) => x,
        None => {
            return Err(RpnError::LhsUnderflow);
        },
    };
    let node = if c == '&' {
        Node::And(Box::new(l), Box::new(r))
    } else if c == '|' {
        Node::Or(Box::new(l), Box::new(r))
    } else if c == '>' {
        Node::Imp(Box::new(l), Box::new(r))
    } else if c == '=' {
        Node::Iff(Box::new(l), Box::new(r))
    } else {
        Node::Xor(Box::new(l), Box::new(r))
    };
    st.push(node);
    proof {
        assert(final(st)@ =~= rpn_step(old(st)@, c)->Ok_0);
    }
    Ok(())
}

/// A deep copy of a formula.
fn copy_node(n: &Node) -> (r: Node)
    ensures
        r == *n,
    decreases n,
{
    match n {
        Node::Var(c) => Node::Var(*c),
        Node::Not(a) => Node::Not(Box::new(copy_node(a))),
        Node::And(a, b) => Node::And(Box::new(copy_node(a)), Box::new(copy_node(b))),
        Node::Or(a, b) => Node::Or(Box::new(copy_node(a)), Box::new(copy_node(b))),
        Node::Imp(a, b) => Node::Imp(Box::new(copy_node(a)), Box::new(copy_node(b))),
        Node::Iff(a, b) => Node::Iff(Box::new(copy_node(a)), Box::new(copy_node(b))),
        Node::Xor(a, b) => Node::Xor(Box::new(copy_node(a)), Box::new(copy_node(b))),
    }
}

/// `a > b` as `!a | b`, `a = b` as `(a & b) | (!a & !b)`, `a ^ b` as
/// `(a & !b) | (!a & b)`, everywhere in the formula.
pub open spec fn expand(n: Node) -> Node
    decreases n,
{
    match n {
        Node::Imp(a, b) => Node::Or(Box::new(Node::Not(Box::new(expand(*a)))), Box::new(expand(*b))),
        Node::Iff(a, b) => Node::Or(
            Box::new(Node::And(Box::new(expand(*a)), Box::new(expand(*b)))),
            Box::new(
                Node::And(
                    Box::new(Node::Not(Box::new(expand(*a)))),
                    Box::new(Node::Not(Box::new(expand(*b)))),
                ),
            ),
        ),
        Node::Xor(a, b) => Node::Or(
            Box::new(Node::And(Box::new(expand(*a)), Box::new(Node::Not(Box::new(expand(*b)))))),
            Box::new(Node::And(Box::new(Node::Not(Box::new(expand(*a)))), Box::new(expand(*b)))),
        ),
        Node::And(a, b) => Node::And(Box::new(expand(*a)), Box::new(expand(*b))),
        Node::Or(a, b) => Node::Or(Box::new(expand(*a)), Box::new(expand(*b))),
        Node::Not(a) => Node::Not(Box::new(expand(*a))),
        Node::Var(c) => Node::Var(c),
    }
}

/// Expands `>`, `=` and `^`.
fn desugar(n: Node) -> (r: Node)
    ensures
        r == expand(n),
    decreases n,
{
    match n {
        Node::Imp(a, b) => Node::Or(Box::new(Node::Not(Box::new(desugar(*a)))), Box::new(desugar(*b))),
        Node::Iff(a, b) => {
            let a_ = desugar(*a);
            let b_ = desugar(*b);
            let a2 = copy_node(&a_);
            let b2 = copy_node(&b_);
            Node::Or(
                Box::new(Node::And(Box::new(a2), Box::new(b2))),
                Box::new(Node::And(Box::new(Node::Not(Box::new(a_))), Box::new(Node::Not(Box::new(b_))))),
            )
        },
        Node::Xor(a, b) => {
            let a_ = desugar(*a);
            let b_ = desugar(*b);
            let a2 = copy_node(&a_);
            let b2 = copy_node(&b_);
            Node::Or(
                Box::new(Node::And(Box::new(a2), Box::new(Node::Not(Box::new(b2))))),
                Box::new(Node::And(Box::new(Node::Not(Box::new(a_))), Box::new(b_))),
            )
        },
        Node::And(a, b) => Node::And(Box::new(desugar(*a)), Box::new(desugar(*b))),
        Node::Or(a, b) => Node::Or(Box::new(desugar(*a)), Box::new(desugar(*b))),
        Node::Not(a) => Node::Not(Box::new(desugar(*a))),
        Node::Var(c) => Node::Var(c),
    }
}

/// Number of `>`, `=` and `^` nodes.
pub open spec fn sugar_count(n: Node) -> nat
    decreases n,
{
    match n {
        Node::Var(_) => 0,
        Node::Not(a) => sugar_count(*a),
        Node::And(a, b) => sugar_count(*a) + sugar_count(*b),
        Node::Or(a, b) => sugar_count(*a) + sugar_count(*b),
        Node::Imp(a, b) => 1 + sugar_count(*a) + sugar_count(*b),
        Node::Iff(a, b) => 1 + sugar_count(*a) + sugar_count(*b),
        Node::Xor(a, b) => 1 + sugar_count(*a) + sugar_count(*b),
    }
}

pub open spec fn node_size(n: Node) -> nat
    decreases n,
{
    match n {
        Node::Var(_) => 1,
        Node::Not(a) => 1 + node_size(*a),
        Node::And(a, b) => 1 + node_size(*a) + node_size(*b),
        Node::Or(a, b) => 1 + node_size(*a) + node_size(*b),
        Node::Imp(a, b) => 1 + node_size(*a) + node_size(*b),
        Node::Iff(a, b) => 1 + node_size(*a) + node_size(*b),
        Node::Xor(a, b) => 1 + node_size(*a) + node_size(*b),
    }
}

/// The expansion leaves no `>`, `=` or `^`.
pub proof fn lemma_expand_plain(n: Node)
    ensures
        sugar_count(expand(n)) == 0,
    decreases n,
{
    reveal_with_fuel(sugar_count, 4);
    match n {
        Node::Var(_) => {},
        Node::Not(a) => lemma_expand_plain(*a),
        Node::And(a, b) => {
            lemma_expand_plain(*a);
            lemma_expand_plain(*b);
        },
        Node::Or(a, b) => {
            lemma_expand_plain(*a);
            lemma_expand_plain(*b);
        },
        Node::Imp(a, b) => {
            lemma_expand_plain(*a);
            lemma_expand_plain(*b);
        },
        Node::Iff(a, b) => {
            lemma_expand_plain(*a);
            lemma_expand_plain(*b);
        },
        Node::Xor(a, b) => {
            lemma_expand_plain(*a);
            lemma_expand_plain(*b);
        },
    }
}

#[via_fn]
proof fn push_negations_decreases(n: Node) {
    lemma_expand_plain(n);
    reveal_with_fuel(node_size, 2);
    reveal_with_fuel(sugar_count, 2);
}

/// Negations pushed down to the variables by De Morgan's laws, `!!a` dropped;
/// `>`, `=`, `^` are expanded first where they remain.
pub open spec fn push_negations(n: Node) -> Node
    decreases sugar_count(n), node_size(n),
    via push_negations_decreases
{
    match n {
        Node::Not(inner) => match *inner {
            Node::Not(x) => push_negations(*x),
            Node::And(a, b) => Node::Or(
                Box::new(push_negations(Node::Not(a))),
                Box::new(push_negations(Node::Not(b))),
            ),
            Node::Or(a, b) => Node::And(
                Box::new(push_negations(Node::Not(a))),
                Box::new(push_negations(Node::Not(b))),
            ),
            Node::Var(c) => Node::Not(Box::new(Node::Var(c))),
            other => Node::Not(Box::new(push_negations(other))),
        },
        Node::And(a, b) => Node::And(Box::new(push_negations(*a)), Box::new(push_negations(*b))),
        Node::Or(a, b) => Node::Or(Box::new(push_negations(*a)), Box::new(push_negations(*b))),
        Node::Var(c) => Node::Var(c),
        _ => push_negations(expand(n)),
    }
}

/// Pushes negations down to the variables.
fn push_neg(n: Node) -> (r: Node)
    ensures
        r == push_negations(n),
    decreases sugar_count(n), node_size(n),
{
    proof {
        lemma_expand_plain(n);
        reveal_with_fuel(node_size, 2);
        reveal_with_fuel(sugar_count, 2);
    }
    match n {
        Node::Not(inner) => match *inner {
            Node::Not(x) => push_neg(*x),
            Node::And(a, b) => Node::Or(
                Box::new(push_neg(Node::Not(a))),
                Box::new(push_neg(Node::Not(b))),
            ),
            Node::Or(a, b) => Node::And(
                Box::new(push_neg(Node::Not(a))),
                Box::new(push_neg(Node::Not(b))),
            ),
            Node::Var(c) => Node::Not(Box::new(Node::Var(c))),
            other => Node::Not(Box::new(push_neg(other))),
        },
        Node::And(a, b) => Node::And(Box::new(push_neg(*a)), Box::new(push_neg(*b))),
        Node::Or(a, b) => Node::Or(Box::new(push_neg(*a)), Box::new(push_neg(*b))),
        Node::Var(c) => Node::Var(c),
        other => push_neg(desugar(other)),
    }
}

/// The truth value of a formula when each operand `c` has value `a(c)`.
pub open spec fn node_eval(n: Node, a: spec_fn(char) -> bool) -> bool
    decreases n,
{
    match n {
        Node::Var(c) => a(c),
        Node::Not(x) => !node_eval(*x, a),
        Node::And(x, y) => node_eval(*x, a) && node_eval(*y, a),
        Node::Or(x, y) => node_eval(*x, a) || node_eval(*y, a),
        Node::Imp(x, y) => !node_eval(*x, a) || node_eval(*y, a),
        Node::Iff(x, y) => node_eval(*x, a) == node_eval(*y, a),
        Node::Xor(x, y) => node_eval(*x, a) != node_eval(*y, a),
    }
}

/// Only `&` and `|` above negated or plain operands.
pub open spec fn node_is_nnf(n: Node) -> bool
    decreases n,
{
    match n {
        Node::Var(_) => true,
        Node::Not(x) => *x is Var,
        Node::And(x, y) => node_is_nnf(*x) && node_is_nnf(*y),
        Node::Or(x, y) => node_is_nnf(*x) && node_is_nnf(*y),
        _ => false,
    }
}

proof fn lemma_expand_equivalent(n: Node, a: spec_fn(char) -> bool)
    ensures
        node_eval(expand(n), a) == node_eval(n, a),
    decreases n,
{
    reveal_with_fuel(node_eval, 3);
    match n {
        Node::Var(_) => {},
        Node::Not(x) => lemma_expand_equivalent(*x, a),
        Node::And(x, y) | Node::Or(x, y) | Node::Imp(x, y) | Node::Iff(x, y) | Node::Xor(x, y) => {
            lemma_expand_equivalent(*x, a);
            lemma_expand_equivalent(*y, a);
        },
    }
}

proof fn lemma_push_negations(n: Node, a: spec_fn(char) -> bool)
    ensures
        node_eval(push_negations(n), a) == node_eval(n, a),
        sugar_count(n) == 0 ==> node_is_nnf(push_negations(n)),
    decreases sugar_count(n), node_size(n),
{
    lemma_expand_plain(n);
    reveal_with_fuel(node_size, 2);
    reveal_with_fuel(sugar_count, 2);
    reveal_with_fuel(node_eval, 2);
    match n {
        Node::Not(inner) => match *inner {
            Node::Not(x) => lemma_push_negations(*x, a),
            Node::And(x, y) => {
                lemma_push_negations(Node::Not(x), a);
                lemma_push_negations(Node::Not(y), a);
            },
            Node::Or(x, y) => {
                lemma_push_negations(Node::Not(x), a);
                lemma_push_negations(Node::Not(y), a);
            },
            Node::Var(_) => {},
            other => lemma_push_negations(other, a),
        },
        Node::And(x, y) | Node::Or(x, y) => {
            lemma_push_negations(*x, a);
            lemma_push_negations(*y, a);
        },
        Node::Var(_) => {},
        _ => {
            lemma_expand_equivalent(n, a);
            lemma_push_negations(expand(n), a);
        },
    }
}

/// Expanding `>`, `=`, `^` and pushing negations down gives a formula in negation
/// normal form with the same truth value under every valuation of the operands.
pub proof fn lemma_direct_nnf(n: Node, a: spec_fn(char) -> bool)
    ensures
        node_is_nnf(push_negations(expand(n))),
        node_eval(push_negations(expand(n)), a) == node_eval(n, a),
{
    lemma_expand_plain(n);
    lemma_expand_equivalent(n, a);
    lemma_push_negations(expand(n), a);
}

/// Postfix text of a formula, operands in order.
pub open spec fn rpn_text(n: Node) -> Seq<char>
    decreases n,
{
    match n {
        Node::Var(c) => seq![c],
        Node::Not(a) => rpn_text(*a).push('!'),
        Node::And(a, b) => (rpn_text(*a) + rpn_text(*b)).push('&'),
        Node::Or(a, b) => (rpn_text(*a) + rpn_text(*b)).push('|'),
        Node::Imp(a, b) => (rpn_text(*a) + rpn_text(*b)).push('>'),
        Node::Iff(a, b) => (rpn_text(*a) + rpn_text(*b)).push('='),
        Node::Xor(a, b) => (rpn_text(*a) + rpn_text(*b)).push('^'),
    }
}

/// Appends the postfix text of a formula.
fn to_rpn(n: &Node, out: &mut String)
    ensures
        final(out)@ == old(out)@ + rpn_text(*n),
    decreases n,
{
    match n {
        Node::Var(c) => push_char(out, *c),
        Node::Not(a) => {
            to_rpn(a, out);
            push_char(out, '!');
        },
        Node::And(a, b) => {
            to_rpn(a, out);
            to_rpn(b, out);
            push_char(out, '&');
        },
        Node::Or(a, b) => {
            to_rpn(a, out);
            to_rpn(b, out);
            push_char(out, '|');
        },
        Node::Imp(a, b) => {
            to_rpn(a, out);
            to_rpn(b, out);
            push_char(out, '>');
        },
        Node::Iff(a, b) => {
            to_rpn(a, out);
            to_rpn(b, out);
            push_char(out, '=');
        },
        Node::Xor(a, b) => {
            to_rpn(a, out);
            to_rpn(b, out);
            push_char(out, '^');
        },
    }
    proof {
        assert(out@ =~= old(out)@ + rpn_text(*n));
    }
}

proof fn lemma_rpn_concat(stack: Seq<Node>, s1: Seq<char>, s2: Seq<char>)
    ensures
        rpn_run_from(stack, s1 + s2) == match rpn_run_from(stack, s1) {
            Ok(st) => rpn_run_from(st, s2),
            Err(e) => Err(e),
        },
    decreases s2.len(),
{
    if s2.len() == 0 {
        assert(s1 + s2 == s1);
    } else {
        assert((s1 + s2).drop_last() == s1 + s2.drop_last());
        assert((s1 + s2).last() == s2.last());
        lemma_rpn_concat(stack, s1, s2.drop_last());
    }
}

/// Every operand of the formula is a letter or a digit.
pub open spec fn operands_ok(n: Node) -> bool
    decreases n,
{
    match n {
        Node::Var(c) => is_rpn_operand(c),
        Node::Not(x) => operands_ok(*x),
        Node::And(x, y) | Node::Or(x, y) | Node::Imp(x, y) | Node::Iff(x, y) | Node::Xor(x, y) => {
            operands_ok(*x) && operands_ok(*y)
        },
    }
}

/// Reading the printed text of a formula pushes that formula.
proof fn lemma_rpn_read_printed(stack: Seq<Node>, n: Node)
    requires
        operands_ok(n),
    ensures
        rpn_run_from(stack, rpn_text(n)) == Ok::<Seq<Node>, RpnError>(stack.push(n)),
    decreases n,
{
    match n {
        Node::Var(c) => {
            assert(rpn_text(n).drop_last() =~= Seq::<char>::empty());
        },
        Node::Not(x) => {
            lemma_rpn_read_printed(stack, *x);
            assert(rpn_text(n).drop_last() =~= rpn_text(*x));
            assert(stack.push(*x).drop_last() =~= stack);
        },
        Node::And(x, y) | Node::Or(x, y) | Node::Imp(x, y) | Node::Iff(x, y) | Node::Xor(x, y) => {
            lemma_rpn_read_printed(stack, *x);
            lemma_rpn_read_printed(stack.push(*x), *y);
            lemma_rpn_concat(stack, rpn_text(*x), rpn_text(*y));
            assert(rpn_text(n).drop_last() =~= rpn_text(*x) + rpn_text(*y));
            let st = stack.push(*x).push(*y);
            assert(st.take(st.len() - 2) =~= stack);
            assert(st[st.len() - 2] == *x && st.last() == *y);
        },
    }
}

proof fn lemma_rpn_parse_operands(stack: Seq<Node>, s: Seq<char>)
    requires
        forall|k: int| 0 <= k < stack.len() ==> operands_ok(#[trigger] stack[k]),
    ensures
        rpn_run_from(stack, s) is Ok ==> forall|k: int|
            0 <= k < rpn_run_from(stack, s)->Ok_0.len() ==> operands_ok(
                #[trigger] rpn_run_from(stack, s)->Ok_0[k],
            ),
    decreases s.len(),
{
    if s.len() > 0 {
        lemma_rpn_parse_operands(stack, s.drop_last());
        if let Ok(st) = rpn_run_from(stack, s.drop_last()) {
            let c = s.last();
            if let Ok(st2) = rpn_step(st, c) {
                assert forall|k: int| 0 <= k < st2.len() implies operands_ok(#[trigger] st2[k]) by {
                    if k < st2.len() - 1 && !white_space(c) && !is_rpn_operand(c) {
                        assert(st2[k] == st[k]);
                    } else if k == st2.len() - 1 && !white_space(c) && !is_rpn_operand(c) && c != '!' {
                        assert(operands_ok(st[st.len() - 2]));
                    }
                }
            }
        }
    }
}

proof fn lemma_operands_kept(n: Node)
    requires
        operands_ok(n),
    ensures
        operands_ok(expand(n)),
        operands_ok(push_negations(n)),
    decreases sugar_count(n), node_size(n),
{
    lemma_expand_plain(n);
    reveal_with_fuel(node_size, 2);
    reveal_with_fuel(sugar_count, 2);
    reveal_with_fuel(operands_ok, 3);
    reveal_with_fuel(expand, 2);
    match n {
        Node::Var(_) => {},
        Node::Not(inner) => {
            lemma_operands_kept(*inner);
            match *inner {
                Node::Not(x) => lemma_operands_kept(*x),
                Node::And(x, y) | Node::Or(x, y) => {
                    lemma_operands_kept(Node::Not(x));
                    lemma_operands_kept(Node::Not(y));
                },
                Node::Var(_) => {},
                other => lemma_operands_kept(other),
            }
        },
        Node::And(x, y) | Node::Or(x, y) => {
            lemma_operands_kept(*x);
            lemma_operands_kept(*y);
        },
        Node::Imp(x, y) | Node::Iff(x, y) | Node::Xor(x, y) => {
            lemma_operands_kept(*x);
            lemma_operands_kept(*y);
            lemma_operands_kept(expand(n));
        },
    }
}

/// A formula already in negation normal form is left as it is.
proof fn lemma_nnf_unchanged(n: Node)
    requires
        node_is_nnf(n),
    ensures
        expand(n) == n,
        push_negations(n) == n,
    decreases n,
{
    reveal_with_fuel(expand, 2);
    match n {
        Node::And(x, y) | Node::Or(x, y) => {
            lemma_nnf_unchanged(*x);
            lemma_nnf_unchanged(*y);
        },
        _ => {},
    }
}

/// Converting the text that the conversion printed gives that same text back.
pub proof fn lemma_direct_nnf_idempotent(s: Seq<char>)
    requires
        direct_nnf(s) is Ok,
    ensures
        direct_nnf(direct_nnf(s)->Ok_0) == direct_nnf(s),
{
    let n = rpn_parse(s)->Ok_0;
    lemma_rpn_parse_operands(Seq::empty(), s);
    assert(operands_ok(rpn_run(s)->Ok_0[0]));
    lemma_operands_kept(n);
    lemma_operands_kept(expand(n));
    let m = push_negations(expand(n));
    lemma_direct_nnf(n, |c: char| true);
    lemma_rpn_read_printed(Seq::empty(), m);
    assert(Seq::<Node>::empty().push(m) =~= seq![m]);
    lemma_nnf_unchanged(m);
}

/// The text of each error.
pub open spec fn error_text(e: RpnError) -> Seq<char> {
    match e {
        RpnError::NotUnderflow => "underflow for !"@,
        RpnError::RhsUnderflow => "underflow (rhs)"@,
        RpnError::LhsUnderflow => "underflow (lhs)"@,
        RpnError::UnexpectedToken(c) => "unexpected token "@.push(c),
        RpnError::ExtraOperands => "extra operands or empty input"@,
    }
}

/// The message for an error.
fn error_message(e: RpnError) -> (r: String)
    ensures
        r@ == error_text(e),
{
    match e {
        RpnError::NotUnderflow => String::from_str("underflow for !"),
        RpnError::RhsUnderflow => String::from_str("underflow (rhs)"),
        RpnError::LhsUnderflow => String::from_str("underflow (lhs)"),
        RpnError::UnexpectedToken(c) => {
            let mut s = String::from_str("unexpected token ");
            push_char(&mut s, c);
            s
        },
        RpnError::ExtraOperands => String::from_str("extra operands or empty input"),
    }
}

/// The negation normal form of postfix text as postfix text, or the message of the
/// reading error.
pub open spec fn direct_nnf(s: Seq<char>) -> Result<Seq<char>, Seq<char>> {
    match rpn_parse(s) {
        Ok(n) => Ok(rpn_text(push_negations(expand(n)))),
        Err(e) => Err(error_text(e)),
    }
}

/// Rewrites postfix text to negation normal form.
pub fn rpn_to_nnf_rpn(rpn: &str) -> (r: Result<String, String>)
    ensures
        r is Ok <==> direct_nnf(rpn@) is Ok,
        r is Ok ==> r->Ok_0@ == direct_nnf(rpn@)->Ok_0,
        r is Err ==> r->Err_0@ == direct_nnf(rpn@)->Err_0,
{
    let ast = match parse_rpn(rpn) {
        Ok(a) => a,
        Err(e) => {
            return Err(error_message(e));
        },
    };
    let des = desugar(ast);
    let nnf = push_neg(des);
    let mut s = String::new();
    to_rpn(&nnf, &mut s);
    proof {
        assert(s@ =~= rpn_text(nnf));
    }
    Ok(s)
}

/// Rewrites postfix text to negation normal form; empty where it cannot be read.
pub fn negation_normal_form(formula: &str) -> (r: String)
    ensures
        r@ == match direct_nnf(formula@) {
            Ok(t) => t,
            Err(_) => Seq::empty(),
        },
{
    match rpn_to_nnf_rpn(formula) {
        Ok(s) => s,
        Err(_) => String::new(),
    }
}

} // verus!
