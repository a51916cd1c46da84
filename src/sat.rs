use vstd::prelude::*;
use vstd::arithmetic::power2::{lemma2_to64, lemma_pow2_strictly_increases, pow2};
use vstd::bits::lemma_u32_shl_is_mul;
use crate::boolean_evaluation::build_ast;
use crate::negation_normal_form::has_constant;
use crate::truth_table::{
    create_dict, is_satisfiable, keys_of, row_of, satisfied_by, substituted, update_dict,
    variables_of, substitute_vars, insert_key, sorted_keys,
};
use crate::ast::{ASTNode, binary, eval, is_constant, is_operand, is_operator, is_variable, negation, value_of, wf};
use crate::powerset::has_bit;
use crate::truth_table::glyph;
use crate::boolean_evaluation::{eval_node, lemma_parse_wf, parse, parse_from, parse_step, ParseError};

verus! {

/// Brute-force satisfiability: tries the assignments in increasing number and stops
/// at the first one under which the formula is true.
pub fn sat(formula: &str) -> (r: bool)
    ensures
        r == is_satisfiable(formula@),
        r <==> {
            &&& parse(formula@) is Ok
            &&& !has_constant(formula@)
            &&& variables_of(formula@).len() > 0
            &&& exists|i: nat|
                i < pow2(variables_of(formula@).len()) && #[trigger] eval(
                    parse(formula@)->Ok_0,
                    assignment(variables_of(formula@), i),
                )
        },
{
    proof {
        lemma_sat_semantics(formula@);
    }
    if build_ast(formula).is_none() {
        return false;
    }
    let mut dict = create_dict(formula);
    if dict.len() == 0 {
        return false;
    }
    let n = dict.len();
    let ghost keys = keys_of(dict@);
    proof {
        lemma2_to64();
        lemma_pow2_strictly_increases(n as nat, 32);
        lemma_u32_shl_is_mul(1, n as u32);
        if n < 26 {
            lemma_pow2_strictly_increases(n as nat, 26);
        }
    }
    let count: u32 = 1u32 << (n as u32);
    let mut i: u32 = 0;
    while i < count
        invariant
            keys == variables_of(formula@),
            keys_of(dict@) == keys,
            n == keys.len(),
            n > 0,
            parse(formula@) is Ok,
            !has_constant(formula@),
            count == pow2(n as nat),
            count <= 0x400_0000,
            i <= count,
            forall|k: nat| k < i ==> !satisfied_by(formula@, k),
        decreases count - i,
    {
        update_dict(&mut dict, i as i32);
        proof {
            assert(keys_of(dict@) =~= keys);
        }
        let new_formula = substitute_vars(formula, &dict);
        let found = match build_ast(new_formula.as_str()) {
            Some(tree) => match eval_node(&tree) {
                Some(v) => v,
                None => false,
            },
            None => false,
        };
        if found {
            proof {
                assert(satisfied_by(formula@, i as nat));
                lemma_sat_semantics(formula@);
            }
            return true;
        }
        i = i + 1;
    }
    false
}

/// Variable `c` under assignment number `i` of `vars`: the bit of `i` at the place of
/// `c`, the last variable being the lowest bit.
pub open spec fn assignment(vars: Seq<char>, i: nat) -> spec_fn(char) -> bool {
    |c: char|
        exists|k: int|
            0 <= k < vars.len() && vars[k] == c && has_bit(i, (vars.len() - 1 - k) as nat)
}

/// What the substitution of an assignment's variables, in order, makes of one character.
pub open spec fn subst_char(d: Seq<(char, bool)>, c: char) -> char
    decreases d.len(),
{
    if d.len() == 0 {
        c
    } else {
        let c2 = subst_char(d.drop_last(), c);
        if c2 == d.last().0 {
            glyph(d.last().1)
        } else {
            c2
        }
    }
}

proof fn lemma_substituted_pointwise(s: Seq<char>, d: Seq<(char, bool)>)
    ensures
        substituted(s, d) == s.map_values(|c: char| subst_char(d, c)),
    decreases d.len(),
{
    if d.len() == 0 {
        assert(s.map_values(|c: char| subst_char(d, c)) =~= s);
    } else {
        lemma_substituted_pointwise(s, d.drop_last());
        assert(substituted(s, d) =~= s.map_values(|c: char| subst_char(d, c)));
    }
}

proof fn lemma_subst_char_row(d: Seq<(char, bool)>, c: char)
    requires
        forall|k: int| 0 <= k < d.len() ==> is_variable((#[trigger] d[k]).0),
        forall|a: int, b: int| 0 <= a < b < d.len() ==> d[a].0 != d[b].0,
    ensures
        forall|k: int| 0 <= k < d.len() && d[k].0 == c ==> subst_char(d, c) == glyph(d[k].1),
        (forall|k: int| 0 <= k < d.len() ==> d[k].0 != c) ==> subst_char(d, c) == c,
    decreases d.len(),
{
    if d.len() > 0 {
        let e = d.drop_last();
        lemma_subst_char_row(e, c);
        assert forall|k: int| 0 <= k < d.len() && d[k].0 == c implies subst_char(d, c) == glyph(d[k].1) by {
            if k < d.len() - 1 {
                assert(e[k] == d[k]);
                assert(!is_variable(glyph(d[k].1)));
            } else {
                assert forall|j: int| 0 <= j < e.len() implies e[j].0 != c by {
                    assert(e[j] == d[j]);
                }
            }
        }
        if forall|k: int| 0 <= k < d.len() ==> d[k].0 != c {
            assert forall|j: int| 0 <= j < e.len() implies e[j].0 != c by {
                assert(e[j] == d[j]);
            }
        }
    }
}

/// The tree with each leaf `c` replaced by `f(c)`.
pub open spec fn map_leaves(t: ASTNode<char>, f: spec_fn(char) -> char) -> ASTNode<char>
    decreases t,
{
    match t {
        ASTNode::Value(c) => ASTNode::Value(f(c)),
        ASTNode::Op { operator, left, right } => ASTNode::Op {
            operator,
            left: match left {
                Some(l) => Some(Box::new(map_leaves(*l, f))),
                None => None,
            },
            right: Box::new(map_leaves(*right, f)),
        },
    }
}

pub open spec fn map_stack(st: Seq<ASTNode<char>>, f: spec_fn(char) -> char) -> Seq<ASTNode<char>> {
    st.map_values(|t: ASTNode<char>| map_leaves(t, f))
}

/// `f` sends operands to operands and leaves every other character alone.
pub open spec fn keeps_token_kinds(f: spec_fn(char) -> char) -> bool {
    forall|c: char|
        #![trigger f(c)]
        (is_operand(c) ==> is_operand(f(c))) && (!is_operand(c) ==> f(c) == c)
}

/// Reading text whose operands were renamed gives the trees read from the text before renaming,
/// renamed the same way.
proof fn lemma_parse_renamed(stack: Seq<ASTNode<char>>, s: Seq<char>, f: spec_fn(char) -> char)
    requires
        keeps_token_kinds(f),
    ensures
        parse_from(map_stack(stack, f), s.map_values(f)) == match parse_from(stack, s) {
            Ok(st) => Ok(map_stack(st, f)),
            Err(e) => Err::<Seq<ASTNode<char>>, ParseError>(e),
        },
    decreases s.len(),
{
    if s.len() > 0 {
        let fs = s.map_values(f);
        assert(fs.drop_last() =~= s.drop_last().map_values(f));
        lemma_parse_renamed(stack, s.drop_last(), f);
        let c = s.last();
        assert(fs.last() == f(c));
        if let Ok(st) = parse_from(stack, s.drop_last()) {
            let ms = map_stack(st, f);
            if is_operand(c) {
                assert(map_stack(st.push(ASTNode::Value(c)), f) =~= ms.push(ASTNode::Value(f(c))));
            } else if is_operator(c) {
                assert(f(c) == c);
                if c == '!' {
                    if st.len() >= 1 {
                        assert(map_leaves(negation(st.last()), f) == negation(map_leaves(st.last(), f)));
                        assert(map_stack(st.drop_last().push(negation(st.last())), f) =~= ms.drop_last().push(
                            negation(ms.last()),
                        ));
                    }
                } else if st.len() >= 2 {
                    let l = st[st.len() - 2];
                    let r = st.last();
                    assert(map_leaves(binary(c, l, r), f) == binary(c, map_leaves(l, f), map_leaves(r, f)));
                    assert(map_stack(st.take(st.len() - 2).push(binary(c, l, r)), f) =~= ms.take(
                        ms.len() - 2,
                    ).push(binary(c, ms[ms.len() - 2], ms.last())));
                }
            } else {
                assert(f(c) == c);
            }
        }
    }
}

/// Every leaf satisfies `p`.
pub open spec fn leaves_satisfy(t: ASTNode<char>, p: spec_fn(char) -> bool) -> bool
    decreases t,
{
    match t {
        ASTNode::Value(c) => p(c),
        ASTNode::Op { operator, left, right } => {
            &&& leaves_satisfy(*right, p)
            &&& match left {
                Some(l) => leaves_satisfy(*l, p),
                None => true,
            }
        },
    }
}

/// The leaves of the trees read from a text satisfy what every operand of the text does.
pub(crate) proof fn lemma_parse_leaves(stack: Seq<ASTNode<char>>, s: Seq<char>, p: spec_fn(char) -> bool)
    requires
        forall|k: int| 0 <= k < stack.len() ==> leaves_satisfy(#[trigger] stack[k], p),
        forall|k: int| 0 <= k < s.len() && is_operand(#[trigger] s[k]) ==> p(s[k]),
    ensures
        parse_from(stack, s) is Ok ==> forall|k: int|
            0 <= k < parse_from(stack, s)->Ok_0.len() ==> leaves_satisfy(
                #[trigger] parse_from(stack, s)->Ok_0[k],
                p,
            ),
    decreases s.len(),
{
    if s.len() > 0 {
        let e = s.drop_last();
        assert forall|k: int| 0 <= k < e.len() && is_operand(#[trigger] e[k]) implies p(e[k]) by {
            assert(e[k] == s[k]);
        }
        lemma_parse_leaves(stack, e, p);
        if let Ok(st) = parse_from(stack, e) {
            let c = s.last();
            if let Ok(st2) = parse_step(st, c) {
                assert forall|k: int| 0 <= k < st2.len() implies leaves_satisfy(#[trigger] st2[k], p) by {
                    if k < st2.len() - 1 {
                        if !is_operand(c) && c == '!' {
                            assert(st2[k] == st[k]);
                        } else if !is_operand(c) {
                            assert(st2[k] == st[k]);
                        }
                    } else if is_operand(c) {
                        assert(p(s[s.len() - 1]));
                    } else if c != '!' {
                        assert(leaves_satisfy(st[st.len() - 2], p));
                    }
                }
            }
        }
    }
}

/// A tree whose leaves become constants under `f` has, after renaming, the value it has
/// under `a`.
proof fn lemma_value_of_renamed(t: ASTNode<char>, f: spec_fn(char) -> char, a: spec_fn(char) -> bool)
    requires
        wf(t),
        leaves_satisfy(
            t,
            |c: char| (is_constant(c) && f(c) == c) || (!is_constant(c) && f(c) == glyph(a(c))),
        ),
    ensures
        value_of(map_leaves(t, f)) == Some(eval(t, a)),
    decreases t,
{
    match t {
        ASTNode::Value(c) => {},
        ASTNode::Op { operator, left, right } => {
            lemma_value_of_renamed(*right, f, a);
            if let Some(l) = left {
                lemma_value_of_renamed(*l, f, a);
            }
        },
    }
}

pub(crate) proof fn lemma_insert_key(keys: Seq<char>, c: char)
    requires
        sorted_keys(keys),
    ensures
        sorted_keys(insert_key(keys, c)),
        forall|x: char| #[trigger] insert_key(keys, c).contains(x) <==> (keys.contains(x) || x == c),
    decreases keys.len(),
{
    let r = insert_key(keys, c);
    if keys.len() == 0 {
        assert(r == seq![c]);
        assert(r[0] == c);
    } else if keys[0] == c {
    } else if c < keys[0] {
        assert(r == seq![c] + keys);
        assert forall|x: char| #[trigger] r.contains(x) <==> (keys.contains(x) || x == c) by {
            if keys.contains(x) {
                let j = choose|j: int| 0 <= j < keys.len() && keys[j] == x;
                assert(r[j + 1] == x);
            }
            if x == c {
                assert(r[0] == c);
            }
        }
    } else {
        let rest = keys.drop_first();
        assert forall|a: int, b: int| 0 <= a < b < rest.len() implies rest[a] < rest[b] by {
            assert(rest[a] == keys[a + 1] && rest[b] == keys[b + 1]);
        }
        lemma_insert_key(rest, c);
        let ir = insert_key(rest, c);
        assert(r == seq![keys[0]] + ir);
        assert forall|j: int| 0 <= j < ir.len() implies keys[0] < #[trigger] ir[j] by {
            assert(ir.contains(ir[j]));
            if rest.contains(ir[j]) {
                let m = choose|m: int| 0 <= m < rest.len() && rest[m] == ir[j];
                assert(rest[m] == keys[m + 1]);
            }
        }
        assert forall|a: int, b: int| 0 <= a < b < r.len() implies r[a] < r[b] by {
            if a == 0 {
                assert(r[b] == ir[b - 1]);
            } else {
                assert(r[a] == ir[a - 1] && r[b] == ir[b - 1]);
            }
        }
        assert forall|x: char| #[trigger] r.contains(x) <==> (keys.contains(x) || x == c) by {
            if r.contains(x) {
                let j = choose|j: int| 0 <= j < r.len() && r[j] == x;
                if j > 0 {
                    assert(ir[j - 1] == x);
                    assert(ir.contains(x));
                    if rest.contains(x) {
                        let m = choose|m: int| 0 <= m < rest.len() && rest[m] == x;
                        assert(keys[m + 1] == x);
                    }
                } else {
                    assert(keys[0] == x);
                }
            }
            if keys.contains(x) {
                let j = choose|j: int| 0 <= j < keys.len() && keys[j] == x;
                if j == 0 {
                    assert(r[0] == x);
                } else {
                    assert(rest[j - 1] == x);
                    assert(rest.contains(x));
                    assert(ir.contains(x));
                    let m = choose|m: int| 0 <= m < ir.len() && ir[m] == x;
                    assert(r[m + 1] == x);
                }
            }
            if x == c {
                assert(ir.contains(x));
                let m = choose|m: int| 0 <= m < ir.len() && ir[m] == x;
                assert(r[m + 1] == x);
            }
        }
    }
}

/// The variables of a text are sorted and distinct, and are exactly its letters.
pub proof fn lemma_variables_of(s: Seq<char>)
    ensures
        sorted_keys(variables_of(s)),
        forall|x: char| #[trigger] variables_of(s).contains(x) <==> (is_variable(x) && s.contains(x)),
    decreases s.len(),
{
    if s.len() > 0 {
        let e = s.drop_last();
        lemma_variables_of(e);
        if is_variable(s.last()) {
            lemma_insert_key(variables_of(e), s.last());
        }
        assert forall|x: char| #[trigger] variables_of(s).contains(x) <==> (is_variable(x) && s.contains(x)) by {
            if s.contains(x) {
                let j = choose|j: int| 0 <= j < s.len() && s[j] == x;
                if j < s.len() - 1 {
                    assert(e[j] == x);
                }
            }
            if e.contains(x) {
                let j = choose|j: int| 0 <= j < e.len() && e[j] == x;
                assert(s[j] == x);
            }
            if is_variable(x) && x == s.last() {
                assert(s[s.len() - 1] == x);
            }
        }
    }
}

/// Substituting assignment number `i` into a formula, reading it back and evaluating it
/// gives the formula's truth value under that assignment.
pub proof fn lemma_satisfied_by_eval(s: Seq<char>, i: nat)
    requires
        parse(s) is Ok,
    ensures
        satisfied_by(s, i) == eval(parse(s)->Ok_0, assignment(variables_of(s), i)),
{
    let vars = variables_of(s);
    let d = row_of(vars, i);
    let a = assignment(vars, i);
    let f = |c: char| subst_char(d, c);
    let t = parse(s)->Ok_0;
    lemma_variables_of(s);
    assert forall|x: int| 0 <= x < vars.len() implies is_variable(#[trigger] vars[x]) by {
        assert(vars.contains(vars[x]));
    }
    assert forall|k: int| 0 <= k < d.len() implies is_variable((#[trigger] d[k]).0) by {
        assert(d[k].0 == vars[k]);
    }
    assert forall|x: int, y: int| 0 <= x < y < d.len() implies d[x].0 != d[y].0 by {
        assert(d[x].0 == vars[x] && d[y].0 == vars[y]);
    }
    assert forall|c: char| #[trigger] f(c) == if vars.contains(c) { glyph(a(c)) } else { c } by {
        lemma_subst_char_row(d, c);
        if vars.contains(c) {
            let k = choose|k: int| 0 <= k < vars.len() && vars[k] == c;
            assert(d[k].0 == c);
            assert(d[k].1 == has_bit(i, (vars.len() - 1 - k) as nat));
            if a(c) {
                let m = choose|m: int|
                    0 <= m < vars.len() && vars[m] == c && has_bit(i, (vars.len() - 1 - m) as nat);
                assert(m == k);
            }
        } else {
            assert forall|k: int| 0 <= k < d.len() implies d[k].0 != c by {
                assert(d[k].0 == vars[k]);
            }
        }
    }
    assert(keeps_token_kinds(f));
    lemma_substituted_pointwise(s, d);
    lemma_parse_renamed(seq![], s, f);
    assert(map_stack(seq![], f) =~= seq![]);
    let p = |c: char| (is_constant(c) && f(c) == c) || (!is_constant(c) && f(c) == glyph(a(c)));
    assert forall|k: int| 0 <= k < s.len() && is_operand(#[trigger] s[k]) implies p(s[k]) by {
        let c = s[k];
        assert(s.contains(c));
        if is_variable(c) {
            assert(vars.contains(c));
        } else {
            assert(!vars.contains(c));
        }
    }
    lemma_parse_leaves(seq![], s, p);
    lemma_parse_wf(seq![], s);
    let st = parse_from(seq![], s)->Ok_0;
    assert(leaves_satisfy(st[0], p) && wf(st[0]));
    lemma_value_of_renamed(t, f, a);
}

/// A formula is satisfiable, in the sense that `sat` decides, exactly when it reads,
/// has variables and no constant, and is true under one of the 2^k assignments of its
/// k distinct variables.
pub proof fn lemma_sat_semantics(s: Seq<char>)
    ensures
        is_satisfiable(s) <==> {
            &&& parse(s) is Ok
            &&& !has_constant(s)
            &&& variables_of(s).len() > 0
            &&& exists|i: nat|
                i < pow2(variables_of(s).len()) && #[trigger] eval(
                    parse(s)->Ok_0,
                    assignment(variables_of(s), i),
                )
        },
{
    if parse(s) is Ok {
        if is_satisfiable(s) {
            let i = choose|i: nat| i < pow2(variables_of(s).len()) && satisfied_by(s, i);
            lemma_satisfied_by_eval(s, i);
        }
        if exists|i: nat|
            i < pow2(variables_of(s).len()) && #[trigger] eval(
                parse(s)->Ok_0,
                assignment(variables_of(s), i),
            ) {
            let i = choose|i: nat|
                i < pow2(variables_of(s).len()) && #[trigger] eval(
                    parse(s)->Ok_0,
                    assignment(variables_of(s), i),
                );
            lemma_satisfied_by_eval(s, i);
        }
    }
}

} // verus!
