use vstd::prelude::*;
use crate::ast::{ASTNode, eval, wf};
use crate::boolean_evaluation::{build_ast, parse};
use crate::negation_normal_form::{
    contains_constant, has_constant, is_nnf, lemma_nnf_fix, nnf_fix, no_sugar, to_nnf,
};

verus! {

/// A finite set of integers held as a list without repeats.
pub struct MySet(pub Vec<i32>);

/// The elements of `a`, in order, that are in `b`.
pub open spec fn keep_in(a: Seq<i32>, b: Seq<i32>) -> Seq<i32>
    decreases a.len(),
{
    if a.len() == 0 {
        Seq::empty()
    } else if b.contains(a.last()) {
        keep_in(a.drop_last(), b).push(a.last())
    } else {
        keep_in(a.drop_last(), b)
    }
}

/// The elements of `a`, in order, that are not in `b`.
pub open spec fn drop_in(a: Seq<i32>, b: Seq<i32>) -> Seq<i32>
    decreases a.len(),
{
    if a.len() == 0 {
        Seq::empty()
    } else if b.contains(a.last()) {
        drop_in(a.drop_last(), b)
    } else {
        drop_in(a.drop_last(), b).push(a.last())
    }
}

/// Union: the elements of `a`, then those of `b` that `a` lacks.
pub open spec fn union_of(a: Seq<i32>, b: Seq<i32>) -> Seq<i32> {
    a + drop_in(b, a)
}

/// `acc` followed by the elements of `s` that are new, each once, in order.
pub open spec fn add_new(acc: Seq<i32>, s: Seq<i32>) -> Seq<i32>
    decreases s.len(),
{
    if s.len() == 0 {
        acc
    } else {
        let a = add_new(acc, s.drop_last());
        if a.contains(s.last()) {
            a
        } else {
            a.push(s.last())
        }
    }
}

/// Every element of the given sets, once, in order of first appearance.
pub open spec fn universe_of(sets: Seq<Seq<i32>>) -> Seq<i32>
    decreases sets.len(),
{
    if sets.len() == 0 {
        Seq::empty()
    } else {
        add_new(universe_of(sets.drop_last()), sets.last())
    }
}

/// The contents of each set.
pub open spec fn views(sets: Seq<Vec<i32>>) -> Seq<Seq<i32>> {
    sets.map_values(|v: Vec<i32>| v@)
}

/// Whether `x` is in `v`.
fn contains(v: &Vec<i32>, x: i32) -> (r: bool)
    ensures
        r == v@.contains(x),
{
    let mut i: usize = 0;
    while i < v.len()
        invariant
            i <= v@.len(),
            forall|k: int| 0 <= k < i ==> v@[k] != x,
        decreases v@.len() - i,
    {
        if v[i] == x {
            return true;
        }
        i = i + 1;
    }
    false
}

/// A copy of a list.
fn copy_vec(v: &Vec<i32>) -> (r: Vec<i32>)
    ensures
        r@ == v@,
{
    let mut r: Vec<i32> = Vec::new();
    let mut i: usize = 0;
    while i < v.len()
        invariant
            i <= v@.len(),
            r@ == v@.take(i as int),
        decreases v@.len() - i,
    {
        r.push(v[i]);
        proof {
            assert(r@ =~= v@.take(i + 1));
        }
        i = i + 1;
    }
    proof {
        assert(v@.take(v@.len() as int) =~= v@);
    }
    r
}

/// The elements of `a` that are in `b` (`keep`), or that are not (`!keep`), in order.
fn filter_by(a: &Vec<i32>, b: &Vec<i32>, keep: bool) -> (r: Vec<i32>)
    ensures
        r@ == if keep {
            keep_in(a@, b@)
        } else {
            drop_in(a@, b@)
        },
{
    let mut r: Vec<i32> = Vec::new();
    let mut i: usize = 0;
    while i < a.len()
        invariant
            i <= a@.len(),
            r@ == if keep {
                keep_in(a@.take(i as int), b@)
            } else {
                drop_in(a@.take(i as int), b@)
            },
        decreases a@.len() - i,
    {
        proof {
            assert(a@.take(i + 1).drop_last() =~= a@.take(i as int));
        }
        if contains(b, a[i]) == keep {
            r.push(a[i]);
        }
        i = i + 1;
    }
    proof {
        assert(a@.take(a@.len() as int) =~= a@);
    }
    r
}

impl MySet {
    /// Intersection, in the order of `self`.
    pub fn bitand(self, other: Self) -> (r: Self)
        ensures
            r.0@ == keep_in(self.0@, other.0@),
    {
        MySet(filter_by(&self.0, &other.0, true))
    }

    /// Union: `self`, then the elements of `other` that `self` lacks.
    pub fn bitor(self, other: Self) -> (r: Self)
        ensures
            r.0@ == union_of(self.0@, other.0@),
    {
        let mut r = copy_vec(&self.0);
        let mut extra = filter_by(&other.0, &self.0, false);
        r.append(&mut extra);
        MySet(r)
    }

    /// Complement within `universe`, in the order of `universe`.
    pub fn not(self, universe: &MySet) -> (r: Self)
        ensures
            r.0@ == drop_in(universe.0@, self.0@),
    {
        MySet(filter_by(&universe.0, &self.0, false))
    }
}

/// Every element of the given sets, once.
fn build_universe(sets: &Vec<Vec<i32>>) -> (r: MySet)
    ensures
        r.0@ == universe_of(views(sets@)),
{
    let mut all: Vec<i32> = Vec::new();
    let mut s: usize = 0;
    proof {
        assert(views(sets@).take(0) =~= Seq::<Seq<i32>>::empty());
    }
    while s < sets.len()
        invariant
            s <= sets@.len(),
            all@ == universe_of(views(sets@).take(s as int)),
        decreases sets@.len() - s,
    {
        let set = &sets[s];
        let ghost start = all@;
        let mut k: usize = 0;
        proof {
            assert(set@.take(0) =~= Seq::<i32>::empty());
        }
        while k < set.len()
            invariant
                k <= set@.len(),
                all@ == add_new(start, set@.take(k as int)),
            decreases set@.len() - k,
        {
            proof {
                assert(set@.take(k + 1).drop_last() =~= set@.take(k as int));
            }
            let x = set[k];
            if !contains(&all, x) {
                all.push(x);
            }
            k = k + 1;
        }
        proof {
            assert(set@.take(set@.len() as int) =~= set@);
            assert(views(sets@).take(s + 1).drop_last() =~= views(sets@).take(s as int));
            assert(views(sets@)[s as int] == set@);
        }
        s = s + 1;
    }
    proof {
        assert(views(sets@).take(sets@.len() as int) =~= views(sets@));
    }
    MySet(all)
}

/// The set a leaf letter stands for: `A` (code 65) the first, `B` the second, and so on.
pub open spec fn leaf_index(c: char) -> int {
    c as u32 as int - 65
}

/// Every leaf is a letter with a set of its own among `n`.
pub open spec fn leaves_indexed(t: ASTNode<char>, n: int) -> bool
    decreases t,
{
    match t {
        ASTNode::Value(c) => 0 <= leaf_index(c) < n,
        ASTNode::Op { operator, left, right } => {
            &&& leaves_indexed(*right, n)
            &&& match left {
                Some(l) => leaves_indexed(*l, n),
                None => true,
            }
        },
    }
}

/// The tree with each leaf replaced by the contents of its set.
pub open spec fn indexed(t: ASTNode<char>, sets: Seq<Seq<i32>>) -> ASTNode<Seq<i32>>
    decreases t,
{
    match t {
        ASTNode::Value(c) => ASTNode::Value(sets[leaf_index(c)]),
        ASTNode::Op { operator, left, right } => ASTNode::Op {
            operator,
            left: match left {
                Some(l) => Some(Box::new(indexed(*l, sets))),
                None => None,
            },
            right: Box::new(indexed(*right, sets)),
        },
    }
}

/// The contents of the sets at the leaves.
pub open spec fn set_tree_view(t: ASTNode<MySet>) -> ASTNode<Seq<i32>>
    decreases t,
{
    match t {
        ASTNode::Value(v) => ASTNode::Value(v.0@),
        ASTNode::Op { operator, left, right } => ASTNode::Op {
            operator,
            left: match left {
                Some(l) => Some(Box::new(set_tree_view(*l))),
                None => None,
            },
            right: Box::new(set_tree_view(*right)),
        },
    }
}

/// Puts each leaf's set in place of its letter; `None` when a leaf is not a letter
/// with a set.
fn vec_tree(node: ASTNode<char>, sets: &Vec<Vec<i32>>) -> (r: Option<ASTNode<MySet>>)
    ensures
        r is Some <==> leaves_indexed(node, sets@.len() as int),
        r is Some ==> set_tree_view(r->Some_0) == indexed(node, views(sets@)),
    decreases node,
{
    match node {
        ASTNode::Value(c) => {
            let code = c as u32;
            if code < 65 || (code - 65) as usize >= sets.len() {
                return None;
            }
            let idx = (code - 65) as usize;
            proof {
                assert(views(sets@)[idx as int] == sets@[idx as int]@);
            }
            Some(ASTNode::Value(MySet(copy_vec(&sets[idx]))))
        },
        ASTNode::Op { operator, left, right } => {
            let new_left = match left {
                Some(l) => match vec_tree(*l, sets) {
                    Some(x) => Some(Box::new(x)),
                    None => {
                        return None;
                    },
                },
                None => None,
            };
            let new_right = match vec_tree(*right, sets) {
                Some(x) => x,
                None => {
                    return None;
                },
            };
            Some(ASTNode::Op { operator, left: new_left, right: Box::new(new_right) })
        },
    }
}

/// The set a tree of sets denotes: `&` intersects, `|` unites, `!` complements
/// within `u`; any other operator gives the empty set.
pub open spec fn set_eval(t: ASTNode<Seq<i32>>, u: Seq<i32>) -> Seq<i32>
    decreases t,
{
    match t {
        ASTNode::Value(v) => v,
        ASTNode::Op { operator, left, right } => {
            let r = set_eval(*right, u);
            let l = match left {
                Some(x) => set_eval(*x, u),
                None => Seq::empty(),
            };
            if operator == '&' {
                keep_in(l, r)
            } else if operator == '|' {
                union_of(l, r)
            } else if operator == '!' {
                drop_in(u, r)
            } else {
                Seq::empty()
            }
        },
    }
}

/// Evaluates a tree of sets; `universe` is what `!` complements within.
fn eval_node_vecs(node: ASTNode<MySet>, universe: &MySet) -> (r: MySet)
    requires
        wf(node),
    ensures
        r.0@ == set_eval(set_tree_view(node), universe.0@),
    decreases node,
{
    match node {
        ASTNode::Value(v) => v,
        ASTNode::Op { operator, left, right } => {
            if operator == '&' {
                let l = eval_node_vecs(*left.unwrap(), universe);
                let r = eval_node_vecs(*right, universe);
                l.bitand(r)
            } else if operator == '|' {
                let l = eval_node_vecs(*left.unwrap(), universe);
                let r = eval_node_vecs(*right, universe);
                l.bitor(r)
            } else if operator == '!' {
                eval_node_vecs(*right, universe).not(universe)
            } else {
                MySet(Vec::new())
            }
        },
    }
}

/// Why a formula could not be evaluated over sets.
#[derive(Debug, Clone, Copy, PartialEq, Eq, Structural)]
pub enum SetEvalError {
    /// The text holds a constant `0` or `1`.
    ConstantInFormula,
    /// The text is no formula.
    InvalidFormula,
    /// A letter stands past the last of the given sets.
    IndexOutOfBounds,
}

/// A formula over variables evaluated on sets: the `k`-th letter stands for the
/// `k`-th set, and `!` complements within the union of all of them.
pub open spec fn set_result(s: Seq<char>, sets: Seq<Seq<i32>>) -> Result<Seq<i32>, SetEvalError> {
    if has_constant(s) {
        Err(SetEvalError::ConstantInFormula)
    } else if parse(s) is Err {
        Err(SetEvalError::InvalidFormula)
    } else if !leaves_indexed(nnf_fix(parse(s)->Ok_0), sets.len() as int) {
        Err(SetEvalError::IndexOutOfBounds)
    } else {
        Ok(set_eval(indexed(nnf_fix(parse(s)->Ok_0), sets), universe_of(sets)))
    }
}

/// The value of a formula over sets; empty where it cannot be evaluated.
pub open spec fn set_value(s: Seq<char>, sets: Seq<Seq<i32>>) -> Seq<i32> {
    match set_result(s, sets) {
        Ok(v) => v,
        Err(_) => Seq::empty(),
    }
}

/// Evaluates a formula over sets, or says why it cannot.
pub fn try_eval_set(formula: &str, sets: Vec<Vec<i32>>) -> (r: Result<Vec<i32>, SetEvalError>)
    ensures
        r is Ok <==> set_result(formula@, views(sets@)) is Ok,
        r is Ok ==> r->Ok_0@ == set_result(formula@, views(sets@))->Ok_0,
        r is Err ==> r->Err_0 == set_result(formula@, views(sets@))->Err_0,
{
    if contains_constant(formula) {
        return Err(SetEvalError::ConstantInFormula);
    }
    let tree = match build_ast(formula) {
        Some(ast) => ast,
        None => {
            return Err(SetEvalError::InvalidFormula);
        },
    };
    proof {
        lemma_nnf_fix(tree);
    }
    let tree = to_nnf(tree);
    let universe = build_universe(&sets);
    let ghost nnf = tree;
    match vec_tree(tree, &sets) {
        Some(set_tree) => {
            proof {
                lemma_indexed_wf(nnf, views(sets@), set_tree);
            }
            Ok(eval_node_vecs(set_tree, &universe).0)
        },
        None => Err(SetEvalError::IndexOutOfBounds),
    }
}

/// Evaluates a formula over sets; empty where it cannot be evaluated.
pub fn eval_set(formula: &str, sets: Vec<Vec<i32>>) -> (r: Vec<i32>)
    ensures
        r@ == set_value(formula@, views(sets@)),
{
    match try_eval_set(formula, sets) {
        Ok(v) => v,
        Err(_) => Vec::new(),
    }
}

/// Putting sets at the leaves keeps the operators, so a well-formed tree stays well formed.
proof fn lemma_indexed_wf(t: ASTNode<char>, sets: Seq<Seq<i32>>, s: ASTNode<MySet>)
    requires
        wf(t),
        set_tree_view(s) == indexed(t, sets),
    ensures
        wf(s),
    decreases t,
{
    match (t, s) {
        (ASTNode::Op { operator, left, right }, ASTNode::Op { operator: o2, left: l2, right: r2 }) => {
            lemma_indexed_wf(*right, sets, *r2);
            match (left, l2) {
                (Some(a), Some(b)) => lemma_indexed_wf(*a, sets, *b),
                _ => {},
            }
        },
        _ => {},
    }
}

proof fn lemma_keep_in(a: Seq<i32>, b: Seq<i32>, x: i32)
    ensures
        keep_in(a, b).contains(x) <==> a.contains(x) && b.contains(x),
    decreases a.len(),
{
    if a.len() > 0 {
        lemma_keep_in(a.drop_last(), b, x);
        lemma_contains_drop_last(a, x);
        let k = keep_in(a.drop_last(), b);
        lemma_contains_push(k, a.last(), x);
    }
}

proof fn lemma_drop_in(a: Seq<i32>, b: Seq<i32>, x: i32)
    ensures
        drop_in(a, b).contains(x) <==> a.contains(x) && !b.contains(x),
    decreases a.len(),
{
    if a.len() > 0 {
        lemma_drop_in(a.drop_last(), b, x);
        lemma_contains_drop_last(a, x);
        let k = drop_in(a.drop_last(), b);
        lemma_contains_push(k, a.last(), x);
    }
}

proof fn lemma_add_new(acc: Seq<i32>, s: Seq<i32>, x: i32)
    ensures
        add_new(acc, s).contains(x) <==> acc.contains(x) || s.contains(x),
    decreases s.len(),
{
    if s.len() > 0 {
        lemma_add_new(acc, s.drop_last(), x);
        lemma_contains_drop_last(s, x);
        let k = add_new(acc, s.drop_last());
        lemma_contains_push(k, s.last(), x);
    }
}

proof fn lemma_contains_push(s: Seq<i32>, y: i32, x: i32)
    ensures
        s.push(y).contains(x) <==> s.contains(x) || x == y,
{
    if s.contains(x) {
        let j = choose|j: int| 0 <= j < s.len() && s[j] == x;
        assert(s.push(y)[j] == x);
    }
    if x == y {
        assert(s.push(y)[s.len() as int] == x);
    }
    if s.push(y).contains(x) {
        let j = choose|j: int| 0 <= j < s.len() + 1 && s.push(y)[j] == x;
        if j < s.len() {
            assert(s[j] == x);
        }
    }
}

proof fn lemma_contains_drop_last(s: Seq<i32>, x: i32)
    requires
        s.len() > 0,
    ensures
        s.contains(x) <==> s.drop_last().contains(x) || x == s.last(),
{
    assert(s.drop_last().push(s.last()) =~= s);
    lemma_contains_push(s.drop_last(), s.last(), x);
}

/// An element is in the universe exactly when it is in one of the sets.
proof fn lemma_universe_of(sets: Seq<Seq<i32>>, x: i32)
    ensures
        universe_of(sets).contains(x) <==> exists|k: int| 0 <= k < sets.len() && (#[trigger] sets[k]).contains(x),
    decreases sets.len(),
{
    if sets.len() > 0 {
        let e = sets.drop_last();
        lemma_universe_of(e, x);
        lemma_add_new(universe_of(e), sets.last(), x);
        if exists|k: int| 0 <= k < sets.len() && (#[trigger] sets[k]).contains(x) {
            let k = choose|k: int| 0 <= k < sets.len() && (#[trigger] sets[k]).contains(x);
            if k < sets.len() - 1 {
                assert(e[k] == sets[k]);
            }
        }
        if exists|k: int| 0 <= k < e.len() && (#[trigger] e[k]).contains(x) {
            let k = choose|k: int| 0 <= k < e.len() && (#[trigger] e[k]).contains(x);
            assert(sets[k] == e[k]);
        }
    }
}

/// Whether each letter's set holds `x`.
pub open spec fn holds_in_sets(sets: Seq<Seq<i32>>, x: i32) -> spec_fn(char) -> bool {
    |c: char| sets[leaf_index(c)].contains(x)
}

proof fn lemma_set_eval_membership(t: ASTNode<char>, sets: Seq<Seq<i32>>, x: i32)
    requires
        wf(t),
        no_sugar(t),
        leaves_indexed(t, sets.len() as int),
    ensures
        set_eval(indexed(t, sets), universe_of(sets)).contains(x) <==> universe_of(sets).contains(x)
            && eval(t, holds_in_sets(sets, x)),
    decreases t,
{
    let u = universe_of(sets);
    match t {
        ASTNode::Value(c) => {
            let k = leaf_index(c);
            assert(c != '0' && c != '1');
            lemma_universe_of(sets, x);
            if sets[k].contains(x) {
                assert(exists|j: int| 0 <= j < sets.len() && (#[trigger] sets[j]).contains(x));
            }
        },
        ASTNode::Op { operator, left, right } => {
            lemma_set_eval_membership(*right, sets, x);
            let r = set_eval(indexed(*right, sets), u);
            match left {
                Some(lb) => {
                    lemma_set_eval_membership(*lb, sets, x);
                    let l = set_eval(indexed(*lb, sets), u);
                    lemma_keep_in(l, r, x);
                    lemma_drop_in(r, l, x);
                    if l.contains(x) {
                        let j = choose|j: int| 0 <= j < l.len() && l[j] == x;
                        assert((l + drop_in(r, l))[j] == x);
                    }
                    if drop_in(r, l).contains(x) {
                        let j = choose|j: int| 0 <= j < drop_in(r, l).len() && drop_in(r, l)[j] == x;
                        assert((l + drop_in(r, l))[l.len() + j] == x);
                    }
                    if (l + drop_in(r, l)).contains(x) {
                        let j = choose|j: int| 0 <= j < (l + drop_in(r, l)).len() && (l + drop_in(r, l))[j] == x;
                        if j < l.len() {
                            assert(l[j] == x);
                        } else {
                            assert(drop_in(r, l)[j - l.len()] == x);
                        }
                    }
                },
                None => {
                    lemma_drop_in(u, r, x);
                },
            }
        },
    }
}

proof fn lemma_nnf_has_no_sugar(t: ASTNode<char>)
    requires
        is_nnf(t),
    ensures
        no_sugar(t),
    decreases t,
{
    match t {
        ASTNode::Value(_) => {},
        ASTNode::Op { operator, left, right } => {
            lemma_nnf_has_no_sugar(*right);
            if let Some(l) = left {
                lemma_nnf_has_no_sugar(*l);
            }
        },
    }
}

/// Where a formula can be evaluated over sets, `x` is in its value exactly when `x` is
/// in the universe and the formula is true when each letter means "`x` is in its set".
pub proof fn lemma_set_value_membership(s: Seq<char>, sets: Seq<Seq<i32>>, x: i32)
    requires
        set_result(s, sets) is Ok,
    ensures
        set_value(s, sets).contains(x) <==> universe_of(sets).contains(x) && eval(
            parse(s)->Ok_0,
            holds_in_sets(sets, x),
        ),
{
    let t = parse(s)->Ok_0;
    crate::boolean_evaluation::lemma_parse_wf(seq![], s);
    assert(wf(crate::boolean_evaluation::parse_from(seq![], s)->Ok_0[0]));
    lemma_nnf_fix(t);
    lemma_nnf_has_no_sugar(nnf_fix(t));
    lemma_set_eval_membership(nnf_fix(t), sets, x);
}

} // verus!
