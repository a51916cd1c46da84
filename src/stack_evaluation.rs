//! Direct evaluation of postfix formulas over `0`, `1`, `&`, `|` and `!` with a stack
//! of truth values, without building a tree.

use vstd::prelude::*;
use vstd::string::*;

verus! {

/// What character `c` does to the stack of values; `None` for a character outside
/// the alphabet. An operator short of operands consumes what there is and pushes nothing.
pub open spec fn value_step(stack: Seq<bool>, c: char) -> Option<Seq<bool>> {
    if c == '0' {
        Some(stack.push(false))
    } else if c == '1' {
        Some(stack.push(true))
    } else if c == '&' || c == '|' {
        if stack.len() >= 2 {
            let b = stack.last();
            let a = stack[stack.len() - 2];
            Some(stack.take(stack.len() - 2).push(if c == '&' { a && b } else { a || b }))
        } else {
            Some(Seq::empty())
        }
    } else if c == '!' {
        if stack.len() >= 1 {
            Some(stack.drop_last().push(!stack.last()))
        } else {
            Some(stack)
        }
    } else {
        None
    }
}

/// The stack after reading all of `s`.
pub open spec fn value_run(s: Seq<char>) -> Option<Seq<bool>>
    decreases s.len(),
{
    if s.len() == 0 {
        Some(Seq::empty())
    } else {
        match value_run(s.drop_last()) {
            Some(st) => value_step(st, s.last()),
            None => None,
        }
    }
}

/// The value of the formula: the single value left on the stack, `false` for a
/// character outside the alphabet or when not exactly one value is left.
pub open spec fn stack_value(s: Seq<char>) -> bool {
    match value_run(s) {
        Some(st) => st.len() == 1 && st[0],
        None => false,
    }
}

proof fn lemma_value_run_stops(s: Seq<char>, j: int)
    requires
        0 <= j <= s.len(),
        value_run(s.take(j)) is None,
    ensures
        value_run(s) is None,
    decreases s.len() - j,
{
    if j == s.len() {
        assert(s.take(j) == s);
    } else {
        assert(s.take(j + 1).drop_last() == s.take(j));
        lemma_value_run_stops(s, j + 1);
    }
}

/// Evaluates a postfix formula over constants with a stack of truth values.
pub fn eval_formula(formula: &str) -> (r: bool)
    ensures
        r == stack_value(formula@),
{
    let n = formula.unicode_len();
    let mut stack: Vec<bool> = Vec::new();
    let mut i: usize = 0;
    proof {
        assert(formula@.take(0) =~= Seq::<char>::empty());
    }
    while i < n
        invariant
            n == formula@.len(),
            i <= n,
            value_run(formula@.take(i as int)) == Some(stack@),
        decreases n - i,
    {
        let c = formula.get_char(i);
        proof {
            assert(formula@.take(i + 1).drop_last() == formula@.take(i as int));
            assert(formula@.take(i + 1).last() == c);
        }
        let ghost before = stack@;
        if c == '0' {
            stack.push(false);
        } else if c == '1' {
            stack.push(true);
        } else if c == '&' || c == '|' {
            if let (Some(b), Some(a)) = (stack.pop(), stack.pop()) {
                stack.push(if c == '&' { a && b } else { a || b });
            }
            proof {
                if before.len() >= 2 {
                    assert(stack@ =~= value_step(before, c)->Some_0);
                } else {
                    assert(stack@ =~= Seq::<bool>::empty());
                }
            }
        } else if c == '!' {
            if let Some(a) = stack.pop() {
                stack.push(!a);
            }
            proof {
                if before.len() >= 1 {
                    assert(stack@ =~= value_step(before, c)->Some_0);
                }
            }
        } else {
            proof {
                lemma_value_run_stops(formula@, i + 1);
            }
            return false;
        }
        i = i + 1;
    }
    proof {
        assert(formula@.take(n as int) =~= formula@);
    }
    if stack.len() != 1 {
        return false;
    }
    stack.pop().unwrap()
}

} // verus!
