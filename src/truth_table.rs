use vstd::prelude::*;
use vstd::string::*;
use vstd::arithmetic::div_mod::lemma_div_denominator;
use vstd::arithmetic::power2::{lemma_pow2_adds, lemma_pow2_pos, lemma2_to64, pow2};
use crate::ast::{eval, is_constant, is_variable, value_of};
use crate::negation_normal_form::has_constant;
use crate::sat::{assignment, lemma_satisfied_by_eval};
use crate::boolean_evaluation::{build_ast, eval_node, parse};
use vstd::bits::lemma_u32_shl_is_mul;
use vstd::arithmetic::power2::lemma_pow2_strictly_increases;
use crate::powerset::has_bit;
use crate::text::push_char;

verus! {

/// `keys` with `c` put in its sorted place, unless it is there already.
pub open spec fn insert_key(keys: Seq<char>, c: char) -> Seq<char>
    decreases keys.len(),
{
    if keys.len() == 0 {
        seq![c]
    } else if keys[0] == c {
        keys
    } else if c < keys[0] {
        seq![c] + keys
    } else {
        seq![keys[0]] + insert_key(keys.drop_first(), c)
    }
}

/// The distinct variables of a formula's text, in alphabetical order.
pub open spec fn variables_of(s: Seq<char>) -> Seq<char>
    decreases s.len(),
{
    if s.len() == 0 {
        Seq::empty()
    } else if is_variable(s.last()) {
        insert_key(variables_of(s.drop_last()), s.last())
    } else {
        variables_of(s.drop_last())
    }
}

/// The variables of an assignment, in order.
pub open spec fn keys_of(d: Seq<(char, bool)>) -> Seq<char> {
    d.map_values(|p: (char, bool)| p.0)
}

/// Strictly increasing.
pub open spec fn sorted_keys(k: Seq<char>) -> bool {
    forall|a: int, b: int| 0 <= a < b < k.len() ==> k[a] < k[b]
}

/// Where `c` goes in sorted `keys`: before `j` all keys are smaller, from `j` on none is.
pub(crate) proof fn lemma_insert_key_at(keys: Seq<char>, c: char, j: int)
    requires
        sorted_keys(keys),
        0 <= j <= keys.len(),
        forall|a: int| 0 <= a < j ==> keys[a] < c,
        j < keys.len() ==> keys[j] >= c,
    ensures
        insert_key(keys, c) == if j < keys.len() && keys[j] == c {
            keys
        } else {
            keys.insert(j, c)
        },
    decreases j,
{
    if j == 0 {
        if keys.len() > 0 && c < keys[0] {
            assert(seq![c] + keys =~= keys.insert(0, c));
        } else if keys.len() == 0 {
            assert(seq![c] =~= keys.insert(0, c));
        }
    } else {
        let rest = keys.drop_first();
        lemma_insert_key_at(rest, c, j - 1);
        if j < keys.len() && keys[j] == c {
            assert(seq![keys[0]] + rest =~= keys);
        } else {
            assert(seq![keys[0]] + rest.insert(j - 1, c) =~= keys.insert(j, c));
        }
    }
}

/// Sorted distinct variables are at most 26, the `k`-th no smaller than the `k`-th letter.
proof fn lemma_sorted_letters_bound(k: Seq<char>, m: int)
    requires
        sorted_keys(k),
        forall|a: int| 0 <= a < k.len() ==> is_variable(#[trigger] k[a]),
        0 <= m < k.len(),
    ensures
        k[m] as int >= 'A' as int + m,
        k.len() <= 26,
    decreases m,
{
    if m > 0 {
        lemma_sorted_letters_bound(k, m - 1);
    }
    let last = k.len() - 1;
    if m < last {
        lemma_sorted_letters_bound_up(k, last);
    }
}

proof fn lemma_sorted_letters_bound_up(k: Seq<char>, m: int)
    requires
        sorted_keys(k),
        forall|a: int| 0 <= a < k.len() ==> is_variable(#[trigger] k[a]),
        0 <= m < k.len(),
    ensures
        k[m] as int >= 'A' as int + m,
    decreases m,
{
    if m > 0 {
        lemma_sorted_letters_bound_up(k, m - 1);
    }
}

/// Collects the distinct variables of a formula, in order, each set to `false`;
/// empty when the text holds a constant.
pub fn create_dict(formula: &str) -> (r: Vec<(char, bool)>)
    ensures
        has_constant(formula@) ==> r@.len() == 0,
        !has_constant(formula@) ==> keys_of(r@) == variables_of(formula@),
        forall|k: int| 0 <= k < r@.len() ==> !(#[trigger] r@[k]).1,
        sorted_keys(keys_of(r@)),
        forall|k: int| 0 <= k < r@.len() ==> is_variable((#[trigger] r@[k]).0),
        r@.len() <= 26,
{
    let n = formula.unicode_len();
    let mut dict: Vec<(char, bool)> = Vec::new();
    let mut i: usize = 0;
    proof {
        assert(formula@.take(0) =~= Seq::<char>::empty());
        assert(keys_of(dict@) =~= Seq::<char>::empty());
    }
    while i < n
        invariant
            n == formula@.len(),
            i <= n,
            keys_of(dict@) == variables_of(formula@.take(i as int)),
            forall|k: int| 0 <= k < dict@.len() ==> !(#[trigger] dict@[k]).1,
            forall|k: int| 0 <= k < dict@.len() ==> is_variable((#[trigger] dict@[k]).0),
            sorted_keys(keys_of(dict@)),
            forall|k: int| 0 <= k < i ==> !is_constant(#[trigger] formula@[k]),
        decreases n - i,
    {
        let c = formula.get_char(i);
        proof {
            assert(formula@.take(i + 1).drop_last() =~= formula@.take(i as int));
            assert(formula@.take(i + 1).last() == c);
        }
        if c >= 'A' && c <= 'Z' {
            let len = dict.len();
            let mut j: usize = 0;
            while j < len && dict[j].0 < c
                invariant
                    len == dict@.len(),
                    j <= len,
                    forall|a: int| 0 <= a < j ==> (#[trigger] dict@[a]).0 < c,
                decreases len - j,
            {
                j = j + 1;
            }
            proof {
                lemma_insert_key_at(keys_of(dict@), c, j as int);
            }
            if j < len && dict[j].0 == c {
            } else {
                let ghost before = dict@;
                dict.insert(j, (c, false));
                proof {
                    assert(keys_of(dict@) =~= keys_of(before).insert(j as int, c));
                    assert forall|a: int, b: int| 0 <= a < b < keys_of(dict@).len() implies
                        keys_of(dict@)[a] < keys_of(dict@)[b] by {
                        if a < j && b > j {
                            assert(keys_of(dict@)[b] == before[b - 1].0);
                        }
                    }
                }
            }
        }
        if c == '0' || c == '1' {
            proof {
                assert(is_constant(formula@[i as int]));
            }
            return Vec::new();
        }
        i = i + 1;
    }
    proof {
        assert(formula@.take(n as int) =~= formula@);
        if dict@.len() > 0 {
            lemma_sorted_letters_bound(keys_of(dict@), 0);
        }
    }
    dict
}

/// The assignment numbered `i`: the last variable is its lowest bit.
pub open spec fn row_of(keys: Seq<char>, i: nat) -> Seq<(char, bool)> {
    Seq::new(keys.len(), |k: int| (keys[k], has_bit(i, (keys.len() - 1 - k) as nat)))
}

/// Sets the values to the bits of `i`, the last entry taking the lowest bit.
pub fn update_dict(dict: &mut Vec<(char, bool)>, i: i32)
    requires
        i >= 0,
    ensures
        final(dict)@ == row_of(keys_of(old(dict)@), i as nat),
{
    let n = dict.len();
    let mut j: u32 = i as u32;
    let mut m: usize = 0;
    let ghost keys = keys_of(dict@);
    proof {
        lemma2_to64();
    }
    while m < n
        invariant
            n == dict@.len(),
            keys == keys_of(old(dict)@),
            keys_of(dict@) == keys,
            m <= n,
            i >= 0,
            j as nat == (i as nat) / pow2(m as nat),
            forall|k: int| n - m <= k < n ==> (#[trigger] dict@[k]).1 == has_bit(i as nat, (n - 1 - k) as nat),
        decreases n - m,
    {
        let k = n - 1 - m;
        let key = dict[k].0;
        let ghost before = dict@;
        proof {
            assert((j & 1u32) == j % 2) by (bit_vector);
            assert((j >> 1u32) == j / 2) by (bit_vector);
            lemma_pow2_pos(m as nat);
            lemma_div_denominator(i as int, pow2(m as nat) as int, 2);
            lemma_pow2_adds(m as nat, 1);
            lemma2_to64();
            assert(pow2(m as nat) * 2 == pow2((m + 1) as nat));
        }
        dict.set(k, (key, (j & 1) == 1));
        proof {
            assert(keys_of(dict@) =~= keys);
        }
        j = j >> 1;
        m = m + 1;
    }
    proof {
        assert(dict@ =~= row_of(keys, i as nat));
    }
}

/// The glyph of a truth value.
pub open spec fn glyph(b: bool) -> char {
    if b {
        '1'
    } else {
        '0'
    }
}

/// Every `k` in `s` replaced by `v`.
pub open spec fn replace_char(s: Seq<char>, k: char, v: char) -> Seq<char> {
    Seq::new(s.len(), |x: int| if s[x] == k { v } else { s[x] })
}

/// The text after replacing each variable of the assignment, in its order, by the
/// glyph of its value.
pub open spec fn substituted(s: Seq<char>, d: Seq<(char, bool)>) -> Seq<char>
    decreases d.len(),
{
    if d.len() == 0 {
        s
    } else {
        replace_char(substituted(s, d.drop_last()), d.last().0, glyph(d.last().1))
    }
}

/// Replaces each variable of the assignment in the formula by `0` or `1`.
pub fn substitute_vars(formula: &str, dict: &Vec<(char, bool)>) -> (r: String)
    ensures
        r@ == substituted(formula@, dict@),
{
    let n = formula.unicode_len();
    let mut chars: Vec<char> = Vec::new();
    let mut i: usize = 0;
    while i < n
        invariant
            n == formula@.len(),
            i <= n,
            chars@ == formula@.take(i as int),
        decreases n - i,
    {
        chars.push(formula.get_char(i));
        proof {
            assert(chars@ =~= formula@.take(i + 1));
        }
        i = i + 1;
    }
    proof {
        assert(formula@.take(n as int) =~= formula@);
        assert(dict@.take(0) =~= Seq::<(char, bool)>::empty());
    }
    let mut e: usize = 0;
    while e < dict.len()
        invariant
            e <= dict@.len(),
            chars@ == substituted(formula@, dict@.take(e as int)),
        decreases dict@.len() - e,
    {
        let (key, value) = dict[e];
        let replacement = if value {
            '1'
        } else {
            '0'
        };
        let ghost before = chars@;
        let mut x: usize = 0;
        while x < chars.len()
            invariant
                x <= chars@.len(),
                chars@.len() == before.len(),
                forall|y: int| 0 <= y < x ==> chars@[y] == (if before[y] == key { replacement } else { before[y] }),
                forall|y: int| x <= y < chars@.len() ==> chars@[y] == before[y],
            decreases chars@.len() - x,
        {
            if chars[x] == key {
                chars.set(x, replacement);
            }
            x = x + 1;
        }
        proof {
            assert(dict@.take(e + 1).drop_last() =~= dict@.take(e as int));
            assert(chars@ =~= replace_char(before, key, replacement));
        }
        e = e + 1;
    }
    proof {
        assert(dict@.take(dict@.len() as int) =~= dict@);
    }
    let mut r = String::new();
    let mut y: usize = 0;
    while y < chars.len()
        invariant
            y <= chars@.len(),
            r@ == chars@.take(y as int),
        decreases chars@.len() - y,
    {
        push_char(&mut r, chars[y]);
        proof {
            assert(r@ =~= chars@.take(y + 1));
        }
        y = y + 1;
    }
    proof {
        assert(chars@.take(chars@.len() as int) =~= chars@);
    }
    r
}

/// Whether the formula, its variables set by assignment number `i`, reads and evaluates
/// to true.
pub open spec fn satisfied_by(s: Seq<char>, i: nat) -> bool {
    let t = substituted(s, row_of(variables_of(s), i));
    parse(t) is Ok && value_of(parse(t)->Ok_0) == Some(true)
}

/// A formula over variables that has at least one, and is true under some assignment
/// numbered below 2^k, k the number of its distinct variables.
pub open spec fn is_satisfiable(s: Seq<char>) -> bool {
    &&& parse(s) is Ok
    &&& !has_constant(s)
    &&& variables_of(s).len() > 0
    &&& exists|i: nat| i < pow2(variables_of(s).len()) && satisfied_by(s, i)
}

/// Why no truth table can be made.
#[derive(Debug, Clone, Copy, PartialEq, Eq, Structural)]
pub enum TableError {
    /// The text is no formula.
    InvalidFormula,
    /// The formula holds a constant or has no variable.
    NoVariables,
}

/// Whether a formula's table can be made: it reads, has variables and no constant.
pub open spec fn tabulable(s: Seq<char>) -> bool {
    parse(s) is Ok && !has_constant(s) && variables_of(s).len() > 0
}

/// Evaluates the formula under the current assignment: `true` when the substituted
/// text reads and evaluates to true.
fn eval_at(formula: &str, dict: &Vec<(char, bool)>) -> (r: bool)
    ensures
        r == ({
            let t = substituted(formula@, dict@);
            parse(t) is Ok && value_of(parse(t)->Ok_0) == Some(true)
        }),
{
    let new_formula = substitute_vars(formula, dict);
    match build_ast(new_formula.as_str()) {
        Some(tree) => match eval_node(&tree) {
            Some(v) => v,
            None => false,
        },
        None => false,
    }
}

/// The assignments of a formula's variables in increasing number, each with the
/// formula's value under it.
pub fn truth_table(formula: &str) -> (r: Result<Vec<(Vec<(char, bool)>, bool)>, TableError>)
    ensures
        r is Ok <==> tabulable(formula@),
        parse(formula@) is Err ==> r == Err::<Vec<(Vec<(char, bool)>, bool)>, TableError>(TableError::InvalidFormula),
        parse(formula@) is Ok && !tabulable(formula@) ==> r == Err::<Vec<(Vec<(char, bool)>, bool)>, TableError>(TableError::NoVariables),
        r is Ok ==> sorted_keys(variables_of(formula@)),
        r is Ok ==> r->Ok_0@.len() == pow2(variables_of(formula@).len()),
        r is Ok ==> forall|i: int| 0 <= i < r->Ok_0@.len() ==> (#[trigger] r->Ok_0@[i]).0@ == row_of(variables_of(formula@), i as nat)
            && r->Ok_0@[i].1 == satisfied_by(formula@, i as nat),
        r is Ok ==> forall|i: int| 0 <= i < r->Ok_0@.len() ==> (#[trigger] r->Ok_0@[i]).1 == eval(
            parse(formula@)->Ok_0,
            assignment(variables_of(formula@), i as nat),
        ),
{
    if build_ast(formula).is_none() {
        return Err(TableError::InvalidFormula);
    }
    let mut dict = create_dict(formula);
    if dict.len() == 0 {
        return Err(TableError::NoVariables);
    }
    let n = dict.len();
    let ghost keys = keys_of(dict@);
    proof {
        lemma2_to64();
        lemma_pow2_strictly_increases(n as nat, 32);
        lemma_u32_shl_is_mul(1, n as u32);
        if n < 26 {
            lemma_pow2_strictly_increases(n as nat, 26);
        }
    }
    let count: u32 = 1u32 << (n as u32);
    let mut rows: Vec<(Vec<(char, bool)>, bool)> = Vec::new();
    let mut i: u32 = 0;
    while i < count
        invariant
            keys == variables_of(formula@),
            keys_of(dict@) == keys,
            sorted_keys(keys),
            n == keys.len(),
            n <= 26,
            count == pow2(n as nat),
            count <= 0x400_0000,
            i <= count,
            rows@.len() == i,
            forall|k: int| 0 <= k < i ==> (#[trigger] rows@[k]).0@ == row_of(keys, k as nat)
                && rows@[k].1 == satisfied_by(formula@, k as nat),
        decreases count - i,
    {
        update_dict(&mut dict, i as i32);
        proof {
            assert(keys_of(dict@) =~= keys);
        }
        let value = eval_at(formula, &dict);
        let mut snapshot: Vec<(char, bool)> = Vec::new();
        let mut k: usize = 0;
        while k < dict.len()
            invariant
                k <= dict@.len(),
                snapshot@ == dict@.take(k as int),
            decreases dict@.len() - k,
        {
            snapshot.push(dict[k]);
            proof {
                assert(snapshot@ =~= dict@.take(k + 1));
            }
            k = k + 1;
        }
        proof {
            assert(dict@.take(dict@.len() as int) =~= dict@);
        }
        rows.push((snapshot, value));
        i = i + 1;
    }
    proof {
        assert forall|k: int| 0 <= k < rows@.len() implies (#[trigger] rows@[k]).1 == eval(
            parse(formula@)->Ok_0,
            assignment(variables_of(formula@), k as nat),
        ) by {
            lemma_satisfied_by_eval(formula@, k as nat);
        }
    }
    Ok(rows)
}

} // verus!
