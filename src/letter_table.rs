//! Truth tables whose identifiers are any alphabetic characters, upper or lower case.

use vstd::prelude::*;
use vstd::string::*;
use vstd::arithmetic::power2::{lemma2_to64, lemma_pow2_adds, lemma_pow2_pos, pow2};
use vstd::arithmetic::div_mod::lemma_div_denominator;
use crate::ast::value_of;
use crate::boolean_evaluation::{eval_formula, parse};
use crate::powerset::has_bit;
use crate::text::{alphabetic_char, is_alphabetic, push_char};
use crate::truth_table::{glyph, insert_key, lemma_insert_key_at, row_of, sorted_keys};
use crate::sat::lemma_insert_key;
use vstd::arithmetic::power2::lemma_pow2_strictly_increases;
use vstd::bits::lemma_u32_shl_is_mul;

verus! {

/// Whether a character is no identifier: an operator or a constant.
pub fn is_operand(c: char) -> (r: bool)
    ensures
        r == !alphabetic_char(c),
{
    !is_alphabetic(c)
}

/// The distinct identifiers of a text, in increasing order.
pub open spec fn identifiers_of(s: Seq<char>) -> Seq<char>
    decreases s.len(),
{
    if s.len() == 0 {
        Seq::empty()
    } else if alphabetic_char(s.last()) {
        insert_key(identifiers_of(s.drop_last()), s.last())
    } else {
        identifiers_of(s.drop_last())
    }
}

/// Collects the distinct identifiers of a formula, in increasing order.
pub fn unique_ids(formula: &str) -> (r: Vec<char>)
    ensures
        r@ == identifiers_of(formula@),
        sorted_keys(r@),
{
    let n = formula.unicode_len();
    let mut ids: Vec<char> = Vec::new();
    let mut i: usize = 0;
    proof {
        assert(formula@.take(0) =~= Seq::<char>::empty());
    }
    while i < n
        invariant
            n == formula@.len(),
            i <= n,
            ids@ == identifiers_of(formula@.take(i as int)),
            sorted_keys(ids@),
        decreases n - i,
    {
        let c = formula.get_char(i);
        proof {
            assert(formula@.take(i + 1).drop_last() =~= formula@.take(i as int));
            assert(formula@.take(i + 1).last() == c);
        }
        if !is_operand(c) {
            let len = ids.len();
            let mut j: usize = 0;
            while j < len && ids[j] < c
                invariant
                    len == ids@.len(),
                    j <= len,
                    forall|a: int| 0 <= a < j ==> ids@[a] < c,
                decreases len - j,
            {
                j = j + 1;
            }
            proof {
                lemma_insert_key_at(ids@, c, j as int);
            }
            if !(j < len && ids[j] == c) {
                let ghost before = ids@;
                ids.insert(j, c);
                proof {
                    assert forall|a: int, b: int| 0 <= a < b < ids@.len() implies ids@[a] < ids@[b] by {
                        if a < j && b > j {
                            assert(ids@[b] == before[b - 1]);
                        }
                    }
                }
            }
        }
        i = i + 1;
    }
    proof {
        assert(formula@.take(n as int) =~= formula@);
    }
    ids
}

/// The assignment numbered `row`: the first identifier is its highest bit.
pub fn generate_truth_row(ids: &Vec<char>, row: usize) -> (r: Vec<(char, bool)>)
    requires
        row < pow2(ids@.len()),
    ensures
        r@ == row_of(ids@, row as nat),
{
    let n = ids.len();
    let mut truth_row: Vec<(char, bool)> = Vec::new();
    let mut k: usize = 0;
    while k < n
        invariant
            n == ids@.len(),
            k <= n,
            truth_row@.len() == k,
            forall|x: int| 0 <= x < k ==> (#[trigger] truth_row@[x]) == (ids@[x], false),
        decreases n - k,
    {
        truth_row.push((ids[k], false));
        k = k + 1;
    }
    let mut j: usize = row;
    let mut m: usize = 0;
    proof {
        lemma2_to64();
    }
    while m < n
        invariant
            n == ids@.len(),
            truth_row@.len() == n,
            m <= n,
            j as nat == (row as nat) / pow2(m as nat),
            forall|x: int| 0 <= x < n ==> (#[trigger] truth_row@[x]).0 == ids@[x],
            forall|x: int| n - m <= x < n ==> (#[trigger] truth_row@[x]).1 == has_bit(row as nat, (n - 1 - x) as nat),
        decreases n - m,
    {
        let x = n - 1 - m;
        proof {
            assert((j & 1usize) == j % 2) by (bit_vector);
            assert((j >> 1usize) == j / 2) by (bit_vector);
            lemma_pow2_pos(m as nat);
            lemma_div_denominator(row as int, pow2(m as nat) as int, 2);
            lemma_pow2_adds(m as nat, 1);
            lemma2_to64();
            assert(pow2(m as nat) * 2 == pow2((m + 1) as nat));
        }
        truth_row.set(x, (ids[x], (j & 1) == 1));
        j = j >> 1;
        m = m + 1;
    }
    proof {
        assert(truth_row@ =~= row_of(ids@, row as nat));
    }
    truth_row
}

/// The value an assignment gives identifier `c`: that of its first entry for `c`.
pub open spec fn lookup(d: Seq<(char, bool)>, c: char) -> bool
    decreases d.len(),
{
    if d.len() == 0 {
        false
    } else if d[0].0 == c {
        d[0].1
    } else {
        lookup(d.drop_first(), c)
    }
}

/// The text with each identifier replaced by the glyph of its value.
pub open spec fn resolved(s: Seq<char>, d: Seq<(char, bool)>) -> Seq<char> {
    s.map_values(|c: char| if alphabetic_char(c) { glyph(lookup(d, c)) } else { c })
}

/// The value of identifier `c`; `None` where the assignment has none.
fn find_value(d: &Vec<(char, bool)>, c: char) -> (r: Option<bool>)
    ensures
        r is Some <==> exists|k: int| 0 <= k < d@.len() && d@[k].0 == c,
        r is Some ==> r->Some_0 == lookup(d@, c),
{
    let mut k: usize = 0;
    proof {
        assert(d@.subrange(0, d@.len() as int) =~= d@);
    }
    while k < d.len()
        invariant
            k <= d@.len(),
            forall|x: int| 0 <= x < k ==> d@[x].0 != c,
            lookup(d@, c) == lookup(d@.subrange(k as int, d@.len() as int), c),
        decreases d@.len() - k,
    {
        proof {
            let rest = d@.subrange(k as int, d@.len() as int);
            assert(rest.drop_first() =~= d@.subrange(k + 1, d@.len() as int));
        }
        if d[k].0 == c {
            return Some(d[k].1);
        }
        k = k + 1;
    }
    None
}

/// Evaluates a formula with each identifier set by the assignment.
pub fn evaluate(formula: &str, ids: &Vec<char>, truth_row: &Vec<(char, bool)>) -> (r: bool)
    requires
        forall|i: int|
            0 <= i < formula@.len() && alphabetic_char(#[trigger] formula@[i]) ==> ids@.contains(
                formula@[i],
            ) && exists|k: int| 0 <= k < truth_row@.len() && truth_row@[k].0 == formula@[i],
    ensures
        r == (parse(resolved(formula@, truth_row@)) is Ok && value_of(
            parse(resolved(formula@, truth_row@))->Ok_0,
        ) == Some(true)),
{
    let n = formula.unicode_len();
    let mut rpn = String::new();
    let mut i: usize = 0;
    while i < n
        invariant
            n == formula@.len(),
            i <= n,
            rpn@ == resolved(formula@, truth_row@).take(i as int),
            forall|i: int|
                0 <= i < formula@.len() && alphabetic_char(#[trigger] formula@[i]) ==> exists|k: int|
                    0 <= k < truth_row@.len() && truth_row@[k].0 == formula@[i],
        decreases n - i,
    {
        let c = formula.get_char(i);
        let out = if !is_operand(c) {
            let v = find_value(truth_row, c);
            if v.unwrap() {
                '1'
            } else {
                '0'
            }
        } else {
            c
        };
        push_char(&mut rpn, out);
        proof {
            assert(rpn@ =~= resolved(formula@, truth_row@).take(i + 1));
        }
        i = i + 1;
    }
    proof {
        assert(resolved(formula@, truth_row@).take(n as int) =~= resolved(formula@, truth_row@));
    }
    eval_formula(rpn.as_str())
}

/// The identifiers of a text are sorted, and are exactly its letters.
pub proof fn lemma_identifiers_of(s: Seq<char>)
    ensures
        sorted_keys(identifiers_of(s)),
        forall|x: char| #[trigger] identifiers_of(s).contains(x) <==> (alphabetic_char(x) && s.contains(x)),
    decreases s.len(),
{
    if s.len() > 0 {
        let e = s.drop_last();
        lemma_identifiers_of(e);
        if alphabetic_char(s.last()) {
            lemma_insert_key(identifiers_of(e), s.last());
        }
        assert forall|x: char| #[trigger] identifiers_of(s).contains(x) <==> (alphabetic_char(x) && s.contains(x)) by {
            if s.contains(x) {
                let j = choose|j: int| 0 <= j < s.len() && s[j] == x;
                if j < s.len() - 1 {
                    assert(e[j] == x);
                }
            }
            if e.contains(x) {
                let j = choose|j: int| 0 <= j < e.len() && e[j] == x;
                assert(s[j] == x);
            }
            if alphabetic_char(x) && x == s.last() {
                assert(s[s.len() - 1] == x);
            }
        }
    }
}

/// Whether the formula, its identifiers set by assignment number `i`, reads and
/// evaluates to true.
pub open spec fn true_at(s: Seq<char>, i: nat) -> bool {
    let t = resolved(s, row_of(identifiers_of(s), i));
    parse(t) is Ok && value_of(parse(t)->Ok_0) == Some(true)
}

/// Every assignment of a formula's identifiers in increasing number, with the formula's
/// value under it; `None` when there are 32 identifiers or more, too many to number.
pub fn letter_truth_table(formula: &str) -> (r: Option<Vec<(Vec<(char, bool)>, bool)>>)
    ensures
        r is None <==> identifiers_of(formula@).len() >= 32,
        r is Some ==> r->Some_0@.len() == pow2(identifiers_of(formula@).len()),
        r is Some ==> forall|i: int| 0 <= i < r->Some_0@.len() ==> (#[trigger] r->Some_0@[i]).0@ == row_of(
            identifiers_of(formula@),
            i as nat,
        ) && r->Some_0@[i].1 == true_at(formula@, i as nat),
{
    let ids = unique_ids(formula);
    let n = ids.len();
    if n >= 32 {
        return None;
    }
    proof {
        lemma_identifiers_of(formula@);
        lemma2_to64();
        lemma_pow2_strictly_increases(n as nat, 32);
        lemma_u32_shl_is_mul(1, n as u32);
    }
    let count: u32 = 1u32 << (n as u32);
    let mut rows: Vec<(Vec<(char, bool)>, bool)> = Vec::new();
    let mut i: u32 = 0;
    while i < count
        invariant
            ids@ == identifiers_of(formula@),
            n == ids@.len(),
            n < 32,
            count == pow2(n as nat),
            i <= count,
            rows@.len() == i,
            forall|x: char| #[trigger] ids@.contains(x) <==> (alphabetic_char(x) && formula@.contains(x)),
            forall|k: int| 0 <= k < i ==> (#[trigger] rows@[k]).0@ == row_of(ids@, k as nat)
                && rows@[k].1 == true_at(formula@, k as nat),
        decreases count - i,
    {
        let truth_row = generate_truth_row(&ids, i as usize);
        proof {
            assert(truth_row@ == row_of(ids@, i as nat));
            assert forall|j: int|
                0 <= j < formula@.len() && alphabetic_char(#[trigger] formula@[j]) implies ids@.contains(
                    formula@[j],
                ) && exists|k: int| 0 <= k < truth_row@.len() && truth_row@[k].0 == formula@[j] by {
                let c = formula@[j];
                assert(formula@.contains(c));
                assert(alphabetic_char(c));
                assert(ids@.contains(c));
                let k = choose|k: int| 0 <= k < ids@.len() && ids@[k] == c;
                assert(truth_row@[k].0 == formula@[j]);
            }
        }
        let value = evaluate(formula, &ids, &truth_row);
        rows.push((truth_row, value));
        i = i + 1;
    }
    Some(rows)
}

} // verus!
