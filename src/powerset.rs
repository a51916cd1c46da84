use vstd::prelude::*;
use vstd::arithmetic::power2::{lemma2_to64, lemma_pow2_strictly_increases, pow2};
use vstd::bits::{lemma_u32_shl_is_mul, lemma_u32_shr_is_div};

verus! {

/// Whether bit `j` of `i` is set.
pub open spec fn has_bit(i: nat, j: nat) -> bool {
    (i / pow2(j)) % 2 == 1
}

/// The elements of `s`, in order, whose position is a set bit of `i`.
pub open spec fn subset_at(s: Seq<i32>, i: nat) -> Seq<i32>
    decreases s.len(),
{
    if s.len() == 0 {
        Seq::empty()
    } else if has_bit(i, (s.len() - 1) as nat) {
        subset_at(s.drop_last(), i).push(s.last())
    } else {
        subset_at(s.drop_last(), i)
    }
}

/// All subsets of `set`: the `i`-th holds the elements whose position is a set bit of `i`.
pub fn powerset(set: Vec<i32>) -> (r: Vec<Vec<i32>>)
    requires
        set.len() < 31,
    ensures
        r@.len() == pow2(set@.len()),
        forall|i: int| 0 <= i < r@.len() ==> (#[trigger] r@[i])@ == subset_at(set@, i as nat),
{
    let n = set.len() as u32;
    let mut powset: Vec<Vec<i32>> = Vec::new();
    proof {
        lemma2_to64();
        lemma_pow2_strictly_increases(n as nat, 32);
        lemma_u32_shl_is_mul(1, n);
    }
    let count: u32 = 1 << n;
    let mut i: u32 = 0;
    while i < count
        invariant
            n == set@.len(),
            n < 31,
            count == pow2(n as nat),
            i <= count,
            powset@.len() == i,
            forall|k: int| 0 <= k < i ==> (#[trigger] powset@[k])@ == subset_at(set@, k as nat),
        decreases count - i,
    {
        let mut subset: Vec<i32> = Vec::new();
        let mut j: u32 = 0;
        proof {
            assert(set@.take(0) =~= Seq::<i32>::empty());
        }
        while j < n
            invariant
                n == set@.len(),
                n < 31,
                j <= n,
                subset@ == subset_at(set@.take(j as int), i as nat),
            decreases n - j,
        {
            proof {
                lemma_u32_shr_is_div(i, j);
                let s = i >> j;
                assert((s & 1u32) == s % 2) by (bit_vector);
                assert(set@.take(j + 1).drop_last() =~= set@.take(j as int));
            }
            if (i >> j) & 1 == 1 {
                subset.push(set[j as usize]);
            }
            j = j + 1;
        }
        proof {
            assert(set@.take(n as int) =~= set@);
        }
        powset.push(subset);
        i = i + 1;
    }
    powset
}

} // verus!
