//! Numbers in ascending order.

use vstd::multiset::group_multiset_axioms;
use vstd::prelude::*;
use vstd::relations::{sorted_by, total_ordering};
use vstd::seq_lib::{group_to_multiset_ensures, lemma_sorted_unique};

use crate::float::F64;

verus! {

/// The place of a number in ascending order; the negative zero comes before the other one.
pub open spec fn rank(v: F64) -> int {
    if v.parts().neg {
        -1 - v.parts().abs
    } else {
        v.parts().abs as int
    }
}

/// Some numbers in ascending order.
pub open spec fn ascending(s: Seq<F64>) -> Seq<F64> {
    s.sort_by(|a: F64, b: F64| rank(a) <= rank(b))
}

/// Ranks order the numbers.
proof fn lemma_ranks()
    ensures
        total_ordering(|a: F64, b: F64| rank(a) <= rank(b)),
{
    assert forall|a: F64, b: F64| rank(a) == rank(b) implies a == b by {
        assert(a.bits == b.bits);
    }
}

/// Of two numbers, the one with the lower rank is not the larger one.
pub proof fn lemma_rank_is_order(a: F64, b: F64)
    requires
        !a.is_nan_number(),
        !b.is_nan_number(),
        rank(a) <= rank(b),
    ensures
        a.at_most(b),
{
}

/// Putting numbers in order does not change how many there are.
pub proof fn lemma_as_many(s: Seq<F64>)
    ensures
        ascending(s).len() == s.len(),
{
    broadcast use group_to_multiset_ensures;

    lemma_ranks();
    s.lemma_sort_by_ensures(|a: F64, b: F64| rank(a) <= rank(b));
    assert(s.to_multiset().len() == s.len());
    assert(ascending(s).to_multiset().len() == ascending(s).len());
}

/// In ascending order, no number comes before a smaller one, and the numbers are the same as before.
pub proof fn lemma_in_order(s: Seq<F64>)
    ensures
        forall|i: int, j: int|
            0 <= i <= j < ascending(s).len() ==> rank(#[trigger] ascending(s)[i]) <= rank(
                #[trigger] ascending(s)[j],
            ),
        ascending(s).to_multiset() == s.to_multiset(),
        forall|x: F64| #[trigger] ascending(s).contains(x) ==> s.contains(x),
{
    let leq = |a: F64, b: F64| rank(a) <= rank(b);
    lemma_ranks();
    s.lemma_sort_by_ensures(leq);
    let t = ascending(s);
    assert forall|i: int, j: int| 0 <= i <= j < t.len() implies rank(#[trigger] t[i]) <= rank(
        #[trigger] t[j],
    ) by {
        if i < j {
            assert(leq(t[i], t[j]));
        }
    }
}

/// Whether `a` comes after `b` in ascending order.
fn comes_after(a: F64, b: F64) -> (r: bool)
    ensures
        r == (rank(a) > rank(b)),
{
    let a_neg: bool = a.bits >= 0x8000_0000_0000_0000;
    let b_neg: bool = b.bits >= 0x8000_0000_0000_0000;
    if a_neg {
        b_neg && a.bits < b.bits
    } else {
        b_neg || a.bits > b.bits
    }
}

/// Some numbers in ascending order.
pub fn sort(s: &Vec<F64>) -> (r: Vec<F64>)
    ensures
        r@ == ascending(s@),
{
    let ghost leq = |a: F64, b: F64| rank(a) <= rank(b);
    let mut r: Vec<F64> = Vec::new();
    let mut n: usize = 0;
    assert(s@.take(0) =~= Seq::<F64>::empty());
    while n < s.len()
        invariant
            n <= s.len(),
            r.len() == n,
            leq == (|a: F64, b: F64| rank(a) <= rank(b)),
            sorted_by(r@, leq),
            r@.to_multiset() == s@.take(n as int).to_multiset(),
        decreases s.len() - n,
    {
        let v: F64 = s[n];
        let ghost before = r@;
        let mut i: usize = n;
        while i > 0 && comes_after(r[i - 1], v)
            invariant
                i <= n,
                r.len() == n,
                r@ == before,
                forall|j: int| i <= j < n ==> rank(#[trigger] r@[j]) > rank(v),
            decreases i,
        {
            i = i - 1;
        }
        r.insert(i, v);
        proof {
            broadcast use group_multiset_axioms;
            broadcast use group_to_multiset_ensures;

            assert forall|j: int, k: int| 0 <= j < k < r@.len() implies #[trigger] leq(
                r@[j],
                r@[k],
            ) by {
                if i > 0 {
                    assert(rank(before[i - 1]) <= rank(v));
                }
                if j < i {
                    assert(r@[j] == before[j]);
                    if j < i - 1 {
                        assert(leq(before[j], before[i - 1]));
                    }
                }
                if k > i {
                    assert(r@[k] == before[k - 1]);
                }
                if j > i {
                    assert(r@[j] == before[j - 1]);
                    assert(leq(before[j - 1], before[k - 1]));
                }
                if k < i {
                    assert(r@[k] == before[k]);
                    assert(leq(before[j], before[k]));
                }
                if j < i && k > i {
                    assert(leq(before[j], before[k - 1]));
                }
            }
            vstd::seq_lib::to_multiset_insert(before, i as int, v);
            assert(s@.take(n + 1) =~= s@.take(n as int).push(v));
        }
        n = n + 1;
    }
    proof {
        assert(s@.take(s@.len() as int) =~= s@);
        lemma_ranks();
        s@.lemma_sort_by_ensures(leq);
        lemma_sorted_unique(r@, ascending(s@), leq);
    }
    r
}

} // verus!
