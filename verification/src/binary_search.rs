//! Binary searches over timestamps sorted in ascending order.

use vstd::prelude::*;

verus! {

/// `s` is sorted in ascending (non-decreasing) order.
pub open spec fn sorted(s: Seq<i32>) -> bool {
    forall|i: int, j: int| 0 <= i <= j < s.len() ==> s[i] <= s[j]
}

/// Returns whether `xs` is sorted in ascending order.
pub fn is_sorted(xs: &[i32]) -> (r: bool)
    ensures
        r == sorted(xs@),
{
    let n = xs.len();
    let mut i: usize = 1;
    while i < n
        invariant
            n == xs@.len(),
            1 <= i || n == 0,
            forall|a: int, b: int| 0 <= a <= b < i && b < n ==> xs@[a] <= xs@[b],
        decreases n - i,
    {
        if xs[i - 1] > xs[i] {
            assert(!sorted(xs@)) by {
                assert(xs@[i - 1] > xs@[i as int]);
            }
            return false;
        }
        assert forall|a: int, b: int| 0 <= a <= b < i + 1 && b < n implies xs@[a] <= xs@[b] by {
            if b == i && a < b {
                assert(xs@[a] <= xs@[i - 1]);
            }
        }
        i = i + 1;
    }
    true
}

/// Returns the index at which `x` is to be inserted into `xs` so that `xs`
/// stays sorted, after every element equal to `x`.  On sorted input this is
/// the number of elements that are at most `x`.
pub fn find_insert_index(xs: &[i32], x: &i32) -> (r: usize)
    ensures
        r <= xs@.len(),
        sorted(xs@) ==> forall|i: int| 0 <= i < r ==> xs@[i] <= *x,
        sorted(xs@) ==> forall|i: int| r <= i < xs@.len() ==> xs@[i] > *x,
{
    if xs.len() == 0 {
        return 0;
    }
    let mut lb: usize = 0;
    let mut ub: usize = xs.len();
    while lb < ub
        invariant
            lb <= ub <= xs@.len(),
            sorted(xs@) ==> forall|i: int| 0 <= i < lb ==> xs@[i] <= *x,
            sorted(xs@) ==> forall|i: int| ub <= i < xs@.len() ==> xs@[i] > *x,
        decreases ub - lb,
    {
        let c = (ub - lb) / 2 + lb;
        if xs[c] <= *x {
            lb = c + 1;
        } else {
            ub = c;
        }
    }
    if lb < ub {
        ub
    } else {
        lb
    }
}

/// On a sorted slice, finds the index of the first element that is at least
/// `low` and the index of the last element that is at most `high`.  Returns
/// `None` when `low > high`, when `xs` is empty, or when the whole of `xs`
/// lies outside `[low, high]` on one side.
pub fn find_bounds_index(xs: &[i32], low: &i32, high: &i32) -> (r: Option<(usize, usize)>)
    ensures
        r is None <==> (*low > *high || xs@.len() == 0 || *high < xs@[0] || *low > xs@[xs@.len()
            - 1]),
        r matches Some((lo, hi)) ==> {
            &&& lo < xs@.len()
            &&& hi < xs@.len()
            &&& sorted(xs@) ==> {
                &&& xs@[lo as int] >= *low
                &&& forall|i: int| 0 <= i < lo ==> xs@[i] < *low
                &&& xs@[hi as int] <= *high
                &&& forall|i: int| hi < i < xs@.len() ==> xs@[i] > *high
            }
        },
{
    if *low > *high {
        return None;
    }
    if xs.len() == 0 {
        return None;
    }
    if *high < xs[0] || *low > xs[xs.len() - 1] {
        return None;
    }
    let n = xs.len();
    let low_index = {
        let mut lb: usize = 0;
        let mut ub: usize = n - 1;
        while lb < ub
            invariant
                n == xs@.len(),
                lb <= ub < n,
                sorted(xs@) ==> forall|i: int| 0 <= i < lb ==> xs@[i] < *low,
                sorted(xs@) ==> forall|i: int| ub <= i < n ==> xs@[i] >= *low,
            decreases ub - lb,
        {
            let c = (ub - lb) / 2 + lb;
            if xs[c] < *low {
                lb = c + 1;
            } else {
                ub = c;
            }
        }
        if lb < ub {
            ub
        } else {
            lb
        }
    };
    let high_index = {
        let mut lb: usize = 0;
        let mut ub: usize = n - 1;
        while lb < ub
            invariant
                n == xs@.len(),
                lb <= ub < n,
                sorted(xs@) ==> forall|i: int| 0 <= i <= lb ==> xs@[i] <= *high,
                sorted(xs@) ==> forall|i: int| ub < i < n ==> xs@[i] > *high,
            decreases ub - lb,
        {
            let c = if (ub - lb) % 2 == 0 {
                (ub - lb) / 2 + lb
            } else {
                (ub + 1 - lb) / 2 + lb
            };
            if xs[c] <= *high {
                lb = c;
            } else {
                ub = c - 1;
            }
        }
        if lb < ub {
            lb
        } else {
            ub
        }
    };
    Some((low_index, high_index))
}

} // verus!
