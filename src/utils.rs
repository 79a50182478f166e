use vstd::prelude::*;

verus! {

/// Pairs each item with whether it is the first and whether it is the last.
pub fn first_last_iter<T>(items: Vec<T>) -> (r: Vec<(T, bool, bool)>)
    ensures
        r@.len() == items@.len(),
        forall|i: int|
            0 <= i < r@.len() ==> (#[trigger] r@[i]) == (items@[i], i == 0, i == items@.len() - 1),
{
    let ghost orig = items@;
    let n = items.len();
    let mut rest = items;
    let mut rev: Vec<(T, bool, bool)> = Vec::new();
    while rest.len() > 0
        invariant
            n == orig.len(),
            rest@ == orig.take(rest@.len() as int),
            rest@.len() + rev@.len() == n,
            forall|j: int|
                0 <= j < rev@.len() ==> (#[trigger] rev@[j]) == (orig[n - 1 - j], n - 1 - j == 0, j
                    == 0),
        decreases rest@.len(),
    {
        let k = rest.len() - 1;
        let ghost before = rest@;
        let x = rest.pop().unwrap();
        assert(x == orig[k as int]);
        assert(rest@ =~= orig.take(k as int));
        rev.push((x, k == 0, k == n - 1));
    }
    let mut r: Vec<(T, bool, bool)> = Vec::new();
    while rev.len() > 0
        invariant
            n == orig.len(),
            rev@.len() + r@.len() == n,
            forall|j: int|
                0 <= j < rev@.len() ==> (#[trigger] rev@[j]) == (orig[n - 1 - j], n - 1 - j == 0, j
                    == 0),
            forall|i: int|
                0 <= i < r@.len() ==> (#[trigger] r@[i]) == (orig[i], i == 0, i == n - 1),
        decreases rev@.len(),
    {
        let x = rev.pop().unwrap();
        r.push(x);
    }
    r
}

} // verus!
