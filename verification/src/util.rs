//! Small helpers on vectors.

use vstd::prelude::*;

verus! {

/// The elements in the opposite order.
pub fn reversed<T>(v: Vec<T>) -> (r: Vec<T>)
    ensures
        r@.len() == v@.len(),
        forall|j: int| 0 <= j < r@.len() ==> r@[j] == v@[v@.len() - 1 - j],
{
    let mut rest = v;
    let mut out: Vec<T> = Vec::new();
    while rest.len() > 0
        invariant
            rest@.len() + out@.len() == v@.len(),
            rest@ == v@.take(rest@.len() as int),
            forall|j: int| 0 <= j < out@.len() ==> out@[j] == v@[v@.len() - 1 - j],
        decreases rest@.len(),
    {
        let last = rest.pop().unwrap();
        assert(rest@ =~= v@.take(rest@.len() as int));
        out.push(last);
    }
    out
}

} // verus!
