//! Sequences in another order.

use vstd::prelude::*;

verus! {

/// The elements from the last to the first.
pub(crate) fn reversed<T>(v: Vec<T>) -> (r: Vec<T>)
    ensures
        r@ == v@.reverse(),
{
    let ghost all = v@;
    let mut v = v;
    let mut out: Vec<T> = Vec::new();
    while v.len() > 0
        invariant
            v@.len() <= all.len(),
            v@ == all.take(v@.len() as int),
            out@ == all.skip(v@.len() as int).reverse(),
        decreases v@.len(),
    {
        let ghost k = v@.len() - 1;
        match v.pop() {
            Some(x) => {
                out.push(x);
                proof {
                    assert(v@ =~= all.take(k));
                    assert(all.skip(k) =~= seq![all[k]] + all.skip(k + 1));
                    assert(out@ =~= all.skip(k).reverse());
                }
            },
            None => {},
        }
    }
    assert(all.skip(0) =~= all);
    out
}

} // verus!
