//! Taking the elements out of a vector one by one, first to last.

use vstd::prelude::*;

verus! {

/// The vector turned round, so that `pop` hands its elements out first to
/// last.
pub fn reversed<T>(v: Vec<T>) -> (r: Vec<T>)
    ensures
        r@ == v@.reverse(),
{
    let ghost all = v@;
    let mut src = v;
    let mut r: Vec<T> = Vec::new();
    proof {
        assert(all.skip(all.len() as int).reverse() =~= Seq::<T>::empty());
        assert(all.take(all.len() as int) =~= all);
    }
    while src.len() > 0
        invariant
            src@.len() <= all.len(),
            src@ == all.take(src@.len() as int),
            r@ == all.skip(src@.len() as int).reverse(),
        decreases src@.len(),
    {
        let ghost n = src@.len() as int;
        let x = src.pop().unwrap();
        r.push(x);
        proof {
            assert(src@ =~= all.take(n - 1));
            assert(r@ =~= all.skip(n - 1).reverse());
        }
    }
    proof {
        assert(all.skip(0) =~= all);
    }
    r
}

/// What `pop` hands out of a reversed rest, and what it leaves.
pub proof fn lemma_pop_reversed<T>(all: Seq<T>, k: int)
    requires
        0 <= k < all.len(),
    ensures
        all.skip(k).reverse().len() == all.len() - k,
        all.skip(k).reverse().last() == all[k],
        all.skip(k).reverse().drop_last() == all.skip(k + 1).reverse(),
{
    let r = all.skip(k).reverse();
    assert(r.len() == all.len() - k);
    assert(r.drop_last() =~= all.skip(k + 1).reverse());
}

} // verus!
