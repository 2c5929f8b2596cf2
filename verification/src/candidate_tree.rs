//! The parent / child relation between candidate positions.
use vstd::prelude::*;

verus! {

/// Records that candidate `p` is a parent of candidate `c`: `c` is appended
/// to the children of `p`, and `p` to the parents of `c`.
pub fn set_oyako(parent: &mut Vec<Vec<usize>>, child: &mut Vec<Vec<usize>>, p: usize, c: usize)
    requires
        p < old(child)@.len(),
        c < old(parent)@.len(),
    ensures
        final(child)@.len() == old(child)@.len(),
        final(parent)@.len() == old(parent)@.len(),
        final(child)@[p as int]@ == old(child)@[p as int]@.push(c),
        final(parent)@[c as int]@ == old(parent)@[c as int]@.push(p),
        forall|k: int|
            0 <= k < old(child)@.len() && k != p ==> #[trigger] final(child)@[k] == old(child)@[k],
        forall|k: int|
            0 <= k < old(parent)@.len() && k != c ==> #[trigger] final(parent)@[k] == old(parent)@[k],
{
    child[p].push(c);
    parent[c].push(p);
}

} // verus!
