//! The index search of the sparse test signals: where the next nonzero entry goes.

use vstd::prelude::*;
use vstd::arithmetic::div_mod::*;
use std::collections::HashSet;

verus! {

broadcast use vstd::std_specs::hash::group_hash_axioms;

/// The position `k` steps after `start`, wrapping around past `n - 1` to 0.
pub open spec fn wrapped(start: int, k: int, n: int) -> int {
    (start + k) % n
}

/// The first position from `start` on, wrapping around past `n - 1` to 0, that
/// `used` does not hold: the positions passed over on the way are all in `used`.
///
/// `start` must be below `n`, and some position below `n` must be free (else the
/// search would never end).
pub fn first_free_index(used: &HashSet<usize>, start: usize, n: usize) -> (idx: usize)
    requires
        start < n,
        exists|f: usize| f < n && !used@.contains(f),
    ensures
        idx < n,
        !used@.contains(idx),
        exists|k: int|
            0 <= k < n && idx == wrapped(start as int, k, n as int) && forall|j: int|
                0 <= j < k ==> #[trigger] used@.contains(wrapped(start as int, j, n as int) as usize),
{
    let mut idx = start;
    let ghost mut k: int = 0;
    proof {
        lemma_small_mod(start as nat, n as nat);
    }
    while used.contains(&idx)
        invariant
            start < n,
            exists|f: usize| f < n && !used@.contains(f),
            0 <= k < n,
            idx < n,
            idx == wrapped(start as int, k, n as int),
            forall|j: int| 0 <= j < k ==> #[trigger] used@.contains(wrapped(start as int, j, n as int) as usize),
        decreases n - k,
    {
        proof {
            assert(used@.contains(wrapped(start as int, k, n as int) as usize));
            if k + 1 == n {
                // Every position has been passed over: none is free.
                let f = choose|f: usize| f < n && !used@.contains(f);
                let j = if f >= start { f - start } else { f + n - start };
                assert(wrapped(start as int, j as int, n as int) == f) by {
                    if f >= start {
                        lemma_small_mod(f as nat, n as nat);
                    } else {
                        lemma_fundamental_div_mod_converse((start + j) as int, n as int, 1, f as int);
                    }
                }
                assert(used@.contains(wrapped(start as int, j as int, n as int) as usize));
                assert(false);
            }
        }
        let next = (idx + 1) % n;
        proof {
            lemma_add_mod_noop(start as int + k, 1, n as int);
            lemma_small_mod(1, n as nat);
            lemma_mod_twice(start as int + k, n as int);
            assert(next == wrapped(start as int, k + 1, n as int));
            k = k + 1;
        }
        idx = next;
    }
    idx
}

} // verus!
