//! The first place at which something holds.

use vstd::prelude::*;

verus! {

/// The first of the numbers `i`, `i + 1`, ... below `n` at which `p` holds; `n` if there is
/// none.
pub open spec fn first_from(i: nat, n: nat, p: spec_fn(int) -> bool) -> nat
    decreases n - i,
{
    if i >= n {
        n
    } else if p(i as int) {
        i
    } else {
        first_from(i + 1, n, p)
    }
}

/// The first number below `n` at which `p` holds; `n` if there is none.
pub open spec fn first_where(n: nat, p: spec_fn(int) -> bool) -> nat {
    first_from(0, n, p)
}

/// What `first_from` finds, and that nothing comes before it.
pub proof fn lemma_first_from(i: nat, n: nat, p: spec_fn(int) -> bool)
    requires
        i <= n,
    ensures
        i <= first_from(i, n, p) <= n,
        first_from(i, n, p) < n ==> p(first_from(i, n, p) as int),
        forall|k: int| i <= k < first_from(i, n, p) ==> !#[trigger] p(k),
    decreases n - i,
{
    if i < n && !p(i as int) {
        lemma_first_from(i + 1, n, p);
    }
}

/// What `first_where` finds, and that nothing comes before it.
pub proof fn lemma_first_where(n: nat, p: spec_fn(int) -> bool)
    ensures
        first_where(n, p) <= n,
        first_where(n, p) < n ==> p(first_where(n, p) as int),
        forall|k: int| 0 <= k < first_where(n, p) ==> !#[trigger] p(k),
{
    lemma_first_from(0, n, p);
}

/// A number at which `p` holds, and at none before it, is what `first_where` finds.
pub proof fn lemma_is_first(n: nat, p: spec_fn(int) -> bool, k: nat)
    requires
        k <= n,
        k < n ==> p(k as int),
        forall|i: int| 0 <= i < k ==> !#[trigger] p(i),
    ensures
        first_where(n, p) == k,
{
    lemma_first_where(n, p);
    let f = first_where(n, p);
    if f < k {
        assert(!p(f as int));
    } else if k < f {
        assert(!p(k as int));
    }
}

} // verus!
