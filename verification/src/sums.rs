//! Finite sums of integer functions, and the few facts about them that the
//! weight accounting rests on.

use vstd::prelude::*;

verus! {

/// `f(0) + f(1) + .. + f(n - 1)`.
pub open spec fn sum_to(f: spec_fn(int) -> int, n: nat) -> int
    decreases n,
{
    if n == 0 {
        0
    } else {
        sum_to(f, (n - 1) as nat) + f(n - 1)
    }
}

/// The function that is `f` on the members of `p` and zero elsewhere.
pub open spec fn masked(p: spec_fn(int) -> bool, f: spec_fn(int) -> int) -> spec_fn(int) -> int {
    |i: int| if p(i) { f(i) } else { 0 }
}

pub proof fn lemma_sum_congruent(f: spec_fn(int) -> int, g: spec_fn(int) -> int, n: nat)
    requires
        forall|i: int| 0 <= i < n ==> #[trigger] f(i) == g(i),
    ensures
        sum_to(f, n) == sum_to(g, n),
    decreases n,
{
    if n > 0 {
        lemma_sum_congruent(f, g, (n - 1) as nat);
        assert(f(n - 1) == g(n - 1));
    }
}

pub proof fn lemma_sum_zero(f: spec_fn(int) -> int, n: nat)
    requires
        forall|i: int| 0 <= i < n ==> #[trigger] f(i) == 0,
    ensures
        sum_to(f, n) == 0,
    decreases n,
{
    if n > 0 {
        lemma_sum_zero(f, (n - 1) as nat);
        assert(f(n - 1) == 0);
    }
}

pub proof fn lemma_sum_ordered(f: spec_fn(int) -> int, g: spec_fn(int) -> int, n: nat)
    requires
        forall|i: int| 0 <= i < n ==> #[trigger] f(i) <= g(i),
    ensures
        sum_to(f, n) <= sum_to(g, n),
    decreases n,
{
    if n > 0 {
        lemma_sum_ordered(f, g, (n - 1) as nat);
        assert(f(n - 1) <= g(n - 1));
    }
}

pub proof fn lemma_sum_nonnegative(f: spec_fn(int) -> int, n: nat)
    requires
        forall|i: int| 0 <= i < n ==> 0 <= #[trigger] f(i),
    ensures
        0 <= sum_to(f, n),
    decreases n,
{
    if n > 0 {
        lemma_sum_nonnegative(f, (n - 1) as nat);
        assert(0 <= f(n - 1));
    }
}

/// Two functions that differ only at `k` have sums that differ by the change
/// at `k`.
pub proof fn lemma_sum_changed_once(
    f: spec_fn(int) -> int,
    g: spec_fn(int) -> int,
    n: nat,
    k: int,
)
    requires
        0 <= k < n,
        forall|i: int| 0 <= i < n && i != k ==> #[trigger] f(i) == g(i),
    ensures
        sum_to(g, n) == sum_to(f, n) - f(k) + g(k),
    decreases n,
{
    if k == n - 1 {
        lemma_sum_congruent(f, g, (n - 1) as nat);
    } else {
        lemma_sum_changed_once(f, g, (n - 1) as nat, k);
        assert(f(n - 1) == g(n - 1));
    }
}

pub proof fn lemma_sum_added(
    f: spec_fn(int) -> int,
    g: spec_fn(int) -> int,
    h: spec_fn(int) -> int,
    n: nat,
)
    requires
        forall|i: int| 0 <= i < n ==> #[trigger] h(i) == f(i) + g(i),
    ensures
        sum_to(h, n) == sum_to(f, n) + sum_to(g, n),
    decreases n,
{
    if n > 0 {
        lemma_sum_added(f, g, h, (n - 1) as nat);
        assert(h(n - 1) == f(n - 1) + g(n - 1));
    }
}

/// A term of a sum of non-negative terms is at most the sum.
pub proof fn lemma_term_within_sum(f: spec_fn(int) -> int, n: nat, k: int)
    requires
        0 <= k < n,
        forall|i: int| 0 <= i < n ==> 0 <= #[trigger] f(i),
    ensures
        f(k) <= sum_to(f, n),
    decreases n,
{
    assert(0 <= f(n - 1));
    if k == n - 1 {
        lemma_sum_nonnegative(f, (n - 1) as nat);
    } else {
        lemma_term_within_sum(f, (n - 1) as nat, k);
    }
}

/// Terms that are zero from `k` on add nothing.
pub proof fn lemma_sum_tail_zero(f: spec_fn(int) -> int, k: nat, n: nat)
    requires
        k <= n,
        forall|i: int| k <= i < n ==> #[trigger] f(i) == 0,
    ensures
        sum_to(f, n) == sum_to(f, k),
    decreases n,
{
    if n > k {
        lemma_sum_tail_zero(f, k, (n - 1) as nat);
    }
}

/// A sum with one term.
pub proof fn lemma_sum_single(f: spec_fn(int) -> int, n: nat, k: int)
    requires
        0 <= k < n,
        forall|i: int| 0 <= i < n && i != k ==> #[trigger] f(i) == 0,
    ensures
        sum_to(f, n) == f(k),
{
    let z = |i: int| 0int;
    lemma_sum_zero(z, n);
    assert forall|i: int| 0 <= i < n && i != k implies #[trigger] z(i) == f(i) by {
        assert(f(i) == 0);
    }
    lemma_sum_changed_once(z, f, n, k);
}

/// `f(s[0]) + .. + f(s[k - 1])`, the sum along a list of indices.
pub open spec fn sum_along(f: spec_fn(int) -> int, s: Seq<usize>) -> int
    decreases s.len(),
{
    if s.len() == 0 {
        0
    } else {
        sum_along(f, s.drop_last()) + f(s.last() as int)
    }
}

/// Summing along a list without repetitions is summing over its members.
pub proof fn lemma_sum_along_is_masked(f: spec_fn(int) -> int, s: Seq<usize>, n: nat)
    requires
        s.no_duplicates(),
        n <= usize::MAX,
        forall|j: int| 0 <= j < s.len() ==> (#[trigger] s[j]) < n,
    ensures
        sum_along(f, s) == sum_to(masked(|i: int| s.contains(i as usize) && 0 <= i < n, f), n),
    decreases s.len(),
{
    let p = |i: int| s.contains(i as usize) && 0 <= i < n;
    if s.len() == 0 {
        lemma_sum_zero(masked(p, f), n);
    } else {
        let t = s.drop_last();
        let q = |i: int| t.contains(i as usize) && 0 <= i < n;
        let k = s.last() as int;
        assert(s[s.len() - 1] < n);
        assert forall|j: int| 0 <= j < t.len() implies (#[trigger] t[j]) < n by {
            assert(s[j] < n);
        }
        lemma_sum_along_is_masked(f, t, n);
        assert(s.contains(k as usize)) by {
            assert(s[s.len() - 1] == k as usize);
        }
        assert(!t.contains(k as usize));
        assert forall|i: int| 0 <= i < n && i != k implies #[trigger] masked(q, f)(i) == masked(
            p,
            f,
        )(i) by {
            if s.contains(i as usize) && s[s.len() - 1] != i as usize {
                let j = s.index_of(i as usize);
                assert(t[j] == i as usize);
            }
            if t.contains(i as usize) {
                let j = t.index_of(i as usize);
                assert(s[j] == i as usize);
            }
        }
        lemma_sum_changed_once(masked(q, f), masked(p, f), n, k);
    }
}

} // verus!
