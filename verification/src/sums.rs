//! Finite sums of integers, the vocabulary in which masses are stated.

use vstd::prelude::*;

verus! {

/// The sum `f(0) + ... + f(n - 1)`.
pub open spec fn sum_to(f: spec_fn(int) -> int, n: int) -> int
    decreases n,
{
    if n <= 0 {
        0
    } else {
        sum_to(f, n - 1) + f(n - 1)
    }
}

/// The entries of a sequence as a summand.
pub open spec fn entries(s: Seq<u64>) -> spec_fn(int) -> int {
    |k: int| s[k] as int
}

/// The entries of a sequence of wide integers as a summand.
pub open spec fn wide_entries(s: Seq<u128>) -> spec_fn(int) -> int {
    |k: int| s[k] as int
}

/// The sum of all entries of `s`.
pub open spec fn total(s: Seq<u64>) -> int {
    sum_to(entries(s), s.len() as int)
}

/// Sums of summands that agree below `n` are equal.
pub proof fn lemma_sum_to_agree(f: spec_fn(int) -> int, g: spec_fn(int) -> int, n: int)
    requires
        forall|k: int| 0 <= k < n ==> #[trigger] f(k) == g(k),
    ensures
        sum_to(f, n) == sum_to(g, n),
    decreases n,
{
    if n > 0 {
        lemma_sum_to_agree(f, g, n - 1);
    }
}

/// A sum is monotone in its summand.
pub proof fn lemma_sum_to_le(f: spec_fn(int) -> int, g: spec_fn(int) -> int, n: int)
    requires
        forall|k: int| 0 <= k < n ==> #[trigger] f(k) <= g(k),
    ensures
        sum_to(f, n) <= sum_to(g, n),
    decreases n,
{
    if n > 0 {
        lemma_sum_to_le(f, g, n - 1);
    }
}

/// A sum of non-negative terms grows with the number of terms.
pub proof fn lemma_sum_to_grows(f: spec_fn(int) -> int, a: int, b: int)
    requires
        a <= b,
        forall|k: int| 0 <= k < b ==> 0 <= #[trigger] f(k),
    ensures
        0 <= sum_to(f, a) <= sum_to(f, b),
    decreases b,
{
    if b <= 0 {
    } else if a == b {
        lemma_sum_to_grows(f, a - 1, b - 1);
    } else {
        lemma_sum_to_grows(f, a, b - 1);
    }
}

/// A sum of terms that are all zero is zero.
pub proof fn lemma_sum_to_zero(f: spec_fn(int) -> int, n: int)
    requires
        forall|k: int| 0 <= k < n ==> #[trigger] f(k) == 0,
    ensures
        sum_to(f, n) == 0,
    decreases n,
{
    if n > 0 {
        lemma_sum_to_zero(f, n - 1);
    }
}

/// Terms that are zero from `a` on add nothing to a sum.
pub proof fn lemma_sum_to_zero_tail(f: spec_fn(int) -> int, a: int, n: int)
    requires
        0 <= a <= n,
        forall|k: int| a <= k < n ==> #[trigger] f(k) == 0,
    ensures
        sum_to(f, n) == sum_to(f, a),
    decreases n,
{
    if n > a {
        lemma_sum_to_zero_tail(f, a, n - 1);
    }
}

/// A sum of `n` terms that are all `x` is `n * x`.
pub proof fn lemma_sum_to_constant(f: spec_fn(int) -> int, x: int, n: int)
    requires
        0 <= n,
        forall|k: int| 0 <= k < n ==> #[trigger] f(k) == x,
    ensures
        sum_to(f, n) == n * x,
    decreases n,
{
    if n > 0 {
        lemma_sum_to_constant(f, x, n - 1);
        assert(n * x == (n - 1) * x + x) by (nonlinear_arith);
    } else {
        assert(0 * x == 0);
    }
}

/// The sum of a summand that is two others added is their two sums added.
pub proof fn lemma_sum_to_add(
    f: spec_fn(int) -> int,
    g: spec_fn(int) -> int,
    h: spec_fn(int) -> int,
    n: int,
)
    requires
        forall|k: int| 0 <= k < n ==> #[trigger] h(k) == f(k) + g(k),
    ensures
        sum_to(h, n) == sum_to(f, n) + sum_to(g, n),
    decreases n,
{
    if n > 0 {
        lemma_sum_to_add(f, g, h, n - 1);
    }
}

/// A common factor can be taken out of a sum.
pub proof fn lemma_sum_to_scaled(f: spec_fn(int) -> int, g: spec_fn(int) -> int, c: int, n: int)
    requires
        forall|k: int| 0 <= k < n ==> #[trigger] g(k) == c * f(k),
    ensures
        sum_to(g, n) == c * sum_to(f, n),
    decreases n,
{
    if n > 0 {
        lemma_sum_to_scaled(f, g, c, n - 1);
        assert(c * (sum_to(f, n - 1) + f(n - 1)) == c * sum_to(f, n - 1) + c * f(n - 1))
            by (nonlinear_arith);
    } else {
        assert(c * 0 == 0);
    }
}

/// Raising one term by `x` raises the sum by `x`.
pub proof fn lemma_sum_to_bump(
    f: spec_fn(int) -> int,
    g: spec_fn(int) -> int,
    at: int,
    x: int,
    n: int,
)
    requires
        0 <= at,
        g(at) == f(at) + x,
        forall|k: int| 0 <= k < n && k != at ==> #[trigger] g(k) == f(k),
    ensures
        sum_to(g, n) == sum_to(f, n) + if at < n { x } else { 0 },
    decreases n,
{
    if n > 0 {
        lemma_sum_to_bump(f, g, at, x, n - 1);
    }
}

/// A sum whose terms are zero but for one is that term.
pub proof fn lemma_sum_to_single(f: spec_fn(int) -> int, n: int, at: int)
    requires
        0 <= at < n,
        forall|k: int| 0 <= k < n && k != at ==> #[trigger] f(k) == 0,
    ensures
        sum_to(f, n) == f(at),
    decreases n,
{
    if at == n - 1 {
        lemma_sum_to_zero(f, n - 1);
    } else {
        lemma_sum_to_single(f, n - 1, at);
    }
}

/// A sum of differences `c(k + 1) - c(k)` is the last `c` less the first.
pub proof fn lemma_sum_to_telescope(f: spec_fn(int) -> int, c: spec_fn(int) -> int, n: int)
    requires
        0 <= n,
        forall|k: int| 0 <= k < n ==> #[trigger] f(k) == c(k + 1) - c(k),
    ensures
        sum_to(f, n) == c(n) - c(0),
    decreases n,
{
    if n > 0 {
        lemma_sum_to_telescope(f, c, n - 1);
    }
}

/// A term of a sum of non-negative terms is at most the sum.
pub proof fn lemma_sum_to_term(f: spec_fn(int) -> int, n: int, at: int)
    requires
        0 <= at < n,
        forall|k: int| 0 <= k < n ==> 0 <= #[trigger] f(k),
    ensures
        0 <= f(at) <= sum_to(f, n),
{
    lemma_sum_to_grows(f, at, n);
    lemma_sum_to_grows(f, at + 1, n);
    lemma_sum_to_grows(f, at, at + 1);
}

/// The sum of all entries of `s`.
pub open spec fn wide_total(s: Seq<u128>) -> int {
    sum_to(wide_entries(s), s.len() as int)
}

/// The total of a sequence extended by one entry.
pub proof fn lemma_total_push(s: Seq<u64>, x: u64)
    ensures
        total(s.push(x)) == total(s) + x,
{
    let t = s.push(x);
    assert forall|k: int| 0 <= k < s.len() implies #[trigger] entries(t)(k) == entries(s)(k) by {
        assert(t[k] == s[k]);
    }
    lemma_sum_to_agree(entries(t), entries(s), s.len() as int);
    assert(entries(t)(s.len() as int) == x);
}

/// `pi` lists the numbers below `n` in some order, and `inv` says where each
/// of them stands in `pi`.
pub open spec fn is_permutation(pi: Seq<int>, inv: Seq<int>, n: int) -> bool {
    &&& pi.len() == n
    &&& inv.len() == n
    &&& forall|i: int| 0 <= i < n ==> 0 <= #[trigger] pi[i] < n && inv[pi[i]] == i
    &&& forall|j: int| 0 <= j < n ==> 0 <= #[trigger] inv[j] < n && pi[inv[j]] == j
}

/// A sum without its term `at` falls short of the whole sum by that term.
pub proof fn lemma_sum_to_without(
    f: spec_fn(int) -> int,
    rest: spec_fn(int) -> int,
    at: int,
    n: int,
)
    requires
        0 <= at < n,
        forall|k: int| 0 <= k < at ==> #[trigger] rest(k) == f(k),
        forall|k: int| at <= k < n - 1 ==> #[trigger] rest(k) == f(k + 1),
    ensures
        sum_to(f, n) == sum_to(rest, n - 1) + f(at),
    decreases n,
{
    if at == n - 1 {
        lemma_sum_to_agree(f, rest, n - 1);
    } else {
        lemma_sum_to_without(f, rest, at, n - 1);
    }
}

/// A sum does not depend on the order of its terms.
pub proof fn lemma_sum_to_reordered(
    f: spec_fn(int) -> int,
    g: spec_fn(int) -> int,
    pi: Seq<int>,
    inv: Seq<int>,
    n: int,
)
    requires
        is_permutation(pi, inv, n),
        forall|i: int| 0 <= i < n ==> #[trigger] g(i) == f(pi[i]),
    ensures
        sum_to(g, n) == sum_to(f, n),
    decreases n,
{
    if n > 0 {
        let at: int = inv[n - 1];
        let skip = |i: int| if i < at { i } else { i + 1 };
        let rest = |i: int| g(skip(i));
        let pi0: Seq<int> = Seq::new((n - 1) as nat, |i: int| pi[skip(i)]);
        let inv0: Seq<int> = Seq::new(
            (n - 1) as nat,
            |j: int| if inv[j] < at { inv[j] } else { inv[j] - 1 },
        );
        assert(pi[at] == n - 1);
        assert forall|i: int| 0 <= i < n - 1 implies 0 <= #[trigger] pi0[i] < n - 1
            && inv0[pi0[i]] == i by {
            let from: int = skip(i);
            assert(inv[pi[from]] == from);
        }
        assert forall|j: int| 0 <= j < n - 1 implies 0 <= #[trigger] inv0[j] < n - 1
            && pi0[inv0[j]] == j by {
            assert(pi[inv[j]] == j);
        }
        assert forall|i: int| 0 <= i < n - 1 implies #[trigger] rest(i) == f(pi0[i]) by {
            assert(g(skip(i)) == f(pi[skip(i)]));
        }
        lemma_sum_to_reordered(f, rest, pi0, inv0, n - 1);
        lemma_sum_to_without(g, rest, at, n);
    }
}

} // verus!
