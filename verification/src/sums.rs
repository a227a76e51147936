//! Sums of finitely many numbers.
use vstd::prelude::*;

verus! {

/// The sum of `f(0)`, `f(1)` and so on, `n` of them.
pub open spec fn total(f: spec_fn(int) -> int, n: nat) -> int
    decreases n,
{
    if n == 0 {
        0
    } else {
        total(f, (n - 1) as nat) + f(n - 1)
    }
}

/// The word holds the sum of the first `n` numbers, and of any fewer of them.
pub open spec fn sums_fit(f: spec_fn(int) -> int, n: nat) -> bool {
    forall|j: nat| j <= n ==> i64::MIN <= #[trigger] total(f, j) <= i64::MAX
}

/// The word holds a number once the first `n` numbers are added to it, or any fewer of them.
pub open spec fn stays_in_word(start: int, f: spec_fn(int) -> int, n: nat) -> bool {
    forall|j: nat| j <= n ==> i64::MIN <= start + #[trigger] total(f, j) <= i64::MAX
}

/// A sum of numbers that are not negative grows with how many they are.
pub proof fn lemma_total_grows(f: spec_fn(int) -> int, m: nat, n: nat)
    requires
        m <= n,
        forall|k: int| 0 <= k < n ==> #[trigger] f(k) >= 0,
    ensures
        0 <= total(f, m) <= total(f, n),
    decreases n,
{
    if m < n {
        lemma_total_grows(f, m, (n - 1) as nat);
    } else if n > 0 {
        lemma_total_grows(f, (n - 1) as nat, (n - 1) as nat);
    }
}

} // verus!
