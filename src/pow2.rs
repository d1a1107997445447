use vstd::prelude::*;

verus! {

/// `2` raised to the power `k`.
pub open spec fn pow2(k: nat) -> nat
    decreases k,
{
    if k == 0 {
        1
    } else {
        2 * pow2((k - 1) as nat)
    }
}

/// The smallest power of two that is at least `n` (one for `n <= 1`).
pub open spec fn next_pow2(n: nat) -> nat
    decreases n,
{
    if n <= 1 {
        1
    } else {
        2 * next_pow2((n / 2 + n % 2) as nat)
    }
}

/// `next_pow2(n)` is a power of two, at least `n`, and no power of two in
/// between is large enough.
pub proof fn lemma_next_pow2(n: nat)
    ensures
        next_pow2(n) >= n,
        next_pow2(n) >= 1,
        exists|k: nat| pow2(k) == next_pow2(n),
        forall|k: nat| pow2(k) >= n ==> #[trigger] pow2(k) >= next_pow2(n),
    decreases n,
{
    if n <= 1 {
        assert(pow2(0) == 1);
        assert forall|k: nat| pow2(k) >= n implies #[trigger] pow2(k) >= next_pow2(n) by {
            lemma_pow2_positive(k);
        }
    } else {
        let h = (n / 2 + n % 2) as nat;
        lemma_next_pow2(h);
        let k0 = choose|k: nat| pow2(k) == next_pow2(h);
        assert(pow2(k0 + 1) == next_pow2(n));
        assert forall|k: nat| pow2(k) >= n implies #[trigger] pow2(k) >= next_pow2(n) by {
            if k == 0 {
            } else {
                let j = (k - 1) as nat;
                assert(pow2(k) == 2 * pow2(j));
                assert(pow2(j) >= h);
            }
        }
    }
}

/// `next_pow2(n)` is less than `2 * n` for `n >= 1`: it overshoots by less
/// than a factor of two.
pub proof fn lemma_next_pow2_bound(n: nat)
    ensures
        n >= 1 ==> next_pow2(n) < 2 * n,
        n <= 1 ==> next_pow2(n) == 1,
    decreases n,
{
    if n > 1 {
        lemma_next_pow2_bound((n / 2 + n % 2) as nat);
    }
}

/// Every power of two is at least one.
pub proof fn lemma_pow2_positive(k: nat)
    ensures
        pow2(k) >= 1,
    decreases k,
{
    if k > 0 {
        lemma_pow2_positive((k - 1) as nat);
    }
}

/// The smallest power of two that is at least `n`, or `None` where it does
/// not fit in a `usize`.
pub fn checked_next_power_of_two(n: usize) -> (r: Option<usize>)
    ensures
        next_pow2(n as nat) <= usize::MAX ==> r == Some(next_pow2(n as nat) as usize),
        next_pow2(n as nat) > usize::MAX ==> r is None,
    decreases n,
{
    if n <= 1 {
        Some(1)
    } else {
        let half = n / 2 + n % 2;
        match checked_next_power_of_two(half) {
            Some(p) => p.checked_mul(2),
            None => None,
        }
    }
}

} // verus!
