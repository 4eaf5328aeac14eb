//! Powers of two and integer base-2 logarithms, the arithmetic behind the
//! level-order layout of the ratchet tree.
use vstd::prelude::*;

verus! {

/// `2^k`.
pub open spec fn two_pow(k: nat) -> nat
    decreases k,
{
    if k == 0 {
        1
    } else {
        2 * two_pow((k - 1) as nat)
    }
}

/// `floor(log2(n))` for `n >= 1` (and 0 for `n == 0`).
pub open spec fn floor_log2(n: nat) -> nat
    decreases n,
{
    if n <= 1 {
        0
    } else {
        1 + floor_log2(n / 2)
    }
}

/// `n` is a power of two.
pub open spec fn is_power_of_two(n: nat) -> bool {
    n >= 1 && two_pow(floor_log2(n)) == n
}

pub proof fn lemma_two_pow_pos(k: nat)
    ensures
        two_pow(k) >= 1,
    decreases k,
{
    if k > 0 {
        lemma_two_pow_pos((k - 1) as nat);
    }
}

pub proof fn lemma_two_pow_monotone(a: nat, b: nat)
    requires
        a <= b,
    ensures
        two_pow(a) <= two_pow(b),
    decreases b,
{
    if a < b {
        lemma_two_pow_monotone(a, (b - 1) as nat);
        lemma_two_pow_pos((b - 1) as nat);
    }
}

pub proof fn lemma_two_pow_adds(a: nat, b: nat)
    ensures
        two_pow(a + b) == two_pow(a) * two_pow(b),
    decreases b,
{
    if b > 0 {
        let b1 = (b - 1) as nat;
        lemma_two_pow_adds(a, b1);
        assert(a + b1 == (a + b - 1) as nat);
        assert(two_pow(a + b) == 2 * two_pow(a + b1));
        assert(two_pow(b) == 2 * two_pow(b1));
        let x = two_pow(a);
        let y = two_pow(b1);
        assert(x * (2 * y) == 2 * (x * y)) by (nonlinear_arith);
        assert(two_pow(a) * two_pow(b) == x * (2 * y));
    } else {
        assert(two_pow(b) == 1);
        assert(a + b == a);
    }
}

/// `2^floor(log2 n) <= n < 2^(floor(log2 n) + 1)`.
pub proof fn lemma_floor_log2_bounds(n: nat)
    requires
        n >= 1,
    ensures
        two_pow(floor_log2(n)) <= n,
        n < 2 * two_pow(floor_log2(n)),
    decreases n,
{
    if n > 1 {
        lemma_floor_log2_bounds(n / 2);
    }
}

/// The logarithm is pinned down by the bracketing power of two.
pub proof fn lemma_floor_log2_unique(n: nat, k: nat)
    requires
        two_pow(k) <= n,
        n < 2 * two_pow(k),
    ensures
        floor_log2(n) == k,
    decreases k,
{
    lemma_two_pow_pos(k);
    if k > 0 {
        lemma_floor_log2_unique(n / 2, (k - 1) as nat);
    } else {
        assert(n == 1);
    }
}

pub proof fn lemma_floor_log2_monotone(a: nat, b: nat)
    requires
        1 <= a <= b,
    ensures
        floor_log2(a) <= floor_log2(b),
{
    lemma_floor_log2_bounds(a);
    lemma_floor_log2_bounds(b);
    if floor_log2(a) > floor_log2(b) {
        lemma_two_pow_monotone(floor_log2(b) + 1, floor_log2(a));
    }
}

pub proof fn lemma_floor_log2_of_two_pow(k: nat)
    ensures
        floor_log2(two_pow(k)) == k,
        is_power_of_two(two_pow(k)),
{
    lemma_two_pow_pos(k);
    lemma_floor_log2_unique(two_pow(k), k);
}

/// `2^64`, computed by repeated squaring.
pub proof fn lemma_two_pow_64()
    ensures
        two_pow(64) == 0x1_0000_0000_0000_0000nat,
        two_pow(65) == 0x2_0000_0000_0000_0000nat,
{
    assert(two_pow(0) == 1);
    assert(two_pow(1) == 2);
    lemma_two_pow_adds(1, 1);
    assert(two_pow(2) == 4);
    lemma_two_pow_adds(2, 2);
    assert(two_pow(4) == 16);
    lemma_two_pow_adds(4, 4);
    assert(two_pow(8) == 256);
    lemma_two_pow_adds(8, 8);
    assert(two_pow(16) == 65536);
    lemma_two_pow_adds(16, 16);
    assert(two_pow(32) == 0x1_0000_0000nat);
    lemma_two_pow_adds(32, 32);
    assert(two_pow(64) == 0x1_0000_0000_0000_0000nat);
    lemma_two_pow_adds(64, 1);
}

/// Returns `(floor(log2 n), 2^floor(log2 n))`.
pub fn floor_log2_exec(n: u128) -> (r: (usize, u128))
    requires
        1 <= n <= 0x1_0000_0000_0000_0000u128,
    ensures
        r.0 == floor_log2(n as nat),
        r.1 == two_pow(r.0 as nat),
        1 <= r.1 <= n,
        n < 2 * r.1,
{
    let mut k: usize = 0;
    let mut p: u128 = 1;
    while p * 2 <= n
        invariant
            1 <= n <= 0x1_0000_0000_0000_0000u128,
            p == two_pow(k as nat),
            1 <= p <= n,
            k <= 64,
            p >= two_pow(k as nat),
        decreases n - p,
    {
        proof {
            if k >= 64 {
                lemma_two_pow_monotone(65, (k + 1) as nat);
                lemma_two_pow_64();
            }
        }
        p = p * 2;
        k = k + 1;
    }
    proof {
        lemma_floor_log2_unique(n as nat, k as nat);
    }
    (k, p)
}

/// Whether `n` is a power of two.
pub fn is_power_of_two_exec(n: usize) -> (r: bool)
    ensures
        r == is_power_of_two(n as nat),
{
    if n == 0 {
        return false;
    }
    let (_k, p) = floor_log2_exec(n as u128);
    p == n as u128
}

} // verus!
