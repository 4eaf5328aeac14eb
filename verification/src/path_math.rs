//! Closed forms for the paths of a full tree: in a tree of `2^t` leaves,
//! the `k`-th node above leaf `m` is `(2^t + m) / 2^(k+1) - 1`, and a leaf
//! lies under a node exactly when that node is on its path.
use vstd::prelude::*;
use crate::levels::{
    lemma_floor_log2_of_two_pow, lemma_floor_log2_unique, lemma_two_pow_adds,
    lemma_two_pow_pos, two_pow,
};
use crate::tree::{ancestors, internal_path, leaves_under, node_depth, lemma_leaves_under_in_range};

verus! {

/// Dividing by 2 and then by `2^k` is dividing by `2^(k+1)`.
pub proof fn lemma_halve_then_divide(x: nat, k: nat)
    ensures
        (x / 2) / two_pow(k) == x / two_pow(k + 1),
{
    lemma_two_pow_pos(k);
    vstd::arithmetic::div_mod::lemma_div_denominator(x as int, 2, two_pow(k) as int);
    assert(two_pow(k + 1) == 2 * two_pow(k));
}

/// Dividing by `2^a` and then by `2^b` is dividing by `2^(a+b)`.
pub proof fn lemma_divide_twice(x: nat, a: nat, b: nat)
    ensures
        (x / two_pow(a)) / two_pow(b) == x / two_pow(a + b),
{
    lemma_two_pow_pos(a);
    lemma_two_pow_pos(b);
    lemma_two_pow_adds(a, b);
    vstd::arithmetic::div_mod::lemma_div_denominator(x as int, two_pow(a) as int, two_pow(b) as int);
}

/// `x / 2^k` stays between the powers of two that bracket `x`, shifted.
pub proof fn lemma_divide_bracket(x: nat, s: nat, k: nat)
    requires
        k <= s,
        two_pow(s) <= x < two_pow(s + 1),
    ensures
        two_pow((s - k) as nat) <= x / two_pow(k) < two_pow((s - k + 1) as nat),
{
    let e = (s - k) as nat;
    lemma_two_pow_pos(k);
    lemma_two_pow_adds(e, k);
    lemma_two_pow_adds((e + 1) as nat, k);
    assert(e + k == s);
    assert((e + 1) as nat + k == s + 1);
    let p = two_pow(k);
    let lo = two_pow(e);
    let hi = two_pow((e + 1) as nat);
    assert(lo * p <= x);
    assert(x < hi * p);
    vstd::arithmetic::div_mod::lemma_fundamental_div_mod(x as int, p as int);
    let q = x / p;
    let r = x % p;
    assert(0 <= r < p) by {
        vstd::arithmetic::div_mod::lemma_mod_pos_bound(x as int, p as int);
    }
    assert(lo <= q) by (nonlinear_arith)
        requires
            lo * p <= x,
            x == p * q + r,
            r < p,
            p > 0,
            q >= 0,
    ;
    assert(q < hi) by (nonlinear_arith)
        requires
            x < hi * p,
            x == p * q + r,
            r >= 0,
            p > 0,
    ;
}

/// The ancestors of a position at depth `s` of the level-order layout, when
/// none is filtered out: `s` of them, the `k`-th being
/// `(idx + 1) / 2^(k+1) - 1`.
pub proof fn lemma_ancestors_closed(idx: nat, s: nat, n: nat)
    requires
        two_pow(s) <= idx + 1 < two_pow(s + 1),
        n + 1 >= two_pow(s),
        idx <= usize::MAX,
    ensures
        ancestors(idx, n).len() == s,
        forall|k: int|
            0 <= k < s ==> #[trigger] ancestors(idx, n)[k] as int == (idx + 1) / two_pow(
                (k + 1) as nat,
            ) - 1,
    decreases s,
{
    if s == 0 {
        assert(two_pow(0) == 1);
        assert(two_pow(1) == 2);
        assert(idx == 0);
    } else {
        lemma_two_pow_pos((s - 1) as nat);
        assert(two_pow(s) == 2 * two_pow((s - 1) as nat));
        assert(idx >= 1);
        let p = ((idx - 1) / 2) as nat;
        assert(p + 1 == (idx + 1) / 2);
        lemma_divide_bracket(idx + 1, s, 1);
        assert(two_pow(0) == 1);
        assert(two_pow(1) == 2);
        assert((s - 1 + 1) as nat == s);
        assert(two_pow((s - 1) as nat) <= p + 1 < two_pow(s));
        assert(p < n);
        lemma_ancestors_closed(p, (s - 1) as nat, n);
        let a = ancestors(idx, n);
        let rest = ancestors(p, n);
        assert(a == seq![p as usize] + rest);
        assert forall|k: int| 0 <= k < s implies #[trigger] a[k] as int == (idx + 1) / two_pow(
            (k + 1) as nat,
        ) - 1 by {
            if k == 0 {
                assert(a[0] == p as usize);
            } else {
                assert(a[k] == rest[k - 1]);
                lemma_halve_then_divide(idx + 1, k as nat);
                assert((k - 1 + 1) as nat == k as nat);
            }
        }
    }
}

/// The path of leaf `m` in a tree of `2^t` leaves: `t` nodes, the `k`-th
/// being `(2^t + m) / 2^(k+1) - 1`.
pub proof fn lemma_path_closed(t: nat, m: nat)
    requires
        m < two_pow(t),
        two_pow(t) - 1 + m <= usize::MAX,
    ensures
        internal_path(two_pow(t), m).len() == t,
        forall|k: int|
            0 <= k < t ==> #[trigger] internal_path(two_pow(t), m)[k] as int == (two_pow(t) + m)
                / two_pow((k + 1) as nat) - 1,
{
    lemma_two_pow_pos(t);
    assert(two_pow(t + 1) == 2 * two_pow(t));
    lemma_ancestors_closed((two_pow(t) - 1 + m) as nat, t, (two_pow(t) - 1) as nat);
}

/// The `k`-th node of a path of a tree of `2^t` leaves lies at depth
/// `t - k - 1`.
pub proof fn lemma_path_depth(t: nat, m: nat, k: int)
    requires
        m < two_pow(t),
        two_pow(t) - 1 + m <= usize::MAX,
        0 <= k < t,
    ensures
        node_depth(internal_path(two_pow(t), m)[k] as nat) == t - k - 1,
        two_pow((t - k - 1) as nat) <= internal_path(two_pow(t), m)[k] + 1 < two_pow(
            (t - k) as nat,
        ),
{
    lemma_path_closed(t, m);
    lemma_two_pow_pos(t);
    assert(two_pow(t + 1) == 2 * two_pow(t));
    lemma_divide_bracket(two_pow(t) + m, t, (k + 1) as nat);
    let x = internal_path(two_pow(t), m)[k];
    let e = (t - k - 1) as nat;
    assert((t - (k + 1)) as nat == e);
    assert((t - (k + 1) + 1) as nat == (t - k) as nat);
    assert(two_pow((t - k) as nat) == 2 * two_pow(e));
    lemma_floor_log2_unique((x + 1) as nat, e);
}

/// A leaf lies under an internal node exactly when the node is the one its
/// path reaches at that node's depth.
pub proof fn lemma_leaves_under_iff(i: nat, t: nat, r: nat)
    requires
        i + 1 < two_pow(t),
        r < two_pow(t),
        two_pow(t) <= usize::MAX,
    ensures
        leaves_under(i, two_pow(t)).contains(r as usize) <==> (two_pow(t) + r) / two_pow(
            (t - node_depth(i)) as nat,
        ) == i + 1,
{
    let l = two_pow(t);
    lemma_floor_log2_of_two_pow(t);
    lemma_leaves_under_in_range(i, l);
    let d = node_depth(i);
    let c = crate::tree::leaf_count_under(i, l);
    assert(c == two_pow((t - d) as nat));
    let pd = two_pow(d);
    let first = crate::tree::first_leaf_under(i, l);
    crate::levels::lemma_floor_log2_bounds(i + 1);
    assert(pd <= i + 1);
    assert(pd * c == l);
    lemma_two_pow_pos((t - d) as nat);
    assert(first == (i + 1 - pd) * c);
    let lu = leaves_under(i, l);
    let q = (l + r) / c;
    let rem = (l + r) % c;
    vstd::arithmetic::div_mod::lemma_fundamental_div_mod((l + r) as int, c as int);
    vstd::arithmetic::div_mod::lemma_mod_pos_bound((l + r) as int, c as int);
    assert(first + c <= l);
    if lu.contains(r as usize) {
        let k = choose|k: int| 0 <= k < lu.len() && lu[k] == r as usize;
        assert(lu[k] == (first + k) as usize);
        assert(first + k < l);
        assert(r == first + k);
        assert(l + r == (i + 1) * c + k) by (nonlinear_arith)
            requires
                pd * c == l,
                r == first + k,
                first == (i + 1 - pd) * c,
                pd <= i + 1,
        ;
        vstd::arithmetic::div_mod::lemma_fundamental_div_mod_converse(
            (l + r) as int,
            c as int,
            (i + 1) as int,
            k,
        );
    }
    if q == i + 1 {
        let k = rem;
        assert(r == first + k) by (nonlinear_arith)
            requires
                pd * c == l,
                l + r == c * q + rem,
                q == i + 1,
                first == (i + 1 - pd) * c,
                pd <= i + 1,
                k == rem,
        ;
        assert(0 <= k < lu.len());
        assert(lu[k as int] == r as usize);
    }
}

} // verus!
