//! Laws of the tree's layout: which leaves lie below a node, how the
//! broadcast targets of a new leaf share out the other leaves, and where
//! two leaf paths part.
use vstd::prelude::*;
use crate::group_flow::leaf_sibling;
use crate::groups::divergence_from_root;
use crate::laws::{lemma_divergence_at, lemma_sibling_subtree_meets_above};
use crate::levels::{lemma_floor_log2_of_two_pow, lemma_two_pow_pos, two_pow};
use crate::path_math::{lemma_divide_twice, lemma_leaves_under_iff, lemma_path_closed, lemma_path_depth};
use crate::tree::{
    broadcast_plan, internal_path, leaves_under, lemma_leaves_under_in_range, node_depth, sibling,
    siblings_of,
};

verus! {

/// The ancestor of leaf `x` `j` levels up, counted from 1 at the root:
/// `(l + x) / 2^j`.
pub open spec fn level_index(l: nat, x: nat, j: nat) -> nat {
    (l + x) / two_pow(j)
}

proof fn lemma_level_step(l: nat, x: nat, j: nat)
    ensures
        level_index(l, x, j + 1) == level_index(l, x, j) / 2,
{
    lemma_divide_twice(l + x, j, 1);
    assert(two_pow(0) == 1);
    assert(two_pow(1) == 2);
}

proof fn lemma_level_equal_above(l: nat, m: nat, n: nat, a: nat, b: nat)
    requires
        a <= b,
        level_index(l, m, a) == level_index(l, n, a),
    ensures
        level_index(l, m, b) == level_index(l, n, b),
{
    lemma_divide_twice(l + m, a, (b - a) as nat);
    lemma_divide_twice(l + n, a, (b - a) as nat);
    assert(a + (b - a) as nat == b);
}

proof fn lemma_level_top(tt: nat, x: nat)
    requires
        x < two_pow(tt),
    ensures
        level_index(two_pow(tt), x, tt) == 1,
{
    lemma_two_pow_pos(tt);
    vstd::arithmetic::div_mod::lemma_fundamental_div_mod_converse(
        (two_pow(tt) + x) as int,
        two_pow(tt) as int,
        1,
        x as int,
    );
}

/// Leaves that share their parent differ, at the first level up, in
/// nothing.
proof fn lemma_level_one(tt: nat, m: nat, n: nat)
    requires
        tt >= 1,
        m < two_pow(tt),
        n < two_pow(tt),
        n <= usize::MAX,
    ensures
        level_index(two_pow(tt), m, 1) == level_index(two_pow(tt), n, 1) <==> (m == n || m
            == leaf_sibling(n as usize)),
{
    assert(two_pow(0) == 1);
    assert(two_pow(1) == 2);
    assert(two_pow(tt) == 2 * two_pow((tt - 1) as nat));
    let h = two_pow((tt - 1) as nat);
    assert((2 * h + m) / 2 == h + m / 2);
    assert((2 * h + n) / 2 == h + n / 2);
}

/// A non-root node of a path and its sibling, one level above the leaf
/// level counted as `k + 1`.
proof fn lemma_sibling_level(tt: nat, n: nat, k: int)
    requires
        n < two_pow(tt),
        2 * two_pow(tt) <= usize::MAX,
        0 <= k < internal_path(two_pow(tt), n).len(),
        internal_path(two_pow(tt), n)[k] != 0,
    ensures
        ({
            let l = two_pow(tt);
            let x = internal_path(l, n)[k];
            let s = sibling(x);
            &&& x + 1 == level_index(l, n, (k + 1) as nat)
            &&& node_depth(s as nat) == tt - k - 1
            &&& s + 1 < l
            &&& (s + 1) / 2 == (x + 1) / 2
            &&& s + 1 != x + 1
        }),
{
    let l = two_pow(tt);
    lemma_path_closed(tt, n);
    lemma_path_depth(tt, n, k);
    let x = internal_path(l, n)[k];
    let e = (tt - k - 1) as nat;
    lemma_two_pow_pos(e);
    if e == 0 {
        assert(two_pow(0) == 1);
        assert(two_pow(1) == 2);
        assert((tt - k) as nat == 1);
        assert(false);
    }
    assert(two_pow((tt - k) as nat) == 2 * two_pow(e));
    assert(two_pow(e) == 2 * two_pow((e - 1) as nat));
    crate::levels::lemma_two_pow_monotone(e + 1, tt);
    assert((e + 1) as nat == (tt - k) as nat);
    let s = sibling(x);
    if x % 2 == 0 {
        assert(s + 1 >= two_pow(e)) by {
            assert((x + 1) % 2 == 1);
            assert(two_pow(e) % 2 == 0);
        }
    } else {
        assert(s + 1 < 2 * two_pow(e)) by {
            assert((x + 1) % 2 == 0);
        }
    }
    crate::levels::lemma_floor_log2_unique((s + 1) as nat, e);
}

/// The leaves under the sibling of the `k`-th node of leaf `n`'s path are
/// those whose ancestors differ from `n`'s at level `k + 1` and agree one
/// level higher.
proof fn lemma_plan_entry_iff(tt: nat, n: nat, m: nat, k: int)
    requires
        n < two_pow(tt),
        m < two_pow(tt),
        2 * two_pow(tt) <= usize::MAX,
        0 <= k < internal_path(two_pow(tt), n).len(),
        internal_path(two_pow(tt), n)[k] != 0,
    ensures
        leaves_under(sibling(internal_path(two_pow(tt), n)[k]) as nat, two_pow(tt)).contains(
            m as usize,
        ) <==> (level_index(two_pow(tt), m, (k + 1) as nat) != level_index(
            two_pow(tt),
            n,
            (k + 1) as nat,
        ) && level_index(two_pow(tt), m, (k + 2) as nat) == level_index(
            two_pow(tt),
            n,
            (k + 2) as nat,
        )),
{
    let l = two_pow(tt);
    lemma_sibling_level(tt, n, k);
    let x = internal_path(l, n)[k];
    let s = sibling(x);
    lemma_leaves_under_iff(s as nat, tt, m);
    assert((tt - node_depth(s as nat)) as nat == (k + 1) as nat);
    lemma_level_step(l, m, (k + 1) as nat);
    lemma_level_step(l, n, (k + 1) as nat);
    assert(((k + 1) + 1) as nat == (k + 2) as nat);
}

proof fn lemma_siblings_prefix(path: Seq<usize>, j: int)
    requires
        0 <= j <= path.len(),
        forall|k: int| 0 <= k < j ==> #[trigger] path[k] != 0,
    ensures
        siblings_of(path.take(j)) == Seq::new(j as nat, |k: int| sibling(path[k])),
    decreases j,
{
    if j > 0 {
        lemma_siblings_prefix(path, j - 1);
        assert(path.take(j).drop_last() =~= path.take(j - 1));
        assert(path.take(j).last() == path[j - 1]);
        assert(siblings_of(path.take(j)) =~= Seq::new(j as nat, |k: int| sibling(path[k])));
    } else {
        assert(path.take(0).len() == 0);
        assert(siblings_of(path.take(0)) =~= Seq::new(0, |k: int| sibling(path[k])));
    }
}

/// The broadcast plan of leaf `n`: one entry per non-root node of its path,
/// the node's sibling and the leaves below it.
pub(crate) proof fn lemma_plan_shape(tt: nat, n: nat)
    requires
        tt >= 1,
        n < two_pow(tt),
        2 * two_pow(tt) <= usize::MAX,
    ensures
        ({
            let l = two_pow(tt);
            let path = internal_path(l, n);
            let plan = broadcast_plan(l, n);
            &&& path.len() == tt
            &&& plan.len() == tt - 1
            &&& forall|k: int| 0 <= k < tt - 1 ==> #[trigger] path[k] != 0
            &&& forall|k: int|
                0 <= k < tt - 1 ==> #[trigger] plan[k] == (
                    leaves_under(sibling(path[k]) as nat, l),
                    sibling(path[k]),
                )
        }),
{
    let l = two_pow(tt);
    let path = internal_path(l, n);
    lemma_path_closed(tt, n);
    assert forall|k: int| 0 <= k < tt - 1 implies #[trigger] path[k] != 0 by {
        lemma_path_depth(tt, n, k);
        assert(two_pow((tt - k - 1) as nat) >= 2) by {
            assert(two_pow((tt - k - 1) as nat) == 2 * two_pow((tt - k - 2) as nat));
            lemma_two_pow_pos((tt - k - 2) as nat);
        }
    }
    lemma_path_depth(tt, n, tt - 1);
    assert(two_pow(0) == 1);
    assert(two_pow(1) == 2);
    assert((tt - (tt - 1) - 1) as nat == 0);
    assert(path[tt - 1] == 0);
    if tt > 1 {
        lemma_siblings_prefix(path, tt - 1);
        assert(path.drop_last() =~= path.take(tt - 1));
        assert(path.last() == 0);
    }
}

/// The broadcast targets of a new leaf share out the other leaves of a
/// full tree: the plan has one entry per non-root node of the leaf's path,
/// made of the node's sibling and the leaves below it; no entry holds the
/// new leaf or its neighbour; every other leaf is in some entry; and no
/// leaf is in two entries.
pub proof fn law_broadcast_plan_covers(tt: nat, n: nat, m: nat)
    requires
        tt >= 1,
        n < two_pow(tt),
        m < two_pow(tt),
        2 * two_pow(tt) <= usize::MAX,
    ensures
        ({
            let l = two_pow(tt);
            let path = internal_path(l, n);
            let plan = broadcast_plan(l, n);
            &&& plan.len() == tt - 1
            &&& forall|k: int|
                0 <= k < plan.len() ==> #[trigger] plan[k].1 == sibling(path[k]) && plan[k].0
                    == leaves_under(plan[k].1 as nat, l)
            &&& forall|k: int|
                0 <= k < plan.len() && #[trigger] plan[k].0.contains(m as usize) ==> m != n && m
                    != leaf_sibling(n as usize)
            &&& (m != n && m != leaf_sibling(n as usize)) ==> exists|k: int|
                0 <= k < plan.len() && #[trigger] plan[k].0.contains(m as usize)
            &&& forall|k1: int, k2: int|
                0 <= k1 < plan.len() && 0 <= k2 < plan.len() && #[trigger] plan[k1].0.contains(
                    m as usize,
                ) && #[trigger] plan[k2].0.contains(m as usize) ==> k1 == k2
        }),
{
    let l = two_pow(tt);
    let path = internal_path(l, n);
    let plan = broadcast_plan(l, n);
    lemma_plan_shape(tt, n);
    lemma_level_one(tt, m, n);
    assert forall|k: int|
        0 <= k < plan.len() && #[trigger] plan[k].0.contains(m as usize) implies m != n && m
            != leaf_sibling(n as usize) by {
        lemma_plan_entry_iff(tt, n, m, k);
        if m == n || m == leaf_sibling(n as usize) {
            lemma_level_equal_above(l, m, n, 1, (k + 1) as nat);
        }
    }
    assert forall|k1: int, k2: int|
        0 <= k1 < plan.len() && 0 <= k2 < plan.len() && #[trigger] plan[k1].0.contains(m as usize)
            && #[trigger] plan[k2].0.contains(m as usize) implies k1 == k2 by {
        lemma_plan_entry_iff(tt, n, m, k1);
        lemma_plan_entry_iff(tt, n, m, k2);
        if k1 < k2 {
            lemma_level_equal_above(l, m, n, (k1 + 2) as nat, (k2 + 1) as nat);
        } else if k2 < k1 {
            lemma_level_equal_above(l, m, n, (k2 + 2) as nat, (k1 + 1) as nat);
        }
    }
    if m != n && m != leaf_sibling(n as usize) {
        lemma_level_top(tt, m);
        lemma_level_top(tt, n);
        let k = lemma_find_level(tt, m, n, 1);
        lemma_plan_entry_iff(tt, n, m, k);
        assert(plan[k].0.contains(m as usize));
    }
}

/// The highest level, from `j` on, at which the ancestors of two leaves
/// still differ.
proof fn lemma_find_level(tt: nat, m: nat, n: nat, j: nat) -> (k: int)
    requires
        1 <= j <= tt,
        level_index(two_pow(tt), m, j) != level_index(two_pow(tt), n, j),
        level_index(two_pow(tt), m, tt) == level_index(two_pow(tt), n, tt),
    ensures
        j - 1 <= k <= tt - 2,
        level_index(two_pow(tt), m, (k + 1) as nat) != level_index(two_pow(tt), n, (k + 1) as nat),
        level_index(two_pow(tt), m, (k + 2) as nat) == level_index(two_pow(tt), n, (k + 2) as nat),
    decreases tt - j,
{
    let l = two_pow(tt);
    if level_index(l, m, j + 1) == level_index(l, n, j + 1) {
        assert((j - 1 + 1) as nat == j);
        assert((j - 1 + 2) as nat == j + 1);
        j - 1
    } else {
        lemma_find_level(tt, m, n, j + 1)
    }
}

proof fn lemma_divergence_none(a: Seq<usize>)
    ensures
        divergence_from_root(a, a) is None,
    decreases a.len(),
{
    if a.len() > 0 {
        lemma_divergence_none(a.drop_last());
    }
}

/// Where the path of a leaf `s` leaves the path of another leaf `n`, seen
/// from the root, is the node of `n`'s broadcast plan whose leaves hold
/// `s`; the neighbour of `n` shares its whole path, and the paths do not
/// part.
pub proof fn law_divergence_names_broadcast_node(tt: nat, n: nat, s: nat)
    requires
        tt >= 1,
        n < two_pow(tt),
        s < two_pow(tt),
        s != n,
        2 * two_pow(tt) <= usize::MAX,
    ensures
        ({
            let l = two_pow(tt);
            let plan = broadcast_plan(l, n);
            &&& s == leaf_sibling(n as usize) ==> divergence_from_root(
                internal_path(l, s),
                internal_path(l, n),
            ) is None
            &&& s != leaf_sibling(n as usize) ==> exists|k: int|
                0 <= k < plan.len() && #[trigger] plan[k].0.contains(s as usize)
                    && divergence_from_root(internal_path(l, s), internal_path(l, n)) == Some(
                    plan[k].1,
                )
        }),
{
    let l = two_pow(tt);
    let plan = broadcast_plan(l, n);
    let ps = internal_path(l, s);
    let pn = internal_path(l, n);
    law_broadcast_plan_covers(tt, n, s);
    lemma_plan_shape(tt, n);
    if s == leaf_sibling(n as usize) {
        lemma_level_one(tt, s, n);
        lemma_path_closed(tt, s);
        lemma_path_closed(tt, n);
        assert forall|k: int| 0 <= k < tt implies #[trigger] ps[k] == pn[k] by {
            lemma_level_equal_above(l, s, n, 1, (k + 1) as nat);
        }
        assert(ps =~= pn);
        lemma_divergence_none(ps);
    } else {
        let k = choose|k: int| 0 <= k < plan.len() && #[trigger] plan[k].0.contains(s as usize);
        lemma_sibling_subtree_meets_above(tt, n, s, k);
        lemma_divergence_at(ps, pn, k);
    }
}

/// The leaves below an internal node of a full tree are exactly the leaves
/// whose paths pass through it.
pub proof fn law_descendants_are_the_leaves_below(tt: nat, i: usize, m: usize)
    requires
        i + 1 < two_pow(tt),
        2 * two_pow(tt) <= usize::MAX,
    ensures
        leaves_under(i as nat, two_pow(tt)).contains(m) <==> (m < two_pow(tt) && internal_path(
            two_pow(tt),
            m as nat,
        ).contains(i)),
{
    let l = two_pow(tt);
    lemma_floor_log2_of_two_pow(tt);
    lemma_leaves_under_in_range(i as nat, l);
    let d = node_depth(i as nat);
    let lu = leaves_under(i as nat, l);
    if lu.contains(m) {
        let w = choose|w: int| 0 <= w < lu.len() && lu[w] == m;
        assert(m < l);
        lemma_leaves_under_iff(i as nat, tt, m as nat);
        lemma_path_closed(tt, m as nat);
        let j = tt - d - 1;
        assert(((j + 1) as nat) == (tt - d) as nat);
        assert(internal_path(l, m as nat)[j] == i);
    }
    if m < l && internal_path(l, m as nat).contains(i) {
        let p = internal_path(l, m as nat);
        lemma_path_closed(tt, m as nat);
        let j = choose|j: int| 0 <= j < p.len() && p[j] == i;
        lemma_path_depth(tt, m as nat, j);
        assert(((j + 1) as nat) == (tt - d) as nat);
        lemma_leaves_under_iff(i as nat, tt, m as nat);
    }
}

} // verus!
