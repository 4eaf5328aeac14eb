//! The ratchet tree of a group: leaves hold members, internal nodes hold the
//! public keys derived along the members' paths. Internal nodes are laid out
//! in level order (node `i` has children `2i+1` and `2i+2`), and the leaves
//! follow them, so that leaf `m` of a tree with `L` leaves sits at
//! position `L - 1 + m`.
use vstd::prelude::*;
use crate::levels::{
    floor_log2, floor_log2_exec, is_power_of_two, lemma_floor_log2_bounds, lemma_floor_log2_monotone,
    lemma_two_pow_monotone, lemma_two_pow_pos, two_pow,
};

verus! {

// ---------------------------------------------------------------------------
// Index arithmetic
// ---------------------------------------------------------------------------

/// Where internal node `i` lands when the tree doubles: the old tree becomes
/// the left subtree of a new root, so a node at level `d`, position `p`
/// moves to level `d + 1`, position `p`.
pub open spec fn new_index(i: nat) -> nat {
    i + two_pow(floor_log2(i + 1))
}

/// The node that `n` was before the tree doubled, if `n` is the image of one.
pub open spec fn original_index(n: nat) -> Option<nat> {
    if exists|i: nat| new_index(i) == n {
        Some(choose|i: nat| new_index(i) == n)
    } else {
        None
    }
}

pub proof fn lemma_new_index_bounds(i: nat)
    ensures
        i + 1 <= new_index(i) <= 2 * i + 1,
{
    lemma_floor_log2_bounds(i + 1);
    lemma_two_pow_pos(floor_log2(i + 1));
}

pub proof fn lemma_new_index_strictly_increasing(i: nat, j: nat)
    requires
        i < j,
    ensures
        new_index(i) < new_index(j),
{
    lemma_floor_log2_monotone(i + 1, j + 1);
    lemma_two_pow_monotone(floor_log2(i + 1), floor_log2(j + 1));
}

pub proof fn lemma_new_index_injective(i: nat, j: nat)
    requires
        new_index(i) == new_index(j),
    ensures
        i == j,
{
    if i < j {
        lemma_new_index_strictly_increasing(i, j);
    } else if j < i {
        lemma_new_index_strictly_increasing(j, i);
    }
}

/// Remapping a node and looking it up again gives the node back.
pub proof fn lemma_original_of_new(i: nat)
    ensures
        original_index(new_index(i)) == Some(i),
{
    let n = new_index(i);
    assert(exists|j: nat| new_index(j) == n);
    let j = choose|j: nat| new_index(j) == n;
    lemma_new_index_injective(i, j);
}

/// The position a node takes when the tree doubles in size.
pub fn new_index_from_original(original_index: usize) -> (r: usize)
    requires
        new_index(original_index as nat) <= usize::MAX,
    ensures
        r == new_index(original_index as nat),
{
    let (_level, shift) = floor_log2_exec(original_index as u128 + 1);
    (original_index as u128 + shift) as usize
}

/// The node that occupied a position before the tree doubled, or `None`
/// when the position is not the image of any node.
pub fn original_index_from_new(new_index: usize) -> (r: Option<usize>)
    ensures
        r matches Some(i) ==> original_index(new_index as nat) == Some(i as nat),
        r is None ==> original_index(new_index as nat) is None,
{
    let n = new_index as u128;
    let mut i: u128 = 0;
    while i <= n
        invariant
            n == new_index as u128,
            i <= n + 1,
            forall|j: nat| j < i ==> crate::tree::new_index(j) != n,
        decreases n + 1 - i,
    {
        let (_level, shift) = floor_log2_exec(i + 1);
        if i + shift == n {
            proof {
                lemma_original_of_new(i as nat);
            }
            return Some(i as usize);
        }
        i = i + 1;
    }
    proof {
        assert forall|j: nat| crate::tree::new_index(j) != n as nat by {
            if j > n {
                lemma_new_index_bounds(j);
            }
        }
    }
    None
}


// ---------------------------------------------------------------------------
// The tree
// ---------------------------------------------------------------------------

/// A member of the group, at a leaf of the tree.
#[derive(Debug, Clone)]
pub struct Member {
    pub kyber_key: Vec<u8>,
    pub dilithium_key: Vec<u8>,
    pub ed25519_key: Vec<u8>,
    pub user_id: String,
    pub index: usize,
}

/// A member as plain values.
pub struct MemberView {
    pub kyber_key: Seq<u8>,
    pub dilithium_key: Seq<u8>,
    pub ed25519_key: Seq<u8>,
    pub user_id: Seq<char>,
    pub index: usize,
}

impl View for Member {
    type V = MemberView;

    open spec fn view(&self) -> MemberView {
        MemberView {
            kyber_key: self.kyber_key@,
            dilithium_key: self.dilithium_key@,
            ed25519_key: self.ed25519_key@,
            user_id: self.user_id@,
            index: self.index,
        }
    }
}

/// An internal node of the tree, holding the public key derived for it.
#[derive(Debug, Clone)]
pub struct Node {
    pub public_key: Vec<u8>,
}

impl View for Node {
    type V = Seq<u8>;

    open spec fn view(&self) -> Seq<u8> {
        self.public_key@
    }
}

/// The tree: one slot per leaf, one slot per internal node.
#[derive(Debug, Clone)]
pub struct RatchetTree {
    pub members: Vec<Option<Member>>,
    pub nodes: Vec<Option<Node>>,
}

pub open spec fn member_slot(m: Option<Member>) -> Option<MemberView> {
    match m {
        Some(m) => Some(m@),
        None => None,
    }
}

pub open spec fn node_slot(n: Option<Node>) -> Option<Seq<u8>> {
    match n {
        Some(n) => Some(n@),
        None => None,
    }
}

/// The tree as plain values.
pub struct TreeView {
    pub members: Seq<Option<MemberView>>,
    pub nodes: Seq<Option<Seq<u8>>>,
}

impl View for RatchetTree {
    type V = TreeView;

    open spec fn view(&self) -> TreeView {
        TreeView {
            members: self.members@.map_values(|m: Option<Member>| member_slot(m)),
            nodes: self.nodes@.map_values(|n: Option<Node>| node_slot(n)),
        }
    }
}

/// The internal nodes above position `idx` of the level-order layout,
/// nearest first, keeping only those below `n_internal`.
pub open spec fn ancestors(idx: nat, n_internal: nat) -> Seq<usize>
    decreases idx,
{
    if idx == 0 {
        seq![]
    } else {
        let p = ((idx - 1) / 2) as nat;
        if p < n_internal {
            seq![p as usize] + ancestors(p, n_internal)
        } else {
            ancestors(p, n_internal)
        }
    }
}

/// The internal nodes on the path from leaf `m` to the root, in a tree with
/// `n_members` leaves.
pub open spec fn internal_path(n_members: nat, m: nat) -> Seq<usize> {
    ancestors((n_members - 1 + m) as nat, (n_members - 1) as nat)
}

pub proof fn lemma_ancestors_below(idx: nat, n_internal: nat)
    ensures
        forall|k: int|
            0 <= k < ancestors(idx, n_internal).len() ==> #[trigger] ancestors(idx, n_internal)[k]
                < n_internal,
        forall|k: int|
            0 <= k < ancestors(idx, n_internal).len() ==> #[trigger] ancestors(idx, n_internal)[k]
                < idx,
    decreases idx,
{
    if idx > 0 {
        let p = ((idx - 1) / 2) as nat;
        lemma_ancestors_below(p, n_internal);
        let a = ancestors(idx, n_internal);
        let rest = ancestors(p, n_internal);
        if p < n_internal {
            assert(a == seq![p as usize] + rest);
            assert forall|k: int| 0 <= k < a.len() implies #[trigger] a[k] < n_internal && a[k]
                < idx by {
                if k > 0 {
                    assert(a[k] == rest[k - 1]);
                }
            }
        } else {
            assert(a == rest);
        }
    }
}

/// Level-order sibling of a non-root node.
pub open spec fn sibling(i: usize) -> usize {
    if i % 2 == 0 {
        (i - 1) as usize
    } else {
        (i + 1) as usize
    }
}

/// Siblings of the non-root nodes of `path`, in path order.
pub open spec fn siblings_of(path: Seq<usize>) -> Seq<usize>
    decreases path.len(),
{
    if path.len() == 0 {
        seq![]
    } else if path.last() == 0 {
        siblings_of(path.drop_last())
    } else {
        siblings_of(path.drop_last()).push(sibling(path.last()))
    }
}

/// Depth of internal node `i` (the root has depth 0).
pub open spec fn node_depth(i: nat) -> nat {
    floor_log2(i + 1)
}

/// Number of leaves below internal node `i` in a tree with `l` leaves.
pub open spec fn leaf_count_under(i: nat, l: nat) -> nat {
    two_pow((floor_log2(l) - node_depth(i)) as nat)
}

/// First leaf below internal node `i` in a tree with `l` leaves.
pub open spec fn first_leaf_under(i: nat, l: nat) -> nat {
    ((i + 1 - two_pow(node_depth(i))) * leaf_count_under(i, l)) as nat
}

/// The leaves below internal node `i`, in order.
pub open spec fn leaves_under(i: nat, l: nat) -> Seq<usize> {
    Seq::new(leaf_count_under(i, l), |k: int| (first_leaf_under(i, l) + k) as usize)
}

/// For each non-root node on the path of leaf `index`: the leaves under its
/// sibling, and the sibling itself. Empty when the path is the root alone.
pub open spec fn broadcast_plan(l: nat, index: nat) -> Seq<(Seq<usize>, usize)> {
    let path = internal_path(l, index);
    if path.len() == 1 {
        seq![]
    } else {
        siblings_of(path).map_values(|s: usize| (leaves_under(s as nat, l), s))
    }
}

/// The leaves under a node lie inside the tree.
pub proof fn lemma_leaves_under_in_range(i: nat, l: nat)
    requires
        is_power_of_two(l),
        i + 1 < l,
    ensures
        node_depth(i) < floor_log2(l),
        first_leaf_under(i, l) + leaf_count_under(i, l) <= l,
        two_pow(node_depth(i)) * leaf_count_under(i, l) == l,
{
    let t = floor_log2(l);
    let d = node_depth(i);
    lemma_floor_log2_bounds(i + 1);
    if d >= t {
        lemma_two_pow_monotone(t, d);
    }
    let c = leaf_count_under(i, l);
    crate::levels::lemma_two_pow_adds(d, (t - d) as nat);
    assert(d + (t - d) as nat == t);
    let off = (i + 1 - two_pow(d)) as nat;
    assert(off + 1 <= two_pow(d));
    let pd = two_pow(d);
    assert((off + 1) * c <= pd * c) by (nonlinear_arith)
        requires
            off + 1 <= pd,
    ;
    assert(off * c + c == (off + 1) * c) by (nonlinear_arith);
}

/// The leaves under internal node `i` of a tree with `l` leaves.
pub fn descendant_leaves(i: usize, l: usize) -> (r: Vec<usize>)
    requires
        is_power_of_two(l as nat),
        i + 1 < l,
    ensures
        r@ == leaves_under(i as nat, l as nat),
        forall|k: int| 0 <= k < r@.len() ==> #[trigger] r@[k] < l,
{
    proof {
        lemma_leaves_under_in_range(i as nat, l as nat);
    }
    let (_total, _pl) = floor_log2_exec(l as u128);
    let (_depth, pd) = floor_log2_exec(i as u128 + 1);
    let pd = pd as usize;
    let count = l / pd;
    proof {
        let c = leaf_count_under(i as nat, l as nat);
        assert(pd * c == l);
        assert(count == c) by (nonlinear_arith)
            requires
                pd * c == l,
                pd >= 1,
                count == l / pd,
        ;
    }
    let offset = i + 1 - pd;
    let first = offset * count;
    let mut r: Vec<usize> = Vec::new();
    let mut k: usize = 0;
    while k < count
        invariant
            k <= count,
            count == leaf_count_under(i as nat, l as nat),
            first == first_leaf_under(i as nat, l as nat),
            first + count <= l,
            r@.len() == k,
            forall|j: int| 0 <= j < k ==> #[trigger] r@[j] == first + j,
        decreases count - k,
    {
        r.push(first + k);
        k = k + 1;
    }
    assert(r@ =~= leaves_under(i as nat, l as nat));
    r
}

/// The internal nodes on the path from leaf `m` up to the root of a tree
/// with `n_members` leaves.
pub fn path_indices(n_members: usize, m: usize) -> (path: Vec<usize>)
    requires
        n_members >= 1,
        n_members - 1 + m <= usize::MAX,
    ensures
        path@ == internal_path(n_members as nat, m as nat),
{
    let first_leaf = n_members - 1;
    let mut idx = first_leaf + m;
    let mut path: Vec<usize> = Vec::new();
    let n_internal = n_members - 1;
    while idx > 0
        invariant
            path@ + ancestors(idx as nat, n_internal as nat) == ancestors(
                (first_leaf + m) as nat,
                n_internal as nat,
            ),
        decreases idx,
    {
        let p = (idx - 1) / 2;
        let ghost before = path@;
        if p < n_internal {
            path.push(p);
            assert(before + ancestors(idx as nat, n_internal as nat) =~= path@ + ancestors(
                p as nat,
                n_internal as nat,
            ));
        }
        idx = p;
    }
    assert(path@ + ancestors(0, n_internal as nat) =~= path@);
    path
}

impl RatchetTree {
    /// A tree with `initial_size` empty leaves and a single empty internal
    /// node.
    pub fn new(initial_size: usize) -> (r: Self)
        ensures
            r@.members =~= Seq::new(initial_size as nat, |k: int| None::<MemberView>),
            r@.nodes =~= seq![None::<Seq<u8>>],
    {
        let mut members: Vec<Option<Member>> = Vec::new();
        let mut k: usize = 0;
        while k < initial_size
            invariant
                k <= initial_size,
                members@.len() == k,
                forall|j: int| 0 <= j < k ==> #[trigger] members@[j] is None,
            decreases initial_size - k,
        {
            members.push(None);
            k = k + 1;
        }
        let mut nodes: Vec<Option<Node>> = Vec::new();
        nodes.push(None);
        RatchetTree { members, nodes }
    }

    /// Stores a public key at internal node `index`.
    pub fn add_node(&mut self, index: usize, public_key: Vec<u8>)
        requires
            index < old(self).nodes@.len(),
        ensures
            final(self)@.members == old(self)@.members,
            final(self)@.nodes == old(self)@.nodes.update(index as int, Some(public_key@)),
    {
        let node = Node { public_key };
        self.nodes.set(index, Some(node));
        proof {
            assert(final(self)@.nodes =~= old(self)@.nodes.update(index as int, Some(public_key@)));
        }
    }

    /// The internal nodes on the path from leaf `m` up to the root.
    pub fn internal_path_indices(&self, m: usize) -> (path: Vec<usize>)
        requires
            self.members@.len() >= 1,
            self.members@.len() - 1 + m <= usize::MAX,
        ensures
            path@ == internal_path(self.members@.len() as nat, m as nat),
    {
        path_indices(self.members.len(), m)
    }

    /// Doubles the internal part of the tree: the old tree becomes the left
    /// subtree of a new, empty root, every node moving to `new_index`.
    pub fn grow(&mut self)
        requires
            2 * old(self).nodes@.len() + 1 <= usize::MAX,
        ensures
            final(self)@.members == old(self)@.members,
            final(self)@.nodes == grown_nodes(old(self)@.nodes),
    {
        let mut old_nodes: Vec<Option<Node>> = Vec::new();
        std::mem::swap(&mut old_nodes, &mut self.nodes);
        let ghost orig = old_nodes@;
        let n = old_nodes.len();
        let new_size = 2 * n + 1;
        let mut new_nodes: Vec<Option<Node>> = Vec::new();
        let mut k: usize = 0;
        while k < new_size
            invariant
                k <= new_size,
                new_nodes@.len() == k,
                forall|j: int| 0 <= j < k ==> #[trigger] new_nodes@[j] is None,
            decreases new_size - k,
        {
            new_nodes.push(None);
            k = k + 1;
        }
        while old_nodes.len() > 0
            invariant
                new_size == 2 * n + 1,
                n == orig.len(),
                2 * n + 1 <= usize::MAX,
                old_nodes@.len() <= n,
                old_nodes@ == orig.subrange(0, old_nodes@.len() as int),
                new_nodes@ == relocated(orig, old_nodes@.len() as nat),
            decreases old_nodes@.len(),
        {
            let ghost lo = old_nodes@.len();
            let x = old_nodes.pop().unwrap();
            let i = old_nodes.len();
            proof {
                lemma_new_index_bounds(i as nat);
                lemma_original_of_new(i as nat);
            }
            let j = new_index_from_original(i);
            new_nodes.set(j, x);
            proof {
                assert(x == orig[i as int]);
                assert forall|t: int| 0 <= t < new_size implies #[trigger] new_nodes@[t] == relocated(
                    orig,
                    i as nat,
                )[t] by {
                    if t != j {
                        if let Some(o) = original_index(t as nat) {
                            assert(new_index(o) == t);
                        }
                    }
                }
                assert(new_nodes@ =~= relocated(orig, i as nat));
                assert(old_nodes@ =~= orig.subrange(0, old_nodes@.len() as int));
            }
        }
        proof {
            assert forall|t: int| 0 <= t < new_nodes@.len() implies node_slot(#[trigger] new_nodes@[t])
                == grown_nodes(old(self)@.nodes)[t] by {
                if let Some(o) = original_index(t as nat) {
                    if o < n {
                        assert(old(self)@.nodes[o as int] == node_slot(orig[o as int]));
                    }
                }
            }
        }
        self.nodes = new_nodes;
        proof {
            assert(final(self)@.nodes =~= grown_nodes(old(self)@.nodes));
        }
    }

    /// The highest index of an occupied leaf.
    pub fn last_valid_member_index(&self) -> (r: Option<usize>)
        ensures
            r matches Some(i) ==> i < self@.members.len() && self@.members[i as int] is Some
                && forall|j: int| i < j < self@.members.len() ==> #[trigger] self@.members[j] is None,
            r is None ==> forall|j: int|
                0 <= j < self@.members.len() ==> #[trigger] self@.members[j] is None,
    {
        let mut i = self.members.len();
        while i > 0
            invariant
                i <= self.members@.len(),
                forall|j: int| i <= j < self.members@.len() ==> #[trigger] self.members@[j] is None,
            decreases i,
        {
            i = i - 1;
            if self.members[i].is_some() {
                return Some(i);
            }
        }
        None
    }

    /// Computes the path of every leaf; the tree is left as it was.
    pub fn print_all_paths(&mut self)
        requires
            old(self).members@.len() <= usize::MAX / 2,
        ensures
            final(self)@ == old(self)@,
    {
        let n = self.members.len();
        let mut i: usize = 0;
        while i < n
            invariant
                n == self.members@.len(),
                n <= usize::MAX / 2,
                i <= n,
            decreases n - i,
        {
            let _path = self.internal_path_indices(i);
            i = i + 1;
        }
    }

    /// For each non-root node on the path of leaf `index`, the sibling node
    /// that must learn the new secret and the leaves beneath it.
    pub fn get_keys_for_broadcast_new_member_secret(&self, index: usize) -> (r: Vec<
        (Vec<usize>, usize),
    >)
        requires
            self.members@.len() >= 1,
            self.members@.len() - 1 + index <= usize::MAX,
            is_power_of_two(self.members@.len() as nat) || forall|k: int|
                0 <= k < internal_path(self.members@.len() as nat, index as nat).len()
                    ==> #[trigger] internal_path(self.members@.len() as nat, index as nat)[k] == 0,
        ensures
            r@.len() == broadcast_plan(self.members@.len() as nat, index as nat).len(),
            forall|k: int|
                0 <= k < r@.len() ==> (#[trigger] r@[k]).0@ == broadcast_plan(
                    self.members@.len() as nat,
                    index as nat,
                )[k].0 && r@[k].1 == broadcast_plan(self.members@.len() as nat, index as nat)[k].1,
    {
        let l = self.members.len();
        let path = self.internal_path_indices(index);
        let ghost plan = broadcast_plan(l as nat, index as nat);
        if path.len() == 1 {
            return Vec::new();
        }
        proof {
            lemma_ancestors_below((l - 1 + index) as nat, (l - 1) as nat);
        }
        let mut keys_for_broadcast: Vec<usize> = Vec::new();
        let mut k: usize = 0;
        while k < path.len()
            invariant
                path@ == internal_path(l as nat, index as nat),
                l == self.members@.len(),
                l >= 1,
                is_power_of_two(l as nat) || forall|t: int|
                    0 <= t < path@.len() ==> #[trigger] path@[t] == 0,
                forall|t: int| 0 <= t < path@.len() ==> #[trigger] path@[t] < l - 1,
                k <= path@.len(),
                keys_for_broadcast@ == siblings_of(path@.take(k as int)),
                forall|t: int|
                    0 <= t < keys_for_broadcast@.len() ==> #[trigger] keys_for_broadcast@[t] + 1
                        < l,
                keys_for_broadcast@.len() > 0 ==> is_power_of_two(l as nat),
            decreases path@.len() - k,
        {
            let i = path[k];
            assert(path@.take(k as int + 1).drop_last() =~= path@.take(k as int));
            if i != 0 {
                proof {
                    lemma_two_pow_pos(floor_log2(l as nat));
                    if l % 2 == 1 {
                        assert(l == 1) by {
                            crate::levels::lemma_floor_log2_bounds(l as nat);
                            if floor_log2(l as nat) > 0 {
                                assert(two_pow(floor_log2(l as nat)) == 2 * two_pow(
                                    (floor_log2(l as nat) - 1) as nat,
                                ));
                            }
                        }
                    }
                }
                if i % 2 == 0 {
                    keys_for_broadcast.push(i - 1);
                } else {
                    keys_for_broadcast.push(i + 1);
                }
            }
            k = k + 1;
        }
        assert(path@.take(path@.len() as int) =~= path@);
        let mut broadcast_plan_out: Vec<(Vec<usize>, usize)> = Vec::new();
        let mut t: usize = 0;
        while t < keys_for_broadcast.len()
            invariant
                keys_for_broadcast@ == siblings_of(path@),
                path@ == internal_path(l as nat, index as nat),
                path@.len() != 1,
                plan == broadcast_plan(l as nat, index as nat),
                l == self.members@.len(),
                keys_for_broadcast@.len() > 0 ==> is_power_of_two(l as nat),
                forall|u: int|
                    0 <= u < keys_for_broadcast@.len() ==> #[trigger] keys_for_broadcast@[u] + 1
                        < l,
                t <= keys_for_broadcast@.len(),
                broadcast_plan_out@.len() == t,
                forall|u: int|
                    0 <= u < t ==> (#[trigger] broadcast_plan_out@[u]).0@ == plan[u].0
                        && broadcast_plan_out@[u].1 == plan[u].1,
            decreases keys_for_broadcast@.len() - t,
        {
            let s = keys_for_broadcast[t];
            let leaves = descendant_leaves(s, l);
            broadcast_plan_out.push((leaves, s));
            t = t + 1;
        }
        broadcast_plan_out
    }
}

/// The node slots after the tree doubled: node `i` of `old` at `new_index(i)`,
/// every other slot empty.
pub open spec fn grown_nodes(old: Seq<Option<Seq<u8>>>) -> Seq<Option<Seq<u8>>> {
    Seq::new(
        2 * old.len() + 1,
        |j: int|
            match original_index(j as nat) {
                Some(i) => if i < old.len() {
                    old[i as int]
                } else {
                    None
                },
                None => None,
            },
    )
}

/// The new node vector part-way through growing: nodes `lo..` of `orig`
/// already moved, every other slot empty.
pub open spec fn relocated(orig: Seq<Option<Node>>, lo: nat) -> Seq<Option<Node>> {
    Seq::new(
        2 * orig.len() + 1,
        |j: int|
            match original_index(j as nat) {
                Some(i) => if lo <= i < orig.len() {
                    orig[i as int]
                } else {
                    None
                },
                None => None,
            },
    )
}

} // verus!
