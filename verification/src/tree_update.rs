//! Adding members to the ratchet tree and refreshing the secrets and public
//! keys along their paths.
use vstd::prelude::*;
use crate::crypto::{derive_node_secret, next_node_secret};
use crate::levels::{floor_log2, floor_log2_exec, is_power_of_two, two_pow};
use crate::primitives::{kyber_derive, kyber_derive_keypair};
use crate::secrets::{entries_view, remap_entries, upsert, GroupSecrets, SecretsView};
use crate::tree::{
    grown_nodes, internal_path, Member, MemberView, RatchetTree, TreeView,
};

verus! {

/// `seed` put through `n` node derivations.
pub open spec fn iterate_secret(seed: Seq<u8>, n: nat) -> Seq<u8>
    decreases n,
{
    if n == 0 {
        seed
    } else {
        next_node_secret(iterate_secret(seed, (n - 1) as nat))
    }
}

/// The secrets of the nodes of `path`: the `k`-th node gets `seed` derived
/// `k + 1` times.
pub open spec fn path_secrets(path: Seq<usize>, seed: Seq<u8>) -> Seq<(usize, Seq<u8>)> {
    Seq::new(path.len(), |k: int| (path[k], iterate_secret(seed, (k + 1) as nat)))
}

/// Node slots after each entry's node received the Kyber public key derived
/// from the entry's secret, in entry order.
pub open spec fn set_path_keys(nodes: Seq<Option<Seq<u8>>>, entries: Seq<(usize, Seq<u8>)>) -> Seq<
    Option<Seq<u8>>,
>
    decreases entries.len(),
{
    if entries.len() == 0 {
        nodes
    } else {
        set_path_keys(nodes, entries.drop_last()).update(
            entries.last().0 as int,
            Some(kyber_derive(entries.last().1).0),
        )
    }
}

/// Secrets after each entry was written with `upsert`, in entry order.
pub open spec fn upsert_all(s: Seq<(usize, Seq<u8>)>, entries: Seq<(usize, Seq<u8>)>) -> Seq<
    (usize, Seq<u8>),
>
    decreases entries.len(),
{
    if entries.len() == 0 {
        s
    } else {
        upsert(upsert_all(s, entries.drop_last()), entries.last().0, entries.last().1)
    }
}

/// Index of the first empty leaf, or the number of leaves when all are
/// occupied.
pub open spec fn first_free_leaf(members: Seq<Option<MemberView>>) -> nat
    decreases members.len(),
{
    if members.len() == 0 {
        0
    } else {
        let f = first_free_leaf(members.drop_last());
        if f < members.len() - 1 {
            f
        } else if members.last() is None {
            (members.len() - 1) as nat
        } else {
            members.len()
        }
    }
}

/// Smallest power of two at or above `n` (1 for 0).
pub open spec fn next_pow2(n: nat) -> nat {
    if n <= 1 {
        1
    } else if is_power_of_two(n) {
        n
    } else {
        2 * two_pow(floor_log2(n))
    }
}

/// Number of leaves after the tree grew from `len` leaves.
pub open spec fn grown_len(len: nat) -> nat {
    2 * next_pow2(if len == 0 {
        1
    } else {
        len
    })
}

/// The leaf a new member takes: the requested one, or the first empty one.
pub open spec fn target_leaf(t: TreeView, index: Option<usize>) -> nat {
    match index {
        Some(i) => i as nat,
        None => first_free_leaf(t.members),
    }
}

/// Whether placing a member at `leaf` makes the tree grow first.
pub open spec fn must_grow(t: TreeView, leaf: nat) -> bool {
    leaf >= t.members.len()
}

/// The tree after growing to make room for `leaf`, or unchanged.
pub open spec fn tree_with_room(t: TreeView, leaf: nat) -> TreeView {
    if must_grow(t, leaf) {
        TreeView {
            members: t.members + Seq::new(
                (grown_len(t.members.len()) - t.members.len()) as nat,
                |k: int| None::<MemberView>,
            ),
            nodes: grown_nodes(t.nodes),
        }
    } else {
        t
    }
}

/// Node secrets after growing to make room for `leaf`, or unchanged.
pub open spec fn secrets_with_room(t: TreeView, s: Seq<(usize, Seq<u8>)>, leaf: nat) -> Seq<
    (usize, Seq<u8>),
> {
    if must_grow(t, leaf) {
        remap_entries(s)
    } else {
        s
    }
}

/// The machine limits and bounds under which room can be made for `leaf`.
pub open spec fn can_make_room(t: TreeView, s: Seq<(usize, Seq<u8>)>, leaf: nat) -> bool {
    must_grow(t, leaf) ==> {
        &&& grown_len(t.members.len()) <= usize::MAX
        &&& 2 * t.nodes.len() + 1 <= usize::MAX
        &&& forall|k: int|
            0 <= k < s.len() ==> crate::tree::new_index((#[trigger] s[k]).0 as nat) <= usize::MAX
    }
}

/// The path of `leaf` can be computed in a tree with `len` leaves.
pub open spec fn path_computable(len: nat, leaf: nat) -> bool {
    len >= 1 && len - 1 + leaf <= usize::MAX
}

/// Every node of `path` has a slot among `nodes`.
pub open spec fn path_has_slots(path: Seq<usize>, nodes: Seq<Option<Seq<u8>>>) -> bool {
    forall|k: int| 0 <= k < path.len() ==> (#[trigger] path[k]) < nodes.len()
}

/// What placing a member at the leaf chosen by `index` needs, so that none
/// of the steps of `RatchetTree::add_member` fails.
pub open spec fn add_member_allowed(t: TreeView, s: SecretsView, index: Option<usize>) -> bool {
    let leaf = target_leaf(t, index);
    let room = tree_with_room(t, leaf);
    let path = internal_path(room.members.len(), leaf);
    &&& can_make_room(t, s.node_secrets, leaf)
    &&& leaf < room.members.len()
    &&& path_computable(room.members.len(), leaf)
    &&& path_has_slots(path, room.nodes)
    &&& path.len() > 0
}

/// The member record stored at a leaf.
pub open spec fn member_record(
    kyber_key: Seq<u8>,
    dilithium_key: Seq<u8>,
    ed25519_key: Seq<u8>,
    user_id: Seq<char>,
    index: nat,
) -> MemberView {
    MemberView { kyber_key, dilithium_key, ed25519_key, user_id, index: index as usize }
}

pub proof fn lemma_first_free_leaf(members: Seq<Option<MemberView>>)
    ensures
        first_free_leaf(members) <= members.len(),
        forall|j: int| 0 <= j < first_free_leaf(members) ==> #[trigger] members[j] is Some,
        first_free_leaf(members) < members.len() ==> members[first_free_leaf(members) as int] is None,
    decreases members.len(),
{
    if members.len() > 0 {
        let d = members.drop_last();
        lemma_first_free_leaf(d);
        assert forall|j: int| 0 <= j < d.len() implies d[j] == #[trigger] members[j] by {}
    }
}

pub proof fn lemma_first_free_leaf_unique(members: Seq<Option<MemberView>>, f: nat)
    requires
        f <= members.len(),
        forall|j: int| 0 <= j < f ==> #[trigger] members[j] is Some,
        f < members.len() ==> members[f as int] is None,
    ensures
        first_free_leaf(members) == f,
{
    lemma_first_free_leaf(members);
    let g = first_free_leaf(members);
    if g < f {
        assert(members[g as int] is Some);
    } else if f < g {
        assert(members[f as int] is Some);
    }
}

/// Index of the first empty leaf, or the number of leaves.
pub fn first_free_leaf_of(members: &Vec<Option<Member>>) -> (r: usize)
    ensures
        r == first_free_leaf(members@.map_values(|m: Option<Member>| crate::tree::member_slot(m))),
{
    let ghost v = members@.map_values(|m: Option<Member>| crate::tree::member_slot(m));
    let mut k: usize = 0;
    while k < members.len()
        invariant
            v == members@.map_values(|m: Option<Member>| crate::tree::member_slot(m)),
            k <= members@.len(),
            forall|j: int| 0 <= j < k ==> #[trigger] v[j] is Some,
        decreases members@.len() - k,
    {
        if members[k].is_none() {
            proof {
                lemma_first_free_leaf_unique(v, k as nat);
            }
            return k;
        }
        k = k + 1;
    }
    proof {
        lemma_first_free_leaf_unique(v, k as nat);
    }
    k
}

/// Number of leaves after the tree grows from `len` leaves.
fn grown_len_exec(len: usize) -> (r: usize)
    requires
        grown_len(len as nat) <= usize::MAX,
    ensures
        r == grown_len(len as nat),
{
    let base = if len == 0 {
        1
    } else {
        len
    };
    let (_k, p) = floor_log2_exec(base as u128);
    let next = if p == base as u128 {
        base
    } else {
        2 * (p as usize)
    };
    proof {
        if base > 1 && p != base {
            assert(!is_power_of_two(base as nat));
        }
    }
    2 * next
}

pub proof fn lemma_grown_len_above(len: nat)
    ensures
        grown_len(len) > len,
{
    let base = if len == 0 {
        1
    } else {
        len
    };
    if base > 1 && !is_power_of_two(base) {
        crate::levels::lemma_floor_log2_bounds(base);
    }
}

pub proof fn lemma_path_secrets_push(path: Seq<usize>, seed: Seq<u8>, k: int)
    requires
        0 <= k < path.len(),
    ensures
        path_secrets(path.take(k + 1), seed) == path_secrets(path.take(k), seed).push(
            (path[k], iterate_secret(seed, (k + 1) as nat)),
        ),
{
    assert(path_secrets(path.take(k + 1), seed) =~= path_secrets(path.take(k), seed).push(
        (path[k], iterate_secret(seed, (k + 1) as nat)),
    ));
}

impl RatchetTree {
    /// Makes room for a member at leaf `leaf`: when the leaf lies beyond the
    /// tree, the leaves are extended with empty ones to the next power of
    /// two above the current count, doubled; the internal nodes move down
    /// under a new root, and the node secrets follow them.
    pub fn make_room(&mut self, group_secret: &mut GroupSecrets, leaf: usize)
        requires
            can_make_room(old(self)@, old(group_secret)@.node_secrets, leaf as nat),
        ensures
            final(self)@ == tree_with_room(old(self)@, leaf as nat),
            final(group_secret)@.node_secrets == secrets_with_room(
                old(self)@,
                old(group_secret)@.node_secrets,
                leaf as nat,
            ),
            final(group_secret)@.member_secrets == old(group_secret)@.member_secrets,
            final(group_secret)@.root_secret == old(group_secret)@.root_secret,
    {
        let ghost room = tree_with_room(old(self)@, leaf as nat);
        if leaf >= self.members.len() {
            let new_size = grown_len_exec(self.members.len());
            proof {
                lemma_grown_len_above(self.members@.len() as nat);
            }
            let ghost before = self.members@;
            while self.members.len() < new_size
                invariant
                    self.members@.len() <= new_size,
                    self.members@.len() >= before.len(),
                    self.members@.subrange(0, before.len() as int) == before,
                    forall|j: int|
                        before.len() <= j < self.members@.len() ==> #[trigger] self.members@[j]
                            is None,
                    self.nodes == old(self).nodes,
                decreases new_size - self.members@.len(),
            {
                self.members.push(None);
                proof {
                    assert(self.members@.subrange(0, before.len() as int) =~= before);
                }
            }
            proof {
                assert forall|j: int| 0 <= j < self@.members.len() implies #[trigger] self@.members[j]
                    == room.members[j] by {
                    if j < before.len() {
                        assert(self.members@[j] == before[j]);
                    }
                }
                assert(self@.members =~= room.members);
                let ns = group_secret.node_secrets@;
                assert forall|k: int| 0 <= k < ns.len() implies crate::tree::new_index(
                    (#[trigger] ns[k]).0 as nat,
                ) <= usize::MAX by {
                    assert(entries_view(ns)[k].0 == ns[k].0);
                }
            }
            self.grow();
            group_secret.remap_node_secrets();
        }
        assert(self@ =~= room);
    }

    /// Derives the secrets along the path of leaf `index` from `new_key`,
    /// stores the Kyber public key derived from each at its node, and
    /// returns the (node, secret) pairs, leaf side first.
    pub fn update_member_key_with(&mut self, index: usize, new_key: Vec<u8>) -> (keys: Vec<
        (usize, Vec<u8>),
    >)
        requires
            path_computable(old(self).members@.len() as nat, index as nat),
            path_has_slots(
                internal_path(old(self).members@.len() as nat, index as nat),
                old(self)@.nodes,
            ),
        ensures
            entries_view(keys@) == path_secrets(
                internal_path(old(self).members@.len() as nat, index as nat),
                new_key@,
            ),
            final(self)@.members == old(self)@.members,
            final(self)@.nodes == set_path_keys(
                old(self)@.nodes,
                path_secrets(internal_path(old(self).members@.len() as nat, index as nat), new_key@),
            ),
            forall|j: int| 0 <= j < keys@.len() ==> (#[trigger] keys@[j]).1@.len() == 64,
    {
        let path = self.internal_path_indices(index);
        let ghost seed = new_key@;
        let ghost start_nodes = self@.nodes;
        let mut old_key = new_key;
        let mut keys: Vec<(usize, Vec<u8>)> = Vec::new();
        let mut k: usize = 0;
        while k < path.len()
            invariant
                path@ == internal_path(old(self).members@.len() as nat, index as nat),
                path_has_slots(path@, start_nodes),
                self@.nodes.len() == start_nodes.len(),
                self@.members == old(self)@.members,
                k <= path@.len(),
                old_key@ == iterate_secret(seed, k as nat),
                entries_view(keys@) == path_secrets(path@.take(k as int), seed),
                forall|j: int| 0 <= j < keys@.len() ==> (#[trigger] keys@[j]).1@.len() == 64,
                self@.nodes == set_path_keys(start_nodes, path_secrets(path@.take(k as int), seed)),
            decreases path@.len() - k,
        {
            let i = path[k];
            old_key = derive_node_secret(&old_key);
            let ghost prev = keys@;
            keys.push((i, old_key.clone()));
            let (public, _secret) = kyber_derive_keypair(old_key.as_slice());
            self.add_node(i, public);
            proof {
                lemma_path_secrets_push(path@, seed, k as int);
                let ps = path_secrets(path@.take(k as int + 1), seed);
                assert(ps.drop_last() == path_secrets(path@.take(k as int), seed));
                assert(entries_view(keys@) =~= ps);
            }
            k = k + 1;
        }
        proof {
            assert(path@.take(k as int) =~= path@);
        }
        keys
    }

    /// Places a member at leaf `index`, or at the first empty leaf, growing
    /// the tree when the leaf lies beyond it; then refreshes the secrets and
    /// public keys on the member's path from `path_secret`, records the node
    /// secrets in `group_secret`, and makes the last one the root secret.
    /// Returns the leaf and the (node, secret) pairs of the path.
    pub fn add_member(
        &mut self,
        group_secret: &mut GroupSecrets,
        kyber_key: Vec<u8>,
        dilithium_key: Vec<u8>,
        ed25519_key: Vec<u8>,
        user_id: &str,
        path_secret: Vec<u8>,
        index: Option<usize>,
    ) -> (r: (usize, Vec<(usize, Vec<u8>)>))
        requires
            add_member_allowed(old(self)@, old(group_secret)@, index),
        ensures
            ({
                let leaf = target_leaf(old(self)@, index);
                let room = tree_with_room(old(self)@, leaf);
                let path = internal_path(room.members.len(), leaf);
                let entries = path_secrets(path, path_secret@);
                &&& r.0 == leaf
                &&& entries_view(r.1@) == entries
                &&& final(self)@.members == room.members.update(
                    leaf as int,
                    Some(member_record(kyber_key@, dilithium_key@, ed25519_key@, user_id@, leaf)),
                )
                &&& final(self)@.nodes == set_path_keys(room.nodes, entries)
                &&& final(group_secret)@.node_secrets == upsert_all(
                    secrets_with_room(old(self)@, old(group_secret)@.node_secrets, leaf),
                    entries,
                )
                &&& final(group_secret)@.root_secret == entries.last().1
                &&& final(group_secret)@.member_secrets == old(group_secret)@.member_secrets
                &&& forall|j: int| 0 <= j < r.1@.len() ==> (#[trigger] r.1@[j]).1@.len() == 64
                &&& final(group_secret)@.root_secret.len() == 64
            }),
    {
        let next = match index {
            Some(i) => i,
            None => first_free_leaf_of(&self.members),
        };
        let ghost leaf = next as nat;
        let ghost room = tree_with_room(old(self)@, leaf);
        self.make_room(group_secret, next);
        assert(self@ == room);
        let member = Member {
            index: next,
            kyber_key,
            dilithium_key,
            ed25519_key,
            user_id: user_id.to_owned(),
        };
        self.members.set(next, Some(member));
        let ghost placed = self@;
        proof {
            assert(placed.members =~= room.members.update(
                leaf as int,
                Some(member_record(kyber_key@, dilithium_key@, ed25519_key@, user_id@, leaf)),
            ));
        }
        let keys = self.update_member_key_with(next, path_secret);
        let ghost entries = entries_view(keys@);
        let ghost start = group_secret@.node_secrets;
        let mut k: usize = 0;
        while k < keys.len()
            invariant
                entries == entries_view(keys@),
                k <= keys@.len(),
                group_secret@.node_secrets == upsert_all(start, entries.take(k as int)),
                group_secret@.member_secrets == old(group_secret)@.member_secrets,
            decreases keys@.len() - k,
        {
            let i = keys[k].0;
            let s = keys[k].1.clone();
            group_secret.add_node_secret(i, s);
            proof {
                assert(entries.take(k as int + 1).drop_last() =~= entries.take(k as int));
            }
            k = k + 1;
        }
        proof {
            assert(entries.take(k as int) =~= entries);
        }
        let last = keys.len() - 1;
        group_secret.set_root_secret(&keys[last].1);
        (next, keys)
    }

    /// Places a member announced by an update at leaf `new_index`, growing
    /// the tree when the leaf lies beyond it, and takes in the secret sent to
    /// this member (at leaf `self_index`): from the first node of its own
    /// path that is also on the new member's path, the secret is derived up
    /// the remaining nodes below the root, and the last value becomes the
    /// root secret.
    pub fn add_member_from_update(
        &mut self,
        group_secret: &mut GroupSecrets,
        dilithium_key: Vec<u8>,
        ed25519_key: Vec<u8>,
        kyber_key: Vec<u8>,
        user_id: &str,
        secret: Vec<u8>,
        new_index: usize,
        self_index: usize,
    )
        requires
            update_allowed(old(self)@, old(group_secret)@, new_index, self_index),
        ensures
            ({
                let room = tree_with_room(old(self)@, new_index as nat);
                let n = room.members.len();
                let path_self = internal_path(n, self_index as nat);
                let path_new = internal_path(n, new_index as nat);
                let (entries, root) = update_outcome(path_self, path_new, secret@);
                &&& final(self)@.members == room.members.update(
                    new_index as int,
                    Some(
                        member_record(
                            kyber_key@,
                            dilithium_key@,
                            ed25519_key@,
                            user_id@,
                            new_index as nat,
                        ),
                    ),
                )
                &&& final(self)@.nodes == room.nodes
                &&& final(group_secret)@.node_secrets == upsert_all(
                    secrets_with_room(old(self)@, old(group_secret)@.node_secrets, new_index as nat),
                    entries,
                )
                &&& final(group_secret)@.root_secret == root
                &&& final(group_secret)@.member_secrets == old(group_secret)@.member_secrets
            }),
    {
        let ghost room = tree_with_room(old(self)@, new_index as nat);
        self.make_room(group_secret, new_index);
        assert(self@ == room);
        let mut secret = secret;
        let ghost seed = secret@;
        let member = Member {
            index: new_index,
            kyber_key,
            dilithium_key,
            ed25519_key,
            user_id: user_id.to_owned(),
        };
        self.members.set(new_index, Some(member));
        proof {
            assert(self@.members =~= room.members.update(
                new_index as int,
                Some(
                    member_record(kyber_key@, dilithium_key@, ed25519_key@, user_id@, new_index as nat),
                ),
            ));
        }
        let path_self = self.internal_path_indices(self_index);
        let path_new = self.internal_path_indices(new_index);
        let ghost start = group_secret@.node_secrets;
        let ghost outcome = update_outcome(path_self@, path_new@, seed);
        match first_common_exec(&path_self, &path_new) {
            Some(i) => {
                let count = path_self.len() - i;
                if count == 1 {
                    let s = secret.clone();
                    group_secret.add_node_secret(0, s);
                    group_secret.set_root_secret(&secret);
                    proof {
                        let e = seq![(0usize, seed)];
                        assert(e.drop_last() =~= Seq::<(usize, Seq<u8>)>::empty());
                        assert(upsert_all(start, e.drop_last()) == start);
                        assert(e.last() == (0usize, seed));
                        assert(upsert_all(start, e) == upsert(start, 0, seed));
                        assert(path_self@.subrange(i as int, path_self@.len() as int).len() == 1);
                        assert(outcome == (e, seed));
                    }
                    return;
                }
                let ghost remaining = path_self@.subrange(i as int, path_self@.len() as int);
                let ghost below = remaining.drop_last();
                let mut k: usize = 0;
                while k < count - 1
                    invariant
                        count == remaining.len(),
                        count > 1,
                        i + count == path_self@.len(),
                        i + count <= usize::MAX,
                        remaining == path_self@.subrange(i as int, path_self@.len() as int),
                        below == remaining.drop_last(),
                        k <= count - 1,
                        secret@ == iterate_secret(seed, k as nat),
                        group_secret@.node_secrets == upsert_all(
                            start,
                            path_secrets(below.take(k as int), seed),
                        ),
                        group_secret@.member_secrets == old(group_secret)@.member_secrets,
                    decreases count - 1 - k,
                {
                    assert(i + k < path_self@.len());
                    let ancestor = path_self[i + k];
                    secret = derive_node_secret(&secret);
                    let s = secret.clone();
                    group_secret.add_node_secret(ancestor, s);
                    proof {
                        lemma_path_secrets_push(below, seed, k as int);
                        let prev = path_secrets(below.take(k as int), seed);
                        let e = (below[k as int], iterate_secret(seed, (k + 1) as nat));
                        assert(below[k as int] == ancestor);
                        assert(prev.push(e).drop_last() =~= prev);
                        assert(upsert_all(start, prev.push(e)) == upsert(
                            upsert_all(start, prev),
                            e.0,
                            e.1,
                        ));
                    }
                    k = k + 1;
                }
                proof {
                    assert(below.take(k as int) =~= below);
                }
            },
            None => {
                proof {
                    assert(Seq::<(usize, Seq<u8>)>::empty() == outcome.0);
                }
            },
        }
        group_secret.set_root_secret(&secret);
    }
}

/// Position of the first node of `a` that also lies on `b`.
pub open spec fn first_common(a: Seq<usize>, b: Seq<usize>) -> Option<int>
    decreases a.len(),
{
    if a.len() == 0 {
        None
    } else {
        match first_common(a.drop_last(), b) {
            Some(p) => Some(p),
            None => if b.contains(a.last()) {
                Some(a.len() - 1)
            } else {
                None
            },
        }
    }
}

/// The node secrets an update writes and the root secret it leaves, given
/// the receiver's path, the new member's path and the secret received.
pub open spec fn update_outcome(path_self: Seq<usize>, path_new: Seq<usize>, secret: Seq<u8>) -> (
    Seq<(usize, Seq<u8>)>,
    Seq<u8>,
) {
    match first_common(path_self, path_new) {
        Some(i) => {
            let remaining = path_self.subrange(i, path_self.len() as int);
            if remaining.len() == 1 {
                (seq![(0usize, secret)], secret)
            } else {
                (
                    path_secrets(remaining.drop_last(), secret),
                    iterate_secret(secret, (remaining.len() - 1) as nat),
                )
            }
        },
        None => (seq![], secret),
    }
}

/// What `RatchetTree::add_member_from_update` needs so that none of its
/// steps fails.
pub open spec fn update_allowed(t: TreeView, s: SecretsView, new_index: usize, self_index: usize) -> bool {
    let room = tree_with_room(t, new_index as nat);
    &&& can_make_room(t, s.node_secrets, new_index as nat)
    &&& new_index < room.members.len()
    &&& path_computable(room.members.len(), new_index as nat)
    &&& path_computable(room.members.len(), self_index as nat)
}

pub proof fn lemma_first_common(a: Seq<usize>, b: Seq<usize>)
    ensures
        first_common(a, b) matches Some(p) ==> 0 <= p < a.len() && b.contains(a[p]) && forall|q: int|
            0 <= q < p ==> !b.contains(#[trigger] a[q]),
        first_common(a, b) is None ==> forall|q: int| 0 <= q < a.len() ==> !b.contains(#[trigger] a[q]),
    decreases a.len(),
{
    if a.len() > 0 {
        lemma_first_common(a.drop_last(), b);
        assert forall|q: int| 0 <= q < a.len() - 1 implies a.drop_last()[q] == #[trigger] a[q] by {}
    }
}

pub proof fn lemma_first_common_unique(a: Seq<usize>, b: Seq<usize>, p: int)
    requires
        0 <= p < a.len(),
        b.contains(a[p]),
        forall|q: int| 0 <= q < p ==> !b.contains(#[trigger] a[q]),
    ensures
        first_common(a, b) == Some(p),
{
    lemma_first_common(a, b);
    if let Some(g) = first_common(a, b) {
        if g < p {
            assert(b.contains(a[g]));
        } else if p < g {
            assert(!b.contains(a[p]));
        }
    }
}

fn contains_index(v: &Vec<usize>, x: usize) -> (r: bool)
    ensures
        r == v@.contains(x),
{
    let mut k: usize = 0;
    while k < v.len()
        invariant
            k <= v@.len(),
            forall|j: int| 0 <= j < k ==> #[trigger] v@[j] != x,
        decreases v@.len() - k,
    {
        if v[k] == x {
            proof {
                assert(v@[k as int] == x);
            }
            return true;
        }
        k = k + 1;
    }
    false
}

fn first_common_exec(a: &Vec<usize>, b: &Vec<usize>) -> (r: Option<usize>)
    ensures
        r matches Some(p) ==> p < a@.len() && first_common(a@, b@) == Some(p as int),
        r is None ==> first_common(a@, b@) is None,
{
    let mut k: usize = 0;
    while k < a.len()
        invariant
            k <= a@.len(),
            forall|q: int| 0 <= q < k ==> !b@.contains(#[trigger] a@[q]),
        decreases a@.len() - k,
    {
        if contains_index(b, a[k]) {
            proof {
                lemma_first_common_unique(a@, b@, k as int);
            }
            return Some(k);
        }
        k = k + 1;
    }
    proof {
        lemma_first_common(a@, b@);
        if let Some(p) = first_common(a@, b@) {
            assert(b@.contains(a@[p]));
        }
    }
    None
}

} // verus!
