//! Tests of the conditions under which the group operations can run, so
//! that a caller can refuse an addition or an update before making it.
use vstd::prelude::*;
use crate::group::{group_add_allowed, GroupState, GroupUpdateMember, DILITHIUM_PK_SIZE, KYBER_PK_SIZE, SECRET_SIZE, USER_ID_SIZE};
use crate::group_flow::{
    apply_update_allowed, has_recipient, leaf_sibling, node_keys_fit, placed_by_update,
    plan_keys_present, update_view,
};
use crate::levels::is_power_of_two;
use crate::tree::{descendant_leaves, leaves_under, lemma_ancestors_below, sibling};
use crate::levels::floor_log2_exec;
use crate::secrets::GroupSecrets;
use crate::tree::{internal_path, new_index, path_indices, RatchetTree};
use crate::tree_update::{
    add_member_allowed, can_make_room, first_free_leaf, first_free_leaf_of, grown_len, must_grow,
    path_computable, path_has_slots, path_secrets, set_path_keys, target_leaf, tree_with_room,
    update_allowed,
};

verus! {

/// The number of leaves after growth, when it fits in a `usize`.
fn grown_len_checked(len: usize) -> (r: Option<usize>)
    ensures
        r matches Some(v) ==> v == grown_len(len as nat),
        r is None ==> grown_len(len as nat) > usize::MAX,
{
    let base: u128 = if len == 0 {
        1
    } else {
        len as u128
    };
    let (_k, p) = floor_log2_exec(base);
    let next: u128 = if p == base {
        base
    } else {
        2 * p
    };
    proof {
        if base > 1 && p != base {
            assert(!crate::levels::is_power_of_two(base as nat));
        }
    }
    let total: u128 = 2 * next;
    if total <= usize::MAX as u128 {
        Some(total as usize)
    } else {
        None
    }
}

/// Whether room can be made in `t` for a member at `leaf`.
pub fn can_make_room_exec(t: &RatchetTree, s: &GroupSecrets, leaf: usize) -> (r: bool)
    ensures
        r == can_make_room(t@, s@.node_secrets, leaf as nat),
{
    if leaf < t.members.len() {
        return true;
    }
    match grown_len_checked(t.members.len()) {
        None => {
            return false;
        },
        Some(_) => {},
    }
    if t.nodes.len() > (usize::MAX - 1) / 2 {
        return false;
    }
    let ghost es = s@.node_secrets;
    assert(t@.members.len() == t.members@.len());
    let mut k: usize = 0;
    while k < s.node_secrets.len()
        invariant
            es == s@.node_secrets,
            must_grow(t@, leaf as nat),
            es.len() == s.node_secrets@.len(),
            k <= es.len(),
            forall|j: int| 0 <= j < k ==> new_index((#[trigger] es[j]).0 as nat) <= usize::MAX,
        decreases es.len() - k,
    {
        let i = s.node_secrets[k].0;
        assert(es[k as int].0 == i);
        let (_l, shift) = floor_log2_exec(i as u128 + 1);
        if i as u128 + shift > usize::MAX as u128 {
            assert(new_index(es[k as int].0 as nat) > usize::MAX);
            assert(must_grow(t@, leaf as nat));
            assert(!can_make_room(t@, es, leaf as nat));
            return false;
        }
        k = k + 1;
    }
    true
}

/// The numbers of leaves and internal nodes of `t` once room is made for
/// `leaf`.
fn room_lens(t: &RatchetTree, s: &GroupSecrets, leaf: usize) -> (r: (usize, usize))
    requires
        can_make_room(t@, s@.node_secrets, leaf as nat),
    ensures
        r.0 == tree_with_room(t@, leaf as nat).members.len(),
        r.1 == tree_with_room(t@, leaf as nat).nodes.len(),
{
    if leaf < t.members.len() {
        (t.members.len(), t.nodes.len())
    } else {
        let g = match grown_len_checked(t.members.len()) {
            Some(g) => g,
            None => {
                proof {
                    assert(false);
                }
                0
            },
        };
        proof {
            crate::tree_update::lemma_grown_len_above(t.members@.len() as nat);
        }
        (g, 2 * t.nodes.len() + 1)
    }
}

/// Whether every node of `path` has a slot among `n` nodes.
fn path_fits(path: &Vec<usize>, n: usize) -> (r: bool)
    ensures
        r == forall|k: int| 0 <= k < path@.len() ==> (#[trigger] path@[k]) < n,
{
    let mut k: usize = 0;
    while k < path.len()
        invariant
            k <= path@.len(),
            forall|j: int| 0 <= j < k ==> (#[trigger] path@[j]) < n,
        decreases path@.len() - k,
    {
        if path[k] >= n {
            return false;
        }
        k = k + 1;
    }
    true
}

/// Whether a member can be placed in `t` at leaf `index`, or at the first
/// empty leaf.
pub fn add_member_allowed_exec(t: &RatchetTree, s: &GroupSecrets, index: Option<usize>) -> (r: bool)
    ensures
        r == add_member_allowed(t@, s@, index),
{
    let leaf = match index {
        Some(i) => i,
        None => first_free_leaf_of(&t.members),
    };
    assert(leaf as nat == target_leaf(t@, index));
    if !can_make_room_exec(t, s, leaf) {
        return false;
    }
    let (rl, rn) = room_lens(t, s, leaf);
    if leaf >= rl {
        return false;
    }
    if rl - 1 > usize::MAX - leaf {
        return false;
    }
    let path = path_indices(rl, leaf);
    if path.len() == 0 {
        return false;
    }
    path_fits(&path, rn)
}

/// Whether an update announcing a member at `new_index` can be taken in by
/// the member at `self_index`.
pub fn update_allowed_exec(t: &RatchetTree, s: &GroupSecrets, new_index: usize, self_index: usize) -> (r: bool)
    ensures
        r == update_allowed(t@, s@, new_index, self_index),
{
    if !can_make_room_exec(t, s, new_index) {
        return false;
    }
    let (rl, _rn) = room_lens(t, s, new_index);
    if new_index >= rl {
        return false;
    }
    rl - 1 <= usize::MAX - new_index && rl - 1 <= usize::MAX - self_index
}

proof fn lemma_set_path_keys_len(nodes: Seq<Option<Seq<u8>>>, entries: Seq<(usize, Seq<u8>)>)
    requires
        forall|k: int| 0 <= k < entries.len() ==> (#[trigger] entries[k]).0 < nodes.len(),
    ensures
        set_path_keys(nodes, entries).len() == nodes.len(),
    decreases entries.len(),
{
    if entries.len() > 0 {
        let d = entries.drop_last();
        assert forall|k: int| 0 <= k < d.len() implies (#[trigger] d[k]).0 < nodes.len() by {
            assert(d[k] == entries[k]);
        }
        lemma_set_path_keys_len(nodes, d);
        assert(entries.last() == entries[entries.len() - 1]);
    }
}

impl GroupState {
    /// Whether `add_member` can place a member with these keys, identifier
    /// and path secret at leaf `index` (or the first empty leaf).
    pub fn can_add_member(
        &self,
        kyber_key: &Vec<u8>,
        dilithium_key: &Vec<u8>,
        user_id: &str,
        secret: &Vec<u8>,
        index: Option<usize>,
    ) -> (r: bool)
        ensures
            r == group_add_allowed(self@, kyber_key@, dilithium_key@, user_id@, secret@, index),
    {
        kyber_key.len() == KYBER_PK_SIZE && dilithium_key.len() == DILITHIUM_PK_SIZE
            && user_id.as_bytes().len() == USER_ID_SIZE && secret.len() == SECRET_SIZE
            && add_member_allowed_exec(&self.tree, &self.secrets, index) && self.epoch < usize::MAX
    }

    /// Whether `make_room_for_next_member` can make room.
    pub fn can_make_room_for_next_member(&self) -> (r: bool)
        ensures
            r == can_make_room(
                self@.tree,
                self@.secrets.node_secrets,
                first_free_leaf(self@.tree.members),
            ),
    {
        let leaf = first_free_leaf_of(&self.tree.members);
        can_make_room_exec(&self.tree, &self.secrets, leaf)
    }

    /// Whether `apply_update` can take `update` in.
    pub fn can_apply_update(&self, update: &GroupUpdateMember, from_node: bool) -> (r: bool)
        ensures
            r == apply_update_allowed(self@, update_view(update), from_node),
    {
        let ghost u = update_view(update);
        let index = update.index;
        let first = if from_node {
            update_allowed_exec(&self.tree, &self.secrets, index, self.self_index) && self.epoch
                < usize::MAX
        } else {
            self.can_add_member(
                &update.new_member_cred.kyber_pk,
                &update.new_member_cred.dilithium_pk,
                update.new_member_cred.user_id.as_str(),
                &update.key,
                Some(index),
            )
        };
        if !first {
            return false;
        }
        let (_rl, rn) = room_lens(&self.tree, &self.secrets, index);
        proof {
            let placed = placed_by_update(self@, u, from_node);
            if !from_node {
                let room = tree_with_room(self@.tree, index as nat);
                let path = internal_path(room.members.len(), index as nat);
                let entries = path_secrets(path, u.key);
                assert(target_leaf(self@.tree, Some(index)) == index as nat);
                assert forall|k: int| 0 <= k < entries.len() implies (#[trigger] entries[k]).0
                    < room.nodes.len() by {
                    assert(entries[k].0 == path[k]);
                }
                lemma_set_path_keys_len(room.nodes, entries);
            }
            assert(placed.tree.nodes.len() == rn);
        }
        let ghost pks = u.new_pks;
        let mut k: usize = 0;
        while k < update.new_pks.len()
            invariant
                pks == crate::secrets::entries_view(update.new_pks@),
                pks == u.new_pks,
                u == update_view(update),
                placed_by_update(self@, u, from_node).tree.nodes.len() == rn,
                first == true,
                k <= pks.len(),
                forall|j: int| 0 <= j < k ==> (#[trigger] pks[j]).0 < rn,
            decreases pks.len() - k,
        {
            assert(pks[k as int].0 == update.new_pks[k as int].0);
            if update.new_pks[k].0 >= rn {
                assert(!node_keys_fit(placed_by_update(self@, u, from_node).tree.nodes, pks));
                return false;
            }
            k = k + 1;
        }
        true
    }
}

/// Whether some leaf among `leaves`, other than `self_index`, holds a
/// member.
fn has_recipient_exec(t: &RatchetTree, leaves: &Vec<usize>, self_index: usize) -> (r: bool)
    requires
        forall|q: int| 0 <= q < leaves@.len() ==> #[trigger] leaves@[q] < t@.members.len(),
    ensures
        r == has_recipient(t@.members, leaves@, self_index),
{
    let mut j: usize = 0;
    while j < leaves.len()
        invariant
            forall|q: int| 0 <= q < leaves@.len() ==> #[trigger] leaves@[q] < t@.members.len(),
            j <= leaves@.len(),
            forall|q: int|
                0 <= q < j ==> !(leaves@[q] != self_index && #[trigger] t@.members[leaves@[q] as int]
                    is Some),
        decreases leaves@.len() - j,
    {
        let d = leaves[j];
        assert(t@.members.len() == t.members@.len());
        if d != self_index && t.members[d].is_some() {
            assert(t@.members[d as int] is Some);
            return true;
        }
        assert(!(leaves@[j as int] != self_index && t@.members[leaves@[j as int] as int] is Some));
        j = j + 1;
    }
    false
}

impl GroupState {
    /// Whether `plan_update_deliveries` can plan the updates announcing the
    /// member at `new_member_index`: the tree has a power-of-two number of
    /// leaves, the leaf is in it, and the keys the plan reads are present.
    pub fn can_plan_update_deliveries(&self, new_member_index: usize) -> (r: bool)
        ensures
            r == (is_power_of_two(self@.tree.members.len() as nat) && self@.tree.members.len() >= 2
                && new_member_index < self@.tree.members.len() && self@.tree.members.len()
                <= usize::MAX / 2 && plan_keys_present(self@, new_member_index)),
    {
        let ghost t = self@.tree;
        let l = self.tree.members.len();
        assert(t.members.len() == l);
        if !(crate::levels::is_power_of_two_exec(l) && l >= 2 && new_member_index < l && l
            <= usize::MAX / 2) {
            return false;
        }
        let path = path_indices(l, new_member_index);
        proof {
            lemma_ancestors_below((l - 1 + new_member_index) as nat, (l - 1) as nat);
        }
        let mut k: usize = 0;
        while k < path.len()
            invariant
                t == self@.tree,
                l == t.members.len(),
                is_power_of_two(l as nat),
                l >= 2,
                l <= usize::MAX / 2,
                new_member_index < l,
                path@ == internal_path(l as nat, new_member_index as nat),
                forall|q: int| 0 <= q < path@.len() ==> #[trigger] path@[q] < l - 1,
                k <= path@.len(),
                forall|q: int|
                    0 <= q < k && path@[q] != 0 && has_recipient(
                        t.members,
                        leaves_under(sibling(path@[q]) as nat, l as nat),
                        self@.self_index,
                    ) ==> sibling(#[trigger] path@[q]) < t.nodes.len() && t.nodes[sibling(
                        path@[q],
                    ) as int] is Some,
            decreases path@.len() - k,
        {
            let i = path[k];
            if i != 0 {
                let sib = if i % 2 == 0 {
                    i - 1
                } else {
                    i + 1
                };
                proof {
                    if i % 2 == 1 {
                        crate::levels::lemma_floor_log2_bounds(l as nat);
                        if l % 2 == 1 {
                            assert(crate::levels::two_pow(crate::levels::floor_log2(l as nat))
                                == 2 * crate::levels::two_pow(
                                (crate::levels::floor_log2(l as nat) - 1) as nat,
                            ));
                        }
                    }
                }
                assert(sib == sibling(i));
                let leaves = descendant_leaves(sib, l);
                if has_recipient_exec(&self.tree, &leaves, self.self_index) {
                    assert(t.nodes.len() == self.tree.nodes@.len());
                    if sib >= self.tree.nodes.len() || self.tree.nodes[sib].is_none() {
                        assert(!plan_keys_present(self@, new_member_index)) by {
                            assert(path@[k as int] == i);
                        }
                        return false;
                    }
                }
            }
            k = k + 1;
        }
        let s = if new_member_index % 2 == 0 {
            new_member_index + 1
        } else {
            new_member_index - 1
        };
        assert(s as int == leaf_sibling(new_member_index));
        assert(s < l) by {
            if new_member_index % 2 == 0 {
                crate::levels::lemma_floor_log2_bounds(l as nat);
                if l % 2 == 1 {
                    assert(crate::levels::two_pow(crate::levels::floor_log2(l as nat)) == 2
                        * crate::levels::two_pow((crate::levels::floor_log2(l as nat) - 1) as nat));
                }
            }
        }
        assert(t.members.len() == self.tree.members@.len());
        if s != self.self_index && self.tree.members[s].is_some()
            && self.tree.members[new_member_index].is_none() {
            return false;
        }
        true
    }
}

} // verus!
