//! What adding a member, taking in an update, planning the deliveries and
//! framing a node packet leave behind, stated over their inputs: the keys
//! and secrets held along a path, who is sent what, and where the fields of
//! a packet lie.
use vstd::prelude::*;
use crate::group::{after_add_member, after_update, GroupView};
use crate::group_flow::{
    deliveries_for_leaves, delivery_plan, leaf_sibling, node_keys_fit, path_deliveries,
    sibling_leaf_delivery, slot_bytes, with_node_keys, DeliveryView,
};
use crate::levels::{floor_log2, is_power_of_two, two_pow};
use crate::tree_laws::{law_broadcast_plan_covers, lemma_plan_shape};
use crate::identity::Keys;
use crate::laws::lemma_le_bytes_len;
use crate::primitives::{dilithium_valid, ed25519_valid, DILITHIUM_SIGNATURE_LEN, ED25519_SIGNATURE_LEN};
use crate::wire::{
    dilithium_sig_of, ed25519_sig_of, framed, header, is_signed_packet, le_bytes, signed_of,
    signed_to_node,
};
use crate::primitives::kyber_derive;
use crate::secrets::{law_lookup_after_upsert, lookup, upsert};
use crate::tree::{
    ancestors, broadcast_plan, internal_path, leaves_under, lemma_ancestors_below, sibling, MemberView,
    TreeView,
};
use crate::tree_update::{
    add_member_allowed, first_common, iterate_secret, lemma_first_common, path_secrets,
    set_path_keys, target_leaf, tree_with_room, update_allowed, upsert_all,
};

verus! {

/// The nodes of a path from a leaf up to the root come in strictly
/// decreasing order, so no node appears twice.
pub proof fn lemma_ancestors_decreasing(idx: nat, n_internal: nat)
    requires
        idx <= usize::MAX,
    ensures
        forall|j: int, k: int|
            0 <= j < k < ancestors(idx, n_internal).len() ==> #[trigger] ancestors(idx, n_internal)[j]
                > #[trigger] ancestors(idx, n_internal)[k],
    decreases idx,
{
    if idx > 0 {
        let p = ((idx - 1) / 2) as nat;
        lemma_ancestors_decreasing(p, n_internal);
        lemma_ancestors_below(p, n_internal);
        let a = ancestors(idx, n_internal);
        let rest = ancestors(p, n_internal);
        if p < n_internal {
            assert(a == seq![p as usize] + rest);
            assert forall|j: int, k: int| 0 <= j < k < a.len() implies #[trigger] a[j] > #[trigger] a[k] by {
                assert(a[k] == rest[k - 1]);
                assert(rest[k - 1] < p);
                if j > 0 {
                    assert(a[j] == rest[j - 1]);
                } else {
                    assert(a[0] == p as usize);
                }
            }
        } else {
            assert(a == rest);
        }
    }
}

/// Entries whose node indices are pairwise distinct.
pub open spec fn distinct_nodes(entries: Seq<(usize, Seq<u8>)>) -> bool {
    forall|j: int, k: int|
        0 <= j < entries.len() && 0 <= k < entries.len() && j != k ==> (#[trigger] entries[j]).0
            != (#[trigger] entries[k]).0
}

proof fn lemma_distinct_drop_last(entries: Seq<(usize, Seq<u8>)>)
    requires
        entries.len() > 0,
        distinct_nodes(entries),
    ensures
        distinct_nodes(entries.drop_last()),
{
    let d = entries.drop_last();
    assert forall|j: int, k: int|
        0 <= j < d.len() && 0 <= k < d.len() && j != k implies (#[trigger] d[j]).0 != (
        #[trigger] d[k]).0 by {
        assert(d[j] == entries[j]);
        assert(d[k] == entries[k]);
    }
}

/// The secrets of a path's nodes name each node once.
proof fn lemma_path_secrets_distinct(path: Seq<usize>, seed: Seq<u8>)
    requires
        forall|j: int, k: int| 0 <= j < k < path.len() ==> #[trigger] path[j] > #[trigger] path[k],
    ensures
        distinct_nodes(path_secrets(path, seed)),
{
    let e = path_secrets(path, seed);
    assert forall|j: int, k: int|
        0 <= j < e.len() && 0 <= k < e.len() && j != k implies (#[trigger] e[j]).0 != (
        #[trigger] e[k]).0 by {
        if j < k {
            assert(path[j] > path[k]);
        } else {
            assert(path[k] > path[j]);
        }
    }
}

/// Storing a Kyber key for each entry leaves, at each entry's node, the
/// key derived from that entry's secret, and every other slot as it was.
proof fn lemma_set_path_keys_at(nodes: Seq<Option<Seq<u8>>>, entries: Seq<(usize, Seq<u8>)>, i: usize)
    requires
        distinct_nodes(entries),
        forall|k: int| 0 <= k < entries.len() ==> (#[trigger] entries[k]).0 < nodes.len(),
        i < nodes.len(),
    ensures
        set_path_keys(nodes, entries).len() == nodes.len(),
        forall|k: int|
            0 <= k < entries.len() && (#[trigger] entries[k]).0 == i ==> set_path_keys(nodes, entries)[i as int]
                == Some(kyber_derive(entries[k].1).0),
        (forall|k: int| 0 <= k < entries.len() ==> (#[trigger] entries[k]).0 != i) ==> set_path_keys(
            nodes,
            entries,
        )[i as int] == nodes[i as int],
    decreases entries.len(),
{
    if entries.len() > 0 {
        let d = entries.drop_last();
        lemma_distinct_drop_last(entries);
        assert forall|k: int| 0 <= k < d.len() implies (#[trigger] d[k]).0 < nodes.len() by {
            assert(d[k] == entries[k]);
        }
        lemma_set_path_keys_at(nodes, d, i);
        let last = entries.len() - 1;
        assert(entries.last() == entries[last]);
        assert forall|k: int|
            0 <= k < entries.len() && (#[trigger] entries[k]).0 == i implies set_path_keys(
            nodes,
            entries,
        )[i as int] == Some(kyber_derive(entries[k].1).0) by {
            if k != last {
                assert(entries[last].0 != i);
                assert(d[k] == entries[k]);
            }
        }
        if forall|k: int| 0 <= k < entries.len() ==> (#[trigger] entries[k]).0 != i {
            assert forall|k: int| 0 <= k < d.len() implies (#[trigger] d[k]).0 != i by {
                assert(d[k] == entries[k]);
            }
            assert(entries[last].0 != i);
        }
    }
}

/// After writing the entries in order, each entry's node reads back that
/// entry's secret.
proof fn lemma_lookup_upsert_all_at(s: Seq<(usize, Seq<u8>)>, entries: Seq<(usize, Seq<u8>)>, k: int)
    requires
        distinct_nodes(entries),
        0 <= k < entries.len(),
    ensures
        lookup(upsert_all(s, entries), entries[k].0) == Some(entries[k].1),
    decreases entries.len(),
{
    let d = entries.drop_last();
    let last = entries.len() - 1;
    assert(entries.last() == entries[last]);
    law_lookup_after_upsert(upsert_all(s, d), entries[last].0, entries[last].1, entries[k].0);
    if k != last {
        lemma_distinct_drop_last(entries);
        assert(d[k] == entries[k]);
        lemma_lookup_upsert_all_at(s, d, k);
    }
}

/// Adding a member leaves every node of its path holding the secret
/// derived from the path secret once per level up to that node, and the
/// Kyber public key derived from that very secret; the root secret is the
/// one derived for the last node of the path. So each node's public key
/// belongs to the secret the members hold for it.
pub proof fn law_added_path_keys(
    g: GroupView,
    kyber_key: Seq<u8>,
    dilithium_key: Seq<u8>,
    ed25519_key: Seq<u8>,
    user_id: Seq<char>,
    path_secret: Seq<u8>,
    index: Option<usize>,
    k: int,
)
    requires
        add_member_allowed(g.tree, g.secrets, index),
        ({
            let leaf = target_leaf(g.tree, index);
            let path = internal_path(tree_with_room(g.tree, leaf).members.len(), leaf);
            0 <= k < path.len()
        }),
    ensures
        ({
            let a = after_add_member(g, kyber_key, dilithium_key, ed25519_key, user_id, path_secret, index);
            let leaf = target_leaf(g.tree, index);
            let path = internal_path(tree_with_room(g.tree, leaf).members.len(), leaf);
            let secret = iterate_secret(path_secret, (k + 1) as nat);
            &&& lookup(a.secrets.node_secrets, path[k]) == Some(secret)
            &&& a.tree.nodes[path[k] as int] == Some(kyber_derive(secret).0)
            &&& a.secrets.root_secret == iterate_secret(path_secret, path.len())
        }),
{
    let leaf = target_leaf(g.tree, index);
    let room = tree_with_room(g.tree, leaf);
    let n = room.members.len();
    let path = internal_path(n, leaf);
    let entries = path_secrets(path, path_secret);
    lemma_ancestors_decreasing((n - 1 + leaf) as nat, (n - 1) as nat);
    lemma_path_secrets_distinct(path, path_secret);
    assert forall|q: int| 0 <= q < entries.len() implies (#[trigger] entries[q]).0 < room.nodes.len() by {
        assert(entries[q].0 == path[q]);
    }
    lemma_set_path_keys_at(room.nodes, entries, path[k]);
    assert(entries[k].0 == path[k]);
    lemma_lookup_upsert_all_at(
        crate::tree_update::secrets_with_room(g.tree, g.secrets.node_secrets, leaf),
        entries,
        k,
    );
    assert(entries.last() == entries[path.len() - 1]);
}

/// A member who takes in an update from the first node where its own path
/// meets the new member's: when they meet only at the root, the secret
/// received is stored for the root node and becomes the root secret;
/// otherwise each node of its path from the meeting node up to the one
/// below the root holds the received secret derived once per level up to
/// it, and the root secret is derived once more per remaining level.
pub proof fn law_update_stores_received_secrets(
    g: GroupView,
    kyber_key: Seq<u8>,
    dilithium_key: Seq<u8>,
    ed25519_key: Seq<u8>,
    user_id: Seq<char>,
    secret: Seq<u8>,
    new_index: usize,
    self_index: usize,
    j: int,
)
    requires
        update_allowed(g.tree, g.secrets, new_index, self_index),
        ({
            let n = tree_with_room(g.tree, new_index as nat).members.len();
            first_common(internal_path(n, self_index as nat), internal_path(n, new_index as nat))
                is Some
        }),
    ensures
        ({
            let u = after_update(
                g,
                kyber_key,
                dilithium_key,
                ed25519_key,
                user_id,
                secret,
                new_index,
                self_index,
            );
            let n = tree_with_room(g.tree, new_index as nat).members.len();
            let own = internal_path(n, self_index as nat);
            let i = first_common(own, internal_path(n, new_index as nat))->0;
            &&& i == own.len() - 1 ==> lookup(u.secrets.node_secrets, 0) == Some(secret)
                && u.secrets.root_secret == secret
            &&& i < own.len() - 1 ==> u.secrets.root_secret == iterate_secret(
                secret,
                (own.len() - 1 - i) as nat,
            )
            &&& (i <= j < own.len() - 1 ==> lookup(u.secrets.node_secrets, own[j]) == Some(
                iterate_secret(secret, (j - i + 1) as nat),
            ))
        }),
{
    let room = tree_with_room(g.tree, new_index as nat);
    let n = room.members.len();
    let own = internal_path(n, self_index as nat);
    let other = internal_path(n, new_index as nat);
    let i = first_common(own, other)->0;
    lemma_first_common(own, other);
    let start = crate::tree_update::secrets_with_room(g.tree, g.secrets.node_secrets, new_index as nat);
    let remaining = own.subrange(i, own.len() as int);
    if i == own.len() - 1 {
        let e = seq![(0usize, secret)];
        assert(e.drop_last() =~= Seq::<(usize, Seq<u8>)>::empty());
        assert(e.last() == (0usize, secret));
        assert(upsert_all(start, e) == upsert(upsert_all(start, e.drop_last()), 0, secret));
        law_lookup_after_upsert(start, 0, secret, 0);
    } else {
        let below = remaining.drop_last();
        lemma_ancestors_decreasing((n - 1 + self_index) as nat, (n - 1) as nat);
        assert forall|a: int, b: int| 0 <= a < b < below.len() implies #[trigger] below[a]
            > #[trigger] below[b] by {
            assert(below[a] == own[i + a]);
            assert(below[b] == own[i + b]);
        }
        lemma_path_secrets_distinct(below, secret);
        if i <= j < own.len() - 1 {
            let e = path_secrets(below, secret);
            lemma_lookup_upsert_all_at(start, e, j - i);
            assert(e[j - i].0 == own[j]);
        }
    }
}

/// Storing the announced node keys leaves at each named node the key given
/// last for it, whatever the slot held before, and every other slot as it
/// was.
pub proof fn law_node_keys_stored(nodes: Seq<Option<Seq<u8>>>, pks: Seq<(usize, Seq<u8>)>, i: usize)
    requires
        node_keys_fit(nodes, pks),
        i < nodes.len(),
    ensures
        with_node_keys(nodes, pks).len() == nodes.len(),
        forall|k: int|
            0 <= k < pks.len() && (#[trigger] pks[k]).0 == i && (forall|k2: int|
                k < k2 < pks.len() ==> (#[trigger] pks[k2]).0 != i) ==> with_node_keys(nodes, pks)[i as int]
                == Some(pks[k].1),
        (forall|k: int| 0 <= k < pks.len() ==> (#[trigger] pks[k]).0 != i) ==> with_node_keys(
            nodes,
            pks,
        )[i as int] == nodes[i as int],
    decreases pks.len(),
{
    if pks.len() > 0 {
        let d = pks.drop_last();
        let last = pks.len() - 1;
        assert(pks.last() == pks[last]);
        assert forall|k: int| 0 <= k < d.len() implies (#[trigger] d[k]).0 < nodes.len() by {
            assert(d[k] == pks[k]);
        }
        law_node_keys_stored(nodes, d, i);
        assert forall|k: int|
            0 <= k < pks.len() && (#[trigger] pks[k]).0 == i && (forall|k2: int|
                k < k2 < pks.len() ==> (#[trigger] pks[k2]).0 != i) implies with_node_keys(
            nodes,
            pks,
        )[i as int] == Some(pks[k].1) by {
            if k < last {
                assert(pks[last].0 != i);
                assert(d[k] == pks[k]);
                assert forall|k2: int| k < k2 < d.len() implies (#[trigger] d[k2]).0 != i by {
                    assert(d[k2] == pks[k2]);
                }
            }
        }
        if forall|k: int| 0 <= k < pks.len() ==> (#[trigger] pks[k]).0 != i {
            assert forall|k: int| 0 <= k < d.len() implies (#[trigger] d[k]).0 != i by {
                assert(d[k] == pks[k]);
            }
            assert(pks[last].0 != i);
        }
    }
}

/// A packet that a user's keys framed for a node carries, after the header
/// and the two signatures, the user's Dilithium and Ed25519 public keys,
/// then the user's nonce, then the timestamp in little-endian order, and
/// nothing more; both signatures verify over everything after them under
/// the public keys it carries.
pub proof fn law_node_packet_fields(keys: Keys, timestamp: u64, prefix: u8, packet: Seq<u8>)
    requires
        keys.wf(),
        is_signed_packet(packet, prefix, &keys, signed_to_node(&keys, timestamp)),
    ensures
        packet.len() == 5370,
        packet.subrange(0, 5) == header(prefix),
        packet.subrange(3362, 5314) == keys.dilithium_public(),
        packet.subrange(5314, 5346) == keys.ed25519_public(),
        packet.subrange(5346, 5362) == keys.nonce@,
        packet.subrange(5362, 5370) == le_bytes(timestamp as nat, 8),
        dilithium_valid(dilithium_sig_of(packet), signed_of(packet), packet.subrange(3362, 5314)),
        ed25519_valid(packet.subrange(5314, 5346), signed_of(packet), ed25519_sig_of(packet)),
{
    let signed = signed_to_node(&keys, timestamp);
    let (dsig, esig) = choose|dsig: Seq<u8>, esig: Seq<u8>|
        dsig.len() == DILITHIUM_SIGNATURE_LEN && esig.len() == ED25519_SIGNATURE_LEN
            && dilithium_valid(dsig, signed, keys.dilithium_public())
            && ed25519_valid(keys.ed25519_public(), signed, esig)
            && packet == #[trigger] framed(prefix, dsig, esig, signed);
    lemma_le_bytes_len(timestamp as nat, 8);
    let dpk = keys.dilithium_public();
    let epk = keys.ed25519_public();
    let nonce = keys.nonce@;
    let le = le_bytes(timestamp as nat, 8);
    assert(packet =~= header(prefix) + dsig + esig + dpk + epk + nonce + le);
    assert(packet.subrange(0, 5) =~= header(prefix));
    assert(packet.subrange(3362, 5314) =~= dpk);
    assert(packet.subrange(5314, 5346) =~= epk);
    assert(packet.subrange(5346, 5362) =~= nonce);
    assert(packet.subrange(5362, 5370) =~= le);
    assert(dilithium_sig_of(packet) =~= dsig);
    assert(ed25519_sig_of(packet) =~= esig);
    assert(signed_of(packet) =~= signed);
}

/// Deliveries to the occupied leaves among `leaves` reach every occupied
/// leaf there other than the sender's, with the given key.
proof fn lemma_leaf_deliveries_reach(
    members: Seq<Option<MemberView>>,
    leaves: Seq<usize>,
    self_index: usize,
    key: Seq<u8>,
    enc_key: Seq<u8>,
    m: usize,
)
    requires
        leaves.contains(m),
        members[m as int] is Some,
        m != self_index,
    ensures
        exists|q: int|
            0 <= q < deliveries_for_leaves(members, leaves, self_index, key, enc_key).len()
                && (#[trigger] deliveries_for_leaves(members, leaves, self_index, key, enc_key)[q]).recipient
                == m && deliveries_for_leaves(members, leaves, self_index, key, enc_key)[q].key == key,
    decreases leaves.len(),
{
    let init = leaves.drop_last();
    let rest = deliveries_for_leaves(members, init, self_index, key, enc_key);
    let all = deliveries_for_leaves(members, leaves, self_index, key, enc_key);
    if leaves.last() == m {
        assert(all == rest.push(
            DeliveryView {
                recipient: m,
                recipient_user_id: members[m as int]->0.user_id,
                key,
                encapsulation_key: enc_key,
            },
        ));
        assert(all[rest.len() as int].recipient == m);
    } else {
        let w = choose|w: int| 0 <= w < leaves.len() && leaves[w] == m;
        assert(w < leaves.len() - 1);
        assert(init[w] == m);
        lemma_leaf_deliveries_reach(members, init, self_index, key, enc_key, m);
        let q = choose|q: int|
            0 <= q < rest.len() && (#[trigger] rest[q]).recipient == m && rest[q].key == key;
        assert(all[q] == rest[q]);
    }
}

/// The deliveries along a path reach every occupied leaf, other than the
/// sender's, under the sibling of a non-root node of the path, with the
/// secret of the node above that one.
proof fn lemma_path_deliveries_reach(t: TreeView, path: Seq<usize>, self_index: usize, ps: Seq<u8>, k: int, m: usize)
    requires
        0 <= k < path.len(),
        path[k] != 0,
        leaves_under(sibling(path[k]) as nat, t.members.len()).contains(m),
        t.members[m as int] is Some,
        m != self_index,
    ensures
        exists|q: int|
            0 <= q < path_deliveries(t, path, self_index, ps).len() && (#[trigger] path_deliveries(
                t,
                path,
                self_index,
                ps,
            )[q]).recipient == m && path_deliveries(t, path, self_index, ps)[q].key == iterate_secret(
                ps,
                (k + 2) as nat,
            ),
    decreases path.len(),
{
    let init = path.drop_last();
    let rest = path_deliveries(t, init, self_index, ps);
    let all = path_deliveries(t, path, self_index, ps);
    if k == path.len() - 1 {
        let sib = sibling(path.last());
        let key = iterate_secret(ps, (path.len() + 1) as nat);
        let enc = slot_bytes(t.nodes[sib as int]);
        let chunk = deliveries_for_leaves(t.members, leaves_under(sib as nat, t.members.len()), self_index, key, enc);
        assert(path.last() == path[k]);
        assert(all == rest + chunk);
        lemma_leaf_deliveries_reach(t.members, leaves_under(sib as nat, t.members.len()), self_index, key, enc, m);
        let q = choose|q: int| 0 <= q < chunk.len() && (#[trigger] chunk[q]).recipient == m && chunk[q].key == key;
        assert(all[rest.len() + q] == chunk[q]);
        assert((path.len() + 1) as nat == (k + 2) as nat);
    } else {
        assert(init[k] == path[k]);
        lemma_path_deliveries_reach(t, init, self_index, ps, k, m);
        let q = choose|q: int|
            0 <= q < rest.len() && (#[trigger] rest[q]).recipient == m && rest[q].key == iterate_secret(
                ps,
                (k + 2) as nat,
            );
        if path.last() == 0 {
            assert(all == rest);
        } else {
            let sib = sibling(path.last());
            let chunk = deliveries_for_leaves(
                t.members,
                leaves_under(sib as nat, t.members.len()),
                self_index,
                iterate_secret(ps, (path.len() + 1) as nat),
                slot_bytes(t.nodes[sib as int]),
            );
            assert(all == rest + chunk);
            assert(all[q] == rest[q]);
        }
    }
}

/// The plan announcing a new member reaches every other member: in a group
/// whose leaves number a power of two, each occupied leaf other than the
/// adder's and the new member's is the recipient of some delivery, and the
/// new member's neighbour leaf is sent the path secret itself, encapsulated
/// to the new member's Kyber key.
pub proof fn law_plan_reaches_every_member(g: GroupView, new_index: usize, ps: Seq<u8>, m: usize)
    requires
        is_power_of_two(g.tree.members.len()),
        g.tree.members.len() >= 2,
        2 * g.tree.members.len() <= usize::MAX,
        new_index < g.tree.members.len(),
        m < g.tree.members.len(),
        m != new_index,
        m != g.self_index,
        g.tree.members[m as int] is Some,
    ensures
        exists|q: int|
            0 <= q < delivery_plan(g, new_index, ps).len() && (#[trigger] delivery_plan(
                g,
                new_index,
                ps,
            )[q]).recipient == m,
        m == leaf_sibling(new_index) ==> exists|q: int|
            0 <= q < delivery_plan(g, new_index, ps).len() && (#[trigger] delivery_plan(
                g,
                new_index,
                ps,
            )[q]).recipient == m && delivery_plan(g, new_index, ps)[q].key == ps && (
            g.tree.members[new_index as int] matches Some(n) ==> delivery_plan(g, new_index, ps)[q].encapsulation_key
                == n.kyber_key),
{
    let t = g.tree;
    let l = t.members.len();
    let path = internal_path(l, new_index as nat);
    let pd = path_deliveries(t, path, g.self_index, ps);
    let sib = sibling_leaf_delivery(t, new_index, g.self_index, ps);
    let plan = delivery_plan(g, new_index, ps);
    assert(plan == pd + sib);
    if m == leaf_sibling(new_index) {
        assert(sib.len() == 1);
        assert(plan[pd.len() as int] == sib[0]);
        assert(sib[0].recipient == m && sib[0].key == ps);
    } else {
        let tt = floor_log2(l);
        assert(two_pow(tt) == l);
        assert(tt >= 1) by {
            if tt == 0 {
                assert(two_pow(0) == 1);
            }
        }
        lemma_plan_shape(tt, new_index as nat);
        law_broadcast_plan_covers(tt, new_index as nat, m as nat);
        let bp = broadcast_plan(l, new_index as nat);
        let k = choose|k: int| 0 <= k < bp.len() && #[trigger] bp[k].0.contains(m);
        assert(bp[k].1 == sibling(path[k]));
        assert(path[k] != 0);
        lemma_path_deliveries_reach(t, path, g.self_index, ps, k, m);
        let q = choose|q: int| 0 <= q < pd.len() && (#[trigger] pd[q]).recipient == m && pd[q].key
            == iterate_secret(ps, (k + 2) as nat);
        assert(plan[q] == pd[q]);
    }
}

} // verus!
