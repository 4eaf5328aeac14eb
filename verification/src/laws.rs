//! Properties that hold across the operations of the library: what one
//! operation undoes of another, and what every member of a group agrees on.
use vstd::prelude::*;
use crate::group::{
    after_add_member, after_update, leaf_of_user, lemma_leaf_of_user_unique,
    GroupView,
};
use crate::group_flow::{deliveries_for_leaves, hello_joined, path_deliveries};
use crate::levels::{floor_log2, is_power_of_two, lemma_floor_log2_unique, lemma_two_pow_monotone, lemma_two_pow_pos, two_pow};
use crate::path_math::{lemma_divide_twice, lemma_leaves_under_iff, lemma_path_closed, lemma_path_depth};
use crate::primitives::{hex_decode, hex_digit, hex_lower, hex_value};
use crate::identity::{user_id_of, Keys};
use crate::secrets::{first_pos, lookup, remap_entries};
use crate::tree::{
    ancestors, grown_nodes, internal_path, leaves_under, lemma_new_index_bounds,
    lemma_new_index_injective, lemma_original_of_new, new_index, node_depth, original_index,
    sibling, MemberView, TreeView,
};
use crate::wire::{
    authenticates, dilithium_sig_of, ed25519_sig_of, signed_of, framed, header, is_signed_packet, le_bytes, signed_to_user, source_id_of, DST_ID_START,
    GROUP_BODY_START, GROUP_DATA_START, NONCE_START, PAYLOAD_START, PREFIX_GROUP_HELLO,
};
use crate::aead::{decrypt_outcome, opened, sealed_with_nonce, CipherError};
use crate::primitives::{dilithium_valid, ed25519_valid, kyber_decapsulate, kyber_encapsulates, AES_GCM_MAX_PLAINTEXT, KYBER_CIPHERTEXT_LEN};
use crate::tree_update::{
    add_member_allowed, first_common, grown_len, iterate_secret, lemma_first_common, lemma_first_common_unique,
    member_record, must_grow, next_pow2, secrets_with_room, upsert_all, path_computable, path_secrets, set_path_keys, target_leaf,
    tree_with_room, update_allowed,
};

verus! {

/// The bytes of ASCII characters.
pub open spec fn ascii_bytes(c: Seq<char>) -> Seq<u8> {
    Seq::new(c.len(), |i: int| c[i] as u8)
}

proof fn lemma_hex_digit(v: u8)
    requires
        v < 16,
    ensures
        hex_value(hex_digit(v) as u8) == Some(v),
        '\0' <= hex_digit(v) <= '\u{7f}',
{
    if v < 10 {
        assert((48 + v) as char as u8 == 48 + v);
    } else {
        assert((87 + v) as char as u8 == 87 + v);
    }
}

pub(crate) proof fn lemma_hex_lower_ascii(data: Seq<u8>)
    ensures
        hex_lower(data).len() == 2 * data.len(),
        vstd::utf8::is_ascii_chars(hex_lower(data)),
        hex_decode(ascii_bytes(hex_lower(data))) == Some(data),
    decreases data.len(),
{
    if data.len() > 0 {
        let d = data.drop_last();
        lemma_hex_lower_ascii(d);
        let h = hex_lower(d);
        let last = data.last();
        let x = hex_digit((last / 16) as u8);
        let y = hex_digit((last % 16) as u8);
        lemma_hex_digit((last / 16) as u8);
        lemma_hex_digit((last % 16) as u8);
        let full = hex_lower(data);
        assert(full == h + seq![x, y]);
        assert(vstd::utf8::is_ascii_chars(full)) by {
            assert forall|i: int| 0 <= i < full.len() implies '\0' <= #[trigger] full[i]
                <= '\u{7f}' by {
                if i < h.len() {
                    assert(full[i] == h[i]);
                }
            }
        }
        let t = ascii_bytes(full);
        assert(t.subrange(0, t.len() - 2) =~= ascii_bytes(h));
        assert(t[t.len() - 2] == x as u8);
        assert(t[t.len() - 1] == y as u8);
        assert((((last / 16) as u8) * 16 + ((last % 16) as u8)) as u8 == last);
        assert(d.push(last) =~= data);
    }
}

/// Hex decoding undoes hex encoding: the lower-case hex text of any bytes,
/// read back as text, decodes to those bytes.
pub proof fn law_hex_round_trip(data: Seq<u8>)
    ensures
        hex_decode(vstd::utf8::encode_utf8(hex_lower(data))) == Some(data),
{
    lemma_hex_lower_ascii(data);
    let h = hex_lower(data);
    vstd::utf8::is_ascii_chars_encode_utf8(h);
    assert(vstd::utf8::encode_utf8(h) =~= ascii_bytes(h));
}

proof fn lemma_iterate_adds(s: Seq<u8>, a: nat, b: nat)
    ensures
        iterate_secret(iterate_secret(s, a), b) == iterate_secret(s, a + b),
    decreases b,
{
    if b > 0 {
        lemma_iterate_adds(s, a, (b - 1) as nat);
    }
}

proof fn lemma_ancestors_suffix(idx: nat, n: nat, k: int)
    requires
        idx <= usize::MAX,
        0 <= k < ancestors(idx, n).len(),
    ensures
        ancestors(idx, n).subrange(k + 1, ancestors(idx, n).len() as int) == ancestors(
            ancestors(idx, n)[k] as nat,
            n,
        ),
    decreases idx,
{
    let a = ancestors(idx, n);
    let p = ((idx - 1) / 2) as nat;
    let rest = ancestors(p, n);
    if p < n {
        assert(a == seq![p as usize] + rest);
        if k == 0 {
            assert(a.subrange(1, a.len() as int) =~= rest);
        } else {
            lemma_ancestors_suffix(p, n, k - 1);
            assert(a[k] == rest[k - 1]);
            assert(a.subrange(k + 1, a.len() as int) =~= rest.subrange(k, rest.len() as int));
        }
    } else {
        assert(a == rest);
        lemma_ancestors_suffix(p, n, k);
    }
}

/// Two paths of the same tree that meet at a node share everything above
/// it, so they are equally long from that node up.
proof fn lemma_paths_meet(n: nat, x: nat, y: nat, i: int, j: int)
    requires
        path_computable(n, x),
        path_computable(n, y),
        0 <= i < internal_path(n, x).len(),
        0 <= j < internal_path(n, y).len(),
        internal_path(n, x)[i] == internal_path(n, y)[j],
    ensures
        internal_path(n, x).len() - i == internal_path(n, y).len() - j,
{
    let px = internal_path(n, x);
    let py = internal_path(n, y);
    lemma_ancestors_suffix((n - 1 + x) as nat, (n - 1) as nat, i);
    lemma_ancestors_suffix((n - 1 + y) as nat, (n - 1) as nat, j);
    assert(px.subrange(i + 1, px.len() as int).len() == py.subrange(j + 1, py.len() as int).len());
}

/// After a member is added, a member who takes the update in arrives at the
/// same root secret as the member who added: the receiver is given the
/// secret the adder derived for the first node where the receiver's path
/// meets the new member's path, and both trees have the same number of
/// leaves once room is made. Both also hold the same record for the new
/// member.
pub proof fn law_members_agree_on_root(
    adder: GroupView,
    receiver: GroupView,
    kyber_key: Seq<u8>,
    dilithium_key: Seq<u8>,
    ed25519_key: Seq<u8>,
    user_id: Seq<char>,
    path_secret: Seq<u8>,
    new_index: usize,
    j: int,
)
    requires
        add_member_allowed(adder.tree, adder.secrets, Some(new_index)),
        update_allowed(receiver.tree, receiver.secrets, new_index, receiver.self_index),
        tree_with_room(adder.tree, new_index as nat).members.len() == tree_with_room(
            receiver.tree,
            new_index as nat,
        ).members.len(),
        ({
            let n = tree_with_room(adder.tree, new_index as nat).members.len();
            let new_path = internal_path(n, new_index as nat);
            let own_path = internal_path(n, receiver.self_index as nat);
            first_common(own_path, new_path) matches Some(i) && 0 <= j < new_path.len() && new_path[j]
                == own_path[i]
        }),
    ensures
        ({
            let n = tree_with_room(adder.tree, new_index as nat).members.len();
            let new_path = internal_path(n, new_index as nat);
            after_update(
                receiver,
                kyber_key,
                dilithium_key,
                ed25519_key,
                user_id,
                path_secrets(new_path, path_secret)[j].1,
                new_index,
                receiver.self_index,
            ).secrets.root_secret == after_add_member(
                adder,
                kyber_key,
                dilithium_key,
                ed25519_key,
                user_id,
                path_secret,
                Some(new_index),
            ).secrets.root_secret && after_update(
                receiver,
                kyber_key,
                dilithium_key,
                ed25519_key,
                user_id,
                path_secrets(new_path, path_secret)[j].1,
                new_index,
                receiver.self_index,
            ).tree.members[new_index as int] == after_add_member(
                adder,
                kyber_key,
                dilithium_key,
                ed25519_key,
                user_id,
                path_secret,
                Some(new_index),
            ).tree.members[new_index as int]
        }),
{
    let n = tree_with_room(adder.tree, new_index as nat).members.len();
    let new_path = internal_path(n, new_index as nat);
    let own_path = internal_path(n, receiver.self_index as nat);
    let i = first_common(own_path, new_path)->0;
    lemma_first_common(own_path, new_path);
    lemma_paths_meet(n, receiver.self_index as nat, new_index as nat, i, j);
    let secret = iterate_secret(path_secret, (j + 1) as nat);
    let remaining = own_path.subrange(i, own_path.len() as int);
    if remaining.len() != 1 {
        lemma_iterate_adds(path_secret, (j + 1) as nat, (remaining.len() - 1) as nat);
    }
    assert(target_leaf(adder.tree, Some(new_index)) == new_index as nat);
    let entries = path_secrets(new_path, path_secret);
    assert(entries.last() == entries[new_path.len() - 1]);
}

/// A newcomer who joins from the hello it was sent arrives at the same root
/// secret as the member who added it: the hello carries the adder's tree
/// after the addition, the leaf the newcomer took and the path secret it
/// was placed with.
pub proof fn law_newcomer_agrees_on_root(
    adder: GroupView,
    kyber_key: Seq<u8>,
    dilithium_key: Seq<u8>,
    ed25519_key: Seq<u8>,
    user_id: Seq<char>,
    path_secret: Seq<u8>,
    index: Option<usize>,
    group_id: Seq<char>,
)
    requires
        add_member_allowed(adder.tree, adder.secrets, index),
    ensures
        ({
            let added = after_add_member(
                adder,
                kyber_key,
                dilithium_key,
                ed25519_key,
                user_id,
                path_secret,
                index,
            );
            let leaf = target_leaf(adder.tree, index);
            hello_joined(
                added.tree,
                group_id,
                added.epoch,
                leaf as usize,
                path_secret,
                kyber_key,
                dilithium_key,
                ed25519_key,
                user_id,
            ).secrets.root_secret == added.secrets.root_secret
        }),
{
    let leaf = target_leaf(adder.tree, index);
    let room = tree_with_room(adder.tree, leaf);
    assert(leaf < room.members.len());
    assert((leaf as usize) as nat == leaf);
}

pub(crate) proof fn lemma_le_bytes_len(t: nat, n: nat)
    ensures
        le_bytes(t, n).len() == n,
    decreases n,
{
    if n > 0 {
        lemma_le_bytes_len(t / 256, (n - 1) as nat);
    }
}

/// A packet that a user's keys built for a receiver passes the signature
/// checks (so `authenticate_packet` accepts it), names that user as its
/// sender, carries the receiver's identifier and the payload unchanged, and
/// is exactly as long as its layout says.
pub proof fn law_user_packet_fields(
    keys: Keys,
    dst: Seq<u8>,
    timestamp: u64,
    payload: Seq<u8>,
    prefix: u8,
    packet: Seq<u8>,
)
    requires
        keys.wf(),
        dst.len() == 32,
        is_signed_packet(packet, prefix, &keys, signed_to_user(&keys, dst, timestamp, payload)),
    ensures
        authenticates(packet),
        source_id_of(packet) == user_id_of(keys.id_input()),
        packet.subrange(DST_ID_START as int, NONCE_START as int) == dst,
        packet.subrange(PAYLOAD_START as int, packet.len() as int) == payload,
        packet.len() == PAYLOAD_START + payload.len(),
{
    let signed = signed_to_user(&keys, dst, timestamp, payload);
    let (dsig, esig) = choose|dsig: Seq<u8>, esig: Seq<u8>|
        dsig.len() == crate::primitives::DILITHIUM_SIGNATURE_LEN && esig.len()
            == crate::primitives::ED25519_SIGNATURE_LEN
            && dilithium_valid(dsig, signed, keys.dilithium_public())
            && ed25519_valid(keys.ed25519_public(), signed, esig)
            && packet == #[trigger] framed(prefix, dsig, esig, signed);
    lemma_le_bytes_len(timestamp as nat, 8);
    let dpk = keys.dilithium_public();
    let epk = keys.ed25519_public();
    let nonce = keys.nonce@;
    let le = le_bytes(timestamp as nat, 8);
    assert(packet =~= header(prefix) + dsig + esig + dpk + epk + dst + nonce + le + payload);
    assert(packet.subrange(3362, 5314) =~= dpk);
    assert(packet.subrange(5314, 5346) =~= epk);
    assert(packet.subrange(5346, 5378) =~= dst);
    assert(packet.subrange(5378, 5394) =~= nonce);
    assert(packet.subrange(5402, packet.len() as int) =~= payload);
    assert(keys.id_input() =~= dpk + epk + nonce);
    assert(dilithium_sig_of(packet) =~= dsig);
    assert(ed25519_sig_of(packet) =~= esig);
    assert(signed_of(packet) =~= signed);
}

/// Moving nodes when the tree doubles can be undone: every node's new
/// position leads back to it, and a position that is some node's new
/// position is that node's.
pub proof fn law_index_round_trip(i: nat, n: nat)
    ensures
        original_index(new_index(i)) == Some(i),
        original_index(n) matches Some(k) ==> new_index(k) == n,
{
    lemma_original_of_new(i);
}

/// Adding a member stores its keys and identifier at the leaf it was given,
/// moves the group to the next epoch, and, when no leaf before that one
/// holds the same identifier, looking the identifier up finds that leaf.
pub proof fn law_added_member_is_stored(
    g: GroupView,
    kyber_key: Seq<u8>,
    dilithium_key: Seq<u8>,
    ed25519_key: Seq<u8>,
    user_id: Seq<char>,
    path_secret: Seq<u8>,
    index: Option<usize>,
)
    requires
        add_member_allowed(g.tree, g.secrets, index),
        g.epoch < usize::MAX,
    ensures
        ({
            let a = after_add_member(
                g,
                kyber_key,
                dilithium_key,
                ed25519_key,
                user_id,
                path_secret,
                index,
            );
            let leaf = target_leaf(g.tree, index);
            &&& leaf < a.tree.members.len()
            &&& a.tree.members[leaf as int] == Some(
                member_record(kyber_key, dilithium_key, ed25519_key, user_id, leaf),
            )
            &&& a.epoch == g.epoch + 1
            &&& (forall|j: int|
                0 <= j < leaf ==> !(#[trigger] a.tree.members[j] matches Some(m) && m.user_id
                    == user_id)) ==> leaf_of_user(a.tree.members, user_id) == Some(leaf)
        }),
{
    let a = after_add_member(
        g,
        kyber_key,
        dilithium_key,
        ed25519_key,
        user_id,
        path_secret,
        index,
    );
    let leaf = target_leaf(g.tree, index);
    if forall|j: int|
        0 <= j < leaf ==> !(#[trigger] a.tree.members[j] matches Some(m) && m.user_id == user_id) {
        lemma_leaf_of_user_unique(a.tree.members, user_id, leaf);
    }
}

/// When the tree grows, every internal node keeps its public key at its new
/// position, and the slots that no old node moved to are empty.
pub proof fn law_grow_keeps_nodes(nodes: Seq<Option<Seq<u8>>>, i: nat, j: nat)
    ensures
        i < nodes.len() ==> grown_nodes(nodes)[new_index(i) as int] == nodes[i as int],
        j < 2 * nodes.len() + 1 && original_index(j) is None ==> grown_nodes(nodes)[j as int] is None,
{
    lemma_original_of_new(i);
    lemma_new_index_bounds(i);
}

proof fn lemma_first_pos_remap(s: Seq<(usize, Seq<u8>)>, i: usize)
    requires
        new_index(i as nat) <= usize::MAX,
        forall|k: int| 0 <= k < s.len() ==> new_index((#[trigger] s[k]).0 as nat) <= usize::MAX,
    ensures
        first_pos(remap_entries(s), new_index(i as nat) as usize) == first_pos(s, i),
    decreases s.len(),
{
    if s.len() > 0 {
        let d = s.drop_last();
        assert(remap_entries(s).drop_last() =~= remap_entries(d));
        assert forall|k: int| 0 <= k < d.len() implies new_index((#[trigger] d[k]).0 as nat)
            <= usize::MAX by {
            assert(d[k] == s[k]);
        }
        lemma_first_pos_remap(d, i);
        let e = s.last();
        assert(new_index(e.0 as nat) <= usize::MAX);
        assert(remap_entries(s).last().0 == new_index(e.0 as nat) as usize);
        if new_index(e.0 as nat) == new_index(i as nat) {
            lemma_new_index_injective(e.0 as nat, i as nat);
        }
    }
}

/// When the tree grows, every node secret held is found again under the
/// node's new position.
pub proof fn law_remap_keeps_secrets(s: Seq<(usize, Seq<u8>)>, i: usize)
    requires
        new_index(i as nat) <= usize::MAX,
        forall|k: int| 0 <= k < s.len() ==> new_index((#[trigger] s[k]).0 as nat) <= usize::MAX,
    ensures
        lookup(remap_entries(s), new_index(i as nat) as usize) == lookup(s, i),
{
    lemma_first_pos_remap(s, i);
    crate::secrets::lemma_first_pos(s, i);
}

proof fn lemma_deliveries_for_leaves_member(
    members: Seq<Option<MemberView>>,
    leaves: Seq<usize>,
    self_index: usize,
    key: Seq<u8>,
    enc: Seq<u8>,
    q: int,
)
    requires
        0 <= q < deliveries_for_leaves(members, leaves, self_index, key, enc).len(),
    ensures
        ({
            let d = deliveries_for_leaves(members, leaves, self_index, key, enc)[q];
            leaves.contains(d.recipient) && d.key == key && d.recipient != self_index
                && d.encapsulation_key == enc
        }),
    decreases leaves.len(),
{
    let rest = deliveries_for_leaves(members, leaves.drop_last(), self_index, key, enc);
    if q < rest.len() {
        lemma_deliveries_for_leaves_member(members, leaves.drop_last(), self_index, key, enc, q);
        let d = rest[q];
        let j = choose|j: int| 0 <= j < leaves.drop_last().len() && leaves.drop_last()[j] == d.recipient;
        assert(leaves[j] == d.recipient);
    } else {
        assert(leaves[leaves.len() - 1] == leaves.last());
    }
}

proof fn lemma_path_deliveries_member(t: TreeView, path: Seq<usize>, self_index: usize, ps: Seq<u8>, q: int)
    requires
        0 <= q < path_deliveries(t, path, self_index, ps).len(),
    ensures
        ({
            let d = path_deliveries(t, path, self_index, ps)[q];
            exists|k: int|
                0 <= k < path.len() && path[k] != 0 && leaves_under(
                    sibling(path[k]) as nat,
                    t.members.len(),
                ).contains(d.recipient) && d.key == #[trigger] iterate_secret(ps, (k + 2) as nat)
                && d.encapsulation_key == crate::group_flow::slot_bytes(t.nodes[sibling(path[k]) as int])
        }),
    decreases path.len(),
{
    let d = path_deliveries(t, path, self_index, ps)[q];
    let init = path.drop_last();
    let rest = path_deliveries(t, init, self_index, ps);
    let i = path.last();
    if i == 0 || q < rest.len() {
        lemma_path_deliveries_member(t, init, self_index, ps, q);
        let k = choose|k: int|
            0 <= k < init.len() && init[k] != 0 && leaves_under(
                sibling(init[k]) as nat,
                t.members.len(),
            ).contains(d.recipient) && d.key == #[trigger] iterate_secret(ps, (k + 2) as nat)
                && d.encapsulation_key == crate::group_flow::slot_bytes(t.nodes[sibling(init[k]) as int]);
        assert(path[k] == init[k]);
    } else {
        let sib = sibling(i);
        let leaves = leaves_under(sib as nat, t.members.len());
        let key = iterate_secret(ps, (path.len() + 1) as nat);
        let enc = crate::group_flow::slot_bytes(t.nodes[sib as int]);
        lemma_deliveries_for_leaves_member(t.members, leaves, self_index, key, enc, q - rest.len());
        let k = path.len() - 1;
        assert(path[k] == i);
        assert((k + 2) as nat == (path.len() + 1) as nat);
    }
}

/// In a tree of `2^t` leaves, a leaf under the sibling of the `k`-th node
/// of another leaf's path first meets that path at its next node.
pub(crate) proof fn lemma_sibling_subtree_meets_above(tt: nat, new_leaf: nat, r: nat, k: int)
    requires
        new_leaf < two_pow(tt),
        r < two_pow(tt),
        2 * two_pow(tt) <= usize::MAX,
        0 <= k < internal_path(two_pow(tt), new_leaf).len(),
        internal_path(two_pow(tt), new_leaf)[k] != 0,
        leaves_under(sibling(internal_path(two_pow(tt), new_leaf)[k]) as nat, two_pow(tt)).contains(
            r as usize,
        ),
    ensures
        k + 1 < internal_path(two_pow(tt), new_leaf).len(),
        first_common(internal_path(two_pow(tt), r), internal_path(two_pow(tt), new_leaf)) == Some(
            k + 1,
        ),
        internal_path(two_pow(tt), r)[k + 1] == internal_path(two_pow(tt), new_leaf)[k + 1],
        internal_path(two_pow(tt), r).len() == internal_path(two_pow(tt), new_leaf).len(),
        internal_path(two_pow(tt), r)[k] == sibling(internal_path(two_pow(tt), new_leaf)[k]),
        internal_path(two_pow(tt), r)[k] != internal_path(two_pow(tt), new_leaf)[k],
        forall|m: int|
            k < m < internal_path(two_pow(tt), r).len() ==> #[trigger] internal_path(two_pow(tt), r)[m]
                == internal_path(two_pow(tt), new_leaf)[m],
{
    let l = two_pow(tt);
    let pl = internal_path(l, new_leaf);
    let pr = internal_path(l, r);
    lemma_path_closed(tt, new_leaf);
    lemma_path_closed(tt, r);
    lemma_path_depth(tt, new_leaf, k);
    let x = pl[k];
    let e = (tt - k - 1) as nat;
    lemma_two_pow_pos(e);
    if e == 0 {
        assert(two_pow(0) == 1);
        assert(two_pow(1) == 2);
        assert((tt - k) as nat == 1);
        assert(false);
    }
    assert(k + 1 < pl.len());
    assert(two_pow((tt - k) as nat) == 2 * two_pow(e));
    assert(two_pow(e) == 2 * two_pow((e - 1) as nat));
    lemma_two_pow_pos((e - 1) as nat);
    let s = sibling(x);
    lemma_two_pow_monotone(e + 1, tt);
    assert((e + 1) as nat == (tt - k) as nat);
    assert(x + 1 < l);
    // the sibling sits at the same depth
    if x % 2 == 0 {
        assert(s == x - 1);
        assert(s + 1 >= two_pow(e)) by {
            assert((x + 1) % 2 == 1);
            assert(two_pow(e) % 2 == 0);
        }
    } else {
        assert(s == x + 1);
        assert(s + 1 < 2 * two_pow(e)) by {
            assert((x + 1) % 2 == 0);
        }
    }
    assert(two_pow(e) <= s + 1 < 2 * two_pow(e));
    lemma_floor_log2_unique((s + 1) as nat, e);
    assert(node_depth(s as nat) == e);
    lemma_two_pow_monotone(e + 1, tt);
    assert(s + 1 < l);
    lemma_leaves_under_iff(s as nat, tt, r);
    assert((tt - e) as nat == (k + 1) as nat);
    assert((l + r) / two_pow((k + 1) as nat) == s + 1);
    assert(pr[k] == s);
    // one level up both paths reach the same parent
    lemma_divide_twice(l + r, (k + 1) as nat, 1);
    lemma_divide_twice(l + new_leaf, (k + 1) as nat, 1);
    assert(two_pow(0) == 1);
    assert(two_pow(1) == 2);
    assert(((k + 1) + 1) as nat == (k + 2) as nat);
    assert(pr[k + 1] as int == (s + 1) / 2 - 1);
    assert((x + 1) as int == (l + new_leaf) / two_pow((k + 1) as nat));
    assert(pl[k + 1] as int == (x + 1) / 2 - 1);
    assert((s + 1) / 2 == (x + 1) / 2);
    assert(pr[k + 1] == pl[k + 1]);
    // below that, the paths share no node
    assert forall|q: int| 0 <= q < k + 1 implies !pl.contains(#[trigger] pr[q]) by {
        if pl.contains(pr[q]) {
            let j = choose|j: int| 0 <= j < pl.len() && pl[j] == pr[q];
            lemma_path_depth(tt, r, q);
            lemma_path_depth(tt, new_leaf, j);
            assert(j == q);
            assert((l + new_leaf) / two_pow((q + 1) as nat) == (l + r) / two_pow((q + 1) as nat));
            lemma_divide_twice(l + new_leaf, (q + 1) as nat, (k - q) as nat);
            lemma_divide_twice(l + r, (q + 1) as nat, (k - q) as nat);
            assert((q + 1) as nat + (k - q) as nat == (k + 1) as nat);
            assert(pl[k] == pr[k]);
        }
    }
    assert(pl.contains(pr[k + 1])) by {
        assert(pl[k + 1] == pr[k + 1]);
    }
    lemma_first_common_unique(pr, pl, k + 1);
    // above it, they coincide up to the root
    assert forall|m: int| k < m < pr.len() implies #[trigger] pr[m] == pl[m] by {
        assert(pr[m] as int == (l + r) / two_pow((m + 1) as nat) - 1);
        assert(pl[m] as int == (l + new_leaf) / two_pow((m + 1) as nat) - 1);
        lemma_divide_twice(l + r, (k + 2) as nat, (m - k - 1) as nat);
        lemma_divide_twice(l + new_leaf, (k + 2) as nat, (m - k - 1) as nat);
        assert((k + 2) as nat + (m - k - 1) as nat == (m + 1) as nat);
        assert((l + r) / two_pow((k + 2) as nat) == (l + new_leaf) / two_pow((k + 2) as nat));
    }
}

pub(crate) proof fn lemma_divergence_at(a: Seq<usize>, b: Seq<usize>, k: int)
    requires
        a.len() == b.len(),
        0 <= k < a.len(),
        a[k] != b[k],
        forall|m: int| k < m < a.len() ==> #[trigger] a[m] == b[m],
    ensures
        crate::groups::divergence_from_root(a, b) == Some(a[k]),
    decreases a.len(),
{
    if a.len() - 1 != k {
        let a2 = a.drop_last();
        let b2 = b.drop_last();
        assert(a.last() == a[a.len() - 1]);
        assert(b.last() == b[b.len() - 1]);
        assert forall|m: int| k < m < a2.len() implies #[trigger] a2[m] == b2[m] by {
            assert(a2[m] == a[m]);
            assert(b2[m] == b[m]);
        }
        lemma_divergence_at(a2, b2, k);
    } else {
        assert(a.last() == a[k]);
        assert(b.last() == b[k]);
    }
}

/// Every member that the adder's plan sends a secret up the new member's
/// path, on taking the update in, arrives at the adder's root secret: the
/// plan is made on the adder's state after the addition, in a tree whose
/// leaves number a power of two, and the receiver's tree has as many
/// leaves once room is made.
pub proof fn law_plan_recipients_agree_on_root(
    adder: GroupView,
    receiver: GroupView,
    kyber_key: Seq<u8>,
    dilithium_key: Seq<u8>,
    ed25519_key: Seq<u8>,
    user_id: Seq<char>,
    path_secret: Seq<u8>,
    index: Option<usize>,
    q: int,
)
    requires
        add_member_allowed(adder.tree, adder.secrets, index),
        ({
            let a = after_add_member(
                adder,
                kyber_key,
                dilithium_key,
                ed25519_key,
                user_id,
                path_secret,
                index,
            );
            let leaf = target_leaf(adder.tree, index);
            let l = a.tree.members.len();
            let plan = path_deliveries(a.tree, internal_path(l, leaf), a.self_index, path_secret);
            &&& is_power_of_two(l)
            &&& 2 * l <= usize::MAX
            &&& 0 <= q < plan.len()
            &&& receiver.self_index == plan[q].recipient
            &&& update_allowed(receiver.tree, receiver.secrets, leaf as usize, receiver.self_index)
            &&& tree_with_room(receiver.tree, leaf).members.len() == l
        }),
    ensures
        ({
            let a = after_add_member(
                adder,
                kyber_key,
                dilithium_key,
                ed25519_key,
                user_id,
                path_secret,
                index,
            );
            let leaf = target_leaf(adder.tree, index);
            let l = a.tree.members.len();
            let plan = path_deliveries(a.tree, internal_path(l, leaf), a.self_index, path_secret);
            after_update(
                receiver,
                kyber_key,
                dilithium_key,
                ed25519_key,
                user_id,
                plan[q].key,
                leaf as usize,
                receiver.self_index,
            ).secrets.root_secret == a.secrets.root_secret
        }),
{
    let a = after_add_member(
        adder,
        kyber_key,
        dilithium_key,
        ed25519_key,
        user_id,
        path_secret,
        index,
    );
    let leaf = target_leaf(adder.tree, index);
    let l = a.tree.members.len();
    let new_path = internal_path(l, leaf);
    let plan = path_deliveries(a.tree, new_path, a.self_index, path_secret);
    let d = plan[q];
    lemma_path_deliveries_member(a.tree, new_path, a.self_index, path_secret, q);
    let k = choose|k: int|
        0 <= k < new_path.len() && new_path[k] != 0 && leaves_under(
            sibling(new_path[k]) as nat,
            l,
        ).contains(d.recipient) && d.key == #[trigger] iterate_secret(path_secret, (k + 2) as nat);
    let tt = floor_log2(l);
    assert(two_pow(tt) == l);
    assert(leaf < l);
    lemma_recipient_in_tree(tt, leaf, k, d.recipient);
    lemma_sibling_subtree_meets_above(tt, leaf, d.recipient as nat, k);
    assert(d.key == path_secrets(new_path, path_secret)[k + 1].1);
    assert(target_leaf(adder.tree, Some(leaf as usize)) == leaf);
    law_members_agree_on_root(
        adder,
        receiver,
        kyber_key,
        dilithium_key,
        ed25519_key,
        user_id,
        path_secret,
        leaf as usize,
        k + 1,
    );
}

proof fn lemma_set_path_keys_len(nodes: Seq<Option<Seq<u8>>>, entries: Seq<(usize, Seq<u8>)>)
    requires
        forall|k: int| 0 <= k < entries.len() ==> (#[trigger] entries[k]).0 < nodes.len(),
    ensures
        set_path_keys(nodes, entries).len() == nodes.len(),
    decreases entries.len(),
{
    if entries.len() > 0 {
        let d = entries.drop_last();
        assert forall|k: int| 0 <= k < d.len() implies (#[trigger] d[k]).0 < nodes.len() by {
            assert(d[k] == entries[k]);
        }
        lemma_set_path_keys_len(nodes, d);
        assert(entries.last() == entries[entries.len() - 1]);
    }
}

/// A tree with a power-of-two number of leaves and one internal node fewer
/// keeps that shape when room is made for a leaf.
proof fn lemma_room_keeps_shape(t: TreeView, leaf: nat)
    requires
        is_power_of_two(t.members.len()),
        t.nodes.len() + 1 == t.members.len(),
    ensures
        is_power_of_two(tree_with_room(t, leaf).members.len()),
        tree_with_room(t, leaf).nodes.len() + 1 == tree_with_room(t, leaf).members.len(),
{
    if must_grow(t, leaf) {
        let n = t.members.len();
        let k = floor_log2(n);
        assert(two_pow(k) == n);
        assert(next_pow2(n) == n) by {
            if n <= 1 {
                assert(n == 1);
            }
        }
        assert(grown_len(n) == 2 * n);
        assert(two_pow(k + 1) == 2 * n);
        crate::levels::lemma_floor_log2_of_two_pow(k + 1);
        assert(tree_with_room(t, leaf).members.len() == 2 * n);
    }
}

/// A group whose tree has a power-of-two number of leaves and one internal
/// node fewer keeps that shape when a member is added, whether by the
/// member who adds or by one who takes the update in.
pub proof fn law_additions_keep_tree_shape(
    g: GroupView,
    kyber_key: Seq<u8>,
    dilithium_key: Seq<u8>,
    ed25519_key: Seq<u8>,
    user_id: Seq<char>,
    secret: Seq<u8>,
    index: Option<usize>,
    new_index: usize,
)
    requires
        is_power_of_two(g.tree.members.len()),
        g.tree.nodes.len() + 1 == g.tree.members.len(),
    ensures
        add_member_allowed(g.tree, g.secrets, index) ==> ({
            let a = after_add_member(g, kyber_key, dilithium_key, ed25519_key, user_id, secret, index);
            is_power_of_two(a.tree.members.len()) && a.tree.nodes.len() + 1 == a.tree.members.len()
        }),
        update_allowed(g.tree, g.secrets, new_index, g.self_index) ==> ({
            let u = after_update(
                g,
                kyber_key,
                dilithium_key,
                ed25519_key,
                user_id,
                secret,
                new_index,
                g.self_index,
            );
            is_power_of_two(u.tree.members.len()) && u.tree.nodes.len() + 1 == u.tree.members.len()
        }),
{
    lemma_room_keeps_shape(g.tree, new_index as nat);
    if add_member_allowed(g.tree, g.secrets, index) {
        let leaf = target_leaf(g.tree, index);
        lemma_room_keeps_shape(g.tree, leaf);
        let room = tree_with_room(g.tree, leaf);
        let path = internal_path(room.members.len(), leaf);
        let entries = path_secrets(path, secret);
        assert forall|k: int| 0 <= k < entries.len() implies (#[trigger] entries[k]).0
            < room.nodes.len() by {
            assert(entries[k].0 == path[k]);
        }
        lemma_set_path_keys_len(room.nodes, entries);
    }
}

/// Every member that the adder's plan sends a secret up the new member's
/// path finds the key it needs: the node where its own path leaves the new
/// member's, seen from the root, is the node whose public key the secret
/// was encapsulated to.
pub proof fn law_plan_recipients_find_their_key(
    adder: GroupView,
    kyber_key: Seq<u8>,
    dilithium_key: Seq<u8>,
    ed25519_key: Seq<u8>,
    user_id: Seq<char>,
    path_secret: Seq<u8>,
    index: Option<usize>,
    q: int,
)
    requires
        add_member_allowed(adder.tree, adder.secrets, index),
        ({
            let a = after_add_member(
                adder,
                kyber_key,
                dilithium_key,
                ed25519_key,
                user_id,
                path_secret,
                index,
            );
            let leaf = target_leaf(adder.tree, index);
            let l = a.tree.members.len();
            let plan = path_deliveries(a.tree, internal_path(l, leaf), a.self_index, path_secret);
            &&& is_power_of_two(l)
            &&& 2 * l <= usize::MAX
            &&& 0 <= q < plan.len()
        }),
    ensures
        ({
            let a = after_add_member(
                adder,
                kyber_key,
                dilithium_key,
                ed25519_key,
                user_id,
                path_secret,
                index,
            );
            let leaf = target_leaf(adder.tree, index);
            let l = a.tree.members.len();
            let plan = path_deliveries(a.tree, internal_path(l, leaf), a.self_index, path_secret);
            let d = plan[q];
            crate::groups::divergence_from_root(
                internal_path(l, d.recipient as nat),
                internal_path(l, leaf),
            ) matches Some(node) && d.encapsulation_key == crate::group_flow::slot_bytes(
                a.tree.nodes[node as int],
            )
        }),
{
    let a = after_add_member(
        adder,
        kyber_key,
        dilithium_key,
        ed25519_key,
        user_id,
        path_secret,
        index,
    );
    let leaf = target_leaf(adder.tree, index);
    let l = a.tree.members.len();
    let new_path = internal_path(l, leaf);
    let plan = path_deliveries(a.tree, new_path, a.self_index, path_secret);
    let d = plan[q];
    lemma_path_deliveries_member(a.tree, new_path, a.self_index, path_secret, q);
    let k = choose|k: int|
        0 <= k < new_path.len() && new_path[k] != 0 && leaves_under(
            sibling(new_path[k]) as nat,
            l,
        ).contains(d.recipient) && d.key == #[trigger] iterate_secret(path_secret, (k + 2) as nat)
            && d.encapsulation_key == crate::group_flow::slot_bytes(
            a.tree.nodes[sibling(new_path[k]) as int],
        );
    let tt = floor_log2(l);
    assert(two_pow(tt) == l);
    assert(leaf < l);
    lemma_recipient_in_tree(tt, leaf, k, d.recipient);
    lemma_sibling_subtree_meets_above(tt, leaf, d.recipient as nat, k);
    let own_path = internal_path(l, d.recipient as nat);
    lemma_divergence_at(own_path, new_path, k);
}

/// A leaf under the sibling of a node of a path lies in the tree.
proof fn lemma_recipient_in_tree(tt: nat, leaf: nat, k: int, r: usize)
    requires
        leaf < two_pow(tt),
        2 * two_pow(tt) <= usize::MAX,
        0 <= k < internal_path(two_pow(tt), leaf).len(),
        internal_path(two_pow(tt), leaf)[k] != 0,
        leaves_under(sibling(internal_path(two_pow(tt), leaf)[k]) as nat, two_pow(tt)).contains(r),
    ensures
        r < two_pow(tt),
{
    let l = two_pow(tt);
    let new_path = internal_path(l, leaf);
    let s = sibling(new_path[k]);
    let lv = leaves_under(s as nat, l);
    let w = choose|w: int| 0 <= w < lv.len() && lv[w] == r;
    lemma_path_closed(tt, leaf);
    lemma_path_depth(tt, leaf, k);
    let x = new_path[k];
    lemma_two_pow_monotone((tt - k) as nat, tt);
    if x % 2 == 1 {
        assert(x + 2 < l) by {
            assert((x + 1) % 2 == 0);
            assert(tt >= 1) by {
                if tt == 0 {
                    assert(two_pow(0) == 1);
                }
            }
            assert(l % 2 == 0) by {
                assert(two_pow(tt) == 2 * two_pow((tt - 1) as nat));
            }
        }
    }
    crate::levels::lemma_floor_log2_of_two_pow(tt);
    crate::tree::lemma_leaves_under_in_range(s as nat, l);
}

proof fn lemma_lookup_upsert_all_other(s: Seq<(usize, Seq<u8>)>, entries: Seq<(usize, Seq<u8>)>, j: usize)
    requires
        forall|k: int| 0 <= k < entries.len() ==> (#[trigger] entries[k]).0 != j,
    ensures
        lookup(upsert_all(s, entries), j) == lookup(s, j),
    decreases entries.len(),
{
    if entries.len() > 0 {
        let d = entries.drop_last();
        assert forall|k: int| 0 <= k < d.len() implies (#[trigger] d[k]).0 != j by {
            assert(d[k] == entries[k]);
        }
        lemma_lookup_upsert_all_other(s, d, j);
        assert(entries.last() == entries[entries.len() - 1]);
        crate::secrets::law_lookup_after_upsert(
            upsert_all(s, d),
            entries.last().0,
            entries.last().1,
            j,
        );
    }
}

/// Adding a member touches nothing but the new member's leaf, the nodes of
/// its path and the root: every other member stays where it was, leaves
/// added by growth are empty, the secrets received from members are kept,
/// and every node secret held is still held, at the node's new position
/// when the tree grew, unless that position is on the new member's path.
pub proof fn law_addition_keeps_the_rest(
    g: GroupView,
    kyber_key: Seq<u8>,
    dilithium_key: Seq<u8>,
    ed25519_key: Seq<u8>,
    user_id: Seq<char>,
    path_secret: Seq<u8>,
    index: Option<usize>,
    i: usize,
)
    requires
        add_member_allowed(g.tree, g.secrets, index),
    ensures
        ({
            let a = after_add_member(
                g,
                kyber_key,
                dilithium_key,
                ed25519_key,
                user_id,
                path_secret,
                index,
            );
            let leaf = target_leaf(g.tree, index);
            let path = internal_path(a.tree.members.len(), leaf);
            let moved = if must_grow(g.tree, leaf) {
                new_index(i as nat) as usize
            } else {
                i
            };
            &&& forall|j: int|
                0 <= j < g.tree.members.len() && j != leaf ==> #[trigger] a.tree.members[j]
                    == g.tree.members[j]
            &&& forall|j: int|
                g.tree.members.len() <= j < a.tree.members.len() && j != leaf
                    ==> #[trigger] a.tree.members[j] is None
            &&& a.secrets.member_secrets == g.secrets.member_secrets
            &&& (lookup(g.secrets.node_secrets, i) is Some && !path.contains(moved)) ==> lookup(
                a.secrets.node_secrets,
                moved,
            ) == lookup(g.secrets.node_secrets, i)
        }),
{
    let leaf = target_leaf(g.tree, index);
    let room = tree_with_room(g.tree, leaf);
    let path = internal_path(room.members.len(), leaf);
    let entries = path_secrets(path, path_secret);
    let s = g.secrets.node_secrets;
    let moved = if must_grow(g.tree, leaf) {
        new_index(i as nat) as usize
    } else {
        i
    };
    if lookup(s, i) is Some && !path.contains(moved) {
        crate::secrets::lemma_first_pos(s, i);
        let p = first_pos(s, i)->0;
        assert forall|k: int| 0 <= k < entries.len() implies (#[trigger] entries[k]).0 != moved by {
            assert(entries[k].0 == path[k]);
        }
        lemma_lookup_upsert_all_other(secrets_with_room(g.tree, s, leaf), entries, moved);
        if must_grow(g.tree, leaf) {
            assert(new_index(s[p].0 as nat) <= usize::MAX);
            law_remap_keeps_secrets(s, i);
        }
    }
}

proof fn lemma_hex_decode_len(text: Seq<u8>)
    ensures
        hex_decode(text) matches Some(d) ==> 2 * d.len() == text.len(),
    decreases text.len(),
{
    if text.len() % 2 == 0 && text.len() > 0 {
        lemma_hex_decode_len(text.subrange(0, text.len() - 2));
    }
}

/// A receiver accepts a packet and attributes it to the user who built it:
/// whatever the payload, a packet that a user's keys framed for a receiver
/// named by a 64-digit hex identifier passes both signature checks of
/// `authenticate_packet`, and yields, read back with
/// `source_id_from_packet`, the identifier that `calculate_user_id` gives
/// for those keys.
pub proof fn law_sender_id_round_trip(
    keys: Keys,
    dst_text: Seq<u8>,
    timestamp: u64,
    prefix: u8,
    packet: Seq<u8>,
)
    requires
        keys.wf(),
        dst_text.len() == 64,
        exists|d: Seq<u8>, payload: Seq<u8>|
            hex_decode(dst_text) == Some(d) && #[trigger] is_signed_packet(
                packet,
                prefix,
                &keys,
                signed_to_user(&keys, d, timestamp, payload),
            ),
    ensures
        authenticates(packet),
        source_id_of(packet) == user_id_of(keys.id_input()),
        packet.len() >= PAYLOAD_START,
{
    let (d, payload) = choose|d: Seq<u8>, payload: Seq<u8>|
        hex_decode(dst_text) == Some(d) && #[trigger] is_signed_packet(
            packet,
            prefix,
            &keys,
            signed_to_user(&keys, d, timestamp, payload),
        );
    lemma_hex_decode_len(dst_text);
    law_user_packet_fields(keys, d, timestamp, payload, prefix, packet);
}

/// A newcomer reads back the hello it was sent: in a hello packet built for
/// a 64-digit receiver identifier, a 36-byte group identifier and a Kyber
/// key pair that decapsulates what is encapsulated to its public key, the
/// group identifier stands right after the header fields, and decrypting
/// the rest under the secret decapsulated from the ciphertext that follows
/// it gives the hello back.
pub proof fn law_hello_round_trip(
    keys: Keys,
    hello: Seq<u8>,
    dst_text: Seq<u8>,
    pk: Seq<u8>,
    sk: Seq<u8>,
    group_id: Seq<u8>,
    timestamp: u64,
    packet: Seq<u8>,
)
    requires
        keys.wf(),
        dst_text.len() == 64,
        group_id.len() == 36,
        hello.len() <= AES_GCM_MAX_PLAINTEXT,
        forall|ct: Seq<u8>, ss: Seq<u8>|
            #[trigger] kyber_encapsulates(pk, ct, ss) ==> kyber_decapsulate(ct, sk) == ss,
        exists|d: Seq<u8>, ct: Seq<u8>, secret: Seq<u8>, nonce: Seq<u8>|
            hex_decode(dst_text) == Some(d) && nonce.len() == 12 && secret.len() == 32
                && ct.len() == KYBER_CIPHERTEXT_LEN && kyber_encapsulates(pk, ct, secret)
                && opened(secret, sealed_with_nonce(secret, nonce, hello)) == Some(hello)
                && #[trigger] is_signed_packet(
                packet,
                PREFIX_GROUP_HELLO,
                &keys,
                signed_to_user(&keys, d, timestamp, group_id + ct + sealed_with_nonce(secret, nonce, hello)),
            ),
    ensures
        packet.len() >= GROUP_DATA_START,
        packet.subrange(0, 5) == header(PREFIX_GROUP_HELLO),
        packet.subrange(PAYLOAD_START as int, GROUP_BODY_START as int) == group_id,
        decrypt_outcome(
            kyber_decapsulate(packet.subrange(GROUP_BODY_START as int, GROUP_DATA_START as int), sk),
            packet.subrange(GROUP_DATA_START as int, packet.len() as int),
        ) == Ok::<Seq<u8>, CipherError>(hello),
{
    let (d, ct, secret, nonce) = choose|d: Seq<u8>, ct: Seq<u8>, secret: Seq<u8>, nonce: Seq<u8>|
        hex_decode(dst_text) == Some(d) && nonce.len() == 12 && secret.len() == 32
            && ct.len() == KYBER_CIPHERTEXT_LEN && kyber_encapsulates(pk, ct, secret)
            && opened(secret, sealed_with_nonce(secret, nonce, hello)) == Some(hello)
            && #[trigger] is_signed_packet(
            packet,
            PREFIX_GROUP_HELLO,
            &keys,
            signed_to_user(&keys, d, timestamp, group_id + ct + sealed_with_nonce(secret, nonce, hello)),
        );
    lemma_hex_decode_len(dst_text);
    let sealed = sealed_with_nonce(secret, nonce, hello);
    let payload = group_id + ct + sealed;
    law_user_packet_fields(keys, d, timestamp, payload, PREFIX_GROUP_HELLO, packet);
    assert(kyber_decapsulate(ct, sk) == secret);
    let signed = signed_to_user(&keys, d, timestamp, payload);
    let (dsig, esig) = choose|dsig: Seq<u8>, esig: Seq<u8>|
        dsig.len() == crate::primitives::DILITHIUM_SIGNATURE_LEN && esig.len()
            == crate::primitives::ED25519_SIGNATURE_LEN && packet == #[trigger] framed(
            PREFIX_GROUP_HELLO,
            dsig,
            esig,
            signed,
        );
    assert(packet.subrange(0, 5) =~= header(PREFIX_GROUP_HELLO));
    let tail = packet.subrange(PAYLOAD_START as int, packet.len() as int);
    assert(tail == payload);
    assert(packet.subrange(5402, 5438) =~= tail.subrange(0, 36));
    assert(tail.subrange(0, 36) =~= group_id);
    assert(packet.subrange(5438, 7006) =~= tail.subrange(36, 1604));
    assert(tail.subrange(36, 1604) =~= ct);
    assert(packet.subrange(7006, packet.len() as int) =~= tail.subrange(1604, tail.len() as int));
    assert(tail.subrange(1604, tail.len() as int) =~= sealed);
}

} // verus!
