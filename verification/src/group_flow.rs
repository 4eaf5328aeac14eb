//! The steps a member takes when someone joins a group: what the member who
//! adds the newcomer sends to whom, and how the others and the newcomer take
//! the news in.
use vstd::prelude::*;
use crate::aead::{decrypt_data, decrypt_outcome, encrypt_data, sealed_with_nonce, CipherError};
use crate::crypto::derive_node_secret;
use crate::group::{after_add_member, after_update, Credential, GroupState, GroupUpdateMember, GroupView};
use crate::groups::{divergence_from_root, first_divergence_inverted};
use crate::levels::is_power_of_two;
use crate::packet::ClientHello;
use crate::primitives::{
    kyber_decapsulate, kyber_decapsulate_secret, kyber_derive, kyber_derive_keypair,
    aes_gcm_random_nonce, kyber_encapsulate, kyber_encapsulates, KYBER_PUBLIC_KEY_LEN,
};
use crate::secrets::{lookup, GroupSecrets};
use crate::tree::{
    descendant_leaves, internal_path, lemma_ancestors_below, leaves_under, member_slot, node_slot,
    sibling, Member, MemberView, Node, RatchetTree, TreeView,
};
use crate::tree_update::{
    can_make_room, iterate_secret, path_computable, secrets_with_room,
    tree_with_room, update_allowed,
};

verus! {

// ---------------------------------------------------------------------------
// Copies
// ---------------------------------------------------------------------------

impl Member {
    /// A copy of the member.
    pub fn duplicate(&self) -> (r: Member)
        ensures
            r@ == self@,
    {
        Member {
            kyber_key: self.kyber_key.clone(),
            dilithium_key: self.dilithium_key.clone(),
            ed25519_key: self.ed25519_key.clone(),
            user_id: self.user_id.clone(),
            index: self.index,
        }
    }
}

impl RatchetTree {
    /// A copy of the tree.
    pub fn duplicate(&self) -> (r: RatchetTree)
        ensures
            r@ == self@,
    {
        let mut members: Vec<Option<Member>> = Vec::new();
        let mut k: usize = 0;
        while k < self.members.len()
            invariant
                k <= self.members@.len(),
                members@.len() == k,
                forall|j: int|
                    0 <= j < k ==> member_slot(#[trigger] members@[j]) == member_slot(
                        self.members@[j],
                    ),
            decreases self.members@.len() - k,
        {
            let slot = match &self.members[k] {
                Some(m) => Some(m.duplicate()),
                None => None,
            };
            members.push(slot);
            k = k + 1;
        }
        let mut nodes: Vec<Option<Node>> = Vec::new();
        let mut k: usize = 0;
        while k < self.nodes.len()
            invariant
                k <= self.nodes@.len(),
                nodes@.len() == k,
                forall|j: int|
                    0 <= j < k ==> node_slot(#[trigger] nodes@[j]) == node_slot(self.nodes@[j]),
            decreases self.nodes@.len() - k,
        {
            let slot = match &self.nodes[k] {
                Some(n) => Some(Node { public_key: n.public_key.clone() }),
                None => None,
            };
            nodes.push(slot);
            k = k + 1;
        }
        let r = RatchetTree { members, nodes };
        proof {
            assert(r@.members =~= self@.members);
            assert(r@.nodes =~= self@.nodes);
        }
        r
    }
}

// ---------------------------------------------------------------------------
// Deliveries of a new member's secrets
// ---------------------------------------------------------------------------

/// One update to send: to the member at leaf `recipient`, the secret `key`,
/// encapsulated to `encapsulation_key`.
pub struct UpdateDelivery {
    pub recipient: usize,
    pub recipient_user_id: String,
    pub key: Vec<u8>,
    pub encapsulation_key: Vec<u8>,
}

/// A delivery as plain values.
pub struct DeliveryView {
    pub recipient: usize,
    pub recipient_user_id: Seq<char>,
    pub key: Seq<u8>,
    pub encapsulation_key: Seq<u8>,
}

impl View for UpdateDelivery {
    type V = DeliveryView;

    open spec fn view(&self) -> DeliveryView {
        DeliveryView {
            recipient: self.recipient,
            recipient_user_id: self.recipient_user_id@,
            key: self.key@,
            encapsulation_key: self.encapsulation_key@,
        }
    }
}

pub open spec fn slot_bytes(o: Option<Seq<u8>>) -> Seq<u8> {
    match o {
        Some(k) => k,
        None => seq![],
    }
}

/// Deliveries of `key` to the occupied leaves among `leaves`, other than
/// `self_index`, in leaf order.
pub open spec fn deliveries_for_leaves(
    members: Seq<Option<MemberView>>,
    leaves: Seq<usize>,
    self_index: usize,
    key: Seq<u8>,
    enc_key: Seq<u8>,
) -> Seq<DeliveryView>
    decreases leaves.len(),
{
    if leaves.len() == 0 {
        seq![]
    } else {
        let rest = deliveries_for_leaves(members, leaves.drop_last(), self_index, key, enc_key);
        let d = leaves.last();
        match members[d as int] {
            Some(m) => if d != self_index {
                rest.push(
                    DeliveryView {
                        recipient: d,
                        recipient_user_id: m.user_id,
                        key,
                        encapsulation_key: enc_key,
                    },
                )
            } else {
                rest
            },
            None => rest,
        }
    }
}

/// Some leaf among `leaves`, other than `self_index`, is occupied.
pub open spec fn has_recipient(
    members: Seq<Option<MemberView>>,
    leaves: Seq<usize>,
    self_index: usize,
) -> bool {
    exists|j: int|
        0 <= j < leaves.len() && leaves[j] != self_index && #[trigger] members[leaves[j] as int]
            is Some
}

/// For every non-root node of `path`, the members under its sibling learn
/// the secret of the node above (`ps` derived `k + 2` times for the `k`-th
/// node), encapsulated to the sibling's public key.
pub open spec fn path_deliveries(
    t: TreeView,
    path: Seq<usize>,
    self_index: usize,
    ps: Seq<u8>,
) -> Seq<DeliveryView>
    decreases path.len(),
{
    if path.len() == 0 {
        seq![]
    } else {
        let rest = path_deliveries(t, path.drop_last(), self_index, ps);
        let i = path.last();
        if i == 0 {
            rest
        } else {
            let sib = sibling(i);
            rest + deliveries_for_leaves(
                t.members,
                leaves_under(sib as nat, t.members.len()),
                self_index,
                iterate_secret(ps, (path.len() + 1) as nat),
                slot_bytes(t.nodes[sib as int]),
            )
        }
    }
}

/// The leaf next to leaf `i` under the same parent.
pub open spec fn leaf_sibling(i: usize) -> int {
    if i % 2 == 0 {
        i + 1
    } else {
        i - 1
    }
}

/// The member next to the new one learns the path secret itself,
/// encapsulated to the new member's Kyber key.
pub open spec fn sibling_leaf_delivery(t: TreeView, new_index: usize, self_index: usize, ps: Seq<u8>) -> Seq<
    DeliveryView,
> {
    let s = leaf_sibling(new_index);
    if s == self_index {
        seq![]
    } else {
        match t.members[s] {
            Some(m) => seq![
                DeliveryView {
                    recipient: s as usize,
                    recipient_user_id: m.user_id,
                    key: ps,
                    encapsulation_key: match t.members[new_index as int] {
                        Some(n) => n.kyber_key,
                        None => seq![],
                    },
                },
            ],
            None => seq![],
        }
    }
}

/// All deliveries announcing the member at leaf `new_index` with path
/// secret `ps`.
pub open spec fn delivery_plan(g: GroupView, new_index: usize, ps: Seq<u8>) -> Seq<DeliveryView> {
    path_deliveries(
        g.tree,
        internal_path(g.tree.members.len(), new_index as nat),
        g.self_index,
        ps,
    ) + sibling_leaf_delivery(g.tree, new_index, g.self_index, ps)
}

/// The public keys read while planning exist: the sibling node of every
/// path node with a recipient below it, and the new member's Kyber key when
/// its neighbour receives.
pub open spec fn plan_keys_present(g: GroupView, new_index: usize) -> bool {
    let t = g.tree;
    let l = t.members.len();
    let path = internal_path(l, new_index as nat);
    let s = leaf_sibling(new_index);
    &&& forall|k: int|
        0 <= k < path.len() && path[k] != 0 && has_recipient(
            t.members,
            leaves_under(sibling(path[k]) as nat, l),
            g.self_index,
        ) ==> sibling(#[trigger] path[k]) < t.nodes.len() && t.nodes[sibling(path[k]) as int] is Some
    &&& (s != g.self_index && t.members[s] is Some) ==> t.members[new_index as int] is Some
}

proof fn lemma_deliveries_push(
    members: Seq<Option<MemberView>>,
    leaves: Seq<usize>,
    self_index: usize,
    key: Seq<u8>,
    enc_key: Seq<u8>,
    j: int,
)
    requires
        0 <= j < leaves.len(),
    ensures
        leaves.take(j + 1).drop_last() == leaves.take(j),
        leaves.take(j + 1).last() == leaves[j],
{
    assert(leaves.take(j + 1).drop_last() =~= leaves.take(j));
}

impl GroupState {
    /// The updates that announce the member just placed at leaf
    /// `new_member_index` with path secret `member_ps`: for each non-root
    /// node on the new member's path, every other member under the node's
    /// sibling gets the next secret up, encapsulated to the sibling's key;
    /// the new member's neighbour gets the path secret itself.
    pub fn plan_update_deliveries(&self, new_member_index: usize, member_ps: &Vec<u8>) -> (r: Vec<
        UpdateDelivery,
    >)
        requires
            is_power_of_two(self@.tree.members.len() as nat),
            self@.tree.members.len() >= 2,
            new_member_index < self@.tree.members.len(),
            self@.tree.members.len() <= usize::MAX / 2,
            plan_keys_present(self@, new_member_index),
        ensures
            r@.map_values(|d: UpdateDelivery| d@) == delivery_plan(
                self@,
                new_member_index,
                member_ps@,
            ),
    {
        let l = self.tree.members.len();
        let ghost t = self@.tree;
        let ghost ps = member_ps@;
        let path = self.tree.internal_path_indices(new_member_index);
        proof {
            lemma_ancestors_below((l - 1 + new_member_index) as nat, (l - 1) as nat);
        }
        let mut sent_secret = derive_node_secret(member_ps);
        proof {
            assert(iterate_secret(ps, 0) == ps);
        }
        let mut out: Vec<UpdateDelivery> = Vec::new();
        let mut k: usize = 0;
        while k < path.len()
            invariant
                t == self@.tree,
                l == t.members.len(),
                is_power_of_two(l as nat),
                l >= 2,
                path@ == internal_path(l as nat, new_member_index as nat),
                forall|q: int| 0 <= q < path@.len() ==> #[trigger] path@[q] < l - 1,
                plan_keys_present(self@, new_member_index),
                k <= path@.len(),
                sent_secret@ == iterate_secret(ps, (k + 1) as nat),
                out@.map_values(|d: UpdateDelivery| d@) == path_deliveries(
                    t,
                    path@.take(k as int),
                    self.self_index,
                    ps,
                ),
            decreases path@.len() - k,
        {
            sent_secret = derive_node_secret(&sent_secret);
            let i = path[k];
            proof {
                assert(path@.take(k as int + 1).drop_last() =~= path@.take(k as int));
            }
            if i != 0 {
                let sib = if i % 2 == 0 {
                    i - 1
                } else {
                    i + 1
                };
                proof {
                    if i % 2 == 1 {
                        crate::levels::lemma_floor_log2_bounds(l as nat);
                        if l % 2 == 1 {
                            assert(crate::levels::two_pow(crate::levels::floor_log2(l as nat))
                                == 2 * crate::levels::two_pow(
                                (crate::levels::floor_log2(l as nat) - 1) as nat,
                            ));
                        }
                    }
                }
                let leaves = descendant_leaves(sib, l);
                let ghost prefix = out@.map_values(|d: UpdateDelivery| d@);
                let ghost key = sent_secret@;
                let ghost enc = slot_bytes(t.nodes[sib as int]);
                let mut j: usize = 0;
                while j < leaves.len()
                    invariant
                        t == self@.tree,
                        l == t.members.len(),
                        leaves@ == leaves_under(sib as nat, l as nat),
                        forall|q: int| 0 <= q < leaves@.len() ==> #[trigger] leaves@[q] < l,
                        sib == sibling(i),
                        key == sent_secret@,
                        enc == slot_bytes(t.nodes[sib as int]),
                        (has_recipient(t.members, leaves@, self.self_index)) ==> sib
                            < t.nodes.len() && t.nodes[sib as int] is Some,
                        j <= leaves@.len(),
                        out@.map_values(|d: UpdateDelivery| d@) == prefix + deliveries_for_leaves(
                            t.members,
                            leaves@.take(j as int),
                            self.self_index,
                            key,
                            enc,
                        ),
                    decreases leaves@.len() - j,
                {
                    let d = leaves[j];
                    proof {
                        lemma_deliveries_push(t.members, leaves@, self.self_index, key, enc, j as int);
                    }
                    if d != self.self_index {
                        match &self.tree.members[d] {
                            Some(m) => {
                                proof {
                                    assert(t.members[d as int] is Some);
                                    assert(has_recipient(t.members, leaves@, self.self_index));
                                }
                                let enc_key = match &self.tree.nodes[sib] {
                                    Some(n) => n.public_key.clone(),
                                    None => Vec::new(),
                                };
                                let delivery = UpdateDelivery {
                                    recipient: d,
                                    recipient_user_id: m.user_id.clone(),
                                    key: sent_secret.clone(),
                                    encapsulation_key: enc_key,
                                };
                                let ghost before = out@;
                                out.push(delivery);
                                proof {
                                    assert(out@.map_values(|d: UpdateDelivery| d@) =~= before.map_values(
                                        |d: UpdateDelivery| d@,
                                    ).push(delivery@));
                                }
                            },
                            None => {},
                        }
                    }
                    proof {
                        assert(prefix + deliveries_for_leaves(
                            t.members,
                            leaves@.take(j as int + 1),
                            self.self_index,
                            key,
                            enc,
                        ) =~= out@.map_values(|d: UpdateDelivery| d@));
                    }
                    j = j + 1;
                }
                proof {
                    assert(leaves@.take(j as int) =~= leaves@);
                    assert(path@.take(k as int + 1).len() + 1 == k + 2);
                }
            }
            k = k + 1;
        }
        proof {
            assert(path@.take(k as int) =~= path@);
        }
        let s = if new_member_index % 2 == 0 {
            new_member_index + 1
        } else {
            new_member_index - 1
        };
        let ghost before = out@.map_values(|d: UpdateDelivery| d@);
        if s != self.self_index {
            match &self.tree.members[s] {
                Some(m) => {
                    let enc_key = match &self.tree.members[new_member_index] {
                        Some(n) => n.kyber_key.clone(),
                        None => Vec::new(),
                    };
                    let delivery = UpdateDelivery {
                        recipient: s,
                        recipient_user_id: m.user_id.clone(),
                        key: member_ps.clone(),
                        encapsulation_key: enc_key,
                    };
                    out.push(delivery);
                    proof {
                        assert(out@.map_values(|d: UpdateDelivery| d@) =~= before + seq![delivery@]);
                    }
                },
                None => {
                    proof {
                        assert(out@.map_values(|d: UpdateDelivery| d@) =~= before + seq![]);
                    }
                },
            }
        } else {
            proof {
                assert(out@.map_values(|d: UpdateDelivery| d@) =~= before + seq![]);
            }
        }
        out
    }
}


// ---------------------------------------------------------------------------
// Taking in an update, a hello, a group message
// ---------------------------------------------------------------------------

/// Node slots after each (node, public key) pair was stored, in order.
pub open spec fn with_node_keys(nodes: Seq<Option<Seq<u8>>>, pks: Seq<(usize, Seq<u8>)>) -> Seq<
    Option<Seq<u8>>,
>
    decreases pks.len(),
{
    if pks.len() == 0 {
        nodes
    } else {
        with_node_keys(nodes, pks.drop_last()).update(pks.last().0 as int, Some(pks.last().1))
    }
}

/// The group with the given public keys stored at their nodes.
pub open spec fn group_with_node_keys(g: GroupView, pks: Seq<(usize, Seq<u8>)>) -> GroupView {
    GroupView {
        tree: TreeView { members: g.tree.members, nodes: with_node_keys(g.tree.nodes, pks) },
        ..g
    }
}

/// Every node named in `pks` has a slot among `nodes`.
pub open spec fn node_keys_fit(nodes: Seq<Option<Seq<u8>>>, pks: Seq<(usize, Seq<u8>)>) -> bool {
    forall|k: int| 0 <= k < pks.len() ==> (#[trigger] pks[k]).0 < nodes.len()
}

/// Why an update could not be opened.
#[derive(Debug, Clone, Copy, PartialEq, Eq)]
pub enum UpdateError {
    /// No secret is held for the node the update is encapsulated to.
    MissingNodeSecret,
    /// The held node secret is not a 64-byte Kyber seed.
    UnusableNodeSecret,
    /// The ciphertext or the secret key has the wrong length.
    Decapsulation,
    /// The encrypted update did not decrypt.
    Decryption(CipherError),
}

/// The Kyber secret key that opens an update: the one derived from the
/// secret held for `node`, or the member's own group key.
pub open spec fn update_secret_key(g: GroupView, node: Option<usize>, owner_sk: Seq<u8>) -> Result<
    Seq<u8>,
    UpdateError,
> {
    match node {
        Some(n) => match lookup(g.secrets.node_secrets, n) {
            Some(sec) => if sec.len() == 64 {
                Ok(kyber_derive(sec).1)
            } else {
                Err(UpdateError::UnusableNodeSecret)
            },
            None => Err(UpdateError::MissingNodeSecret),
        },
        None => Ok(owner_sk),
    }
}

/// What opening an update gives.
pub open spec fn update_opening(
    g: GroupView,
    node: Option<usize>,
    owner_sk: Seq<u8>,
    ct: Seq<u8>,
    enc: Seq<u8>,
) -> Result<Seq<u8>, UpdateError> {
    match update_secret_key(g, node, owner_sk) {
        Ok(sk) => if ct.len() != crate::primitives::KYBER_CIPHERTEXT_LEN || sk.len()
            != crate::primitives::KYBER_SECRET_KEY_LEN {
            Err(UpdateError::Decapsulation)
        } else {
            match decrypt_outcome(kyber_decapsulate(ct, sk), enc) {
                Ok(p) => Ok(p),
                Err(e) => Err(UpdateError::Decryption(e)),
            }
        },
        Err(e) => Err(e),
    }
}

pub open spec fn update_result(r: Result<Vec<u8>, UpdateError>) -> Result<Seq<u8>, UpdateError> {
    match r {
        Ok(v) => Ok(v@),
        Err(e) => Err(e),
    }
}

/// Encapsulates a fresh secret to `public_key` and encrypts `data` under
/// it; returns the ciphertext and the encrypted data, or `None` when the
/// encapsulation fails.
pub fn seal_for_key(public_key: &[u8], data: &[u8]) -> (r: Option<(Vec<u8>, Vec<u8>)>)
    ensures
        public_key@.len() != KYBER_PUBLIC_KEY_LEN ==> r is None,
        r matches Some(p) ==> p.0@.len() == crate::primitives::KYBER_CIPHERTEXT_LEN && exists|
            secret: Seq<u8>,
            nonce: Seq<u8>,
        |
            secret.len() == 32 && nonce.len() == 12 && kyber_encapsulates(public_key@, p.0@, secret)
                && p.1@ == sealed_with_nonce(secret, nonce, data@),
{
    match kyber_encapsulate(public_key) {
        Some((ct, secret)) => {
            let nonce = aes_gcm_random_nonce();
            Some(seal_encapsulated(ct, &secret, &nonce, data))
        },
        None => None,
    }
}

/// Pairs a Kyber ciphertext with `data` sealed under the secret it carries
/// and the given nonce.
pub fn seal_encapsulated(ct: Vec<u8>, secret: &Vec<u8>, nonce: &Vec<u8>, data: &[u8]) -> (r: (
    Vec<u8>,
    Vec<u8>,
))
    requires
        secret@.len() == 32,
        nonce@.len() == 12,
    ensures
        r.0@ == ct@,
        r.1@ == sealed_with_nonce(secret@, nonce@, data@),
{
    let enc = crate::aead::seal_with_leading_nonce(secret, nonce, data);
    (ct, enc)
}

impl GroupState {
    /// The public keys stored on the path of leaf `leaf`, root last.
    pub fn path_public_keys(&self, leaf: usize) -> (r: Vec<(usize, Vec<u8>)>)
        requires
            path_computable(self@.tree.members.len() as nat, leaf as nat),
            forall|k: int|
                0 <= k < internal_path(self@.tree.members.len() as nat, leaf as nat).len() ==> {
                    let p = #[trigger] internal_path(self@.tree.members.len() as nat, leaf as nat)[k];
                    p < self@.tree.nodes.len() && self@.tree.nodes[p as int] is Some
                },
        ensures
            ({
                let path = internal_path(self@.tree.members.len() as nat, leaf as nat);
                crate::secrets::entries_view(r@) == Seq::new(
                    path.len(),
                    |k: int| (path[k], slot_bytes(self@.tree.nodes[path[k] as int])),
                )
            }),
    {
        let path = self.tree.internal_path_indices(leaf);
        let ghost target = Seq::new(
            path@.len(),
            |k: int| (path@[k], slot_bytes(self@.tree.nodes[path@[k] as int])),
        );
        let mut out: Vec<(usize, Vec<u8>)> = Vec::new();
        let mut k: usize = 0;
        while k < path.len()
            invariant
                path@ == internal_path(self@.tree.members.len() as nat, leaf as nat),
                target == Seq::new(
                    path@.len(),
                    |k: int| (path@[k], slot_bytes(self@.tree.nodes[path@[k] as int])),
                ),
                forall|q: int|
                    0 <= q < path@.len() ==> #[trigger] path@[q] < self@.tree.nodes.len()
                        && self@.tree.nodes[path@[q] as int] is Some,
                k <= path@.len(),
                crate::secrets::entries_view(out@) == target.take(k as int),
            decreases path@.len() - k,
        {
            let p = path[k];
            let pk = match &self.tree.nodes[p] {
                Some(n) => {
                    let c = n.public_key.clone();
                    proof {
                        assert(self@.tree.nodes[p as int] == node_slot(self.tree.nodes@[p as int]));
                        assert(c@ == slot_bytes(self@.tree.nodes[p as int]));
                    }
                    c
                },
                None => {
                    proof {
                        assert(self@.tree.nodes[p as int] == node_slot(self.tree.nodes@[p as int]));
                    }
                    Vec::new()
                },
            };
            let ghost before = out@;
            out.push((p, pk));
            proof {
                assert(crate::secrets::entries_view(out@) =~= crate::secrets::entries_view(before).push(
                    (p, pk@),
                ));
                assert(crate::secrets::entries_view(out@) =~= target.take(k as int + 1));
            }
            k = k + 1;
        }
        proof {
            assert(target.take(k as int) =~= target);
        }
        out
    }

    /// What a member who adds `index` with path secret `path_secret` sends
    /// the newcomer: the leaf, the secret, a copy of the tree and the epoch.
    pub fn client_hello_for(&self, index: usize, path_secret: &Vec<u8>) -> (r: ClientHello)
        ensures
            r.index == index,
            r.path_secret@ == path_secret@,
            r.tree@ == self@.tree,
            r.epoch == self.epoch,
    {
        ClientHello {
            index,
            path_secret: path_secret.clone(),
            tree: self.tree.duplicate(),
            epoch: self.epoch,
        }
    }

    /// Makes room for the member an update is about to announce: it takes
    /// the first empty leaf, growing the tree when there is none. Returns
    /// that leaf.
    pub fn make_room_for_next_member(&mut self) -> (r: usize)
        requires
            can_make_room(
                old(self)@.tree,
                old(self)@.secrets.node_secrets,
                crate::tree_update::first_free_leaf(old(self)@.tree.members),
            ),
        ensures
            r == crate::tree_update::first_free_leaf(old(self)@.tree.members),
            final(self)@ == (GroupView {
                tree: tree_with_room(old(self)@.tree, r as nat),
                secrets: crate::secrets::SecretsView {
                    node_secrets: secrets_with_room(
                        old(self)@.tree,
                        old(self)@.secrets.node_secrets,
                        r as nat,
                    ),
                    ..old(self)@.secrets
                },
                ..old(self)@
            }),
    {
        let leaf = crate::tree_update::first_free_leaf_of(&self.tree.members);
        self.tree.make_room(&mut self.secrets, leaf);
        proof {
            assert(final(self)@.secrets =~= (crate::secrets::SecretsView {
                node_secrets: secrets_with_room(
                    old(self)@.tree,
                    old(self)@.secrets.node_secrets,
                    leaf as nat,
                ),
                ..old(self)@.secrets
            }));
        }
        leaf
    }

    /// The node of this member's path whose key an update about leaf
    /// `new_member_index` is encapsulated to: where the two paths part,
    /// walking down from the root; `None` when they do not part.
    pub fn update_key_node(&self, new_member_index: usize) -> (r: Option<usize>)
        requires
            path_computable(self@.tree.members.len() as nat, self.self_index as nat),
            path_computable(self@.tree.members.len() as nat, new_member_index as nat),
        ensures
            r == divergence_from_root(
                internal_path(self@.tree.members.len() as nat, self.self_index as nat),
                internal_path(self@.tree.members.len() as nat, new_member_index as nat),
            ),
    {
        let self_path = self.tree.internal_path_indices(self.self_index);
        let new_path = self.tree.internal_path_indices(new_member_index);
        first_divergence_inverted(self_path.as_slice(), new_path.as_slice())
    }

    /// Opens an update: decapsulates `ct` with the key derived from the
    /// secret held for `node` (or with `owner_secret_key` when there is no
    /// node) and decrypts `update_enc` under the shared secret.
    pub fn open_update(
        &self,
        ct: &[u8],
        update_enc: &Vec<u8>,
        node: Option<usize>,
        owner_secret_key: &[u8],
    ) -> (r: Result<Vec<u8>, UpdateError>)
        ensures
            update_result(r) == update_opening(self@, node, owner_secret_key@, ct@, update_enc@),
    {
        let sk: Vec<u8> = match node {
            Some(n) => match self.secrets.get_node_secret(n) {
                Some(secret) => {
                    if secret.len() != 64 {
                        return Err(UpdateError::UnusableNodeSecret);
                    }
                    let (_public, secret_key) = kyber_derive_keypair(secret.as_slice());
                    secret_key
                },
                None => {
                    return Err(UpdateError::MissingNodeSecret);
                },
            },
            None => crate::crypto::slice_range(owner_secret_key, 0, owner_secret_key.len()),
        };
        proof {
            if node is None {
                assert(sk@ =~= owner_secret_key@);
            }
        }
        let shared = match kyber_decapsulate_secret(ct, sk.as_slice()) {
            Some(ss) => ss,
            None => {
                return Err(UpdateError::Decapsulation);
            },
        };
        match decrypt_data(update_enc, &shared) {
            Ok(v) => Ok(v),
            Err(e) => Err(UpdateError::Decryption(e)),
        }
    }

    /// Stores each (node, public key) pair, in order.
    pub fn set_node_keys(&mut self, pks: &Vec<(usize, Vec<u8>)>)
        requires
            node_keys_fit(old(self)@.tree.nodes, crate::secrets::entries_view(pks@)),
        ensures
            final(self)@ == group_with_node_keys(old(self)@, crate::secrets::entries_view(pks@)),
    {
        let ghost e = crate::secrets::entries_view(pks@);
        let mut k: usize = 0;
        while k < pks.len()
            invariant
                e == crate::secrets::entries_view(pks@),
                node_keys_fit(old(self)@.tree.nodes, e),
                k <= pks@.len(),
                self@ == group_with_node_keys(old(self)@, e.take(k as int)),
            decreases pks@.len() - k,
        {
            let i = pks[k].0;
            let pk = pks[k].1.clone();
            proof {
                assert(e.take(k as int + 1).drop_last() =~= e.take(k as int));
                assert(node_keys_fit(old(self)@.tree.nodes, e.take(k as int))) by {
                    assert forall|q: int| 0 <= q < e.take(k as int).len() implies (
                    #[trigger] e.take(k as int)[q]).0 < old(self)@.tree.nodes.len() by {
                        assert(e.take(k as int)[q] == e[q]);
                    }
                }
                lemma_with_node_keys_len(old(self)@.tree.nodes, e.take(k as int));
                assert(e[k as int].0 < old(self)@.tree.nodes.len());
            }
            self.tree.add_node(i, pk);
            proof {
                assert(self@.tree.nodes =~= with_node_keys(
                    old(self)@.tree.nodes,
                    e.take(k as int + 1),
                ));
            }
            k = k + 1;
        }
        proof {
            assert(e.take(k as int) =~= e);
        }
    }

    /// Takes in a decrypted update. When it came through a node key, the
    /// new member and the received secret are taken in as an update;
    /// otherwise this member owns the group key the update was sealed to and
    /// places the newcomer itself from the received secret. Then the
    /// announced public keys are stored.
    pub fn apply_update(&mut self, update: GroupUpdateMember, from_node: bool)
        requires
            apply_update_allowed(old(self)@, update_view(&update), from_node),
        ensures
            final(self)@ == after_apply_update(old(self)@, update_view(&update), from_node),
    {
        let ghost u = update_view(&update);
        let GroupUpdateMember { new_pks, new_epoch: _, index, key, new_member_cred } = update;
        if from_node {
            let self_index = self.self_index;
            self.add_member_from_update(new_member_cred, key, index, self_index);
        } else {
            let Credential { kyber_pk, ed25519_pk, dilithium_pk, user_id } = new_member_cred;
            let _ = self.add_member(
                kyber_pk,
                dilithium_pk,
                ed25519_pk,
                user_id.as_str(),
                key,
                Some(index),
            );
        }
        self.set_node_keys(&new_pks);
    }

    /// The state of a newcomer built from the hello it received: the sender's
    /// tree and epoch, this member at the leaf the hello names, placed with
    /// the path secret the hello carries, which is also recorded as the
    /// secret received from that leaf.
    pub fn from_client_hello(
        hello: ClientHello,
        group_id: &str,
        kyber_pk: Vec<u8>,
        dilithium_pk: Vec<u8>,
        ed25519_pk: Vec<u8>,
        user_id: &str,
    ) -> (r: GroupState)
        requires
            crate::group::group_add_allowed(
                hello_base(hello.tree@, group_id@, hello.epoch, hello.index),
                kyber_pk@,
                dilithium_pk@,
                user_id@,
                hello.path_secret@,
                Some(hello.index),
            ),
        ensures
            r@ == hello_joined(
                hello.tree@,
                group_id@,
                hello.epoch,
                hello.index,
                hello.path_secret@,
                kyber_pk@,
                dilithium_pk@,
                ed25519_pk@,
                user_id@,
            ),
    {
        let ClientHello { index, path_secret, tree, epoch } = hello;
        let mut group = GroupState {
            tree,
            secrets: GroupSecrets::new(),
            self_index: index,
            group_id: group_id.to_owned(),
            epoch,
        };
        proof {
            assert(group@.secrets.member_secrets =~= Seq::<(usize, Seq<u8>)>::empty());
            assert(group@ == hello_base(group@.tree, group_id@, epoch, index));
        }
        let _ = group.add_member(
            kyber_pk,
            dilithium_pk,
            ed25519_pk,
            user_id,
            path_secret.clone(),
            Some(index),
        );
        group.secrets.add_member_secret(index, path_secret);
        proof {
            let a = hello_joined(
                tree@,
                group_id@,
                epoch,
                index,
                path_secret@,
                kyber_pk@,
                dilithium_pk@,
                ed25519_pk@,
                user_id@,
            );
            assert(group@.secrets == a.secrets);
        }
        group
    }

    /// The key of group messages: the first 32 bytes of the root secret.
    pub fn message_key(&self) -> (r: Vec<u8>)
        requires
            self@.secrets.root_secret.len() >= 32,
        ensures
            r@ == self@.secrets.root_secret.subrange(0, 32),
    {
        let root = self.get_root();
        crate::crypto::slice_range(root.as_slice(), 0, 32)
    }
}

/// An update as plain values.
pub struct UpdateView {
    pub new_pks: Seq<(usize, Seq<u8>)>,
    pub index: usize,
    pub key: Seq<u8>,
    pub kyber_pk: Seq<u8>,
    pub dilithium_pk: Seq<u8>,
    pub ed25519_pk: Seq<u8>,
    pub user_id: Seq<char>,
}

pub open spec fn update_view(u: &GroupUpdateMember) -> UpdateView {
    UpdateView {
        new_pks: crate::secrets::entries_view(u.new_pks@),
        index: u.index,
        key: u.key@,
        kyber_pk: u.new_member_cred.kyber_pk@,
        dilithium_pk: u.new_member_cred.dilithium_pk@,
        ed25519_pk: u.new_member_cred.ed25519_pk@,
        user_id: u.new_member_cred.user_id@,
    }
}

/// The group once the update's member is in, before the public keys are
/// stored.
pub open spec fn placed_by_update(g: GroupView, u: UpdateView, from_node: bool) -> GroupView {
    if from_node {
        after_update(
            g,
            u.kyber_pk,
            u.dilithium_pk,
            u.ed25519_pk,
            u.user_id,
            u.key,
            u.index,
            g.self_index,
        )
    } else {
        after_add_member(
            g,
            u.kyber_pk,
            u.dilithium_pk,
            u.ed25519_pk,
            u.user_id,
            u.key,
            Some(u.index),
        )
    }
}

/// The group after an update was taken in.
pub open spec fn after_apply_update(g: GroupView, u: UpdateView, from_node: bool) -> GroupView {
    group_with_node_keys(placed_by_update(g, u, from_node), u.new_pks)
}

/// What taking in an update needs, so that none of its steps fails.
pub open spec fn apply_update_allowed(g: GroupView, u: UpdateView, from_node: bool) -> bool {
    &&& from_node ==> update_allowed(g.tree, g.secrets, u.index, g.self_index) && g.epoch
        < usize::MAX
    &&& !from_node ==> crate::group::group_add_allowed(
        g,
        u.kyber_pk,
        u.dilithium_pk,
        u.user_id,
        u.key,
        Some(u.index),
    )
    &&& node_keys_fit(placed_by_update(g, u, from_node).tree.nodes, u.new_pks)
}

/// A newcomer's state before it places itself.
pub open spec fn hello_base(tree: TreeView, group_id: Seq<char>, epoch: usize, index: usize) -> GroupView {
    GroupView {
        tree,
        secrets: crate::secrets::SecretsView {
            member_secrets: seq![],
            node_secrets: seq![],
            root_secret: seq![],
        },
        group_id,
        epoch,
        self_index: index,
    }
}

/// A newcomer's state after it placed itself from the hello.
pub open spec fn hello_joined(
    tree: TreeView,
    group_id: Seq<char>,
    epoch: usize,
    index: usize,
    path_secret: Seq<u8>,
    kyber_pk: Seq<u8>,
    dilithium_pk: Seq<u8>,
    ed25519_pk: Seq<u8>,
    user_id: Seq<char>,
) -> GroupView {
    let a = after_add_member(
        hello_base(tree, group_id, epoch, index),
        kyber_pk,
        dilithium_pk,
        ed25519_pk,
        user_id,
        path_secret,
        Some(index),
    );
    GroupView {
        secrets: crate::secrets::SecretsView {
            member_secrets: seq![(index, path_secret)],
            ..a.secrets
        },
        ..a
    }
}

pub proof fn lemma_with_node_keys_len(nodes: Seq<Option<Seq<u8>>>, pks: Seq<(usize, Seq<u8>)>)
    requires
        node_keys_fit(nodes, pks),
    ensures
        with_node_keys(nodes, pks).len() == nodes.len(),
    decreases pks.len(),
{
    if pks.len() > 0 {
        assert(node_keys_fit(nodes, pks.drop_last())) by {
            assert forall|k: int| 0 <= k < pks.drop_last().len() implies (
            #[trigger] pks.drop_last()[k]).0 < nodes.len() by {
                assert(pks.drop_last()[k] == pks[k]);
            }
        }
        lemma_with_node_keys_len(nodes, pks.drop_last());
    }
}

} // verus!
