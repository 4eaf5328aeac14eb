//! The state a member keeps for one group: the tree, its secrets, the group's
//! identifier, the epoch and the member's own leaf.
use vstd::prelude::*;
use crate::primitives::str_eq;
use crate::secrets::{GroupSecrets, SecretsView};
use crate::tree::{internal_path, MemberView, RatchetTree, TreeView};
use crate::tree_update::{
    add_member_allowed, member_record, path_secrets, secrets_with_room, target_leaf,
    tree_with_room, update_allowed, update_outcome, upsert_all,
};

verus! {

/// Length of a Kyber public key of a member.
pub const KYBER_PK_SIZE: usize = 1568;

/// Length of a Dilithium public key of a member.
pub const DILITHIUM_PK_SIZE: usize = 1952;

/// Length of a user identifier (hex of a SHA-256 digest).
pub const USER_ID_SIZE: usize = 64;

/// Length of the path secret of a new member.
pub const SECRET_SIZE: usize = 32;

/// The public credentials of a member.
#[derive(Debug, Clone)]
pub struct Credential {
    pub kyber_pk: Vec<u8>,
    pub ed25519_pk: Vec<u8>,
    pub dilithium_pk: Vec<u8>,
    pub user_id: String,
}

/// What a member sends to the others when it adds someone: the public keys
/// of the new member's path, the epoch, the new member's leaf, the secret for
/// the receiver and the new member's credentials.
#[derive(Debug, Clone)]
pub struct GroupUpdateMember {
    pub new_pks: Vec<(usize, Vec<u8>)>,
    pub new_epoch: usize,
    pub index: usize,
    pub key: Vec<u8>,
    pub new_member_cred: Credential,
}

/// The state one member keeps for a group.
#[derive(Debug, Clone)]
pub struct GroupState {
    pub tree: RatchetTree,
    pub secrets: GroupSecrets,
    pub group_id: String,
    pub epoch: usize,
    pub self_index: usize,
}

/// A group state as plain values.
#[verifier::ext_equal]
pub struct GroupView {
    pub tree: TreeView,
    pub secrets: SecretsView,
    pub group_id: Seq<char>,
    pub epoch: usize,
    pub self_index: usize,
}

impl View for GroupState {
    type V = GroupView;

    open spec fn view(&self) -> GroupView {
        GroupView {
            tree: self.tree@,
            secrets: self.secrets@,
            group_id: self.group_id@,
            epoch: self.epoch,
            self_index: self.self_index,
        }
    }
}

/// First leaf holding a member with identifier `user_id`.
pub open spec fn leaf_of_user(members: Seq<Option<MemberView>>, user_id: Seq<char>) -> Option<nat>
    decreases members.len(),
{
    if members.len() == 0 {
        None
    } else {
        match leaf_of_user(members.drop_last(), user_id) {
            Some(i) => Some(i),
            None => match members.last() {
                Some(m) => if m.user_id == user_id {
                    Some((members.len() - 1) as nat)
                } else {
                    None
                },
                None => None,
            },
        }
    }
}

pub proof fn lemma_leaf_of_user(members: Seq<Option<MemberView>>, user_id: Seq<char>)
    ensures
        leaf_of_user(members, user_id) matches Some(i) ==> i < members.len() && (
        members[i as int] matches Some(m) && m.user_id == user_id) && forall|j: int|
            0 <= j < i ==> !(#[trigger] members[j] matches Some(m) && m.user_id == user_id),
        leaf_of_user(members, user_id) is None ==> forall|j: int|
            0 <= j < members.len() ==> !(#[trigger] members[j] matches Some(m) && m.user_id
                == user_id),
    decreases members.len(),
{
    if members.len() > 0 {
        let d = members.drop_last();
        lemma_leaf_of_user(d, user_id);
        assert forall|j: int| 0 <= j < d.len() implies d[j] == #[trigger] members[j] by {}
    }
}

pub proof fn lemma_leaf_of_user_unique(members: Seq<Option<MemberView>>, user_id: Seq<char>, i: nat)
    requires
        i < members.len(),
        members[i as int] matches Some(m) && m.user_id == user_id,
        forall|j: int|
            0 <= j < i ==> !(#[trigger] members[j] matches Some(m) && m.user_id == user_id),
    ensures
        leaf_of_user(members, user_id) == Some(i),
{
    lemma_leaf_of_user(members, user_id);
    if let Some(g) = leaf_of_user(members, user_id) {
        if g < i {
            assert(members[g as int] matches Some(m) && m.user_id == user_id);
        } else if i < g {
            assert(!(members[i as int] matches Some(m) && m.user_id == user_id));
        }
    }
}

/// The group after `GroupState::add_member` placed a member with the given
/// keys and identifier, from path secret `secret`, at the leaf chosen by
/// `index`.
pub open spec fn after_add_member(
    g: GroupView,
    kyber_key: Seq<u8>,
    dilithium_key: Seq<u8>,
    ed25519_key: Seq<u8>,
    user_id: Seq<char>,
    secret: Seq<u8>,
    index: Option<usize>,
) -> GroupView {
    let leaf = target_leaf(g.tree, index);
    let room = tree_with_room(g.tree, leaf);
    let path = internal_path(room.members.len(), leaf);
    let entries = path_secrets(path, secret);
    GroupView {
        tree: TreeView {
            members: room.members.update(
                leaf as int,
                Some(member_record(kyber_key, dilithium_key, ed25519_key, user_id, leaf)),
            ),
            nodes: crate::tree_update::set_path_keys(room.nodes, entries),
        },
        secrets: SecretsView {
            member_secrets: g.secrets.member_secrets,
            node_secrets: upsert_all(secrets_with_room(g.tree, g.secrets.node_secrets, leaf), entries),
            root_secret: entries.last().1,
        },
        group_id: g.group_id,
        epoch: (g.epoch + 1) as usize,
        self_index: g.self_index,
    }
}

/// The group after `GroupState::add_member_from_update` placed the member
/// with credentials `cred` at leaf `new_index` and took in `secret`.
pub open spec fn after_update(
    g: GroupView,
    kyber_key: Seq<u8>,
    dilithium_key: Seq<u8>,
    ed25519_key: Seq<u8>,
    user_id: Seq<char>,
    secret: Seq<u8>,
    new_index: usize,
    self_index: usize,
) -> GroupView {
    let room = tree_with_room(g.tree, new_index as nat);
    let n = room.members.len();
    let outcome = update_outcome(
        internal_path(n, self_index as nat),
        internal_path(n, new_index as nat),
        secret,
    );
    GroupView {
        tree: TreeView {
            members: room.members.update(
                new_index as int,
                Some(member_record(kyber_key, dilithium_key, ed25519_key, user_id, new_index as nat)),
            ),
            nodes: room.nodes,
        },
        secrets: SecretsView {
            member_secrets: g.secrets.member_secrets,
            node_secrets: upsert_all(
                secrets_with_room(g.tree, g.secrets.node_secrets, new_index as nat),
                outcome.0,
            ),
            root_secret: outcome.1,
        },
        group_id: g.group_id,
        epoch: (g.epoch + 1) as usize,
        self_index: g.self_index,
    }
}

/// The conditions under which `GroupState::add_member` succeeds.
pub open spec fn group_add_allowed(
    g: GroupView,
    kyber_key: Seq<u8>,
    dilithium_key: Seq<u8>,
    user_id: Seq<char>,
    secret: Seq<u8>,
    index: Option<usize>,
) -> bool {
    &&& kyber_key.len() == KYBER_PK_SIZE
    &&& dilithium_key.len() == DILITHIUM_PK_SIZE
    &&& vstd::utf8::encode_utf8(user_id).len() == USER_ID_SIZE
    &&& secret.len() == SECRET_SIZE
    &&& add_member_allowed(g.tree, g.secrets, index)
    &&& g.epoch < usize::MAX
}

impl GroupState {
    /// A new group of two empty leaves, at epoch 0, with this member at
    /// leaf 0.
    pub fn new(group_id: &str) -> (r: Self)
        ensures
            r@.tree.members =~= seq![None::<MemberView>, None::<MemberView>],
            r@.tree.nodes =~= seq![None::<Seq<u8>>],
            r@.secrets.member_secrets == Seq::<(usize, Seq<u8>)>::empty(),
            r@.secrets.node_secrets == Seq::<(usize, Seq<u8>)>::empty(),
            r@.secrets.root_secret == Seq::<u8>::empty(),
            r@.group_id == group_id@,
            r@.epoch == 0,
            r@.self_index == 0,
    {
        GroupState {
            tree: RatchetTree::new(2),
            secrets: GroupSecrets::new(),
            group_id: group_id.to_owned(),
            epoch: 0,
            self_index: 0,
        }
    }

    /// Adds a member with the given keys and identifier at leaf `index` (or
    /// the first empty leaf) from a fresh 32-byte path secret, and moves to
    /// the next epoch. Returns the leaf and the new root secret.
    pub fn add_member(
        &mut self,
        kyber_key: Vec<u8>,
        dilithium_key: Vec<u8>,
        ed25519_key: Vec<u8>,
        user_id: &str,
        secret: Vec<u8>,
        index: Option<usize>,
    ) -> (r: (usize, Vec<u8>))
        requires
            group_add_allowed(
                old(self)@,
                kyber_key@,
                dilithium_key@,
                user_id@,
                secret@,
                index,
            ),
        ensures
            final(self)@ == after_add_member(
                old(self)@,
                kyber_key@,
                dilithium_key@,
                ed25519_key@,
                user_id@,
                secret@,
                index,
            ),
            r.0 == target_leaf(old(self)@.tree, index),
            r.1@ == final(self)@.secrets.root_secret,
            r.1@.len() == 64,
    {
        let ghost requested = index;
        let (leaf, secrets) = self.tree.add_member(
            &mut self.secrets,
            kyber_key,
            dilithium_key,
            ed25519_key,
            user_id,
            secret,
            index,
        );
        self.new_epoch();
        let last = secrets.len() - 1;
        let root = secrets[last].1.clone();
        proof {
            let a = after_add_member(
                old(self)@,
                kyber_key@,
                dilithium_key@,
                ed25519_key@,
                user_id@,
                secret@,
                requested,
            );
            assert(final(self)@.tree == a.tree);
            assert(final(self)@.secrets == a.secrets);
        }
        (leaf, root)
    }

    /// Takes in an update announcing a member at leaf `new_index`, with the
    /// secret sent to this member at leaf `self_index`, and moves to the next
    /// epoch.
    pub fn add_member_from_update(
        &mut self,
        credentials: Credential,
        secret: Vec<u8>,
        new_index: usize,
        self_index: usize,
    )
        requires
            update_allowed(old(self)@.tree, old(self)@.secrets, new_index, self_index),
            old(self).epoch < usize::MAX,
        ensures
            final(self)@ == after_update(
                old(self)@,
                credentials.kyber_pk@,
                credentials.dilithium_pk@,
                credentials.ed25519_pk@,
                credentials.user_id@,
                secret@,
                new_index,
                self_index,
            ),
    {
        self.tree.add_member_from_update(
            &mut self.secrets,
            credentials.dilithium_pk,
            credentials.ed25519_pk,
            credentials.kyber_pk,
            credentials.user_id.as_str(),
            secret,
            new_index,
            self_index,
        );
        self.new_epoch();
        proof {
            let a = after_update(
                old(self)@,
                credentials.kyber_pk@,
                credentials.dilithium_pk@,
                credentials.ed25519_pk@,
                credentials.user_id@,
                secret@,
                new_index,
                self_index,
            );
            assert(final(self)@.tree == a.tree);
            assert(final(self)@.secrets == a.secrets);
        }
    }

    fn new_epoch(&mut self)
        requires
            old(self).epoch < usize::MAX,
        ensures
            final(self).epoch == old(self).epoch + 1,
            final(self).tree == old(self).tree,
            final(self).secrets == old(self).secrets,
            final(self).group_id == old(self).group_id,
            final(self).self_index == old(self).self_index,
    {
        self.epoch = self.epoch + 1;
    }

    /// The Kyber and Dilithium public keys of the member at leaf `index`.
    pub fn get_pk(&self, index: usize) -> (r: Option<(Vec<u8>, Vec<u8>)>)
        ensures
            r matches Some(p) ==> index < self@.tree.members.len() && (self@.tree.members[
            index as int] matches Some(m) && p.0@ == m.kyber_key && p.1@ == m.dilithium_key),
            r is None ==> index >= self@.tree.members.len() || self@.tree.members[index as int]
                is None,
    {
        if index < self.tree.members.len() {
            match &self.tree.members[index] {
                Some(m) => {
                    return Some((m.kyber_key.clone(), m.dilithium_key.clone()));
                },
                None => {},
            }
        }
        None
    }

    /// The first leaf holding a member with identifier `user_id`.
    pub fn index_from_user_id(&self, user_id: &str) -> (r: Option<usize>)
        ensures
            r matches Some(i) ==> leaf_of_user(self@.tree.members, user_id@) == Some(i as nat),
            r is None ==> leaf_of_user(self@.tree.members, user_id@) is None,
    {
        let ghost members = self@.tree.members;
        let mut k: usize = 0;
        while k < self.tree.members.len()
            invariant
                members == self@.tree.members,
                k <= members.len(),
                forall|j: int|
                    0 <= j < k ==> !(#[trigger] members[j] matches Some(m) && m.user_id
                        == user_id@),
            decreases members.len() - k,
        {
            match &self.tree.members[k] {
                Some(m) => {
                    if str_eq(m.user_id.as_str(), user_id) {
                        proof {
                            lemma_leaf_of_user_unique(members, user_id@, k as nat);
                        }
                        return Some(k);
                    }
                },
                None => {},
            }
            k = k + 1;
        }
        proof {
            lemma_leaf_of_user(members, user_id@);
            if let Some(i) = leaf_of_user(members, user_id@) {
                assert(members[i as int] matches Some(m) && m.user_id == user_id@);
            }
        }
        None
    }

    /// The root secret.
    pub fn get_root(&self) -> (r: Vec<u8>)
        ensures
            r@ == self@.secrets.root_secret,
    {
        self.secrets.get_root()
    }
}

} // verus!
