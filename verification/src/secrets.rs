//! The secrets a member holds for its group: one per member it learned a
//! path secret from, one per internal node on its own path, and the root
//! secret that keys the group's messages.
use vstd::prelude::*;
use crate::tree::{new_index, new_index_from_original};

verus! {

/// The secrets known to one member of a group.
#[derive(Debug, Clone)]
pub struct GroupSecrets {
    pub member_secrets: Vec<(usize, Vec<u8>)>,
    pub node_secrets: Vec<(usize, Vec<u8>)>,
    pub root_secret: Vec<u8>,
}

/// The secrets as plain values.
pub struct SecretsView {
    pub member_secrets: Seq<(usize, Seq<u8>)>,
    pub node_secrets: Seq<(usize, Seq<u8>)>,
    pub root_secret: Seq<u8>,
}

pub open spec fn entries_view(v: Seq<(usize, Vec<u8>)>) -> Seq<(usize, Seq<u8>)> {
    v.map_values(|e: (usize, Vec<u8>)| (e.0, e.1@))
}

impl View for GroupSecrets {
    type V = SecretsView;

    open spec fn view(&self) -> SecretsView {
        SecretsView {
            member_secrets: entries_view(self.member_secrets@),
            node_secrets: entries_view(self.node_secrets@),
            root_secret: self.root_secret@,
        }
    }
}

/// Position of the first entry with index `idx`.
pub open spec fn first_pos(s: Seq<(usize, Seq<u8>)>, idx: usize) -> Option<int>
    decreases s.len(),
{
    if s.len() == 0 {
        None
    } else {
        match first_pos(s.drop_last(), idx) {
            Some(p) => Some(p),
            None => if s.last().0 == idx {
                Some(s.len() - 1)
            } else {
                None
            },
        }
    }
}

/// The secret of the first entry with index `idx`.
pub open spec fn lookup(s: Seq<(usize, Seq<u8>)>, idx: usize) -> Option<Seq<u8>> {
    match first_pos(s, idx) {
        Some(p) => Some(s[p].1),
        None => None,
    }
}

/// Replaces the secret of the first entry with index `idx`, or appends a new
/// entry when there is none.
pub open spec fn upsert(s: Seq<(usize, Seq<u8>)>, idx: usize, secret: Seq<u8>) -> Seq<
    (usize, Seq<u8>),
> {
    match first_pos(s, idx) {
        Some(p) => s.update(p, (idx, secret)),
        None => s.push((idx, secret)),
    }
}

/// Entries with their node indices moved as the tree doubles.
pub open spec fn remap_entries(s: Seq<(usize, Seq<u8>)>) -> Seq<(usize, Seq<u8>)> {
    s.map_values(|e: (usize, Seq<u8>)| (new_index(e.0 as nat) as usize, e.1))
}

/// `first_pos` finds the first matching entry.
pub proof fn lemma_first_pos(s: Seq<(usize, Seq<u8>)>, idx: usize)
    ensures
        first_pos(s, idx) matches Some(p) ==> 0 <= p < s.len() && s[p].0 == idx && forall|q: int|
            0 <= q < p ==> #[trigger] s[q].0 != idx,
        first_pos(s, idx) is None ==> forall|q: int| 0 <= q < s.len() ==> #[trigger] s[q].0 != idx,
    decreases s.len(),
{
    if s.len() > 0 {
        lemma_first_pos(s.drop_last(), idx);
        assert forall|q: int| 0 <= q < s.len() - 1 implies s.drop_last()[q] == #[trigger] s[q] by {}
    }
}

/// The first matching entry is the one `first_pos` names.
pub proof fn lemma_first_pos_unique(s: Seq<(usize, Seq<u8>)>, idx: usize, p: int)
    requires
        0 <= p < s.len(),
        s[p].0 == idx,
        forall|q: int| 0 <= q < p ==> #[trigger] s[q].0 != idx,
    ensures
        first_pos(s, idx) == Some(p),
{
    lemma_first_pos(s, idx);
}

/// A written secret is read back, and other indices read as before.
pub proof fn law_lookup_after_upsert(s: Seq<(usize, Seq<u8>)>, idx: usize, secret: Seq<u8>, j: usize)
    ensures
        lookup(upsert(s, idx, secret), j) == if j == idx {
            Some(secret)
        } else {
            lookup(s, j)
        },
{
    lemma_first_pos(s, idx);
    lemma_first_pos(s, j);
    let u = upsert(s, idx, secret);
    lemma_first_pos(u, j);
    match first_pos(s, idx) {
        Some(p) => {
            if j == idx {
                lemma_first_pos_unique(u, j, p);
            } else {
                match first_pos(s, j) {
                    Some(pj) => {
                        assert(u[pj] == s[pj]);
                        assert forall|q: int| 0 <= q < pj implies #[trigger] u[q].0 != j by {
                            assert(u[q].0 == s[q].0 || q == p);
                        }
                        lemma_first_pos_unique(u, j, pj);
                    },
                    None => {
                        assert forall|q: int| 0 <= q < u.len() implies #[trigger] u[q].0 != j by {
                            assert(u[q].0 == s[q].0 || q == p);
                        }
                    },
                }
            }
        },
        None => {
            if j == idx {
                lemma_first_pos_unique(u, j, s.len() as int);
            } else {
                match first_pos(s, j) {
                    Some(pj) => {
                        lemma_first_pos_unique(u, j, pj);
                    },
                    None => {
                        assert forall|q: int| 0 <= q < u.len() implies #[trigger] u[q].0 != j by {
                            if q < s.len() {
                                assert(u[q] == s[q]);
                            }
                        }
                    },
                }
            }
        },
    }
}

/// Finds the position of the first entry with index `index`.
fn find_entry(entries: &Vec<(usize, Vec<u8>)>, index: usize) -> (r: Option<usize>)
    ensures
        r matches Some(p) ==> p < entries@.len() && first_pos(entries_view(entries@), index) == Some(
            p as int,
        ),
        r is None ==> first_pos(entries_view(entries@), index) is None,
{
    let ghost v = entries_view(entries@);
    let mut k: usize = 0;
    while k < entries.len()
        invariant
            v == entries_view(entries@),
            k <= entries@.len(),
            forall|q: int| 0 <= q < k ==> #[trigger] v[q].0 != index,
        decreases entries@.len() - k,
    {
        if entries[k].0 == index {
            proof {
                lemma_first_pos_unique(v, index, k as int);
            }
            return Some(k);
        }
        k = k + 1;
    }
    proof {
        lemma_first_pos(v, index);
        if let Some(p) = first_pos(v, index) {
            assert(v[p].0 == index);
        }
    }
    None
}

impl GroupSecrets {
    /// No secrets yet.
    pub fn new() -> (r: Self)
        ensures
            r@.member_secrets == Seq::<(usize, Seq<u8>)>::empty(),
            r@.node_secrets == Seq::<(usize, Seq<u8>)>::empty(),
            r@.root_secret == Seq::<u8>::empty(),
    {
        let r = GroupSecrets {
            member_secrets: Vec::new(),
            node_secrets: Vec::new(),
            root_secret: Vec::new(),
        };
        proof {
            assert(r@.member_secrets =~= Seq::<(usize, Seq<u8>)>::empty());
            assert(r@.node_secrets =~= Seq::<(usize, Seq<u8>)>::empty());
        }
        r
    }

    /// Records the path secret received from member `index`.
    pub fn add_member_secret(&mut self, index: usize, secret: Vec<u8>)
        ensures
            final(self)@.member_secrets == old(self)@.member_secrets.push((index, secret@)),
            final(self)@.node_secrets == old(self)@.node_secrets,
            final(self)@.root_secret == old(self)@.root_secret,
    {
        let ghost s = secret@;
        self.member_secrets.push((index, secret));
        proof {
            assert(final(self)@.member_secrets =~= old(self)@.member_secrets.push((index, s)));
        }
    }

    /// Sets the secret of internal node `index`, replacing the one held.
    pub fn add_node_secret(&mut self, index: usize, secret: Vec<u8>)
        ensures
            final(self)@.node_secrets == upsert(old(self)@.node_secrets, index, secret@),
            final(self)@.member_secrets == old(self)@.member_secrets,
            final(self)@.root_secret == old(self)@.root_secret,
    {
        let ghost s = secret@;
        match find_entry(&self.node_secrets, index) {
            Some(p) => {
                self.node_secrets.set(p, (index, secret));
            },
            None => {
                self.node_secrets.push((index, secret));
            },
        }
        proof {
            assert(final(self)@.node_secrets =~= upsert(old(self)@.node_secrets, index, s));
        }
    }

    /// The secret held for internal node `index`.
    pub fn get_node_secret(&self, index: usize) -> (r: Option<&Vec<u8>>)
        ensures
            r matches Some(v) ==> lookup(self@.node_secrets, index) == Some(v@),
            r is None ==> lookup(self@.node_secrets, index) is None,
    {
        match find_entry(&self.node_secrets, index) {
            Some(p) => Some(&self.node_secrets[p].1),
            None => None,
        }
    }

    /// The path secret received from member `index`.
    pub fn get_member_secret(&self, index: usize) -> (r: Option<&Vec<u8>>)
        ensures
            r matches Some(v) ==> lookup(self@.member_secrets, index) == Some(v@),
            r is None ==> lookup(self@.member_secrets, index) is None,
    {
        match find_entry(&self.member_secrets, index) {
            Some(p) => Some(&self.member_secrets[p].1),
            None => None,
        }
    }

    /// Sets the root secret.
    pub fn set_root_secret(&mut self, secret: &Vec<u8>)
        ensures
            final(self)@.root_secret == secret@,
            final(self)@.member_secrets == old(self)@.member_secrets,
            final(self)@.node_secrets == old(self)@.node_secrets,
    {
        self.root_secret = secret.clone();
    }

    /// The root secret.
    pub fn get_root(&self) -> (r: Vec<u8>)
        ensures
            r@ == self@.root_secret,
    {
        self.root_secret.clone()
    }

    /// Moves every node secret to the node's position after the tree
    /// doubled.
    pub fn remap_node_secrets(&mut self)
        requires
            forall|k: int|
                0 <= k < old(self).node_secrets@.len() ==> new_index(
                    (#[trigger] old(self).node_secrets@[k]).0 as nat,
                ) <= usize::MAX,
        ensures
            final(self)@.node_secrets == remap_entries(old(self)@.node_secrets),
            final(self)@.member_secrets == old(self)@.member_secrets,
            final(self)@.root_secret == old(self)@.root_secret,
    {
        let mut remapped: Vec<(usize, Vec<u8>)> = Vec::new();
        let mut k: usize = 0;
        let ghost target = remap_entries(old(self)@.node_secrets);
        while k < self.node_secrets.len()
            invariant
                self.node_secrets == old(self).node_secrets,
                target == remap_entries(old(self)@.node_secrets),
                forall|t: int|
                    0 <= t < self.node_secrets@.len() ==> new_index(
                        (#[trigger] self.node_secrets@[t]).0 as nat,
                    ) <= usize::MAX,
                k <= self.node_secrets@.len(),
                entries_view(remapped@) == target.take(k as int),
            decreases self.node_secrets@.len() - k,
        {
            let (index, secret) = (self.node_secrets[k].0, self.node_secrets[k].1.clone());
            let moved = new_index_from_original(index);
            let ghost prev = remapped@;
            proof {
                assert(secret@ =~= self.node_secrets@[k as int].1@);
                assert(entries_view(old(self).node_secrets@)[k as int] == (
                    index,
                    self.node_secrets@[k as int].1@,
                ));
                assert(target[k as int] == (moved, secret@));
            }
            remapped.push((moved, secret));
            proof {
                assert(remapped@ == prev.push((moved, secret)));
                assert(entries_view(remapped@) =~= entries_view(prev).push((moved, secret@)));
                assert(entries_view(remapped@) =~= target.take(k as int + 1));
            }
            k = k + 1;
        }
        proof {
            assert(target.take(k as int) =~= target);
        }
        self.node_secrets = remapped;
    }
}

} // verus!
