//! Where the paths of two leaves part.
use vstd::prelude::*;

verus! {

/// Walking both paths from the root end, the node of `self_path` at the
/// first step where the two paths differ; `None` when the shorter path runs
/// out first.
pub open spec fn divergence_from_root(self_path: Seq<usize>, other: Seq<usize>) -> Option<usize>
    decreases self_path.len(),
{
    if self_path.len() == 0 || other.len() == 0 {
        None
    } else if self_path.last() != other.last() {
        Some(self_path.last())
    } else {
        divergence_from_root(self_path.drop_last(), other.drop_last())
    }
}

proof fn lemma_divergence_step(a: Seq<usize>, b: Seq<usize>, i: int)
    requires
        0 <= i < a.len(),
        i < b.len(),
        a[a.len() - 1 - i] == b[b.len() - 1 - i],
    ensures
        divergence_from_root(a.subrange(0, a.len() - i), b.subrange(0, b.len() - i))
            == divergence_from_root(a.subrange(0, a.len() - i - 1), b.subrange(0, b.len() - i - 1)),
{
    let x = a.subrange(0, a.len() - i);
    let y = b.subrange(0, b.len() - i);
    assert(x.drop_last() =~= a.subrange(0, a.len() - i - 1));
    assert(y.drop_last() =~= b.subrange(0, b.len() - i - 1));
}

/// The node of `self_path` where it leaves `new_path`, comparing from the
/// root end; `None` when one path is a suffix of the other.
pub fn first_divergence_inverted(self_path: &[usize], new_path: &[usize]) -> (r: Option<usize>)
    ensures
        r == divergence_from_root(self_path@, new_path@),
{
    let len = if self_path.len() < new_path.len() {
        self_path.len()
    } else {
        new_path.len()
    };
    let ghost a = self_path@;
    let ghost b = new_path@;
    let mut i: usize = 0;
    proof {
        assert(a.subrange(0, a.len() as int) =~= a);
        assert(b.subrange(0, b.len() as int) =~= b);
    }
    while i < len
        invariant
            a == self_path@,
            b == new_path@,
            len <= a.len(),
            len <= b.len(),
            len == a.len() || len == b.len(),
            i <= len,
            divergence_from_root(a, b) == divergence_from_root(
                a.subrange(0, a.len() - i),
                b.subrange(0, b.len() - i),
            ),
        decreases len - i,
    {
        let si = self_path.len() - 1 - i;
        let ni = new_path.len() - 1 - i;
        if self_path[si] != new_path[ni] {
            proof {
                let x = a.subrange(0, a.len() - i);
                let y = b.subrange(0, b.len() - i);
                assert(x.last() == a[si as int]);
                assert(y.last() == b[ni as int]);
            }
            return Some(self_path[si]);
        }
        proof {
            lemma_divergence_step(a, b, i as int);
        }
        i = i + 1;
    }
    proof {
        if len == a.len() {
            assert(a.subrange(0, a.len() - i).len() == 0);
        } else {
            assert(b.subrange(0, b.len() - i).len() == 0);
        }
    }
    None
}

/// The node whose key pair a member uses to read an update: the node of its
/// own path where it leaves the updater's path, or the first node of its
/// own path when the paths do not part.
pub fn get_used_keypair(updater_path: &[usize], self_path: &[usize]) -> (r: usize)
    requires
        self_path@.len() > 0,
    ensures
        r == match divergence_from_root(self_path@, updater_path@) {
            Some(n) => n,
            None => self_path@[0],
        },
{
    match first_divergence_inverted(self_path, updater_path) {
        Some(n) => n,
        None => self_path[0],
    }
}

} // verus!
