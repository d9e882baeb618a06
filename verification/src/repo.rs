//! A snapshot of what the graph logic reads from the repository.
//!
//! The object store itself is an external collaborator; the embedding
//! program queries it and hands the core plain values: each commit's id and
//! parent ids, listed so that every parent precedes its children. Git's
//! commit graph is acyclic (commits are content-addressed), so such an
//! order always exists; keeping it as the snapshot's invariant is what
//! makes every walk terminate and every produced graph acyclic.

use vstd::prelude::*;

use crate::bytes::bytes_eq;
use crate::oid::NonZeroOid;
use crate::replayer::in_oid_views;

verus! {

/// One commit: its id and its parents' ids, in order.
pub struct CommitEntry {
    pub oid: NonZeroOid,
    pub parents: Vec<NonZeroOid>,
}

/// The snapshot: commits listed parents-first.
pub struct RepoSnapshot {
    pub commits: Vec<CommitEntry>,
}

impl RepoSnapshot {
    /// The id of the commit at position `i`.
    pub open spec fn oid_at(&self, i: int) -> Seq<u8> {
        self.commits@[i].oid@
    }

    /// Whether the commit at position `j` lists `o` among its parents.
    pub open spec fn parent_of(&self, j: int, o: Seq<u8>) -> bool {
        in_oid_views(self.commits@[j].parents@, o)
    }

    /// Whether some commit in the snapshot has id `o`.
    pub open spec fn has_oid(&self, o: Seq<u8>) -> bool {
        exists|i: int| 0 <= i < self.commits@.len() && self.oid_at(i) == o
    }

    /// The position of the commit with id `o` (unique when well-formed).
    pub open spec fn index_of(&self, o: Seq<u8>) -> int {
        choose|i: int| 0 <= i < self.commits@.len() && self.oid_at(i) == o
    }

    /// Well-formed: ids are well-formed and distinct, and every parent of
    /// the commit at position `i` is the id of a commit at some earlier
    /// position (parents precede children).
    pub open spec fn wf(&self) -> bool {
        &&& forall|i: int|
            0 <= i < self.commits@.len() ==> (#[trigger] self.commits@[i]).oid.wf()
        &&& forall|i: int, j: int|
            0 <= i < j < self.commits@.len() ==> self.oid_at(i) != self.oid_at(j)
        &&& forall|i: int, k: int|
            0 <= i < self.commits@.len() && 0 <= k < self.commits@[i].parents@.len()
                ==> (#[trigger] self.commits@[i].parents@[k]).wf() && exists|j: int|
                0 <= j < i && self.oid_at(j) == self.commits@[i].parents@[k]@
    }

    /// An empty snapshot.
    pub fn new() -> (r: RepoSnapshot)
        ensures
            r.wf(),
            r.commits@.len() == 0,
    {
        RepoSnapshot { commits: Vec::new() }
    }

    /// Adds a commit whose parents all already stand in the snapshot.
    /// Returns false (and adds nothing) if the id is already present or a
    /// parent is missing, so a well-formed snapshot can be grown from any
    /// input order of queries.
    pub fn push_commit(&mut self, oid: NonZeroOid, parents: Vec<NonZeroOid>) -> (r: bool)
        requires
            old(self).wf(),
            oid.wf(),
            forall|k: int| 0 <= k < parents@.len() ==> (#[trigger] parents@[k]).wf(),
        ensures
            final(self).wf(),
            r <==> (!old(self).has_oid(oid@) && forall|k: int|
                0 <= k < parents@.len() ==> old(self).has_oid(#[trigger] parents@[k]@)),
            r ==> final(self).commits@ == old(self).commits@.push(
                CommitEntry { oid, parents },
            ),
            !r ==> *final(self) == *old(self),
    {
        if self.find_index(&oid).is_some() {
            return false;
        }
        let mut k: usize = 0;
        while k < parents.len()
            invariant
                old(self).wf(),
                oid.wf(),
                self == old(self),
                !old(self).has_oid(oid@),
                k <= parents@.len(),
                forall|k2: int| 0 <= k2 < k ==> self.has_oid(#[trigger] parents@[k2]@),
            decreases parents@.len() - k,
        {
            if self.find_index(&parents[k]).is_none() {
                return false;
            }
            k += 1;
        }
        let ghost sa = *self;
        self.commits.push(CommitEntry { oid, parents });
        proof {
            let ghost sb = *self;
            let ghost len = sa.commits@.len() as int;
            assert(sa.wf());
            assert(forall|j: int| 0 <= j < len ==> sb.commits@[j] == sa.commits@[j]);
            assert forall|i: int, j: int| 0 <= i < j < sb.commits@.len() implies sb.oid_at(i)
                != sb.oid_at(j) by {
                if j == len {
                    assert(sb.oid_at(j) == oid@);
                    assert(sb.commits@[i] == sa.commits@[i]);
                    if sb.oid_at(i) == sb.oid_at(j) {
                        assert(sa.oid_at(i) == oid@);
                        assert(sa.has_oid(oid@));
                        assert(false);
                    }
                } else {
                    assert(sb.commits@[i] == sa.commits@[i]);
                    assert(sb.commits@[j] == sa.commits@[j]);
                    assert(sa.oid_at(i) != sa.oid_at(j));
                }
            }
            assert forall|i: int, k2: int|
                0 <= i < sb.commits@.len() && 0 <= k2 < sb.commits@[i].parents@.len() implies (
            #[trigger] sb.commits@[i].parents@[k2]).wf() && exists|j: int|
                0 <= j < i && sb.oid_at(j) == sb.commits@[i].parents@[k2]@ by {
                if i < len {
                    assert(sa.commits@[i].parents@[k2].wf());
                    let j = choose|j: int|
                        0 <= j < i && sa.oid_at(j) == sa.commits@[i].parents@[k2]@;
                    assert(sb.oid_at(j) == sb.commits@[i].parents@[k2]@);
                } else {
                    assert(sa.has_oid(parents@[k2]@));
                    let j = choose|j: int|
                        0 <= j < len && sa.oid_at(j) == parents@[k2]@;
                    assert(sb.oid_at(j) == sb.commits@[i].parents@[k2]@);
                }
            }
        }
        true
    }

    /// The position of the commit with the given id, if present.
    pub fn find_index(&self, oid: &NonZeroOid) -> (r: Option<usize>)
        ensures
            r is Some <==> self.has_oid(oid@),
            r is Some ==> 0 <= r->0 < self.commits@.len() && self.oid_at(r->0 as int) == oid@,
    {
        let mut i: usize = 0;
        while i < self.commits.len()
            invariant
                i <= self.commits@.len(),
                forall|j: int| 0 <= j < i ==> self.oid_at(j) != oid@,
            decreases self.commits@.len() - i,
        {
            if bytes_eq(&self.commits[i].oid.bytes, &oid.bytes) {
                proof {
                    assert(self.oid_at(i as int) == oid@);
                    assert(self.has_oid(oid@));
                }
                return Some(i);
            }
            i += 1;
        }
        None
    }
}

/// The repository's activity state, as reported by the object store.
pub enum RepoState {
    Clean,
    Merge,
    Revert,
    RevertSequence,
    CherryPick,
    CherryPickSequence,
    Bisect,
    Rebase,
    RebaseInteractive,
    RebaseMerge,
    ApplyMailbox,
    ApplyMailboxOrRebase,
}

/// Whether a rebase of any flavor is currently underway.
pub fn is_rebase_underway(state: &RepoState) -> (r: bool)
    ensures
        r == (state is Rebase || state is RebaseInteractive || state is RebaseMerge),
{
    match state {
        RepoState::Rebase => true,
        RepoState::RebaseInteractive => true,
        RepoState::RebaseMerge => true,
        _ => false,
    }
}

} // verus!
