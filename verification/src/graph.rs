//! The graph builder: the visible commit DAG.
//!
//! The builder combines a replayer projection (which commits are hidden), a
//! repository snapshot (ids and parent links), and the branch-name mapping.
//! It seeds a walk with HEAD, the main branch, every given branch id and
//! every visible commit, closes over parent links, and annotates each node
//! with visibility, branch names, and reachability from the tips
//! references. A seed the snapshot cannot resolve (a dangling reference) is
//! skipped, never fatal.

use vstd::prelude::*;

use crate::mergebase::{merge_base_view, norm_pair, MergeBaseCache};
use crate::oid::NonZeroOid;
use crate::replayer::{
    in_oid_views, visible_commit_set, EventCursor, EventReplayer, oid_in_list, projection_of,
};
use crate::repo::RepoSnapshot;

verus! {

/// Whether the commit at position `i` of the snapshot is a seed or an
/// ancestor of one: its id is in `seeds`, or some later commit (a child,
/// since parents precede children) reaches a seed and lists it as a parent.
pub open spec fn reaches_seed(repo: RepoSnapshot, seeds: Set<Seq<u8>>, i: int) -> bool
    decreases repo.commits@.len() - i, 1int, 0int,
{
    seeds.contains(repo.oid_at(i)) || reaches_via_child(repo, seeds, i, i + 1)
}

/// Whether some commit at a position in `[j, end)` both reaches a seed and
/// lists the commit at position `i` as a parent.
pub open spec fn reaches_via_child(repo: RepoSnapshot, seeds: Set<Seq<u8>>, i: int, j: int) -> bool
    decreases repo.commits@.len() - i, 0int, repo.commits@.len() - j,
{
    if j <= i || j >= repo.commits@.len() {
        false
    } else {
        (reaches_seed(repo, seeds, j) && repo.parent_of(j, repo.oid_at(i))) || reaches_via_child(
            repo,
            seeds,
            i,
            j + 1,
        )
    }
}

/// A commit one of whose children reaches a seed reaches that seed too.
pub proof fn lemma_reach_step(repo: RepoSnapshot, seeds: Set<Seq<u8>>, i: int, m: int)
    requires
        i < m < repo.commits@.len(),
        reaches_seed(repo, seeds, m),
        repo.parent_of(m, repo.oid_at(i)),
    ensures
        reaches_seed(repo, seeds, i),
{
    lemma_via_intro(repo, seeds, i, i + 1, m);
}

proof fn lemma_via_intro(repo: RepoSnapshot, seeds: Set<Seq<u8>>, i: int, j: int, m: int)
    requires
        i < j <= m < repo.commits@.len(),
        reaches_seed(repo, seeds, m),
        repo.parent_of(m, repo.oid_at(i)),
    ensures
        reaches_via_child(repo, seeds, i, j),
    decreases m - j,
{
    if j < m {
        lemma_via_intro(repo, seeds, i, j + 1, m);
    }
}

/// Whether the commit with id `o` stands in the snapshot and reaches a seed.
pub open spec fn reached_from(repo: RepoSnapshot, seeds: Set<Seq<u8>>, o: Seq<u8>) -> bool {
    exists|i: int|
        0 <= i < repo.commits@.len() && repo.oid_at(i) == o && #[trigger] reaches_seed(
            repo,
            seeds,
            i,
        )
}

/// The set of ids in a list.
pub open spec fn seed_set(s: Seq<NonZeroOid>) -> Set<Seq<u8>> {
    Set::new(|o: Seq<u8>| in_oid_views(s, o))
}

/// For a commit of the snapshot, being reached from somewhere is the same
/// whether asked by position or by id.
pub proof fn lemma_reached_from_at(repo: RepoSnapshot, seeds: Set<Seq<u8>>, i: int)
    requires
        repo.wf(),
        0 <= i < repo.commits@.len(),
    ensures
        reached_from(repo, seeds, repo.oid_at(i)) == reaches_seed(repo, seeds, i),
{
    if reached_from(repo, seeds, repo.oid_at(i)) {
        let m = choose|m: int|
            0 <= m < repo.commits@.len() && repo.oid_at(m) == repo.oid_at(i)
                && #[trigger] reaches_seed(repo, seeds, m);
        assert(m == i);
    }
    if reaches_seed(repo, seeds, i) {
        assert(reached_from(repo, seeds, repo.oid_at(i)));
    }
}

/// The mapping from branch-tip commit id to the names of the branches that
/// point at it, as the repository supplies it.
pub struct BranchNameEntry {
    pub oid: NonZeroOid,
    pub names: Vec<Vec<u8>>,
}

pub struct BranchOidToNames {
    pub entries: Vec<BranchNameEntry>,
}

impl BranchOidToNames {
    pub open spec fn has_oid(&self, o: Seq<u8>) -> bool {
        exists|i: int| 0 <= i < self.entries@.len() && self.entries@[i].oid@ == o
    }

    pub open spec fn index_of(&self, o: Seq<u8>) -> int {
        choose|i: int| 0 <= i < self.entries@.len() && self.entries@[i].oid@ == o
    }

    /// The branch names attached to commit `o` (empty if none).
    pub open spec fn names_set(&self, o: Seq<u8>) -> Set<Seq<u8>> {
        if self.has_oid(o) {
            Set::new(
                |nm: Seq<u8>|
                    crate::bytes::in_byte_views(self.entries@[self.index_of(o)].names@, nm),
            )
        } else {
            Set::empty()
        }
    }

    pub open spec fn wf(&self) -> bool {
        &&& forall|i: int| 0 <= i < self.entries@.len() ==> (#[trigger] self.entries@[i]).oid.wf()
        &&& forall|i: int, j: int|
            0 <= i < j < self.entries@.len() ==> self.entries@[i].oid@ != self.entries@[j].oid@
    }

    /// The branch names attached to commit `o` (empty if none).
    pub fn names_for(&self, oid: &NonZeroOid) -> (r: Vec<Vec<u8>>)
        requires
            self.wf(),
        ensures
            forall|nm: Seq<u8>| #[trigger] crate::bytes::in_byte_views(r@, nm)
                == self.names_set(oid@).contains(nm),
    {
        let mut i: usize = 0;
        while i < self.entries.len()
            invariant
                self.wf(),
                i <= self.entries@.len(),
                forall|j: int| 0 <= j < i ==> self.entries@[j].oid@ != oid@,
            decreases self.entries@.len() - i,
        {
            if crate::bytes::bytes_eq(&self.entries[i].oid.bytes, &oid.bytes) {
                proof {
                    assert(self.has_oid(oid@));
                    assert(self.index_of(oid@) == i as int);
                }
                let r = crate::bytes::clone_byte_list(&self.entries[i].names);
                proof {
                    assert forall|nm: Seq<u8>| #[trigger] crate::bytes::in_byte_views(r@, nm)
                        == self.names_set(oid@).contains(nm) by {
                        if crate::bytes::in_byte_views(r@, nm) {
                            let k = choose|k: int| 0 <= k < r@.len() && r@[k]@ == nm;
                            assert(self.entries@[i as int].names@[k]@ == nm);
                        }
                        if self.names_set(oid@).contains(nm) {
                            let k = choose|k: int|
                                0 <= k < self.entries@[i as int].names@.len()
                                    && self.entries@[i as int].names@[k]@ == nm;
                            assert(r@[k]@ == nm);
                        }
                    }
                }
                return r;
            }
            i += 1;
        }
        proof {
            assert(!self.has_oid(oid@));
        }
        Vec::new()
    }
}

/// One node of the produced graph.
pub struct Node {
    pub oid: NonZeroOid,
    pub parents: Vec<NonZeroOid>,
    pub is_hidden: bool,
    pub is_reachable_from_tracked: bool,
    pub branch_names: Vec<Vec<u8>>,
}

/// The visible commit DAG. Nodes are kept in the snapshot's order, so every
/// parent edge points to an earlier node: the graph cannot contain a cycle.
pub struct Graph {
    pub nodes: Vec<Node>,
}

/// Whether the parent at slot `p` of the node at position `k` is itself a
/// node at some earlier position.
pub open spec fn parent_backedge_ok(g: Graph, k: int, p: int) -> bool {
    exists|l: int| 0 <= l < k && g.nodes@[l].oid@ == g.nodes@[k].parents@[p]@
}

impl Graph {
    pub open spec fn has_node(&self, o: Seq<u8>) -> bool {
        exists|k: int| 0 <= k < self.nodes@.len() && self.nodes@[k].oid@ == o
    }

    pub open spec fn node_index(&self, o: Seq<u8>) -> int {
        choose|k: int| 0 <= k < self.nodes@.len() && self.nodes@[k].oid@ == o
    }

    /// Well-formed: node ids are well-formed and distinct, and every parent
    /// edge points to a node that stands earlier in the node list.
    pub open spec fn wf(&self) -> bool {
        &&& forall|k: int| 0 <= k < self.nodes@.len() ==> (#[trigger] self.nodes@[k]).oid.wf()
        &&& forall|k: int, l: int|
            0 <= k < l < self.nodes@.len() ==> self.nodes@[k].oid@ != self.nodes@[l].oid@
        &&& forall|k: int, p: int|
            0 <= k < self.nodes@.len() && 0 <= p < self.nodes@[k].parents@.len()
                ==> #[trigger] parent_backedge_ok(*self, k, p)
    }
}

/// The ids that seed reachability from the tips references: HEAD, the
/// main branch, and every given branch tip.
pub open spec fn tracked_seeds(
    head: Option<NonZeroOid>,
    main: NonZeroOid,
    branches: Seq<NonZeroOid>,
) -> Set<Seq<u8>> {
    Set::new(
        |o: Seq<u8>|
            (head matches Some(h) && h@ == o) || main@ == o || in_oid_views(branches, o),
    )
}

/// The ids of HEAD and the main branch alone.
pub open spec fn head_main_seeds(head: Option<NonZeroOid>, main: NonZeroOid) -> Set<Seq<u8>> {
    Set::new(|o: Seq<u8>| (head matches Some(h) && h@ == o) || main@ == o)
}

/// The commits whose hidden flag is overridden to visible: those reachable
/// from HEAD or main, plus — unless `hide_branches` suppresses the
/// branch-derived overrides — those reachable from a branch tip.
pub open spec fn protected_seeds(
    hide_branches: bool,
    head: Option<NonZeroOid>,
    main: NonZeroOid,
    branches: Seq<NonZeroOid>,
) -> Set<Seq<u8>> {
    if hide_branches {
        head_main_seeds(head, main)
    } else {
        tracked_seeds(head, main, branches)
    }
}

/// Marks, for every position of the snapshot, whether that commit reaches
/// one of the seed ids.
fn ancestor_marks(repo: &RepoSnapshot, seeds: &Vec<NonZeroOid>) -> (marks: Vec<bool>)
    requires
        repo.wf(),
    ensures
        marks@.len() == repo.commits@.len(),
        forall|i: int|
            0 <= i < marks@.len() ==> marks@[i] == reaches_seed(*repo, seed_set(seeds@), i),
{
    let n = repo.commits.len();
    let mut marks: Vec<bool> = Vec::new();
    let mut f: usize = 0;
    while f < n
        invariant
            f <= n,
            marks@.len() == f,
        decreases n - f,
    {
        marks.push(false);
        f += 1;
    }
    let mut i: usize = n;
    while i > 0
        invariant
            repo.wf(),
            n == repo.commits@.len(),
            marks@.len() == n,
            i <= n,
            forall|k: int|
                i <= k < n ==> marks@[k] == reaches_seed(*repo, seed_set(seeds@), k),
        decreases i,
    {
        i -= 1;
        let seedc = oid_in_list(seeds, &repo.commits[i].oid);
        let mut b = false;
        let mut j: usize = i + 1;
        while j < n
            invariant
                repo.wf(),
                n == repo.commits@.len(),
                marks@.len() == n,
                i < n,
                i + 1 <= j <= n,
                forall|k: int|
                    i < k < n ==> marks@[k] == reaches_seed(*repo, seed_set(seeds@), k),
                reaches_via_child(*repo, seed_set(seeds@), i as int, i + 1) == (b
                    || reaches_via_child(*repo, seed_set(seeds@), i as int, j as int)),
            decreases n - j,
        {
            proof {
                assert(reaches_via_child(*repo, seed_set(seeds@), i as int, j as int) == ((
                reaches_seed(*repo, seed_set(seeds@), j as int) && repo.parent_of(
                    j as int,
                    repo.oid_at(i as int),
                )) || reaches_via_child(*repo, seed_set(seeds@), i as int, j + 1)));
            }
            if marks[j] && oid_in_list(&repo.commits[j].parents, &repo.commits[i].oid) {
                b = true;
            }
            j += 1;
        }
        proof {
            assert(reaches_via_child(*repo, seed_set(seeds@), i as int, n as int) == false);
            assert(reaches_seed(*repo, seed_set(seeds@), i as int) == (seed_set(seeds@).contains(
                repo.oid_at(i as int),
            ) || reaches_via_child(*repo, seed_set(seeds@), i as int, i + 1)));
        }
        marks[i] = seedc || b;
    }
    marks
}

/// Copy of a list of ids, views preserved.
fn duplicate_oids(v: &Vec<NonZeroOid>) -> (r: Vec<NonZeroOid>)
    ensures
        r@.len() == v@.len(),
        forall|i: int| 0 <= i < v@.len() ==> r@[i]@ == v@[i]@ && r@[i].wf() == v@[i].wf(),
{
    let mut r: Vec<NonZeroOid> = Vec::new();
    let mut i: usize = 0;
    while i < v.len()
        invariant
            i <= v@.len(),
            r@.len() == i,
            forall|j: int| 0 <= j < i ==> r@[j]@ == v@[j]@ && r@[j].wf() == v@[j].wf(),
        decreases v.len() - i,
    {
        r.push(v[i].duplicate());
        i += 1;
    }
    r
}

/// The ids of a one-element list form the singleton set.
proof fn lemma_seed_set_one(s: Seq<NonZeroOid>, x: Seq<u8>)
    requires
        s.len() == 1,
        s[0]@ == x,
    ensures
        seed_set(s) =~= Set::<Seq<u8>>::empty().insert(x),
{
    assert forall|o: Seq<u8>| #[trigger] in_oid_views(s, o) == (o == x) by {
        if in_oid_views(s, o) {
            let k = choose|k: int| 0 <= k < s.len() && s[k]@ == o;
            assert(k == 0);
        }
        if o == x {
            assert(s[0]@ == o);
        }
    }
}

/// The ids of the (optional HEAD, main) list form the head/main seed set.
proof fn lemma_seed_set_head_main(s: Seq<NonZeroOid>, head: Option<NonZeroOid>, main: NonZeroOid)
    requires
        head is Some ==> s.len() == 2 && s[0]@ == head->0@ && s[1]@ == main@,
        head is None ==> s.len() == 1 && s[0]@ == main@,
    ensures
        seed_set(s) =~= head_main_seeds(head, main),
{
    assert forall|o: Seq<u8>| #[trigger] in_oid_views(s, o) == head_main_seeds(
        head,
        main,
    ).contains(o) by {
        if in_oid_views(s, o) {
            let k = choose|k: int| 0 <= k < s.len() && s[k]@ == o;
        }
        if head_main_seeds(head, main).contains(o) {
            if head matches Some(h) && h@ == o {
                assert(s[0]@ == o);
            } else {
                assert(s[s.len() - 1]@ == o);
            }
        }
    }
}

/// Whether position `i` is a common ancestor of `a` and `b` in the snapshot.
pub open spec fn common_ancestor_at(repo: RepoSnapshot, a: Seq<u8>, b: Seq<u8>, i: int) -> bool {
    &&& 0 <= i < repo.commits@.len()
    &&& reaches_seed(repo, Set::empty().insert(a), i)
    &&& reaches_seed(repo, Set::empty().insert(b), i)
}

/// Whether `v` is the merge-base answer for `a` and `b`: `None` exactly when
/// they have no common ancestor in the snapshot; otherwise the common
/// ancestor nearest to the two (the latest in the snapshot's parents-first
/// order).
pub open spec fn is_merge_base_result(
    repo: RepoSnapshot,
    a: Seq<u8>,
    b: Seq<u8>,
    v: Option<Seq<u8>>,
) -> bool {
    match v {
        Option::None => forall|i: int| !common_ancestor_at(repo, a, b, i),
        Option::Some(o) => exists|i: int|
            #[trigger] common_ancestor_at(repo, a, b, i) && repo.oid_at(i) == o && (forall|j: int|
                i < j ==> !common_ancestor_at(repo, a, b, j)),
    }
}

/// The merge-base of two commits in the snapshot: their common ancestor
/// nearest to the two, or `None` if they have none (or either id dangles).
pub fn compute_merge_base(repo: &RepoSnapshot, a: &NonZeroOid, b: &NonZeroOid) -> (r: Option<
    NonZeroOid,
>)
    requires
        repo.wf(),
    ensures
        r matches Option::Some(o) ==> o.wf(),
        is_merge_base_result(*repo, a@, b@, merge_base_view(r)),
{
    let mut seeds_a: Vec<NonZeroOid> = Vec::new();
    seeds_a.push(a.duplicate());
    let mut seeds_b: Vec<NonZeroOid> = Vec::new();
    seeds_b.push(b.duplicate());
    proof {
        lemma_seed_set_one(seeds_a@, a@);
        lemma_seed_set_one(seeds_b@, b@);
    }
    let marks_a = ancestor_marks(repo, &seeds_a);
    let marks_b = ancestor_marks(repo, &seeds_b);
    let mut i: usize = repo.commits.len();
    while i > 0
        invariant
            repo.wf(),
            marks_a@.len() == repo.commits@.len(),
            marks_b@.len() == repo.commits@.len(),
            i <= repo.commits@.len(),
            forall|k: int|
                i <= k < repo.commits@.len() ==> !marks_a@[k] || !marks_b@[k],
            forall|k: int|
                0 <= k < marks_a@.len() ==> marks_a@[k] == reaches_seed(
                    *repo,
                    Set::empty().insert(a@),
                    k,
                ),
            forall|k: int|
                0 <= k < marks_b@.len() ==> marks_b@[k] == reaches_seed(
                    *repo,
                    Set::empty().insert(b@),
                    k,
                ),
        decreases i,
    {
        i -= 1;
        if marks_a[i] && marks_b[i] {
            let r = repo.commits[i].oid.duplicate();
            proof {
                assert(common_ancestor_at(*repo, a@, b@, i as int));
                assert forall|j: int| i < j implies !common_ancestor_at(*repo, a@, b@, j) by {
                    if j < repo.commits@.len() {
                        assert(!marks_a@[j] || !marks_b@[j]);
                    }
                }
                assert(repo.commits@[i as int].oid.wf());
            }
            return Some(r);
        }
    }
    proof {
        assert forall|k: int| !common_ancestor_at(*repo, a@, b@, k) by {
            if 0 <= k < repo.commits@.len() {
                assert(!marks_a@[k] || !marks_b@[k]);
            }
        }
    }
    None
}

/// Builds the commit graph at a cursor.
///
/// The node set is exactly the snapshot commits reachable (through parent
/// links) from a seed: HEAD, the main branch, the given branch tips, and
/// every visible commit per the projection at the cursor. A node is marked
/// hidden when the projection hides it and no protected reference reaches
/// it; it carries its branch names and whether a tips reference reaches
/// it. Seeds the snapshot cannot resolve are skipped. The merge-base of
/// HEAD and main (an ancestry shortcut for display grouping) is looked up
/// in the cache and computed and stored on a miss.
#[verifier::rlimit(80)]
pub fn make_graph(
    repo: &RepoSnapshot,
    merge_base_cache: &mut MergeBaseCache,
    replayer: &EventReplayer,
    cursor: EventCursor,
    head_oid: &Option<NonZeroOid>,
    main_branch_oid: &NonZeroOid,
    branch_oids: &Vec<NonZeroOid>,
    branch_oid_to_names: &BranchOidToNames,
    hide_branches: bool,
) -> (g: Graph)
    requires
        repo.wf(),
        replayer.wf(),
        old(merge_base_cache).wf(),
        branch_oid_to_names.wf(),
        head_oid matches Some(h) ==> h.wf(),
        main_branch_oid.wf(),
        forall|k: int| 0 <= k < branch_oids@.len() ==> (#[trigger] branch_oids@[k]).wf(),
    ensures
        g.wf(),
        forall|o: Seq<u8>| #[trigger] g.has_node(o) == reached_from(
            *repo,
            tracked_seeds(*head_oid, *main_branch_oid, branch_oids@).union(
                visible_commit_set(
                    replayer.events@,
                    replayer.ref_exclusion@,
                    cursor.event_id as int,
                ),
            ),
            o,
        ),
        forall|k: int|
            0 <= k < g.nodes@.len() ==> {
                let node = #[trigger] g.nodes@[k];
                &&& node.is_hidden == (projection_of(
                    replayer.events@,
                    replayer.ref_exclusion@,
                    cursor.event_id as int,
                ).hidden.contains(node.oid@) && !reached_from(
                    *repo,
                    protected_seeds(hide_branches, *head_oid, *main_branch_oid, branch_oids@),
                    node.oid@,
                ))
                &&& node.is_reachable_from_tracked == reached_from(
                    *repo,
                    tracked_seeds(*head_oid, *main_branch_oid, branch_oids@),
                    node.oid@,
                )
                &&& forall|nm: Seq<u8>| #[trigger] crate::bytes::in_byte_views(
                    node.branch_names@,
                    nm,
                ) == branch_oid_to_names.names_set(node.oid@).contains(nm)
            },
        final(merge_base_cache).wf(),
        head_oid is None ==> final(merge_base_cache).table() == old(merge_base_cache).table(),
        head_oid matches Some(h) ==> (old(merge_base_cache).table().contains_key(
            norm_pair(h@, main_branch_oid@),
        ) ==> final(merge_base_cache).table() == old(merge_base_cache).table()),
        head_oid matches Some(h) ==> (!old(merge_base_cache).table().contains_key(
            norm_pair(h@, main_branch_oid@),
        ) ==> exists|v: Option<Seq<u8>>|
            is_merge_base_result(*repo, h@, main_branch_oid@, v)
                && final(merge_base_cache).table() == old(merge_base_cache).table().insert(
                norm_pair(h@, main_branch_oid@),
                v,
            )),
{
    let p = replayer.projection_at(cursor);
    let visible = replayer.get_visible_commits(cursor);

    let mut tips: Vec<NonZeroOid> = Vec::new();
    match head_oid {
        Option::Some(h) => {
            tips.push(h.duplicate());
        },
        Option::None => {},
    }
    tips.push(main_branch_oid.duplicate());
    proof {
        assert forall|o: Seq<u8>| #[trigger] in_oid_views(tips@, o) == ((head_oid matches Some(h)
            && h@ == o) || main_branch_oid@ == o || in_oid_views_upto_graph(branch_oids@, 0, o))
            by {
            if in_oid_views(tips@, o) {
                let k = choose|k: int| 0 <= k < tips@.len() && tips@[k]@ == o;
            }
            if head_oid matches Some(h) && h@ == o {
                assert(tips@[0]@ == o);
            }
            if main_branch_oid@ == o {
                assert(tips@[tips@.len() - 1]@ == o);
            }
        }
    }
    let mut bi: usize = 0;
    while bi < branch_oids.len()
        invariant
            bi <= branch_oids@.len(),
            forall|k: int| 0 <= k < branch_oids@.len() ==> (#[trigger] branch_oids@[k]).wf(),
            tips@.len() == bi + (if *head_oid is Some {
                2int
            } else {
                1int
            }),
            forall|o: Seq<u8>| #[trigger] in_oid_views(tips@, o) == ((head_oid matches Some(h)
                && h@ == o) || main_branch_oid@ == o || in_oid_views_upto_graph(
                branch_oids@,
                bi as int,
                o,
            )),
        decreases branch_oids@.len() - bi,
    {
        let ghost oldtracked = tips@;
        tips.push(branch_oids[bi].duplicate());
        proof {
            assert forall|o: Seq<u8>| #[trigger] in_oid_views(tips@, o) implies ((head_oid
                matches Some(h) && h@ == o) || main_branch_oid@ == o || in_oid_views_upto_graph(
                branch_oids@,
                bi + 1,
                o,
            )) by {
                let k = choose|k: int| 0 <= k < tips@.len() && tips@[k]@ == o;
                if k < oldtracked.len() {
                    assert(in_oid_views(oldtracked, o));
                } else {
                    assert(branch_oids@[bi as int]@ == o);
                }
            }
            assert forall|o: Seq<u8>|
                ((head_oid matches Some(h) && h@ == o) || main_branch_oid@ == o
                    || in_oid_views_upto_graph(branch_oids@, bi + 1, o)) implies #[trigger] in_oid_views(
                tips@,
                o,
            ) by {
                if in_oid_views_upto_graph(branch_oids@, bi + 1, o) {
                    let k = choose|k: int|
                        0 <= k < bi + 1 && k < branch_oids@.len() && branch_oids@[k]@ == o;
                    if k < bi as int {
                        assert(in_oid_views_upto_graph(branch_oids@, bi as int, o));
                        assert(in_oid_views(oldtracked, o));
                        let k2 = choose|k2: int|
                            0 <= k2 < oldtracked.len() && oldtracked[k2]@ == o;
                        assert(tips@[k2]@ == o);
                    } else {
                        assert(tips@[tips@.len() - 1]@ == o);
                    }
                } else {
                    if in_oid_views(oldtracked, o) {
                        let k2 = choose|k2: int|
                            0 <= k2 < oldtracked.len() && oldtracked[k2]@ == o;
                        assert(tips@[k2]@ == o);
                    }
                }
            }
        }
        bi += 1;
    }
    proof {
        assert(seed_set(tips@) =~= tracked_seeds(*head_oid, *main_branch_oid, branch_oids@));
    }

    let mut all_seeds: Vec<NonZeroOid> = duplicate_oids(&tips);
    let ghost presplit = all_seeds@;
    let mut vi: usize = 0;
    while vi < visible.len()
        invariant
            vi <= visible@.len(),
            presplit.len() == tips@.len(),
            forall|k: int|
                0 <= k < tips@.len() ==> presplit[k]@ == tips@[k]@,
            all_seeds@.len() == tips@.len() + vi,
            forall|k: int| 0 <= k < tips@.len() ==> all_seeds@[k]@ == tips@[k]@,
            forall|k: int|
                tips@.len() <= k < all_seeds@.len() ==> all_seeds@[k]@ == visible@[k
                    - tips@.len()]@,
        decreases visible@.len() - vi,
    {
        all_seeds.push(visible[vi].duplicate());
        vi += 1;
    }
    proof {
        assert forall|o: Seq<u8>| #[trigger] in_oid_views(all_seeds@, o) == (in_oid_views(
            tips@,
            o,
        ) || in_oid_views(visible@, o)) by {
            if in_oid_views(all_seeds@, o) {
                let k = choose|k: int| 0 <= k < all_seeds@.len() && all_seeds@[k]@ == o;
                if k < tips@.len() {
                    assert(tips@[k]@ == o);
                } else {
                    assert(visible@[k - tips@.len()]@ == o);
                }
            }
            if in_oid_views(tips@, o) {
                let k = choose|k: int| 0 <= k < tips@.len() && tips@[k]@ == o;
                assert(all_seeds@[k]@ == o);
            }
            if in_oid_views(visible@, o) {
                let k = choose|k: int| 0 <= k < visible@.len() && visible@[k]@ == o;
                assert(all_seeds@[k + tips@.len()]@ == o);
            }
        }
        assert(seed_set(all_seeds@) =~= tracked_seeds(
            *head_oid,
            *main_branch_oid,
            branch_oids@,
        ).union(
            visible_commit_set(
                replayer.events@,
                replayer.ref_exclusion@,
                cursor.event_id as int,
            ),
        ));
    }

    let mut head_main: Vec<NonZeroOid> = Vec::new();
    match head_oid {
        Option::Some(h) => {
            head_main.push(h.duplicate());
        },
        Option::None => {},
    }
    head_main.push(main_branch_oid.duplicate());
    proof {
        lemma_seed_set_head_main(head_main@, *head_oid, *main_branch_oid);
    }

    let marks_all = ancestor_marks(repo, &all_seeds);
    let marks_tracked = ancestor_marks(repo, &tips);
    let marks_protected = if hide_branches {
        ancestor_marks(repo, &head_main)
    } else {
        ancestor_marks(repo, &tips)
    };
    let ghost seeds_all_set = seed_set(all_seeds@);
    let ghost seeds_tracked_set = seed_set(tips@);
    let ghost seeds_protected_set = protected_seeds(
        hide_branches,
        *head_oid,
        *main_branch_oid,
        branch_oids@,
    );
    let ghost hidden_set = projection_of(
        replayer.events@,
        replayer.ref_exclusion@,
        cursor.event_id as int,
    ).hidden;

    let mut nodes: Vec<Node> = Vec::new();
    let ghost mut sel: Seq<int> = Seq::empty();
    let mut i: usize = 0;
    while i < repo.commits.len()
        invariant
            repo.wf(),
            p.wf(),
            p.hidden_set() == hidden_set,
            marks_all@.len() == repo.commits@.len(),
            marks_tracked@.len() == repo.commits@.len(),
            marks_protected@.len() == repo.commits@.len(),
            forall|k: int|
                0 <= k < repo.commits@.len() ==> marks_all@[k] == reaches_seed(
                    *repo,
                    seeds_all_set,
                    k,
                ),
            forall|k: int|
                0 <= k < repo.commits@.len() ==> marks_tracked@[k] == reaches_seed(
                    *repo,
                    seeds_tracked_set,
                    k,
                ),
            forall|k: int|
                0 <= k < repo.commits@.len() ==> marks_protected@[k] == reaches_seed(
                    *repo,
                    seeds_protected_set,
                    k,
                ),
            i <= repo.commits@.len(),
            sel.len() == nodes@.len(),
            forall|k: int| 0 <= k < sel.len() ==> 0 <= #[trigger] sel[k] < i,
            forall|k: int, l: int| 0 <= k < l < sel.len() ==> sel[k] < sel[l],
            forall|k: int|
                0 <= k < sel.len() ==> reaches_seed(*repo, seeds_all_set, #[trigger] sel[k]),
            forall|k: int|
                0 <= k < sel.len() ==> {
                    let node = #[trigger] nodes@[k];
                    &&& node.oid@ == repo.oid_at(sel[k])
                    &&& node.oid.wf()
                    &&& node.parents@.len() == repo.commits@[sel[k]].parents@.len()
                    &&& forall|pp: int|
                        0 <= pp < node.parents@.len() ==> (#[trigger] node.parents@[pp])@
                            == repo.commits@[sel[k]].parents@[pp]@
                    &&& node.is_hidden == (hidden_set.contains(node.oid@) && !reaches_seed(
                        *repo,
                        seeds_protected_set,
                        sel[k],
                    ))
                    &&& node.is_reachable_from_tracked == reaches_seed(
                        *repo,
                        seeds_tracked_set,
                        sel[k],
                    )
                    &&& forall|nm: Seq<u8>| #[trigger] crate::bytes::in_byte_views(
                        node.branch_names@,
                        nm,
                    ) == branch_oid_to_names.names_set(node.oid@).contains(nm)
                },
            branch_oid_to_names.wf(),
            forall|m: int|
                0 <= m < i && reaches_seed(*repo, seeds_all_set, m) ==> exists|k: int|
                    0 <= k < sel.len() && #[trigger] sel[k] == m,
        decreases repo.commits@.len() - i,
    {
        if marks_all[i] {
            let oid = repo.commits[i].oid.duplicate();
            let parents = duplicate_oids(&repo.commits[i].parents);
            let is_hidden = p.is_hidden(&repo.commits[i].oid) && !marks_protected[i];
            let node = Node {
                oid,
                parents,
                is_hidden,
                is_reachable_from_tracked: marks_tracked[i],
                branch_names: branch_oid_to_names.names_for(&repo.commits[i].oid),
            };
            let ghost oldsel = sel;
            nodes.push(node);
            proof {
                sel = sel.push(i as int);
                assert forall|m: int|
                    0 <= m < i + 1 && reaches_seed(*repo, seeds_all_set, m) implies exists|k: int|
                    0 <= k < sel.len() && #[trigger] sel[k] == m by {
                    if m < i as int {
                        let k = choose|k: int| 0 <= k < oldsel.len() && #[trigger] oldsel[k] == m;
                        assert(sel[k] == m);
                    } else {
                        assert(sel[sel.len() - 1] == m);
                    }
                }
            }
        } else {
            proof {
                assert forall|m: int|
                    0 <= m < i + 1 && reaches_seed(*repo, seeds_all_set, m) implies exists|k: int|
                    0 <= k < sel.len() && #[trigger] sel[k] == m by {
                    if m < i as int {
                        let k = choose|k: int| 0 <= k < sel.len() && #[trigger] sel[k] == m;
                    } else {
                        assert(!marks_all@[m]);
                    }
                }
            }
        }
        i += 1;
    }
    let g = Graph { nodes };
    proof {
        lemma_graph_shape(
            g,
            *repo,
            sel,
            seeds_all_set,
            seeds_tracked_set,
            seeds_protected_set,
            hidden_set,
        );
        assert forall|o: Seq<u8>| #[trigger] g.has_node(o) == reached_from(
            *repo,
            seeds_all_set,
            o,
        ) by {
            if g.has_node(o) {
                let k = choose|k: int| 0 <= k < g.nodes@.len() && g.nodes@[k].oid@ == o;
                assert(reaches_seed(*repo, seeds_all_set, sel[k]));
                assert(repo.oid_at(sel[k]) == o);
            }
            if reached_from(*repo, seeds_all_set, o) {
                let m = choose|m: int|
                    0 <= m < repo.commits@.len() && repo.oid_at(m) == o
                        && #[trigger] reaches_seed(*repo, seeds_all_set, m);
                let k = choose|k: int| 0 <= k < sel.len() && #[trigger] sel[k] == m;
                assert(g.nodes@[k].oid@ == o);
            }
        }
        assert forall|k: int| 0 <= k < g.nodes@.len() implies {
            let node = #[trigger] g.nodes@[k];
            &&& node.is_hidden == (hidden_set.contains(node.oid@) && !reached_from(
                *repo,
                seeds_protected_set,
                node.oid@,
            ))
            &&& node.is_reachable_from_tracked == reached_from(
                *repo,
                seeds_tracked_set,
                node.oid@,
            )
        } by {
            lemma_reached_from_at(*repo, seeds_protected_set, sel[k]);
            lemma_reached_from_at(*repo, seeds_tracked_set, sel[k]);
        }
    }

    match head_oid {
        Option::Some(h) => {
            if merge_base_cache.get(h, main_branch_oid).is_none() {
                let mb = compute_merge_base(repo, h, main_branch_oid);
                let ghost v = merge_base_view(mb);
                merge_base_cache.put(h, main_branch_oid, mb);
                proof {
                    assert(is_merge_base_result(*repo, h@, main_branch_oid@, v)
                        && merge_base_cache.table() == old(merge_base_cache).table().insert(
                        norm_pair(h@, main_branch_oid@),
                        v,
                    ));
                }
            }
        },
        Option::None => {},
    }
    g
}

/// Whether `o` is the id of one of the first `n` entries of `s`.
pub open spec fn in_oid_views_upto_graph(s: Seq<NonZeroOid>, n: int, o: Seq<u8>) -> bool {
    exists|i: int| 0 <= i < n && i < s.len() && s[i]@ == o
}

/// A graph whose nodes select, in order, marked positions of a well-formed
/// snapshot is itself well-formed.
proof fn lemma_graph_shape(
    g: Graph,
    repo: RepoSnapshot,
    sel: Seq<int>,
    seeds_all: Set<Seq<u8>>,
    seeds_tracked: Set<Seq<u8>>,
    seeds_protected: Set<Seq<u8>>,
    hidden: Set<Seq<u8>>,
)
    requires
        repo.wf(),
        sel.len() == g.nodes@.len(),
        forall|k: int| 0 <= k < sel.len() ==> 0 <= #[trigger] sel[k] < repo.commits@.len(),
        forall|k: int, l: int| 0 <= k < l < sel.len() ==> sel[k] < sel[l],
        forall|k: int| 0 <= k < sel.len() ==> reaches_seed(repo, seeds_all, #[trigger] sel[k]),
        forall|k: int|
            0 <= k < sel.len() ==> {
                let node = #[trigger] g.nodes@[k];
                &&& node.oid@ == repo.oid_at(sel[k])
                &&& node.oid.wf()
                &&& node.parents@.len() == repo.commits@[sel[k]].parents@.len()
                &&& forall|pp: int|
                    0 <= pp < node.parents@.len() ==> (#[trigger] node.parents@[pp])@
                        == repo.commits@[sel[k]].parents@[pp]@
            },
        forall|m: int|
            0 <= m < repo.commits@.len() && reaches_seed(repo, seeds_all, m) ==> exists|k: int|
                0 <= k < sel.len() && #[trigger] sel[k] == m,
    ensures
        g.wf(),
{
    assert forall|k: int| 0 <= k < g.nodes@.len() implies (#[trigger] g.nodes@[k]).oid.wf() by {}
    assert forall|k: int, l: int| 0 <= k < l < g.nodes@.len() implies g.nodes@[k].oid@
        != g.nodes@[l].oid@ by {
        assert(sel[k] < sel[l]);
        assert(g.nodes@[k].oid@ == repo.oid_at(sel[k]));
        assert(g.nodes@[l].oid@ == repo.oid_at(sel[l]));
        assert(repo.oid_at(sel[k]) != repo.oid_at(sel[l]));
    }
    assert forall|k: int, pp: int|
        0 <= k < g.nodes@.len() && 0 <= pp < g.nodes@[k].parents@.len()
        implies #[trigger] parent_backedge_ok(g, k, pp) by {
        let m = sel[k];
        let po = g.nodes@[k].parents@[pp]@;
        assert(repo.commits@[m].parents@[pp]@ == po);
        let j = choose|j: int| 0 <= j < m && repo.oid_at(j) == repo.commits@[m].parents@[pp]@;
        assert(repo.parent_of(m, repo.oid_at(j)));
        lemma_reach_step(repo, seeds_all, j, m);
        assert(reaches_seed(repo, seeds_all, j));
        let l = choose|l: int| 0 <= l < sel.len() && #[trigger] sel[l] == j;
        assert(0 <= l < sel.len() && sel[l] == j);
        if l == k {
            assert(sel[l] == m);
            assert(false);
        }
        if l > k {
            assert(sel[k] < sel[l]);
            assert(false);
        }
        assert(l < k);
        assert(g.nodes@[l].oid@ == repo.oid_at(sel[l]));
        assert(g.nodes@[l].oid@ == po);
        assert(exists|l2: int|
            0 <= l2 < k && #[trigger] g.nodes@[l2].oid@ == g.nodes@[k].parents@[pp]@);
        assert(parent_backedge_ok(g, k, pp));
    }
}

/// Acyclicity: a path of one or more parent edges never returns to the node
/// it started from.
pub open spec fn reaches_in(g: Graph, from: int, to: int, steps: nat) -> bool
    decreases steps,
{
    if steps == 0 {
        from == to
    } else {
        exists|m: int|
            #![trigger g.nodes@[m]]
            0 <= m < g.nodes@.len() && 0 <= from < g.nodes@.len() && in_oid_views(
                g.nodes@[from].parents@,
                g.nodes@[m].oid@,
            ) && reaches_in(g, m, to, (steps - 1) as nat)
    }
}

/// In a well-formed graph every parent edge goes to an earlier node, so a
/// path of `steps` edges strictly lowers the node position.
proof fn lemma_path_descends(g: Graph, from: int, to: int, steps: nat)
    requires
        g.wf(),
        reaches_in(g, from, to, steps),
        steps >= 1,
        0 <= from < g.nodes@.len(),
    ensures
        0 <= to < from,
    decreases steps,
{
    let m = choose|m: int|
        #![trigger g.nodes@[m]]
        0 <= m < g.nodes@.len() && in_oid_views(g.nodes@[from].parents@, g.nodes@[m].oid@)
            && reaches_in(g, m, to, (steps - 1) as nat);
    let pp = choose|pp: int|
        0 <= pp < g.nodes@[from].parents@.len() && g.nodes@[from].parents@[pp]@ == g.nodes@[m].oid@;
    assert(parent_backedge_ok(g, from, pp));
    let l = choose|l: int| 0 <= l < from && g.nodes@[l].oid@ == g.nodes@[from].parents@[pp]@;
    assert(g.nodes@[l].oid@ == g.nodes@[m].oid@);
    assert forall|x: int, y: int| 0 <= x < y < g.nodes@.len() && g.nodes@[x].oid@
        == g.nodes@[y].oid@ implies false by {}
    assert(m == l);
    if steps == 1 {
        assert(reaches_in(g, m, to, 0));
    } else {
        lemma_path_descends(g, m, to, (steps - 1) as nat);
    }
}

/// Acyclicity of every well-formed graph (in particular every graph the
/// builder returns): no node is reachable from itself by one or more parent
/// edges.
pub proof fn lemma_graph_acyclic(g: Graph, k: int, steps: nat)
    requires
        g.wf(),
        0 <= k < g.nodes@.len(),
        steps >= 1,
    ensures
        !reaches_in(g, k, k, steps),
{
    if reaches_in(g, k, k, steps) {
        lemma_path_descends(g, k, k, steps);
    }
}

} // verus!
