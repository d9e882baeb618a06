//! The abandoned-descendant analysis.
//!
//! After a rewrite of commit `X`, a child of `X` that was not itself
//! rewritten still points at a commit that no longer represents the current
//! tip of that line of history: it is abandoned. The analysis scans the
//! replayer's rewrite events up to a cursor and the graph's parent edges;
//! callers aggregate the results over a batch of rewrites and deduplicate
//! the child and branch-name sets before reporting.

use vstd::prelude::*;

use crate::bytes::{bytes_in_list, clone_bytes, in_byte_views};
use crate::graph::{BranchOidToNames, Graph};
use crate::oid::{MaybeZeroOid, NonZeroOid};
use crate::replayer::{in_oid_views, latest_rewrite_target, oid_in_list, EventCursor, EventReplayer};

verus! {

/// Whether the node at position `k` of the graph lists `parent` among its
/// parents.
pub open spec fn is_child_of(g: Graph, parent: Seq<u8>, k: int) -> bool {
    0 <= k < g.nodes@.len() && in_oid_views(g.nodes@[k].parents@, parent)
}

/// Whether commit `o` is an abandoned child of `old`: `old` was rewritten
/// by some event up to the cursor, and `o` is a graph-resident child of
/// `old` that no rewrite event up to the cursor itself rewrote.
pub open spec fn is_abandoned_child(
    g: Graph,
    log: Seq<crate::event::Event>,
    cursor: int,
    old_oid: Seq<u8>,
    o: Seq<u8>,
) -> bool {
    &&& latest_rewrite_target(log, cursor, old_oid) is Some
    &&& exists|k: int|
        #[trigger] is_child_of(g, old_oid, k) && g.nodes@[k].oid@ == o && latest_rewrite_target(
            log,
            cursor,
            o,
        ) is None
}

/// Determines whether `old_oid` was rewritten up to the cursor and, if so,
/// which of its graph-resident children were abandoned by that rewrite.
/// Returns `None` if `old_oid` was never rewritten or has no children in
/// the graph; otherwise the replacement id of the most recent rewrite
/// (highest transaction id; `Zero` meaning the commit was dropped) and the
/// abandoned children, duplicate-free.
pub fn find_abandoned_children(
    graph: &Graph,
    event_replayer: &EventReplayer,
    event_cursor: EventCursor,
    oid: &NonZeroOid,
) -> (r: Option<(MaybeZeroOid, Vec<NonZeroOid>)>)
    requires
        graph.wf(),
        event_replayer.wf(),
    ensures
        r is Some <==> (latest_rewrite_target(
            event_replayer.events@,
            event_cursor.event_id as int,
            oid@,
        ) is Some && exists|k: int| #[trigger] is_child_of(*graph, oid@, k)),
        r is Some ==> (r->0).0@ == (latest_rewrite_target(
            event_replayer.events@,
            event_cursor.event_id as int,
            oid@,
        )->0).1 && (r->0).0.wf(),
        r is Some ==> forall|o: Seq<u8>| #[trigger] in_oid_views((r->0).1@, o)
            == is_abandoned_child(
            *graph,
            event_replayer.events@,
            event_cursor.event_id as int,
            oid@,
            o,
        ),
        r is Some ==> forall|x: int, y: int|
            0 <= x < y < (r->0).1@.len() ==> (r->0).1@[x]@ != (r->0).1@[y]@,
        r is Some ==> forall|x: int| 0 <= x < (r->0).1@.len() ==> (#[trigger] (r->0).1@[x]).wf(),
{
    let target = match event_replayer.get_cursor_commit_latest_rewrite_target(event_cursor, oid) {
        Option::None => {
            return None;
        },
        Option::Some(t) => t,
    };
    let ghost log = event_replayer.events@;
    let ghost c = event_cursor.event_id as int;
    let mut any_child = false;
    let mut abandoned: Vec<NonZeroOid> = Vec::new();
    let mut i: usize = 0;
    while i < graph.nodes.len()
        invariant
            graph.wf(),
            event_replayer.wf(),
            log == event_replayer.events@,
            c == event_cursor.event_id as int,
            i <= graph.nodes@.len(),
            any_child == exists|k: int| k < i && #[trigger] is_child_of(*graph, oid@, k),
            forall|o: Seq<u8>| #[trigger] in_oid_views(abandoned@, o) == (exists|k: int|
                k < i && #[trigger] is_child_of(*graph, oid@, k) && graph.nodes@[k].oid@ == o
                    && latest_rewrite_target(log, c, o) is None),
            forall|x: int, y: int|
                0 <= x < y < abandoned@.len() ==> abandoned@[x]@ != abandoned@[y]@,
            forall|x: int| 0 <= x < abandoned@.len() ==> (#[trigger] abandoned@[x]).wf(),
        decreases graph.nodes@.len() - i,
    {
        let ghost oldab = abandoned@;
        if oid_in_list(&graph.nodes[i].parents, oid) {
            any_child = true;
            proof {
                assert(is_child_of(*graph, oid@, i as int));
            }
            if event_replayer.get_cursor_commit_latest_rewrite_target(
                event_cursor,
                &graph.nodes[i].oid,
            ).is_none() {
                if !oid_in_list(&abandoned, &graph.nodes[i].oid) {
                    abandoned.push(graph.nodes[i].oid.duplicate());
                }
            }
        }
        proof {
            assert forall|o: Seq<u8>| #[trigger] in_oid_views(abandoned@, o) implies (exists|k: int|
                k < i + 1 && #[trigger] is_child_of(*graph, oid@, k) && graph.nodes@[k].oid@ == o
                    && latest_rewrite_target(log, c, o) is None) by {
                let x = choose|x: int| 0 <= x < abandoned@.len() && abandoned@[x]@ == o;
                if x < oldab.len() {
                    assert(in_oid_views(oldab, o));
                    let k = choose|k: int|
                        k < i && #[trigger] is_child_of(*graph, oid@, k) && graph.nodes@[k].oid@
                            == o && latest_rewrite_target(log, c, o) is None;
                    assert(k < i + 1 && is_child_of(*graph, oid@, k));
                } else {
                    assert(is_child_of(*graph, oid@, i as int) && graph.nodes@[i as int].oid@
                        == o);
                }
            }
            assert forall|o: Seq<u8>|
                (exists|k: int|
                    k < i + 1 && #[trigger] is_child_of(*graph, oid@, k) && graph.nodes@[k].oid@
                        == o && latest_rewrite_target(log, c, o) is None) implies #[trigger] in_oid_views(
                abandoned@,
                o,
            ) by {
                let k = choose|k: int|
                    k < i + 1 && #[trigger] is_child_of(*graph, oid@, k) && graph.nodes@[k].oid@
                        == o && latest_rewrite_target(log, c, o) is None;
                if k < i as int {
                    assert(in_oid_views(oldab, o));
                    let x = choose|x: int| 0 <= x < oldab.len() && oldab[x]@ == o;
                    assert(abandoned@[x]@ == o);
                } else {
                    if in_oid_views(oldab, o) {
                        let x = choose|x: int| 0 <= x < oldab.len() && oldab[x]@ == o;
                        assert(abandoned@[x]@ == o);
                    } else {
                        assert(abandoned@[abandoned@.len() - 1]@ == o);
                    }
                }
            }
            assert forall|k2: int|
                k2 < i + 1 && #[trigger] is_child_of(*graph, oid@, k2) implies any_child by {
                if k2 < i as int {
                    assert(exists|k: int| k < i && #[trigger] is_child_of(*graph, oid@, k));
                }
            }
            if any_child && !(exists|k: int| k < i + 1 && #[trigger] is_child_of(*graph, oid@, k))
                {
                assert(!is_child_of(*graph, oid@, i as int));
                let k = choose|k: int| k < i && #[trigger] is_child_of(*graph, oid@, k);
                assert(k < i + 1 && is_child_of(*graph, oid@, k));
            }
        }
        i += 1;
    }
    if !any_child {
        proof {
            assert forall|k: int| !(#[trigger] is_child_of(*graph, oid@, k)) by {
                if 0 <= k < graph.nodes@.len() {
                    assert(!(k < graph.nodes@.len() && is_child_of(*graph, oid@, k)));
                }
            }
        }
        return None;
    }
    Some((target, abandoned))
}

/// Whether `o` is the view of one of the first `n` elements of `s`.
pub open spec fn in_byte_views_upto(s: Seq<Vec<u8>>, n: int, o: Seq<u8>) -> bool {
    exists|i: int| 0 <= i < n && i < s.len() && s[i]@ == o
}

/// Whether the analysis reports anything for `old_oid`: it was rewritten up
/// to the cursor and has a child in the graph.
pub open spec fn has_abandoned_report(
    g: Graph,
    log: Seq<crate::event::Event>,
    cursor: int,
    old_oid: Seq<u8>,
) -> bool {
    latest_rewrite_target(log, cursor, old_oid) is Some && exists|k: int|
        #[trigger] is_child_of(g, old_oid, k)
}

/// Aggregates the analysis over a batch of rewritten commits: the union of
/// all abandoned children, and the union of the branch names attached (per
/// the given mapping) to each rewritten commit that had an abandoned
/// report. Both results are duplicate-free.
pub fn collect_abandoned(
    graph: &Graph,
    event_replayer: &EventReplayer,
    event_cursor: EventCursor,
    old_commit_oids: &Vec<NonZeroOid>,
    branch_oid_to_names: &BranchOidToNames,
) -> (r: (Vec<NonZeroOid>, Vec<Vec<u8>>))
    requires
        graph.wf(),
        event_replayer.wf(),
        branch_oid_to_names.wf(),
    ensures
        forall|o: Seq<u8>| #[trigger] in_oid_views(r.0@, o) == (exists|x: int|
            0 <= x < old_commit_oids@.len() && is_abandoned_child(
                *graph,
                event_replayer.events@,
                event_cursor.event_id as int,
                (#[trigger] old_commit_oids@[x])@,
                o,
            )),
        forall|nm: Seq<u8>| #[trigger] in_byte_views(r.1@, nm) == (exists|x: int|
            0 <= x < old_commit_oids@.len() && has_abandoned_report(
                *graph,
                event_replayer.events@,
                event_cursor.event_id as int,
                (#[trigger] old_commit_oids@[x])@,
            ) && branch_oid_to_names.names_set(old_commit_oids@[x]@).contains(nm)),
        forall|x: int, y: int| 0 <= x < y < r.0@.len() ==> r.0@[x]@ != r.0@[y]@,
        forall|x: int, y: int| 0 <= x < y < r.1@.len() ==> r.1@[x]@ != r.1@[y]@,
        forall|x: int| 0 <= x < r.0@.len() ==> (#[trigger] r.0@[x]).wf(),
{
    let ghost log = event_replayer.events@;
    let ghost c = event_cursor.event_id as int;
    let mut children: Vec<NonZeroOid> = Vec::new();
    let mut branches: Vec<Vec<u8>> = Vec::new();
    let mut x: usize = 0;
    while x < old_commit_oids.len()
        invariant
            graph.wf(),
            event_replayer.wf(),
            branch_oid_to_names.wf(),
            log == event_replayer.events@,
            c == event_cursor.event_id as int,
            x <= old_commit_oids@.len(),
            forall|o: Seq<u8>| #[trigger] in_oid_views(children@, o) == (exists|x2: int|
                0 <= x2 < x && is_abandoned_child(
                    *graph,
                    log,
                    c,
                    (#[trigger] old_commit_oids@[x2])@,
                    o,
                )),
            forall|nm: Seq<u8>| #[trigger] in_byte_views(branches@, nm) == (exists|x2: int|
                0 <= x2 < x && has_abandoned_report(*graph, log, c, (#[trigger] old_commit_oids@[
                    x2
                ])@) && branch_oid_to_names.names_set(old_commit_oids@[x2]@).contains(nm)),
            forall|a: int, b: int| 0 <= a < b < children@.len() ==> children@[a]@ != children@[b]@,
            forall|a: int, b: int| 0 <= a < b < branches@.len() ==> branches@[a]@ != branches@[b]@,
            forall|a: int| 0 <= a < children@.len() ==> (#[trigger] children@[a]).wf(),
        decreases old_commit_oids@.len() - x,
    {
        let old_oid = &old_commit_oids[x];
        let ghost oldkids = children@;
        let ghost oldbr = branches@;
        match find_abandoned_children(graph, event_replayer, event_cursor, old_oid) {
            Option::None => {
                proof {
                    assert(!has_abandoned_report(*graph, log, c, old_oid@));
                    lemma_collect_step_none(
                        *graph,
                        log,
                        c,
                        old_commit_oids@,
                        x as int,
                        children@,
                        branches@,
                        branch_oid_to_names,
                    );
                }
            },
            Option::Some(pair) => {
                let (_rewritten, kids) = pair;
                let mut y: usize = 0;
                while y < kids.len()
                    invariant
                        graph.wf(),
                        x < old_commit_oids@.len(),
                        y <= kids@.len(),
                        forall|o: Seq<u8>| #[trigger] in_oid_views(kids@, o) == is_abandoned_child(
                            *graph,
                            log,
                            c,
                            old_commit_oids@[x as int]@,
                            o,
                        ),
                        forall|a: int| 0 <= a < kids@.len() ==> (#[trigger] kids@[a]).wf(),
                        forall|o: Seq<u8>| #[trigger] in_oid_views(children@, o) == ((exists|
                            x2: int,
                        |
                            0 <= x2 < x && is_abandoned_child(
                                *graph,
                                log,
                                c,
                                (#[trigger] old_commit_oids@[x2])@,
                                o,
                            )) || crate::replayer::in_oid_views_upto(kids@, y as int, o)),
                        forall|a: int, b: int|
                            0 <= a < b < children@.len() ==> children@[a]@ != children@[b]@,
                        forall|a: int| 0 <= a < children@.len() ==> (#[trigger] children@[a]).wf(),
                    decreases kids@.len() - y,
                {
                    let ghost prevkids = children@;
                    if !oid_in_list(&children, &kids[y]) {
                        children.push(kids[y].duplicate());
                    }
                    proof {
                        assert forall|o: Seq<u8>| #[trigger] in_oid_views(children@, o) implies ((
                        exists|x2: int|
                            0 <= x2 < x && is_abandoned_child(
                                *graph,
                                log,
                                c,
                                (#[trigger] old_commit_oids@[x2])@,
                                o,
                            )) || crate::replayer::in_oid_views_upto(kids@, y + 1, o)) by {
                            let a = choose|a: int|
                                0 <= a < children@.len() && children@[a]@ == o;
                            if a < prevkids.len() {
                                assert(in_oid_views(prevkids, o));
                                if crate::replayer::in_oid_views_upto(kids@, y as int, o) {
                                    let b = choose|b: int|
                                        0 <= b < y && b < kids@.len() && kids@[b]@ == o;
                                    assert(0 <= b < y + 1 && b < kids@.len() && kids@[b]@ == o);
                                }
                            } else {
                                assert(kids@[y as int]@ == o);
                            }
                        }
                        assert forall|o: Seq<u8>|
                            ((exists|x2: int|
                                0 <= x2 < x && is_abandoned_child(
                                    *graph,
                                    log,
                                    c,
                                    (#[trigger] old_commit_oids@[x2])@,
                                    o,
                                )) || crate::replayer::in_oid_views_upto(
                                kids@,
                                y + 1,
                                o,
                            )) implies #[trigger] in_oid_views(children@, o) by {
                            if crate::replayer::in_oid_views_upto(kids@, y + 1, o) {
                                let b = choose|b: int|
                                    0 <= b < y + 1 && b < kids@.len() && kids@[b]@ == o;
                                if b < y as int {
                                    assert(crate::replayer::in_oid_views_upto(kids@, y as int, o));
                                    assert(in_oid_views(prevkids, o));
                                    let a = choose|a: int|
                                        0 <= a < prevkids.len() && prevkids[a]@ == o;
                                    assert(children@[a]@ == o);
                                } else {
                                    if in_oid_views(prevkids, o) {
                                        let a = choose|a: int|
                                            0 <= a < prevkids.len() && prevkids[a]@ == o;
                                        assert(children@[a]@ == o);
                                    } else {
                                        assert(children@[children@.len() - 1]@ == o);
                                    }
                                }
                            } else {
                                assert(in_oid_views(prevkids, o));
                                let a = choose|a: int|
                                    0 <= a < prevkids.len() && prevkids[a]@ == o;
                                assert(children@[a]@ == o);
                            }
                        }
                    }
                    y += 1;
                }
                let names = branch_oid_to_names.names_for(old_oid);
                let mut z: usize = 0;
                while z < names.len()
                    invariant
                        x < old_commit_oids@.len(),
                        z <= names@.len(),
                        has_abandoned_report(*graph, log, c, old_commit_oids@[x as int]@),
                        forall|nm: Seq<u8>| #[trigger] in_byte_views(names@, nm)
                            == branch_oid_to_names.names_set(
                            old_commit_oids@[x as int]@,
                        ).contains(nm),
                        forall|nm: Seq<u8>| #[trigger] in_byte_views(branches@, nm) == ((exists|
                            x2: int,
                        |
                            0 <= x2 < x && has_abandoned_report(
                                *graph,
                                log,
                                c,
                                (#[trigger] old_commit_oids@[x2])@,
                            ) && branch_oid_to_names.names_set(old_commit_oids@[x2]@).contains(
                                nm,
                            )) || in_byte_views_upto(names@, z as int, nm)),
                        forall|a: int, b: int|
                            0 <= a < b < branches@.len() ==> branches@[a]@ != branches@[b]@,
                    decreases names@.len() - z,
                {
                    let ghost prevbr = branches@;
                    if !bytes_in_list(&branches, &names[z]) {
                        branches.push(clone_bytes(&names[z]));
                    }
                    proof {
                        assert forall|nm: Seq<u8>| #[trigger] in_byte_views(branches@, nm) implies
                            ((exists|x2: int|
                                0 <= x2 < x && has_abandoned_report(
                                    *graph,
                                    log,
                                    c,
                                    (#[trigger] old_commit_oids@[x2])@,
                                ) && branch_oid_to_names.names_set(old_commit_oids@[x2]@).contains(
                                    nm,
                                )) || in_byte_views_upto(names@, z + 1, nm)) by {
                            let a = choose|a: int|
                                0 <= a < branches@.len() && branches@[a]@ == nm;
                            if a < prevbr.len() {
                                assert(in_byte_views(prevbr, nm));
                                if in_byte_views_upto(names@, z as int, nm) {
                                    let b = choose|b: int|
                                        0 <= b < z && b < names@.len() && names@[b]@ == nm;
                                    assert(0 <= b < z + 1 && b < names@.len() && names@[b]@ == nm);
                                }
                            } else {
                                assert(names@[z as int]@ == nm);
                            }
                        }
                        assert forall|nm: Seq<u8>|
                            ((exists|x2: int|
                                0 <= x2 < x && has_abandoned_report(
                                    *graph,
                                    log,
                                    c,
                                    (#[trigger] old_commit_oids@[x2])@,
                                ) && branch_oid_to_names.names_set(old_commit_oids@[x2]@).contains(
                                    nm,
                                )) || in_byte_views_upto(names@, z + 1, nm)) implies #[trigger] in_byte_views(
                            branches@,
                            nm,
                        ) by {
                            if in_byte_views_upto(names@, z + 1, nm) {
                                let b = choose|b: int|
                                    0 <= b < z + 1 && b < names@.len() && names@[b]@ == nm;
                                if b < z as int {
                                    assert(in_byte_views_upto(names@, z as int, nm));
                                    assert(in_byte_views(prevbr, nm));
                                    let a = choose|a: int|
                                        0 <= a < prevbr.len() && prevbr[a]@ == nm;
                                    assert(branches@[a]@ == nm);
                                } else {
                                    if in_byte_views(prevbr, nm) {
                                        let a = choose|a: int|
                                            0 <= a < prevbr.len() && prevbr[a]@ == nm;
                                        assert(branches@[a]@ == nm);
                                    } else {
                                        assert(branches@[branches@.len() - 1]@ == nm);
                                    }
                                }
                            } else {
                                assert(in_byte_views(prevbr, nm));
                                let a = choose|a: int|
                                    0 <= a < prevbr.len() && prevbr[a]@ == nm;
                                assert(branches@[a]@ == nm);
                            }
                        }
                    }
                    z += 1;
                }
                proof {
                    lemma_collect_step_some(
                        *graph,
                        log,
                        c,
                        old_commit_oids@,
                        x as int,
                        kids@,
                        names@,
                        children@,
                        branches@,
                        branch_oid_to_names,
                    );
                }
            },
        }
        x += 1;
    }
    (children, branches)
}

/// After a batch element with no report, the running unions are unchanged.
proof fn lemma_collect_step_none(
    g: Graph,
    log: Seq<crate::event::Event>,
    c: int,
    olds: Seq<NonZeroOid>,
    x: int,
    children: Seq<NonZeroOid>,
    branches: Seq<Vec<u8>>,
    branch_map: &BranchOidToNames,
)
    requires
        0 <= x < olds.len(),
        !has_abandoned_report(g, log, c, olds[x]@),
        forall|o: Seq<u8>| #[trigger] in_oid_views(children, o) == (exists|x2: int|
            0 <= x2 < x && is_abandoned_child(g, log, c, (#[trigger] olds[x2])@, o)),
        forall|nm: Seq<u8>| #[trigger] in_byte_views(branches, nm) == (exists|x2: int|
            0 <= x2 < x && has_abandoned_report(g, log, c, (#[trigger] olds[x2])@)
                && branch_map.names_set(olds[x2]@).contains(nm)),
    ensures
        forall|o: Seq<u8>| #[trigger] in_oid_views(children, o) == (exists|x2: int|
            0 <= x2 < x + 1 && is_abandoned_child(g, log, c, (#[trigger] olds[x2])@, o)),
        forall|nm: Seq<u8>| #[trigger] in_byte_views(branches, nm) == (exists|x2: int|
            0 <= x2 < x + 1 && has_abandoned_report(g, log, c, (#[trigger] olds[x2])@)
                && branch_map.names_set(olds[x2]@).contains(nm)),
{
    assert forall|o: Seq<u8>| #[trigger] in_oid_views(children, o) == (exists|x2: int|
        0 <= x2 < x + 1 && is_abandoned_child(g, log, c, (#[trigger] olds[x2])@, o)) by {
        if in_oid_views(children, o) {
            let x2 = choose|x2: int|
                0 <= x2 < x && is_abandoned_child(g, log, c, (#[trigger] olds[x2])@, o);
            assert(0 <= x2 < x + 1 && is_abandoned_child(g, log, c, olds[x2]@, o));
        }
        if exists|x2: int|
            0 <= x2 < x + 1 && is_abandoned_child(g, log, c, (#[trigger] olds[x2])@, o) {
            let x2 = choose|x2: int|
                0 <= x2 < x + 1 && is_abandoned_child(g, log, c, (#[trigger] olds[x2])@, o);
            if x2 == x {
                assert(!is_abandoned_child(g, log, c, olds[x]@, o));
            }
            assert(0 <= x2 < x && is_abandoned_child(g, log, c, olds[x2]@, o));
        }
    }
    assert forall|nm: Seq<u8>| #[trigger] in_byte_views(branches, nm) == (exists|x2: int|
        0 <= x2 < x + 1 && has_abandoned_report(g, log, c, (#[trigger] olds[x2])@)
            && branch_map.names_set(olds[x2]@).contains(nm)) by {
        if in_byte_views(branches, nm) {
            let x2 = choose|x2: int|
                0 <= x2 < x && has_abandoned_report(g, log, c, (#[trigger] olds[x2])@)
                    && branch_map.names_set(olds[x2]@).contains(nm);
            assert(0 <= x2 < x + 1 && has_abandoned_report(g, log, c, olds[x2]@)
                && branch_map.names_set(olds[x2]@).contains(nm));
        }
        if exists|x2: int|
            0 <= x2 < x + 1 && has_abandoned_report(g, log, c, (#[trigger] olds[x2])@)
                && branch_map.names_set(olds[x2]@).contains(nm) {
            let x2 = choose|x2: int|
                0 <= x2 < x + 1 && has_abandoned_report(g, log, c, (#[trigger] olds[x2])@)
                    && branch_map.names_set(olds[x2]@).contains(nm);
            assert(x2 != x);
            assert(0 <= x2 < x && has_abandoned_report(g, log, c, olds[x2]@)
                && branch_map.names_set(olds[x2]@).contains(nm));
        }
    }
}

/// After a batch element with a report, the running unions absorb exactly
/// its abandoned children and its branch names.
proof fn lemma_collect_step_some(
    g: Graph,
    log: Seq<crate::event::Event>,
    c: int,
    olds: Seq<NonZeroOid>,
    x: int,
    kids: Seq<NonZeroOid>,
    names: Seq<Vec<u8>>,
    children: Seq<NonZeroOid>,
    branches: Seq<Vec<u8>>,
    branch_map: &BranchOidToNames,
)
    requires
        0 <= x < olds.len(),
        has_abandoned_report(g, log, c, olds[x]@),
        forall|o: Seq<u8>| #[trigger] in_oid_views(kids, o) == is_abandoned_child(
            g,
            log,
            c,
            olds[x]@,
            o,
        ),
        forall|nm: Seq<u8>| #[trigger] in_byte_views(names, nm) == branch_map.names_set(
            olds[x]@,
        ).contains(nm),
        forall|o: Seq<u8>| #[trigger] in_oid_views(children, o) == ((exists|x2: int|
            0 <= x2 < x && is_abandoned_child(g, log, c, (#[trigger] olds[x2])@, o))
            || crate::replayer::in_oid_views_upto(kids, kids.len() as int, o)),
        forall|nm: Seq<u8>| #[trigger] in_byte_views(branches, nm) == ((exists|x2: int|
            0 <= x2 < x && has_abandoned_report(g, log, c, (#[trigger] olds[x2])@)
                && branch_map.names_set(olds[x2]@).contains(nm)) || in_byte_views_upto(
            names,
            names.len() as int,
            nm,
        )),
    ensures
        forall|o: Seq<u8>| #[trigger] in_oid_views(children, o) == (exists|x2: int|
            0 <= x2 < x + 1 && is_abandoned_child(g, log, c, (#[trigger] olds[x2])@, o)),
        forall|nm: Seq<u8>| #[trigger] in_byte_views(branches, nm) == (exists|x2: int|
            0 <= x2 < x + 1 && has_abandoned_report(g, log, c, (#[trigger] olds[x2])@)
                && branch_map.names_set(olds[x2]@).contains(nm)),
{
    assert forall|o: Seq<u8>|
        crate::replayer::in_oid_views_upto(kids, kids.len() as int, o) == in_oid_views(kids, o)
        by {
        if crate::replayer::in_oid_views_upto(kids, kids.len() as int, o) {
            let b = choose|b: int| 0 <= b < kids.len() && b < kids.len() && kids[b]@ == o;
            assert(kids[b]@ == o);
        }
        if in_oid_views(kids, o) {
            let b = choose|b: int| 0 <= b < kids.len() && kids[b]@ == o;
            assert(0 <= b < kids.len() && b < kids.len() && kids[b]@ == o);
        }
    }
    assert forall|nm: Seq<u8>|
        in_byte_views_upto(names, names.len() as int, nm) == in_byte_views(names, nm) by {
        if in_byte_views_upto(names, names.len() as int, nm) {
            let b = choose|b: int| 0 <= b < names.len() && b < names.len() && names[b]@ == nm;
            assert(names[b]@ == nm);
        }
        if in_byte_views(names, nm) {
            let b = choose|b: int| 0 <= b < names.len() && names[b]@ == nm;
            assert(0 <= b < names.len() && b < names.len() && names[b]@ == nm);
        }
    }
    assert forall|o: Seq<u8>| #[trigger] in_oid_views(children, o) == (exists|x2: int|
        0 <= x2 < x + 1 && is_abandoned_child(g, log, c, (#[trigger] olds[x2])@, o)) by {
        if in_oid_views(children, o) {
            if in_oid_views(kids, o) {
                assert(0 <= x < x + 1 && is_abandoned_child(g, log, c, olds[x]@, o));
            } else {
                let x2 = choose|x2: int|
                    0 <= x2 < x && is_abandoned_child(g, log, c, (#[trigger] olds[x2])@, o);
                assert(0 <= x2 < x + 1 && is_abandoned_child(g, log, c, olds[x2]@, o));
            }
        }
        if exists|x2: int|
            0 <= x2 < x + 1 && is_abandoned_child(g, log, c, (#[trigger] olds[x2])@, o) {
            let x2 = choose|x2: int|
                0 <= x2 < x + 1 && is_abandoned_child(g, log, c, (#[trigger] olds[x2])@, o);
            if x2 == x {
                assert(in_oid_views(kids, o));
            } else {
                assert(0 <= x2 < x && is_abandoned_child(g, log, c, olds[x2]@, o));
            }
        }
    }
    assert forall|nm: Seq<u8>| #[trigger] in_byte_views(branches, nm) == (exists|x2: int|
        0 <= x2 < x + 1 && has_abandoned_report(g, log, c, (#[trigger] olds[x2])@)
            && branch_map.names_set(olds[x2]@).contains(nm)) by {
        if in_byte_views(branches, nm) {
            if in_byte_views(names, nm) {
                assert(0 <= x < x + 1 && has_abandoned_report(g, log, c, olds[x]@)
                    && branch_map.names_set(olds[x]@).contains(nm));
            } else {
                let x2 = choose|x2: int|
                    0 <= x2 < x && has_abandoned_report(g, log, c, (#[trigger] olds[x2])@)
                        && branch_map.names_set(olds[x2]@).contains(nm);
                assert(0 <= x2 < x + 1 && has_abandoned_report(g, log, c, olds[x2]@)
                    && branch_map.names_set(olds[x2]@).contains(nm));
            }
        }
        if exists|x2: int|
            0 <= x2 < x + 1 && has_abandoned_report(g, log, c, (#[trigger] olds[x2])@)
                && branch_map.names_set(olds[x2]@).contains(nm) {
            let x2 = choose|x2: int|
                0 <= x2 < x + 1 && has_abandoned_report(g, log, c, (#[trigger] olds[x2])@)
                    && branch_map.names_set(olds[x2]@).contains(nm);
            if x2 == x {
                assert(in_byte_views(names, nm));
            } else {
                assert(0 <= x2 < x && has_abandoned_report(g, log, c, olds[x2]@)
                    && branch_map.names_set(olds[x2]@).contains(nm));
            }
        }
    }
}

} // verus!
