//! Tests for the event log, the replayer, the merge-base cache, the graph
//! builder, and the abandoned-descendant analysis.

use branchless::{
    collect_abandoned, compute_merge_base, find_abandoned_children, make_graph,
    parse_maybe_zero_oid, parse_non_zero_oid, BranchNameEntry, BranchOidToNames, Event,
    EventLog, EventReplayer, EventTransactionId, Graph, MaybeZeroOid, MergeBaseCache, Node,
    NonZeroOid, RepoSnapshot,
};

fn oid(s: &str) -> NonZeroOid {
    parse_non_zero_oid(&s.as_bytes().to_vec()).unwrap()
}

fn maybe(s: &str) -> MaybeZeroOid {
    parse_maybe_zero_oid(&s.as_bytes().to_vec()).unwrap()
}

fn policy() -> Vec<Vec<u8>> {
    vec![b"ORIG_HEAD".to_vec(), b"FETCH_HEAD".to_vec()]
}

fn ref_update(tx: u64, name: &str, old: &str, new: &str) -> Event {
    Event::RefUpdateEvent {
        timestamp: tx,
        event_tx_id: EventTransactionId(tx),
        ref_name: name.as_bytes().to_vec(),
        old_oid: maybe(old),
        new_oid: maybe(new),
        message: None,
    }
}

const ZERO: &str = "0000000000000000000000000000000000000000";

#[test]
fn transaction_ids_are_fresh_and_recorded() {
    let mut log = EventLog::new();
    let tx1 = log.make_transaction_id(100, "hook-post-commit".to_string());
    let tx2 = log.make_transaction_id(101, "reference-transaction".to_string());
    assert!(tx1.0 < tx2.0);
    let e1 = Event::CommitEvent {
        timestamp: 100,
        event_tx_id: tx1,
        commit_oid: oid("aa1"),
    };
    let e2 = Event::CommitEvent {
        timestamp: 100,
        event_tx_id: tx1,
        commit_oid: oid("aa2"),
    };
    // Both events of the first logical operation share the first id.
    assert_eq!(e1.transaction_id(), tx1);
    assert_eq!(e2.transaction_id(), tx1);
    log.add_events(vec![e1.clone(), e2.clone()]);
    let e3 = Event::CommitEvent {
        timestamp: 101,
        event_tx_id: tx2,
        commit_oid: oid("aa3"),
    };
    log.add_events(vec![e3.clone()]);
    assert_eq!(log.all_events(), &vec![e1, e2, e3]);
}

#[test]
fn replay_from_empty_is_empty() {
    let replayer = EventReplayer::from_events(Vec::new(), policy());
    let cursor = replayer.make_cursor(0);
    let p = replayer.projection_at(cursor);
    assert!(p.ref_positions.is_empty());
    assert!(p.hidden.is_empty());
    assert_eq!(p.get_ref(&b"refs/heads/main".to_vec()), None);
}

#[test]
fn projection_is_deterministic() {
    let events = vec![
        ref_update(1, "refs/heads/main", ZERO, "aa1"),
        Event::HideEvent {
            timestamp: 2,
            event_tx_id: EventTransactionId(2),
            commit_oid: oid("bb1"),
            reason: None,
        },
        ref_update(3, "refs/heads/main", "aa1", "aa2"),
    ];
    let replayer = EventReplayer::from_events(events, policy());
    let cursor = replayer.make_default_cursor();
    let p1 = replayer.projection_at(cursor);
    let p2 = replayer.projection_at(cursor);
    assert_eq!(p1, p2);
    assert_eq!(p1.get_ref(&b"refs/heads/main".to_vec()), Some(maybe("aa2")));
    assert!(p1.is_hidden(&oid("bb1")));
}

#[test]
fn hide_unhide_round_trip() {
    let x = oid("cc1");
    let events = vec![
        ref_update(1, "refs/heads/main", ZERO, "aa1"),
        Event::HideEvent {
            timestamp: 2,
            event_tx_id: EventTransactionId(2),
            commit_oid: x.clone(),
            reason: Some(b"tidy".to_vec()),
        },
        Event::UnhideEvent {
            timestamp: 3,
            event_tx_id: EventTransactionId(3),
            commit_oid: x.clone(),
            reason: None,
        },
    ];
    let replayer = EventReplayer::from_events(events, policy());
    let before = replayer.projection_at(replayer.make_cursor(1));
    let after = replayer.projection_at(replayer.make_default_cursor());
    assert!(!after.is_hidden(&x));
    assert_eq!(before, after);
}

#[test]
fn end_to_end_replay_with_cursor() {
    // Transaction 1: a commit and main moving onto it. Transaction 2: the
    // commit is rewritten and main follows.
    let events = vec![
        Event::CommitEvent {
            timestamp: 1,
            event_tx_id: EventTransactionId(1),
            commit_oid: oid("c1"),
        },
        ref_update(1, "refs/heads/main", ZERO, "c1"),
        Event::RewriteEvent {
            timestamp: 2,
            event_tx_id: EventTransactionId(2),
            old_commit_oid: oid("c1"),
            new_commit_oid: maybe("c2"),
        },
        ref_update(2, "refs/heads/main", "c1", "c2"),
    ];
    let replayer = EventReplayer::from_events(events, policy());
    let now = replayer.projection_at(replayer.make_default_cursor());
    assert_eq!(now.get_ref(&b"refs/heads/main".to_vec()), Some(maybe("c2")));
    let after_tx1 = replayer.projection_at(replayer.make_cursor(2));
    assert_eq!(
        after_tx1.get_ref(&b"refs/heads/main".to_vec()),
        Some(maybe("c1"))
    );
}

#[test]
fn excluded_ref_is_logged_but_not_projected() {
    let mut log = EventLog::new();
    let tx = log.make_transaction_id(5, "reference-transaction".to_string());
    log.add_events(vec![ref_update(tx.0, "ORIG_HEAD", ZERO, "aa1")]);
    // The log retains the event ...
    assert_eq!(log.all_events().len(), 1);
    // ... but replay omits its effect.
    let replayer = EventReplayer::from_events(log.all_events().clone(), policy());
    let p = replayer.projection_at(replayer.make_default_cursor());
    assert_eq!(p.get_ref(&b"ORIG_HEAD".to_vec()), None);
    assert!(p.ref_positions.is_empty());
}

#[test]
fn cache_is_idempotent_and_symmetric() {
    let a = oid("aa1");
    let b = oid("bb1");
    let v = Some(oid("cc1"));
    let mut cache = MergeBaseCache::new();
    assert_eq!(cache.get(&a, &b), None);
    cache.put(&a, &b, v.clone());
    cache.put(&a, &b, v.clone());
    assert_eq!(cache.get(&a, &b), Some(v.clone()));
    assert_eq!(cache.get(&b, &a), cache.get(&a, &b));
    // The explicit "no common ancestor" marker is a stored value too.
    cache.put(&b, &a, None);
    assert_eq!(cache.get(&a, &b), Some(None));
}

/// A snapshot with main history `a1 <- a2` and a side commit `b1` on `a1`.
fn small_repo() -> RepoSnapshot {
    let mut repo = RepoSnapshot::new();
    assert!(repo.push_commit(oid("a1"), vec![]));
    assert!(repo.push_commit(oid("a2"), vec![oid("a1")]));
    assert!(repo.push_commit(oid("b1"), vec![oid("a1")]));
    repo
}

#[test]
fn merge_base_of_siblings() {
    let repo = small_repo();
    assert_eq!(compute_merge_base(&repo, &oid("a2"), &oid("b1")), Some(oid("a1")));
    assert_eq!(compute_merge_base(&repo, &oid("a2"), &oid("a1")), Some(oid("a1")));
    // A dangling id has no common ancestor with anything.
    assert_eq!(compute_merge_base(&repo, &oid("a2"), &oid("ff1")), None);
}

#[test]
fn graph_builder_walks_seeds_and_annotates() {
    let repo = small_repo();
    let events = vec![
        Event::CommitEvent {
            timestamp: 1,
            event_tx_id: EventTransactionId(1),
            commit_oid: oid("b1"),
        },
        Event::HideEvent {
            timestamp: 2,
            event_tx_id: EventTransactionId(2),
            commit_oid: oid("b1"),
            reason: None,
        },
    ];
    let replayer = EventReplayer::from_events(events, policy());
    let cursor = replayer.make_default_cursor();
    let mut cache = MergeBaseCache::new();
    let branch_map = BranchOidToNames {
        entries: vec![BranchNameEntry {
            oid: oid("b1"),
            names: vec![b"refs/heads/feature".to_vec()],
        }],
    };
    let g = make_graph(
        &repo,
        &mut cache,
        &replayer,
        cursor,
        &Some(oid("a2")),
        &oid("a1"),
        &vec![oid("b1")],
        &branch_map,
        false,
    );
    // All three commits are reachable from the seeds.
    assert_eq!(g.nodes.len(), 3);
    // b1 is hidden by the projection, but it is a branch tip, so the
    // branch-derived override keeps it visible.
    for node in &g.nodes {
        assert!(!node.is_hidden);
        assert!(node.is_reachable_from_tracked);
    }
    // Every parent edge points to an earlier node: no cycle is possible.
    for (k, node) in g.nodes.iter().enumerate() {
        for parent in &node.parents {
            let pos = g.nodes.iter().position(|n| n.oid == *parent).unwrap();
            assert!(pos < k);
        }
    }
    let b1_node = g.nodes.iter().find(|n| n.oid == oid("b1")).unwrap();
    assert_eq!(b1_node.branch_names, vec![b"refs/heads/feature".to_vec()]);
    // The builder consulted the cache for (head, main) and filled the miss.
    assert_eq!(cache.get(&oid("a2"), &oid("a1")), Some(Some(oid("a1"))));

    // With the branch-derived overrides suppressed, the projection decides:
    // b1 is hidden (it is not an ancestor of HEAD or main).
    let mut cache2 = MergeBaseCache::new();
    let g2 = make_graph(
        &repo,
        &mut cache2,
        &replayer,
        cursor,
        &Some(oid("a2")),
        &oid("a1"),
        &vec![oid("b1")],
        &branch_map,
        true,
    );
    let b1_node = g2.nodes.iter().find(|n| n.oid == oid("b1")).unwrap();
    assert!(b1_node.is_hidden);
}

#[test]
fn graph_builder_skips_dangling_seeds() {
    let repo = small_repo();
    let replayer = EventReplayer::from_events(Vec::new(), policy());
    let cursor = replayer.make_default_cursor();
    let mut cache = MergeBaseCache::new();
    let g = make_graph(
        &repo,
        &mut cache,
        &replayer,
        cursor,
        &Some(oid("dead")),
        &oid("a1"),
        &vec![],
        &BranchOidToNames { entries: vec![] },
        false,
    );
    // The dangling HEAD is skipped; main still seeds its ancestor chain.
    assert_eq!(g.nodes.len(), 1);
    assert_eq!(g.nodes[0].oid, oid("a1"));
}

fn two_node_graph(parent: &NonZeroOid, child: &NonZeroOid) -> Graph {
    Graph {
        nodes: vec![
            Node {
                oid: parent.clone(),
                parents: vec![],
                is_hidden: false,
                is_reachable_from_tracked: true,
                branch_names: vec![],
            },
            Node {
                oid: child.clone(),
                parents: vec![parent.clone()],
                is_hidden: false,
                is_reachable_from_tracked: true,
                branch_names: vec![],
            },
        ],
    }
}

#[test]
fn abandoned_child_of_rewritten_commit() {
    let a = oid("aa1");
    let b = oid("bb1");
    let c = oid("cc1");
    let graph = two_node_graph(&a, &c);
    let events = vec![Event::RewriteEvent {
        timestamp: 1,
        event_tx_id: EventTransactionId(1),
        old_commit_oid: a.clone(),
        new_commit_oid: MaybeZeroOid::NonZero(b.clone()),
    }];
    let replayer = EventReplayer::from_events(events, policy());
    let cursor = replayer.make_default_cursor();
    let result = find_abandoned_children(&graph, &replayer, cursor, &a);
    assert_eq!(result, Some((MaybeZeroOid::NonZero(b), vec![c])));
}

#[test]
fn no_rewrite_means_no_abandoned_children() {
    let a = oid("aa1");
    let c = oid("cc1");
    let x = oid("ee1");
    let graph = two_node_graph(&a, &c);
    let replayer = EventReplayer::from_events(Vec::new(), policy());
    let cursor = replayer.make_default_cursor();
    assert_eq!(find_abandoned_children(&graph, &replayer, cursor, &x), None);
}

#[test]
fn rewritten_child_is_not_abandoned() {
    let a = oid("aa1");
    let b = oid("bb1");
    let c = oid("cc1");
    let graph = two_node_graph(&a, &c);
    let events = vec![
        Event::RewriteEvent {
            timestamp: 1,
            event_tx_id: EventTransactionId(1),
            old_commit_oid: a.clone(),
            new_commit_oid: MaybeZeroOid::NonZero(b.clone()),
        },
        Event::RewriteEvent {
            timestamp: 1,
            event_tx_id: EventTransactionId(1),
            old_commit_oid: c.clone(),
            new_commit_oid: maybe("dd1"),
        },
    ];
    let replayer = EventReplayer::from_events(events, policy());
    let cursor = replayer.make_default_cursor();
    let result = find_abandoned_children(&graph, &replayer, cursor, &a);
    // The child was rewritten itself, so nothing is abandoned — but the
    // rewrite of `a` is still reported.
    assert_eq!(result, Some((MaybeZeroOid::NonZero(b), vec![])));
}

#[test]
fn latest_rewrite_wins_by_transaction_id() {
    let a = oid("aa1");
    let c = oid("cc1");
    let graph = two_node_graph(&a, &c);
    let events = vec![
        Event::RewriteEvent {
            timestamp: 2,
            event_tx_id: EventTransactionId(2),
            old_commit_oid: a.clone(),
            new_commit_oid: maybe("bb2"),
        },
        Event::RewriteEvent {
            timestamp: 1,
            event_tx_id: EventTransactionId(1),
            old_commit_oid: a.clone(),
            new_commit_oid: maybe("bb1"),
        },
    ];
    let replayer = EventReplayer::from_events(events, policy());
    let cursor = replayer.make_default_cursor();
    let (target, _children) =
        find_abandoned_children(&graph, &replayer, cursor, &a).unwrap();
    assert_eq!(target, maybe("bb2"));
}

#[test]
fn collect_abandoned_aggregates_and_dedups() {
    let a = oid("aa1");
    let c = oid("cc1");
    let graph = two_node_graph(&a, &c);
    let events = vec![Event::RewriteEvent {
        timestamp: 1,
        event_tx_id: EventTransactionId(1),
        old_commit_oid: a.clone(),
        new_commit_oid: maybe("bb1"),
    }];
    let replayer = EventReplayer::from_events(events, policy());
    let cursor = replayer.make_default_cursor();
    let branch_map = BranchOidToNames {
        entries: vec![BranchNameEntry {
            oid: a.clone(),
            names: vec![b"refs/heads/topic".to_vec()],
        }],
    };
    // The same rewritten commit listed twice must not double-count.
    let olds = vec![a.clone(), a.clone()];
    let (children, branches) =
        collect_abandoned(&graph, &replayer, cursor, &olds, &branch_map);
    assert_eq!(children, vec![c]);
    assert_eq!(branches, vec![b"refs/heads/topic".to_vec()]);
}
