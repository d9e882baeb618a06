//! Core model for a local Git-history productivity tool.
//!
//! The crate derives a replayable picture of what happened to a repository's
//! commits and references from a stream of events reported by Git's hooks:
//! an append-only, transaction-grouped event log; a replayer that projects
//! the log onto point-in-time reference positions and hidden-commit sets;
//! a memoized merge-base cache; a builder for the visible commit graph; and
//! an analysis that finds commits abandoned by a history rewrite.
//!
//! All I/O (the durable store, the hook line protocol on stdin, terminal
//! output) lives outside this crate; callers hand in plain values.

use vstd::prelude::*;

mod bytes;
mod event;
mod eventlog;
mod graph;
mod hooks;
mod mergebase;
mod replayer;
mod repo;
mod rewrite;
mod oid;

pub use bytes::{bytes_eq, bytes_lex_le, lex_le, lemma_lex_le_antisymmetric};
pub use event::{Event, EventTransactionId};
pub use eventlog::{EventLog, Transaction};
pub use hooks::{checkout_event, commit_event, empty_commit_drop_target, is_committed_transaction_state, post_commit_commit_oid, rewrite_errors_of_lines, rewrite_line_error, rewrite_pairs_of_lines, should_check_abandoned, head_ref_name, io_split_bytes, is_rewrite_event, is_spurious_rewrite, is_update_event, is_ws, parse_reference_transaction_line, parse_reference_transaction_lines, parse_rewrite_line, ref_line_fields, ref_line_update, ref_updates_of_lines, rewrite_events_from_lines, rewrite_line_model, rewritten_list_lines, rewritten_list_model, should_ignore_ref_updates, split_bytes, split_on, io_split_on, trim_bytes, trim_end, trim_start, trimmed, views_of, prepend_first, lemma_split_len};
pub use graph::{common_ancestor_at, compute_merge_base, head_main_seeds, is_merge_base_result, lemma_graph_acyclic, lemma_reached_from_at, make_graph, protected_seeds, reached_from, reaches_in, reaches_seed, seed_set, tracked_seeds, BranchNameEntry, BranchOidToNames, Graph, Node};
pub use mergebase::{lemma_lex_le_total, lemma_norm_pair_symmetric, lemma_put_idempotent, merge_base_view, norm_pair, CacheEntry, MergeBaseCache};
pub use repo::{is_rebase_underway, CommitEntry, RepoSnapshot, RepoState};
pub use rewrite::{collect_abandoned, find_abandoned_children, has_abandoned_report, in_byte_views_upto, is_abandoned_child, is_child_of};
pub use replayer::{apply_event, commit_mentioned_upto, in_oid_views, in_oid_views_upto, latest_rewrite_target, oid_in_list, visible_commit_set, empty_projection, excluded_in, lemma_excluded_ref_update_ignored, lemma_hide_unhide_round_trip, lemma_projection_deterministic, lemma_replay_from_empty, projection_of, EventCursor, EventReplayer, ProjModel, Projection};
pub use oid::{all_zero, hex_char, hex_of_bytes, hex_oid_model, hex_val, is_hex_digit, nibble_at, oid_bytes_of_hex, oid_to_hex, parse_maybe_zero_oid, parse_non_zero_oid, valid_hex_oid, zero_oid_hex, MaybeZeroOid, NonZeroOid, OID_NUM_BYTES};

verus! {

/// Failure taxonomy for the core: malformed input is reported per item and
/// never silently dropped.
#[derive(Clone, Copy, Debug, PartialEq, Eq)]
pub enum CoreError {
    /// A field that should hold a hexadecimal object id does not.
    InvalidOid,
    /// A hook-protocol line does not have the expected shape.
    MalformedLine,
    /// The repository and the core's assumptions have diverged (a defect,
    /// distinct from ordinary missing-object tolerance): e.g. HEAD names a
    /// commit the repository cannot resolve.
    LogicalInconsistency,
}

} // verus!
