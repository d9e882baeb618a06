//! Tests for the hook-protocol parsers and the small hook decisions.

use branchless::{
    checkout_event, empty_commit_drop_target, is_committed_transaction_state,
    is_rebase_underway, is_spurious_rewrite, parse_maybe_zero_oid, parse_non_zero_oid,
    parse_reference_transaction_line, parse_reference_transaction_lines, parse_rewrite_line,
    post_commit_commit_oid, rewrite_events_from_lines, rewritten_list_lines,
    should_check_abandoned, CoreError, Event, EventTransactionId, MaybeZeroOid, RepoState,
};

fn default_policy() -> Vec<Vec<u8>> {
    vec![
        b"ORIG_HEAD".to_vec(),
        b"CHERRY_PICK_HEAD".to_vec(),
        b"REBASE_HEAD".to_vec(),
        b"FETCH_HEAD".to_vec(),
    ]
}

#[test]
fn test_parse_reference_transaction_line() {
    let policy = default_policy();
    let timestamp = 0u64;
    let event_tx_id = EventTransactionId(789);

    let line = b"123abc 456def refs/heads/mybranch".to_vec();
    assert_eq!(
        parse_reference_transaction_line(&line, timestamp, event_tx_id, &policy).unwrap(),
        Some(Event::RefUpdateEvent {
            timestamp: 0,
            event_tx_id,
            old_oid: parse_maybe_zero_oid(&b"123abc".to_vec()).unwrap(),
            new_oid: parse_maybe_zero_oid(&b"456def".to_vec()).unwrap(),
            ref_name: b"refs/heads/mybranch".to_vec(),
            message: None,
        })
    );

    let line = b"123abc 456def ORIG_HEAD".to_vec();
    assert_eq!(
        parse_reference_transaction_line(&line, timestamp, event_tx_id, &policy).unwrap(),
        None
    );

    let line = b"there are not three fields here".to_vec();
    assert!(parse_reference_transaction_line(&line, timestamp, event_tx_id, &policy).is_err());
}

#[test]
fn test_is_rebase_underway() {
    assert!(!is_rebase_underway(&RepoState::Clean));
    assert!(is_rebase_underway(&RepoState::RebaseMerge));
}

#[test]
fn reference_transaction_batch_skips_bad_lines() {
    let policy = default_policy();
    let tx = EventTransactionId(1);
    let lines = vec![
        b"123abc 456def refs/heads/one".to_vec(),
        b"garbage".to_vec(),
        b"123abc 456def ORIG_HEAD".to_vec(),
        b"456def 0000000000000000000000000000000000000000 refs/heads/two".to_vec(),
    ];
    let events = parse_reference_transaction_lines(&lines, 7, tx, &policy);
    assert_eq!(events.len(), 2);
    match &events[0] {
        Event::RefUpdateEvent { ref_name, timestamp, event_tx_id, .. } => {
            assert_eq!(ref_name, &b"refs/heads/one".to_vec());
            assert_eq!(*timestamp, 7);
            assert_eq!(*event_tx_id, tx);
        }
        _ => panic!("expected a reference update"),
    }
    match &events[1] {
        Event::RefUpdateEvent { ref_name, new_oid, .. } => {
            assert_eq!(ref_name, &b"refs/heads/two".to_vec());
            assert_eq!(new_oid, &MaybeZeroOid::Zero);
        }
        _ => panic!("expected a reference update"),
    }
}

#[test]
fn rewrite_line_parses_first_two_fields() {
    let (old, new) = parse_rewrite_line(&b"  123abc 456def extra-field\n".to_vec()).unwrap();
    assert_eq!(old, parse_non_zero_oid(&b"123abc".to_vec()).unwrap());
    assert_eq!(new, parse_maybe_zero_oid(&b"456def".to_vec()).unwrap());

    assert_eq!(
        parse_rewrite_line(&b"only-one-field".to_vec()),
        Err(CoreError::MalformedLine)
    );
    assert_eq!(
        parse_rewrite_line(&b"zz zz".to_vec()),
        Err(CoreError::InvalidOid)
    );
    // The old id must name a real object: the zero sentinel is rejected.
    assert_eq!(
        parse_rewrite_line(
            &b"0000000000000000000000000000000000000000 123abc".to_vec()
        ),
        Err(CoreError::InvalidOid)
    );
}

#[test]
fn rewrite_batch_skips_bad_lines() {
    let tx = EventTransactionId(3);
    let lines = vec![
        b"123abc 456def".to_vec(),
        b"nope".to_vec(),
        b"zz zz".to_vec(),
        b"456def 0000000000000000000000000000000000000000".to_vec(),
    ];
    let (pairs, events, errors) = rewrite_events_from_lines(&lines, 9, tx);
    // The two well-formed lines are processed, in order ...
    assert_eq!(pairs.len(), 2);
    assert_eq!(events.len(), 2);
    assert_eq!(pairs[0].0, parse_non_zero_oid(&b"123abc".to_vec()).unwrap());
    assert_eq!(pairs[1].1, MaybeZeroOid::Zero);
    match &events[0] {
        Event::RewriteEvent { timestamp, event_tx_id, old_commit_oid, new_commit_oid } => {
            assert_eq!(*timestamp, 9);
            assert_eq!(*event_tx_id, tx);
            assert_eq!(old_commit_oid, &parse_non_zero_oid(&b"123abc".to_vec()).unwrap());
            assert_eq!(new_commit_oid, &parse_maybe_zero_oid(&b"456def".to_vec()).unwrap());
        }
        _ => panic!("expected a rewrite event"),
    }
    // ... and each malformed line is reported, not fatal to the batch.
    assert_eq!(errors, vec![CoreError::MalformedLine, CoreError::InvalidOid]);
}

#[test]
fn committed_transaction_state_gate() {
    assert!(is_committed_transaction_state(&b"committed".to_vec()));
    assert!(!is_committed_transaction_state(&b"prepared".to_vec()));
    assert!(!is_committed_transaction_state(&b"aborted".to_vec()));
}

#[test]
fn abandoned_check_gate() {
    assert!(should_check_abandoned(true, false));
    assert!(!should_check_abandoned(true, true));
    assert!(!should_check_abandoned(false, false));
}

#[test]
fn post_commit_decision_ladder() {
    let head = parse_non_zero_oid(&b"123abc".to_vec()).unwrap();
    assert_eq!(post_commit_commit_oid(&None, true), Ok(None));
    assert_eq!(
        post_commit_commit_oid(&Some(head.clone()), true),
        Ok(Some(head.clone()))
    );
    assert_eq!(
        post_commit_commit_oid(&Some(head), false),
        Err(CoreError::LogicalInconsistency)
    );
}

#[test]
fn checkout_event_moves_head() {
    let tx = EventTransactionId(4);
    let e = checkout_event(&b"123abc".to_vec(), &b"456def".to_vec(), 11, tx).unwrap();
    assert_eq!(
        e,
        Event::RefUpdateEvent {
            timestamp: 11,
            event_tx_id: tx,
            old_oid: parse_maybe_zero_oid(&b"123abc".to_vec()).unwrap(),
            new_oid: parse_maybe_zero_oid(&b"456def".to_vec()).unwrap(),
            ref_name: b"HEAD".to_vec(),
            message: None,
        }
    );
    assert_eq!(
        checkout_event(&b"xyz".to_vec(), &b"456def".to_vec(), 11, tx),
        Err(CoreError::InvalidOid)
    );
}

#[test]
fn empty_commit_decision() {
    let parent = parse_non_zero_oid(&b"123abc".to_vec()).unwrap();
    let other = parse_non_zero_oid(&b"456def".to_vec()).unwrap();
    assert_eq!(
        empty_commit_drop_target(true, &vec![parent.clone()]),
        Some(parent.clone())
    );
    assert_eq!(empty_commit_drop_target(false, &vec![parent.clone()]), None);
    assert_eq!(empty_commit_drop_target(true, &vec![]), None);
    assert_eq!(
        empty_commit_drop_target(true, &vec![parent.clone(), other]),
        None
    );
}

#[test]
fn rewritten_list_renders_both_records() {
    let old = parse_non_zero_oid(&b"123abc".to_vec()).unwrap();
    let head = parse_non_zero_oid(&b"456def".to_vec()).unwrap();
    let zeros = "0".repeat(40);
    let expected = format!(
        "123abc{} {}\n456def{} {}\n",
        "0".repeat(34),
        zeros,
        "0".repeat(34),
        zeros
    );
    assert_eq!(rewritten_list_lines(&old, &head), expected.as_bytes().to_vec());
}

#[test]
fn spurious_rewrite_detection() {
    assert!(is_spurious_rewrite(&b"amend".to_vec(), true));
    assert!(!is_spurious_rewrite(&b"amend".to_vec(), false));
    assert!(!is_spurious_rewrite(&b"rebase".to_vec(), true));
}

#[test]
fn oid_parsing_rejects_bad_fields() {
    assert_eq!(parse_non_zero_oid(&b"".to_vec()), Err(CoreError::InvalidOid));
    assert_eq!(
        parse_non_zero_oid(&vec![b'1'; 41]),
        Err(CoreError::InvalidOid)
    );
    assert_eq!(parse_non_zero_oid(&b"xyz".to_vec()), Err(CoreError::InvalidOid));
    assert_eq!(
        parse_non_zero_oid(&b"0000000000000000000000000000000000000000".to_vec()),
        Err(CoreError::InvalidOid)
    );
    assert_eq!(
        parse_maybe_zero_oid(&b"0000000000000000000000000000000000000000".to_vec()),
        Ok(MaybeZeroOid::Zero)
    );
    assert_eq!(parse_maybe_zero_oid(&b"0".to_vec()), Ok(MaybeZeroOid::Zero));
}
