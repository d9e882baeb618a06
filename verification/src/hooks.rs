//! The compute side of the Git hook callbacks.
//!
//! The embedding program reads the hook line protocols from standard input
//! and hands the raw bytes here; these functions parse them into typed
//! events. A malformed line is never fatal to its batch: it is skipped and
//! reported for logging, and the remaining lines are still processed.

use vstd::prelude::*;

use crate::bytes::bytes_eq;
use crate::event::{Event, EventTransactionId};
use crate::oid::{
    all_zero, hex_of_bytes, hex_oid_model, oid_bytes_of_hex, oid_to_hex, parse_maybe_zero_oid,
    parse_non_zero_oid, valid_hex_oid, zero_oid_hex, MaybeZeroOid, NonZeroOid,
};
use crate::replayer::excluded_in;
use crate::CoreError;

verus! {

/// Whether `b` is an ASCII whitespace byte.
pub open spec fn is_ws(b: u8) -> bool {
    b == 32 || (9 <= b <= 13)
}

/// `s` without leading whitespace.
pub open spec fn trim_start(s: Seq<u8>) -> Seq<u8>
    decreases s.len(),
{
    if s.len() > 0 && is_ws(s[0]) {
        trim_start(s.skip(1))
    } else {
        s
    }
}

/// `s` without trailing whitespace.
pub open spec fn trim_end(s: Seq<u8>) -> Seq<u8>
    decreases s.len(),
{
    if s.len() > 0 && is_ws(s.last()) {
        trim_end(s.drop_last())
    } else {
        s
    }
}

/// `s` without leading or trailing whitespace.
pub open spec fn trimmed(s: Seq<u8>) -> Seq<u8> {
    trim_end(trim_start(s))
}

/// `s` split on `sep`, keeping empty fields, as text splitting does:
/// the empty input has one empty field, and a trailing separator yields a
/// trailing empty field.
pub open spec fn split_bytes(s: Seq<u8>, sep: u8) -> Seq<Seq<u8>>
    decreases s.len(),
{
    if s.len() == 0 {
        seq![Seq::<u8>::empty()]
    } else if s[0] == sep {
        seq![Seq::<u8>::empty()].add(split_bytes(s.skip(1), sep))
    } else {
        let rest = split_bytes(s.skip(1), sep);
        seq![seq![s[0]].add(rest[0])].add(rest.skip(1))
    }
}

/// `s` split on `sep` as a buffered reader's byte splitter does: the empty
/// input has no fields, and a trailing separator yields no trailing empty
/// field.
pub open spec fn io_split_bytes(s: Seq<u8>, sep: u8) -> Seq<Seq<u8>> {
    if s.len() == 0 {
        Seq::empty()
    } else if s.last() == sep {
        split_bytes(s.drop_last(), sep)
    } else {
        split_bytes(s, sep)
    }
}

/// Splitting yields at least one field.
pub proof fn lemma_split_len(s: Seq<u8>, sep: u8)
    ensures
        split_bytes(s, sep).len() >= 1,
    decreases s.len(),
{
    if s.len() > 0 {
        lemma_split_len(s.skip(1), sep);
    }
}

/// The views of a list of byte vectors.
pub open spec fn views_of(s: Seq<Vec<u8>>) -> Seq<Seq<u8>> {
    s.map_values(|v: Vec<u8>| v@)
}

/// The first field of `ss` with `pre` prepended, then the rest of `ss`.
pub open spec fn prepend_first(pre: Seq<u8>, ss: Seq<Seq<u8>>) -> Seq<Seq<u8>> {
    seq![pre.add(ss[0])].add(ss.skip(1))
}

/// `line` without leading and trailing ASCII whitespace.
pub fn trim_bytes(line: &Vec<u8>) -> (r: Vec<u8>)
    ensures
        r@ == trimmed(line@),
{
    let mut s: usize = 0;
    proof {
        assert(line@.skip(0) =~= line@);
    }
    while s < line.len() && (line[s] == 32 || (9 <= line[s] && line[s] <= 13))
        invariant
            s <= line@.len(),
            trim_start(line@) == trim_start(line@.skip(s as int)),
        decreases line@.len() - s,
    {
        proof {
            assert(line@.skip(s as int)[0] == line@[s as int]);
            assert(line@.skip(s as int).skip(1) =~= line@.skip(s + 1));
        }
        s += 1;
    }
    proof {
        if s < line@.len() {
            assert(!is_ws(line@.skip(s as int)[0]));
        } else {
            assert(line@.skip(s as int).len() == 0);
        }
        assert(trim_start(line@) == line@.skip(s as int));
    }
    let mut e: usize = line.len();
    proof {
        assert(line@.skip(s as int).take(line@.len() - s as int) =~= line@.skip(s as int));
    }
    while e > s && (line[e - 1] == 32 || (9 <= line[e - 1] && line[e - 1] <= 13))
        invariant
            s <= e <= line@.len(),
            trim_start(line@) == line@.skip(s as int),
            trim_end(line@.skip(s as int)) == trim_end(
                line@.skip(s as int).take(e - s as int),
            ),
        decreases e,
    {
        proof {
            let u = line@.skip(s as int).take(e - s as int);
            assert(u.last() == line@[e - 1]);
            assert(u.drop_last() =~= line@.skip(s as int).take(e - 1 - s as int));
        }
        e -= 1;
    }
    proof {
        let u = line@.skip(s as int).take(e - s as int);
        if e > s {
            assert(u.last() == line@[e - 1]);
            assert(!is_ws(u.last()));
        } else {
            assert(u.len() == 0);
        }
        assert(trim_end(u) == u);
    }
    let mut r: Vec<u8> = Vec::new();
    let mut i: usize = s;
    while i < e
        invariant
            s <= i <= e <= line@.len(),
            r@ =~= line@.skip(s as int).take(i - s as int),
        decreases e - i,
    {
        r.push(line[i]);
        proof {
            assert(r@ =~= line@.skip(s as int).take(i + 1 - s as int));
        }
        i += 1;
    }
    proof {
        assert(r@ =~= line@.skip(s as int).take(e - s as int));
    }
    r
}

/// `line` split on the separator byte, keeping empty fields.
pub fn split_on(line: &Vec<u8>, sep: u8) -> (r: Vec<Vec<u8>>)
    ensures
        views_of(r@) == split_bytes(line@, sep),
        r@.len() == split_bytes(line@, sep).len(),
        forall|k: int| 0 <= k < r@.len() ==> r@[k]@ == split_bytes(line@, sep)[k],
{
    let ghost whole = split_bytes(line@, sep);
    let mut fields: Vec<Vec<u8>> = Vec::new();
    let mut cur: Vec<u8> = Vec::new();
    let mut i: usize = 0;
    proof {
        lemma_split_len(line@.skip(0), sep);
        assert(line@.skip(0) =~= line@);
        assert(views_of(fields@) =~= Seq::<Seq<u8>>::empty());
        assert(cur@ =~= Seq::<u8>::empty());
        assert(prepend_first(cur@, split_bytes(line@, sep)) =~= split_bytes(line@, sep));
    }
    while i < line.len()
        invariant
            i <= line@.len(),
            whole == split_bytes(line@, sep),
            views_of(fields@).add(
                prepend_first(cur@, split_bytes(line@.skip(i as int), sep)),
            ) =~= whole,
        decreases line@.len() - i,
    {
        let ghost oldfields = fields@;
        let ghost oldcur = cur@;
        let ghost suffix = split_bytes(line@.skip(i as int), sep);
        proof {
            assert(line@.skip(i as int)[0] == line@[i as int]);
            assert(line@.skip(i as int).skip(1) =~= line@.skip(i + 1));
            lemma_split_len(line@.skip(i + 1), sep);
        }
        if line[i] == sep {
            fields.push(cur);
            cur = Vec::new();
            proof {
                let rest = split_bytes(line@.skip(i + 1), sep);
                assert(suffix == seq![Seq::<u8>::empty()].add(rest));
                assert(suffix[0] =~= Seq::<u8>::empty());
                assert(oldcur.add(suffix[0]) =~= oldcur);
                assert(suffix.skip(1) =~= rest);
                assert(views_of(fields@) =~= views_of(oldfields).push(oldcur));
                assert(cur@.add(rest[0]) =~= rest[0]);
                assert(prepend_first(cur@, rest) =~= seq![rest[0]].add(rest.skip(1)));
                assert(seq![rest[0]].add(rest.skip(1)) =~= rest);
                assert(views_of(fields@).add(prepend_first(cur@, rest)) =~= views_of(
                    oldfields,
                ).add(seq![oldcur]).add(rest));
                assert(prepend_first(oldcur, suffix) =~= seq![oldcur].add(rest));
                assert(views_of(oldfields).add(prepend_first(oldcur, suffix)) =~= views_of(
                    oldfields,
                ).add(seq![oldcur]).add(rest));
            }
        } else {
            cur.push(line[i]);
            proof {
                let rest = split_bytes(line@.skip(i + 1), sep);
                assert(suffix == seq![seq![line@[i as int]].add(rest[0])].add(rest.skip(1)));
                assert(suffix[0] =~= seq![line@[i as int]].add(rest[0]));
                assert(suffix.skip(1) =~= rest.skip(1));
                assert(cur@ =~= oldcur.push(line@[i as int]));
                assert(oldcur.add(suffix[0]) =~= cur@.add(rest[0]));
                assert(prepend_first(oldcur, suffix) =~= prepend_first(cur@, rest));
            }
        }
        i += 1;
    }
    proof {
        assert(line@.skip(i as int).len() == 0);
        assert(split_bytes(line@.skip(i as int), sep) == seq![Seq::<u8>::empty()]);
    }
    let ghost oldfields = fields@;
    let ghost oldcur = cur@;
    fields.push(cur);
    proof {
        assert(views_of(fields@) =~= views_of(oldfields).push(oldcur));
        let suffix = seq![Seq::<u8>::empty()];
        assert(oldcur.add(suffix[0]) =~= oldcur);
        assert(suffix.skip(1) =~= Seq::<Seq<u8>>::empty());
        assert(prepend_first(oldcur, suffix) =~= seq![oldcur]);
        assert(views_of(oldfields).add(seq![oldcur]) =~= views_of(fields@));
        assert(views_of(fields@) =~= whole);
        assert forall|k: int| 0 <= k < fields@.len() implies fields@[k]@ == whole[k] by {
            assert(views_of(fields@)[k] == fields@[k]@);
        }
    }
    fields
}

/// `line` split as the byte reader of the reference-transaction hook splits
/// it: no field after a trailing separator, none at all for an empty line.
pub fn io_split_on(line: &Vec<u8>, sep: u8) -> (r: Vec<Vec<u8>>)
    ensures
        r@.len() == io_split_bytes(line@, sep).len(),
        forall|k: int| 0 <= k < r@.len() ==> r@[k]@ == io_split_bytes(line@, sep)[k],
{
    if line.len() == 0 {
        return Vec::new();
    }
    if line[line.len() - 1] == sep {
        let mut head: Vec<u8> = Vec::new();
        let mut i: usize = 0;
        while i < line.len() - 1
            invariant
                line@.len() > 0,
                i <= line@.len() - 1,
                head@ =~= line@.drop_last().take(i as int),
            decreases line@.len() - 1 - i,
        {
            head.push(line[i]);
            proof {
                assert(head@ =~= line@.drop_last().take(i + 1 as int));
            }
            i += 1;
        }
        proof {
            assert(head@ =~= line@.drop_last());
        }
        split_on(&head, sep)
    } else {
        split_on(line, sep)
    }
}

/// Whether a reference name is matched by the injected exclusion policy
/// (transient refs whose updates are never recorded as events).
pub fn should_ignore_ref_updates(policy: &Vec<Vec<u8>>, ref_name: &Vec<u8>) -> (r: bool)
    ensures
        r == excluded_in(policy@, ref_name@),
{
    let mut i: usize = 0;
    while i < policy.len()
        invariant
            i <= policy@.len(),
            forall|j: int| 0 <= j < i ==> policy@[j]@ != ref_name@,
        decreases policy@.len() - i,
    {
        if bytes_eq(&policy[i], ref_name) {
            return true;
        }
        i += 1;
    }
    false
}

/// What a reference-transaction line denotes: the reference name and the
/// old and new positions — or nothing, when the line is malformed or names
/// an excluded reference.
pub open spec fn ref_line_fields(line: Seq<u8>) -> Seq<Seq<u8>> {
    io_split_bytes(line, 32)
}

/// Parses one line of the reference-transaction hook protocol
/// (`old-oid new-oid ref-name`, space-separated). A line with any other
/// field count is malformed. An excluded reference name yields `Ok(None)`
/// before the ids are even inspected; otherwise both ids must be valid hex
/// fields and the result is the reference-update event.
pub fn parse_reference_transaction_line(
    line: &Vec<u8>,
    timestamp: u64,
    event_tx_id: EventTransactionId,
    policy: &Vec<Vec<u8>>,
) -> (r: Result<Option<Event>, CoreError>)
    ensures
        ref_line_fields(line@).len() != 3 ==> r == Result::<
            Option<Event>,
            CoreError,
        >::Err(CoreError::MalformedLine),
        ref_line_fields(line@).len() == 3 && excluded_in(policy@, ref_line_fields(line@)[2]) ==> r
            == Result::<Option<Event>, CoreError>::Ok(None),
        ref_line_fields(line@).len() == 3 && !excluded_in(policy@, ref_line_fields(line@)[2])
            ==> {
            let fs = ref_line_fields(line@);
            if valid_hex_oid(fs[0]) && valid_hex_oid(fs[1]) {
                r matches Ok(Some(e)) && e.wf() && (e matches Event::RefUpdateEvent {
                    timestamp: ts,
                    event_tx_id: tx,
                    ref_name,
                    old_oid,
                    new_oid,
                    message,
                } && ts == timestamp && tx == event_tx_id && ref_name@ == fs[2] && old_oid@
                    == hex_oid_model(fs[0]) && new_oid@ == hex_oid_model(fs[1])
                    && message is None)
            } else {
                r == Result::<Option<Event>, CoreError>::Err(CoreError::InvalidOid)
            }
        },
{
    let mut fields = io_split_on(line, 32);
    if fields.len() != 3 {
        return Err(CoreError::MalformedLine);
    }
    if should_ignore_ref_updates(policy, &fields[2]) {
        return Ok(None);
    }
    let old_oid = match parse_maybe_zero_oid(&fields[0]) {
        Ok(o) => o,
        Err(e) => {
            return Err(e);
        },
    };
    let new_oid = match parse_maybe_zero_oid(&fields[1]) {
        Ok(o) => o,
        Err(e) => {
            return Err(e);
        },
    };
    let ref_name = fields.pop().unwrap();
    Ok(
        Some(
            Event::RefUpdateEvent {
                timestamp,
                event_tx_id,
                ref_name,
                old_oid,
                new_oid,
                message: None,
            },
        ),
    )
}

/// What a reference-transaction line contributes to the event batch.
pub open spec fn ref_line_update(line: Seq<u8>, policy: Seq<Vec<u8>>) -> Option<
    (Seq<u8>, Option<Seq<u8>>, Option<Seq<u8>>),
> {
    let fs = ref_line_fields(line);
    if fs.len() == 3 && !excluded_in(policy, fs[2]) && valid_hex_oid(fs[0]) && valid_hex_oid(
        fs[1],
    ) {
        Some((fs[2], hex_oid_model(fs[0]), hex_oid_model(fs[1])))
    } else {
        None
    }
}

/// The reference updates that a batch of lines contributes, in order, with
/// malformed and excluded lines skipped.
pub open spec fn ref_updates_of_lines(lines: Seq<Vec<u8>>, policy: Seq<Vec<u8>>) -> Seq<
    (Seq<u8>, Option<Seq<u8>>, Option<Seq<u8>>),
>
    decreases lines.len(),
{
    if lines.len() == 0 {
        Seq::empty()
    } else {
        ref_updates_of_lines(lines.drop_last(), policy).add(
            match ref_line_update(lines.last()@, policy) {
                Some(t) => seq![t],
                None => Seq::empty(),
            },
        )
    }
}

/// Whether `e` is the reference-update event for `t` at this time and
/// transaction.
pub open spec fn is_update_event(
    e: Event,
    timestamp: u64,
    event_tx_id: EventTransactionId,
    t: (Seq<u8>, Option<Seq<u8>>, Option<Seq<u8>>),
) -> bool {
    e matches Event::RefUpdateEvent {
        timestamp: ts,
        event_tx_id: tx,
        ref_name,
        old_oid,
        new_oid,
        message,
    } && ts == timestamp && tx == event_tx_id && ref_name@ == t.0 && old_oid@ == t.1 && new_oid@
        == t.2 && message is None && e.wf()
}

/// Parses a whole reference-transaction batch. Each line that is malformed
/// or names an excluded reference is skipped (never fatal to the batch);
/// every produced event carries the one transaction id of the batch.
pub fn parse_reference_transaction_lines(
    lines: &Vec<Vec<u8>>,
    timestamp: u64,
    event_tx_id: EventTransactionId,
    policy: &Vec<Vec<u8>>,
) -> (r: Vec<Event>)
    ensures
        r@.len() == ref_updates_of_lines(lines@, policy@).len(),
        forall|k: int|
            0 <= k < r@.len() ==> is_update_event(
                #[trigger] r@[k],
                timestamp,
                event_tx_id,
                ref_updates_of_lines(lines@, policy@)[k],
            ),
{
    let mut out: Vec<Event> = Vec::new();
    let mut i: usize = 0;
    proof {
        assert(lines@.take(0) =~= Seq::<Vec<u8>>::empty());
    }
    while i < lines.len()
        invariant
            i <= lines@.len(),
            out@.len() == ref_updates_of_lines(lines@.take(i as int), policy@).len(),
            forall|k: int|
                0 <= k < out@.len() ==> is_update_event(
                    #[trigger] out@[k],
                    timestamp,
                    event_tx_id,
                    ref_updates_of_lines(lines@.take(i as int), policy@)[k],
                ),
        decreases lines@.len() - i,
    {
        let ghost prev = ref_updates_of_lines(lines@.take(i as int), policy@);
        match parse_reference_transaction_line(&lines[i], timestamp, event_tx_id, policy) {
            Ok(Some(e)) => {
                out.push(e);
            },
            Ok(None) => {},
            Err(_) => {},
        }
        proof {
            let cur = lines@.take(i + 1);
            assert(cur.drop_last() =~= lines@.take(i as int));
            assert(cur.last() == lines@[i as int]);
            assert(ref_updates_of_lines(cur, policy@) == prev.add(
                match ref_line_update(lines@[i as int]@, policy@) {
                    Some(t) => seq![t],
                    None => Seq::<(Seq<u8>, Option<Seq<u8>>, Option<Seq<u8>>)>::empty(),
                },
            ));
        }
        i += 1;
    }
    proof {
        assert(lines@.take(lines@.len() as int) =~= lines@);
    }
    out
}

/// What a post-rewrite line denotes: the rewritten commit and its
/// replacement.
pub open spec fn rewrite_line_model(line: Seq<u8>) -> Option<(Seq<u8>, Option<Seq<u8>>)> {
    let fs = split_bytes(trimmed(line), 32);
    if fs.len() >= 2 && valid_hex_oid(fs[0]) && !all_zero(oid_bytes_of_hex(fs[0]))
        && valid_hex_oid(fs[1]) {
        Some((oid_bytes_of_hex(fs[0]), hex_oid_model(fs[1])))
    } else {
        None
    }
}

/// Parses one line of the post-rewrite hook protocol
/// (`old-oid new-oid [extra]`, space-separated after trimming): the old id
/// must name a real object, the new one may be the zero sentinel (the
/// commit was dropped), and any further fields are ignored.
pub fn parse_rewrite_line(line: &Vec<u8>) -> (r: Result<(NonZeroOid, MaybeZeroOid), CoreError>)
    ensures
        r is Ok <==> rewrite_line_model(line@) is Some,
        r is Ok ==> {
            let m = rewrite_line_model(line@)->0;
            (r->Ok_0).0@ == m.0 && (r->Ok_0).1@ == m.1 && (r->Ok_0).0.wf() && (r->Ok_0).1.wf()
        },
        r is Err ==> r == Result::<(NonZeroOid, MaybeZeroOid), CoreError>::Err(
            rewrite_line_error(line@),
        ),
{
    let t = trim_bytes(line);
    let fields = split_on(&t, 32);
    if fields.len() < 2 {
        return Err(CoreError::MalformedLine);
    }
    let old_commit_oid = match parse_non_zero_oid(&fields[0]) {
        Ok(o) => o,
        Err(e) => {
            return Err(e);
        },
    };
    let new_commit_oid = match parse_maybe_zero_oid(&fields[1]) {
        Ok(o) => o,
        Err(e) => {
            return Err(e);
        },
    };
    Ok((old_commit_oid, new_commit_oid))
}

/// The error a malformed post-rewrite line is reported with: too few
/// fields, or an id field that does not parse.
pub open spec fn rewrite_line_error(line: Seq<u8>) -> CoreError {
    if split_bytes(trimmed(line), 32).len() < 2 {
        CoreError::MalformedLine
    } else {
        CoreError::InvalidOid
    }
}

/// The rewrites that a batch of lines denotes, in order, with malformed
/// lines skipped.
pub open spec fn rewrite_pairs_of_lines(lines: Seq<Vec<u8>>) -> Seq<(Seq<u8>, Option<Seq<u8>>)>
    decreases lines.len(),
{
    if lines.len() == 0 {
        Seq::empty()
    } else {
        rewrite_pairs_of_lines(lines.drop_last()).add(
            match rewrite_line_model(lines.last()@) {
                Some(m) => seq![m],
                None => Seq::empty(),
            },
        )
    }
}

/// The errors of a batch's malformed lines, in line order.
pub open spec fn rewrite_errors_of_lines(lines: Seq<Vec<u8>>) -> Seq<CoreError>
    decreases lines.len(),
{
    if lines.len() == 0 {
        Seq::empty()
    } else {
        rewrite_errors_of_lines(lines.drop_last()).add(
            match rewrite_line_model(lines.last()@) {
                Some(_) => Seq::empty(),
                None => seq![rewrite_line_error(lines.last()@)],
            },
        )
    }
}

/// Whether `e` is the rewrite event for `m` at this time and transaction.
pub open spec fn is_rewrite_event(
    e: Event,
    timestamp: u64,
    event_tx_id: EventTransactionId,
    m: (Seq<u8>, Option<Seq<u8>>),
) -> bool {
    e matches Event::RewriteEvent {
        timestamp: ts,
        event_tx_id: tx,
        old_commit_oid,
        new_commit_oid,
    } && ts == timestamp && tx == event_tx_id && old_commit_oid@ == m.0 && new_commit_oid@ == m.1
        && e.wf()
}

/// Parses a whole post-rewrite batch. A malformed line is skipped and
/// reported, never fatal to the batch: the well-formed lines yield their
/// (old, new) pairs in line order and one rewrite event each, all carrying
/// the batch's transaction id, and the malformed lines yield their errors,
/// in line order, for the caller to log.
pub fn rewrite_events_from_lines(
    lines: &Vec<Vec<u8>>,
    timestamp: u64,
    event_tx_id: EventTransactionId,
) -> (r: (Vec<(NonZeroOid, MaybeZeroOid)>, Vec<Event>, Vec<CoreError>))
    ensures
        r.0@.len() == rewrite_pairs_of_lines(lines@).len(),
        r.1@.len() == rewrite_pairs_of_lines(lines@).len(),
        forall|k: int|
            0 <= k < r.0@.len() ==> {
                let m = rewrite_pairs_of_lines(lines@)[k];
                &&& (#[trigger] r.0@[k]).0@ == m.0
                &&& r.0@[k].1@ == m.1
                &&& r.0@[k].0.wf()
                &&& r.0@[k].1.wf()
                &&& is_rewrite_event(r.1@[k], timestamp, event_tx_id, m)
            },
        r.2@ == rewrite_errors_of_lines(lines@),
{
    let mut pairs: Vec<(NonZeroOid, MaybeZeroOid)> = Vec::new();
    let mut events: Vec<Event> = Vec::new();
    let mut errors: Vec<CoreError> = Vec::new();
    let mut i: usize = 0;
    proof {
        assert(lines@.take(0) =~= Seq::<Vec<u8>>::empty());
        assert(errors@ =~= rewrite_errors_of_lines(lines@.take(0)));
    }
    while i < lines.len()
        invariant
            i <= lines@.len(),
            pairs@.len() == rewrite_pairs_of_lines(lines@.take(i as int)).len(),
            events@.len() == pairs@.len(),
            forall|k: int|
                0 <= k < pairs@.len() ==> {
                    let m = rewrite_pairs_of_lines(lines@.take(i as int))[k];
                    &&& (#[trigger] pairs@[k]).0@ == m.0
                    &&& pairs@[k].1@ == m.1
                    &&& pairs@[k].0.wf()
                    &&& pairs@[k].1.wf()
                    &&& is_rewrite_event(events@[k], timestamp, event_tx_id, m)
                },
            errors@ == rewrite_errors_of_lines(lines@.take(i as int)),
        decreases lines@.len() - i,
    {
        let ghost prevp = rewrite_pairs_of_lines(lines@.take(i as int));
        let ghost preve = rewrite_errors_of_lines(lines@.take(i as int));
        match parse_rewrite_line(&lines[i]) {
            Ok(pair) => {
                let (old_commit_oid, new_commit_oid) = pair;
                events.push(
                    Event::RewriteEvent {
                        timestamp,
                        event_tx_id,
                        old_commit_oid: old_commit_oid.duplicate(),
                        new_commit_oid: new_commit_oid.duplicate(),
                    },
                );
                pairs.push((old_commit_oid, new_commit_oid));
            },
            Err(e) => {
                errors.push(e);
            },
        }
        proof {
            let cur = lines@.take(i + 1);
            assert(cur.drop_last() =~= lines@.take(i as int));
            assert(cur.last() == lines@[i as int]);
            assert(rewrite_pairs_of_lines(cur) == prevp.add(
                match rewrite_line_model(lines@[i as int]@) {
                    Some(m) => seq![m],
                    None => Seq::<(Seq<u8>, Option<Seq<u8>>)>::empty(),
                },
            ));
            assert(rewrite_errors_of_lines(cur) == preve.add(
                match rewrite_line_model(lines@[i as int]@) {
                    Some(_) => Seq::<CoreError>::empty(),
                    None => seq![rewrite_line_error(lines@[i as int]@)],
                },
            ));
            if rewrite_line_model(lines@[i as int]@) is Some {
                assert(errors@ =~= rewrite_errors_of_lines(cur));
            } else {
                assert(errors@ =~= rewrite_errors_of_lines(cur));
            }
        }
        i += 1;
    }
    proof {
        assert(lines@.take(lines@.len() as int) =~= lines@);
    }
    (pairs, events, errors)
}

/// The name of the HEAD reference, as bytes.
pub open spec fn head_ref_name() -> Seq<u8> {
    seq![72u8, 69u8, 65u8, 68u8]
}

/// Builds the reference-update event that the post-checkout hook records:
/// HEAD moved from the previous to the current position. Both ids come as
/// hex fields from the hook's arguments.
pub fn checkout_event(
    previous_head_oid: &Vec<u8>,
    current_head_oid: &Vec<u8>,
    timestamp: u64,
    event_tx_id: EventTransactionId,
) -> (r: Result<Event, CoreError>)
    ensures
        r is Ok <==> valid_hex_oid(previous_head_oid@) && valid_hex_oid(current_head_oid@),
        r is Err ==> r == Result::<Event, CoreError>::Err(CoreError::InvalidOid),
        r is Ok ==> r->Ok_0.wf() && (r->Ok_0 matches Event::RefUpdateEvent {
            timestamp: ts,
            event_tx_id: tx,
            ref_name,
            old_oid,
            new_oid,
            message,
        } && ts == timestamp && tx == event_tx_id && ref_name@ == head_ref_name() && old_oid@
            == hex_oid_model(previous_head_oid@) && new_oid@ == hex_oid_model(current_head_oid@)
            && message is None),
{
    let old_oid = match parse_maybe_zero_oid(previous_head_oid) {
        Ok(o) => o,
        Err(e) => {
            return Err(e);
        },
    };
    let new_oid = match parse_maybe_zero_oid(current_head_oid) {
        Ok(o) => o,
        Err(e) => {
            return Err(e);
        },
    };
    let mut ref_name: Vec<u8> = Vec::new();
    ref_name.push(72);
    ref_name.push(69);
    ref_name.push(65);
    ref_name.push(68);
    proof {
        assert(ref_name@ =~= head_ref_name());
    }
    Ok(
        Event::RefUpdateEvent {
            timestamp,
            event_tx_id,
            ref_name,
            old_oid,
            new_oid,
            message: None,
        },
    )
}

/// Builds the commit event that the post-commit hook records for the
/// commit now at HEAD.
pub fn commit_event(commit_oid: NonZeroOid, timestamp: u64, event_tx_id: EventTransactionId) -> (r:
    Event)
    requires
        commit_oid.wf(),
    ensures
        r.wf(),
        r matches Event::CommitEvent { timestamp: ts, event_tx_id: tx, commit_oid: c } && ts
            == timestamp && tx == event_tx_id && c@ == commit_oid@,
{
    Event::CommitEvent { timestamp, event_tx_id, commit_oid }
}

/// Whether the post-rewrite event pair is spurious: an amend reported while
/// a rebase is underway (the rebase will report the rewrite itself).
pub fn is_spurious_rewrite(rewrite_type: &Vec<u8>, rebase_underway: bool) -> (r: bool)
    ensures
        r == (rewrite_type@ == seq![97u8, 109u8, 101u8, 110u8, 100u8] && rebase_underway),
{
    let mut amend: Vec<u8> = Vec::new();
    amend.push(97);
    amend.push(109);
    amend.push(101);
    amend.push(110);
    amend.push(100);
    proof {
        assert(amend@ =~= seq![97u8, 109u8, 101u8, 110u8, 100u8]);
    }
    bytes_eq(rewrite_type, &amend) && rebase_underway
}

/// The decision of the drop-empty-commit hook: the commit at HEAD is
/// skipped exactly when it is empty and has exactly one parent; the result
/// is the parent to reset HEAD to.
pub fn empty_commit_drop_target(head_is_empty: bool, parent_oids: &Vec<NonZeroOid>) -> (r: Option<
    NonZeroOid,
>)
    ensures
        r is Some <==> head_is_empty && parent_oids@.len() == 1,
        r is Some ==> r->0@ == parent_oids@[0]@ && r->0.wf() == parent_oids@[0].wf(),
{
    if head_is_empty && parent_oids.len() == 1 {
        Some(parent_oids[0].duplicate())
    } else {
        None
    }
}

/// The reference-transaction state in whose callback updates are recorded
/// ("committed"); in any other state the hook does nothing.
pub fn is_committed_transaction_state(transaction_state: &Vec<u8>) -> (r: bool)
    ensures
        r == (transaction_state@ == seq![
            99u8,
            111u8,
            109u8,
            109u8,
            105u8,
            116u8,
            116u8,
            101u8,
            100u8,
        ]),
{
    let mut committed: Vec<u8> = Vec::new();
    committed.push(99);
    committed.push(111);
    committed.push(109);
    committed.push(109);
    committed.push(105);
    committed.push(116);
    committed.push(116);
    committed.push(101);
    committed.push(100);
    proof {
        assert(committed@ =~= seq![99u8, 111u8, 109u8, 109u8, 105u8, 116u8, 116u8, 101u8, 100u8]);
    }
    bytes_eq(transaction_state, &committed)
}

/// Whether the post-rewrite hook should look for abandoned commits: the
/// user has not disabled the warning, and the event pair is not spurious.
pub fn should_check_abandoned(warn_config_enabled: bool, is_spurious: bool) -> (r: bool)
    ensures
        r == (warn_config_enabled && !is_spurious),
{
    warn_config_enabled && !is_spurious
}

/// The post-commit decision ladder: with no commit at HEAD there is nothing
/// to record (a strange situation, but technically possible); a HEAD commit
/// the repository cannot resolve means the repository and the log's
/// assumptions have diverged, a defect-level error; otherwise the commit to
/// record.
pub fn post_commit_commit_oid(head: &Option<NonZeroOid>, head_resolves: bool) -> (r: Result<
    Option<NonZeroOid>,
    CoreError,
>)
    ensures
        head is None ==> r == Result::<Option<NonZeroOid>, CoreError>::Ok(None),
        head matches Some(h) ==> (if head_resolves {
            r matches Ok(Some(o)) && o@ == h@ && o.wf() == h.wf()
        } else {
            r == Result::<Option<NonZeroOid>, CoreError>::Err(CoreError::LogicalInconsistency)
        }),
{
    match head {
        Option::None => Ok(None),
        Option::Some(h) => {
            if head_resolves {
                Ok(Some(h.duplicate()))
            } else {
                Err(CoreError::LogicalInconsistency)
            }
        },
    }
}

/// The two records appended to the rewritten-list file when an empty commit
/// is dropped: the old commit and the commit at HEAD, each rewritten to the
/// zero sentinel.
pub open spec fn rewritten_list_model(old_oid: Seq<u8>, head_oid: Seq<u8>) -> Seq<u8> {
    hex_of_bytes(old_oid).add(seq![32u8]).add(Seq::new(40, |i: int| 48u8)).add(seq![10u8]).add(
        hex_of_bytes(head_oid),
    ).add(seq![32u8]).add(Seq::new(40, |i: int| 48u8)).add(seq![10u8])
}

/// Renders the two rewritten-list records for a dropped empty commit.
pub fn rewritten_list_lines(old_commit_oid: &NonZeroOid, head_commit_oid: &NonZeroOid) -> (r: Vec<
    u8,
>)
    ensures
        r@ == rewritten_list_model(old_commit_oid@, head_commit_oid@),
{
    let mut out = oid_to_hex(old_commit_oid);
    out.push(32);
    let mut zeros = zero_oid_hex();
    out.append(&mut zeros);
    out.push(10);
    let mut head_hex = oid_to_hex(head_commit_oid);
    out.append(&mut head_hex);
    out.push(32);
    let mut zeros2 = zero_oid_hex();
    out.append(&mut zeros2);
    out.push(10);
    proof {
        assert(out@ =~= rewritten_list_model(old_commit_oid@, head_commit_oid@));
    }
    out
}

} // verus!
