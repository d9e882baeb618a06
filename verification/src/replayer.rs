//! The event replayer: point-in-time projections of the event log.
//!
//! A replayer snapshots the log at construction time; after any append a
//! fresh replayer must be built, since a stale one silently omits the new
//! events. A cursor denotes "replay all events up to and including this
//! point"; replay is a deterministic left fold over the events.

use vstd::prelude::*;

use crate::bytes::{bytes_eq, clone_bytes};
use crate::event::Event;
use crate::oid::{MaybeZeroOid, NonZeroOid};

verus! {

/// A position in the event log: how much history to replay.
#[derive(Clone, Copy, Debug, PartialEq, Eq, Structural)]
pub struct EventCursor {
    pub event_id: usize,
}

/// Mathematical value of a projection: the position of each reference
/// (`None` meaning the zero sentinel, i.e. deleted), and the set of commit
/// ids currently marked hidden.
pub struct ProjModel {
    pub refs: Map<Seq<u8>, Option<Seq<u8>>>,
    pub hidden: Set<Seq<u8>>,
}

/// The projection of the empty log: no reference positions, nothing hidden.
pub open spec fn empty_projection() -> ProjModel {
    ProjModel { refs: Map::empty(), hidden: Set::empty() }
}

/// Whether `name` is matched by the injected reference-exclusion policy
/// (transient refs whose updates replay must ignore).
pub open spec fn excluded_in(policy: Seq<Vec<u8>>, name: Seq<u8>) -> bool {
    exists|i: int| 0 <= i < policy.len() && policy[i]@ == name
}

/// The effect of one event on a projection: a reference update overwrites
/// the named reference's position unless the name is excluded; hide and
/// unhide insert into and remove from the hidden set; commit and rewrite
/// events change neither (they are kept for historical queries).
pub open spec fn apply_event(p: ProjModel, e: Event, policy: Seq<Vec<u8>>) -> ProjModel {
    match e {
        Event::RefUpdateEvent { ref_name, new_oid, .. } => {
            if excluded_in(policy, ref_name@) {
                p
            } else {
                ProjModel { refs: p.refs.insert(ref_name@, new_oid@), hidden: p.hidden }
            }
        },
        Event::HideEvent { commit_oid, .. } => {
            ProjModel { refs: p.refs, hidden: p.hidden.insert(commit_oid@) }
        },
        Event::UnhideEvent { commit_oid, .. } => {
            ProjModel { refs: p.refs, hidden: p.hidden.remove(commit_oid@) }
        },
        _ => p,
    }
}

/// Left fold of the first `cursor` events (clamped to the log's length)
/// starting from the empty projection.
pub open spec fn projection_of(log: Seq<Event>, policy: Seq<Vec<u8>>, cursor: int) -> ProjModel
    decreases cursor,
{
    if cursor <= 0 {
        empty_projection()
    } else if cursor > log.len() {
        projection_of(log, policy, log.len() as int)
    } else {
        apply_event(projection_of(log, policy, cursor - 1), log[cursor - 1], policy)
    }
}

/// Whether `o` is the id of some entry of `s`.
pub open spec fn in_oid_views(s: Seq<NonZeroOid>, o: Seq<u8>) -> bool {
    exists|i: int| 0 <= i < s.len() && s[i]@ == o
}

/// Whether `o` is the id of one of the first `n` entries of `s`.
pub open spec fn in_oid_views_upto(s: Seq<NonZeroOid>, n: int, o: Seq<u8>) -> bool {
    exists|i: int| 0 <= i < n && i < s.len() && s[i]@ == o
}

/// A computed projection: an association list from reference name to
/// position, and the list of hidden commit ids, both duplicate-free.
#[derive(Debug, PartialEq, Eq)]
pub struct Projection {
    pub ref_positions: Vec<(Vec<u8>, MaybeZeroOid)>,
    pub hidden: Vec<NonZeroOid>,
}

impl Projection {
    /// Whether some entry positions the named reference.
    pub open spec fn has_ref(&self, name: Seq<u8>) -> bool {
        exists|i: int|
            0 <= i < self.ref_positions@.len() && self.ref_positions@[i].0@ == name
    }

    /// The entry index for a named reference (unique when well-formed).
    pub open spec fn ref_index(&self, name: Seq<u8>) -> int {
        choose|i: int|
            0 <= i < self.ref_positions@.len() && self.ref_positions@[i].0@ == name
    }

    /// The reference-position map this projection denotes.
    pub open spec fn refs(&self) -> Map<Seq<u8>, Option<Seq<u8>>> {
        Map::new(
            |n: Seq<u8>| self.has_ref(n),
            |n: Seq<u8>| self.ref_positions@[self.ref_index(n)].1@,
        )
    }

    /// The hidden-commit set this projection denotes.
    pub open spec fn hidden_set(&self) -> Set<Seq<u8>> {
        Set::new(|o: Seq<u8>| in_oid_views(self.hidden@, o))
    }

    /// The two components as one mathematical value.
    pub open spec fn model(&self) -> ProjModel {
        ProjModel { refs: self.refs(), hidden: self.hidden_set() }
    }

    /// Well-formed: reference names are distinct, hidden ids are distinct,
    /// and every stored id is well-formed.
    pub open spec fn wf(&self) -> bool {
        &&& forall|i: int, j: int|
            0 <= i < j < self.ref_positions@.len() ==> self.ref_positions@[i].0@
                != self.ref_positions@[j].0@
        &&& forall|i: int|
            0 <= i < self.ref_positions@.len() ==> (#[trigger] self.ref_positions@[i].1).wf()
        &&& forall|i: int, j: int|
            0 <= i < j < self.hidden@.len() ==> self.hidden@[i]@ != self.hidden@[j]@
        &&& forall|i: int| 0 <= i < self.hidden@.len() ==> (#[trigger] self.hidden@[i]).wf()
    }

    /// A projection with no reference positions and nothing hidden.
    pub fn new_empty() -> (r: Projection)
        ensures
            r.wf(),
            r.model() == empty_projection(),
    {
        let r = Projection { ref_positions: Vec::new(), hidden: Vec::new() };
        proof {
            assert(r.refs() =~= Map::empty());
            assert(r.hidden_set() =~= Set::empty());
        }
        r
    }

    /// The position of a named reference, if any entry positions it.
    pub fn get_ref(&self, name: &Vec<u8>) -> (r: Option<MaybeZeroOid>)
        requires
            self.wf(),
        ensures
            r is Some <==> self.refs().contains_key(name@),
            r is Some ==> r->0@ == self.refs()[name@] && r->0.wf(),
    {
        let mut i: usize = 0;
        while i < self.ref_positions.len()
            invariant
                self.wf(),
                i <= self.ref_positions@.len(),
                forall|j: int| 0 <= j < i ==> self.ref_positions@[j].0@ != name@,
            decreases self.ref_positions@.len() - i,
        {
            if bytes_eq(&self.ref_positions[i].0, name) {
                proof {
                    assert(self.has_ref(name@));
                    assert(self.ref_index(name@) == i as int);
                }
                return Some(self.ref_positions[i].1.duplicate());
            }
            i += 1;
        }
        proof {
            assert(!self.has_ref(name@));
        }
        None
    }

    /// Whether the given commit is hidden.
    pub fn is_hidden(&self, oid: &NonZeroOid) -> (r: bool)
        ensures
            r == self.hidden_set().contains(oid@),
    {
        let mut i: usize = 0;
        while i < self.hidden.len()
            invariant
                i <= self.hidden@.len(),
                forall|j: int| 0 <= j < i ==> self.hidden@[j]@ != oid@,
            decreases self.hidden@.len() - i,
        {
            if bytes_eq(&self.hidden[i].bytes, &oid.bytes) {
                return true;
            }
            i += 1;
        }
        false
    }

    /// Overwrites the named reference's position.
    fn upsert_ref(&mut self, name: &Vec<u8>, value: &MaybeZeroOid)
        requires
            old(self).wf(),
            value.wf(),
        ensures
            final(self).wf(),
            final(self).refs() == old(self).refs().insert(name@, value@),
            final(self).hidden_set() == old(self).hidden_set(),
            final(self).hidden@ == old(self).hidden@,
    {
        let mut i: usize = 0;
        while i < self.ref_positions.len()
            invariant
                old(self).wf(),
                value.wf(),
                self == old(self),
                i <= self.ref_positions@.len(),
                forall|j: int| 0 <= j < i ==> self.ref_positions@[j].0@ != name@,
            decreases self.ref_positions@.len() - i,
        {
            if bytes_eq(&self.ref_positions[i].0, name) {
                self.ref_positions[i] = (clone_bytes(name), value.duplicate());
                proof {
                    let ghost a = old(self);
                    let ghost b = *self;
                    assert(b.ref_positions@.len() == a.ref_positions@.len());
                    assert(a.ref_positions@[i as int].0@ == name@);
                    assert(b.ref_positions@[i as int].0@ == name@);
                    assert forall|j: int| 0 <= j < b.ref_positions@.len() implies
                        b.ref_positions@[j].0@ == a.ref_positions@[j].0@ by {
                        if j != i as int {
                            assert(b.ref_positions@[j] == a.ref_positions@[j]);
                        }
                    }
                    assert forall|n: Seq<u8>| #[trigger] b.has_ref(n) implies a.has_ref(n) by {
                        let k = choose|k: int|
                            0 <= k < b.ref_positions@.len() && b.ref_positions@[k].0@ == n;
                        assert(a.ref_positions@[k].0@ == n);
                    }
                    assert forall|n: Seq<u8>| #[trigger] a.has_ref(n) implies b.has_ref(n) by {
                        let k = choose|k: int|
                            0 <= k < a.ref_positions@.len() && a.ref_positions@[k].0@ == n;
                        assert(b.ref_positions@[k].0@ == n);
                    }
                    assert forall|n: Seq<u8>| #[trigger] b.has_ref(n) implies b.refs()[n]
                        == a.refs().insert(name@, value@)[n] by {
                        let k = b.ref_index(n);
                        assert(0 <= k < b.ref_positions@.len() && b.ref_positions@[k].0@ == n);
                        if n == name@ {
                            assert(k == i as int);
                            assert(b.ref_positions@[k].1@ == value@);
                        } else {
                            assert(k != i as int);
                            assert(a.has_ref(n));
                            let k2 = a.ref_index(n);
                            assert(0 <= k2 < a.ref_positions@.len() && a.ref_positions@[k2].0@
                                == n);
                            assert(k2 == k);
                            assert(b.ref_positions@[k] == a.ref_positions@[k]);
                        }
                    }
                    assert(a.has_ref(name@));
                    assert(b.refs() =~= a.refs().insert(name@, value@));
                    assert(b.hidden_set() =~= a.hidden_set());
                }
                return ;
            }
            i += 1;
        }
        self.ref_positions.push((clone_bytes(name), value.duplicate()));
        proof {
            let ghost a = old(self);
            let ghost b = *self;
            let ghost len = a.ref_positions@.len() as int;
            assert(b.ref_positions@ == a.ref_positions@.push(
                (b.ref_positions@[len].0, b.ref_positions@[len].1),
            ));
            assert(b.ref_positions@[len].0@ == name@);
            assert(forall|j: int|
                0 <= j < len ==> b.ref_positions@[j] == a.ref_positions@[j]);
            assert(!a.has_ref(name@));
            assert(b.has_ref(name@));
            assert forall|n: Seq<u8>| #[trigger] b.has_ref(n) implies a.has_ref(n) || n == name@ by {
                let k = choose|k: int|
                    0 <= k < b.ref_positions@.len() && b.ref_positions@[k].0@ == n;
                if k < len {
                    assert(a.ref_positions@[k].0@ == n);
                }
            }
            assert forall|n: Seq<u8>| #[trigger] a.has_ref(n) implies b.has_ref(n) by {
                let k = choose|k: int|
                    0 <= k < a.ref_positions@.len() && a.ref_positions@[k].0@ == n;
                assert(b.ref_positions@[k].0@ == n);
            }
            assert forall|n: Seq<u8>| #[trigger] b.has_ref(n) implies b.refs()[n]
                == a.refs().insert(name@, value@)[n] by {
                let k = b.ref_index(n);
                assert(0 <= k < b.ref_positions@.len() && b.ref_positions@[k].0@ == n);
                if n == name@ {
                    if k < len {
                        assert(a.ref_positions@[k].0@ == n);
                        assert(a.has_ref(n));
                    }
                    assert(k == len);
                    assert(b.ref_positions@[k].1@ == value@);
                } else {
                    assert(k != len);
                    assert(a.ref_positions@[k].0@ == n);
                    assert(a.has_ref(n));
                    let k2 = a.ref_index(n);
                    assert(0 <= k2 < a.ref_positions@.len() && a.ref_positions@[k2].0@ == n);
                    assert(k2 == k);
                    assert(b.ref_positions@[k] == a.ref_positions@[k]);
                }
            }
            assert(b.refs() =~= a.refs().insert(name@, value@));
            assert(b.hidden_set() =~= a.hidden_set());
        }
    }

    /// Inserts the commit into the hidden set.
    fn insert_hidden(&mut self, oid: &NonZeroOid)
        requires
            old(self).wf(),
            oid.wf(),
        ensures
            final(self).wf(),
            final(self).refs() == old(self).refs(),
            final(self).hidden_set() == old(self).hidden_set().insert(oid@),
    {
        let already = self.is_hidden(oid);
        if !already {
            self.hidden.push(oid.duplicate());
            proof {
                let ghost a = old(self);
                let ghost b = *self;
                let ghost len = a.hidden@.len() as int;
                assert(b.hidden@[len]@ == oid@);
                assert forall|o: Seq<u8>| #[trigger] b.hidden_set().contains(o) implies
                    a.hidden_set().insert(oid@).contains(o) by {
                    let k = choose|k: int| 0 <= k < b.hidden@.len() && b.hidden@[k]@ == o;
                    if k < len {
                        assert(a.hidden@[k]@ == o);
                    }
                }
                assert forall|o: Seq<u8>| #[trigger] a.hidden_set().insert(oid@).contains(o)
                    implies b.hidden_set().contains(o) by {
                    if o == oid@ {
                        assert(b.hidden@[len]@ == o);
                    } else {
                        let k = choose|k: int| 0 <= k < a.hidden@.len() && a.hidden@[k]@ == o;
                        assert(b.hidden@[k]@ == o);
                    }
                }
                assert(b.hidden_set() =~= a.hidden_set().insert(oid@));
                assert(b.refs() =~= a.refs());
            }
        } else {
            proof {
                assert(old(self).hidden_set() =~= old(self).hidden_set().insert(oid@));
            }
        }
    }

    /// Removes the commit from the hidden set.
    fn remove_hidden(&mut self, oid: &NonZeroOid)
        requires
            old(self).wf(),
            oid.wf(),
        ensures
            final(self).wf(),
            final(self).refs() == old(self).refs(),
            final(self).hidden_set() == old(self).hidden_set().remove(oid@),
    {
        let mut kept: Vec<NonZeroOid> = Vec::new();
        let mut i: usize = 0;
        while i < self.hidden.len()
            invariant
                old(self).wf(),
                oid.wf(),
                self == old(self),
                i <= self.hidden@.len(),
                forall|j: int, k: int|
                    0 <= j < k < kept@.len() ==> kept@[j]@ != kept@[k]@,
                forall|j: int| 0 <= j < kept@.len() ==> (#[trigger] kept@[j]).wf(),
                forall|j: int| 0 <= j < kept@.len() ==> kept@[j]@ != oid@,
                forall|o: Seq<u8>|
                    #[trigger] in_oid_views(kept@, o) <==> (in_oid_views_upto(
                        self.hidden@,
                        i as int,
                        o,
                    ) && o != oid@),
            decreases self.hidden@.len() - i,
        {
            let ghost oldkept = kept@;
            let keep = !bytes_eq(&self.hidden[i].bytes, &oid.bytes);
            if keep {
                kept.push(self.hidden[i].duplicate());
            }
            proof {
                assert forall|o: Seq<u8>| #[trigger] in_oid_views(kept@, o) implies (
                    in_oid_views_upto(self.hidden@, i + 1, o) && o != oid@) by {
                    let k = choose|k: int| 0 <= k < kept@.len() && kept@[k]@ == o;
                    if k < oldkept.len() {
                        assert(oldkept[k]@ == o);
                        assert(in_oid_views(oldkept, o));
                        let j2 = choose|j2: int|
                            0 <= j2 < i && j2 < self.hidden@.len() && self.hidden@[j2]@ == o;
                        assert(0 <= j2 < i + 1 && j2 < self.hidden@.len() && self.hidden@[j2]@
                            == o);
                    } else {
                        assert(self.hidden@[i as int]@ == o);
                    }
                }
                assert forall|o: Seq<u8>|
                    in_oid_views_upto(self.hidden@, i + 1, o) && o != oid@ implies #[trigger] in_oid_views(
                    kept@,
                    o,
                ) by {
                    let j = choose|j: int|
                        0 <= j < i + 1 && j < self.hidden@.len() && self.hidden@[j]@ == o;
                    if j < i as int {
                        assert(in_oid_views_upto(self.hidden@, i as int, o));
                        assert(in_oid_views(oldkept, o) == (in_oid_views_upto(
                            self.hidden@,
                            i as int,
                            o,
                        ) && o != oid@));
                        let k = choose|k: int| 0 <= k < oldkept.len() && oldkept[k]@ == o;
                        assert(kept@[k]@ == o);
                    } else {
                        assert(self.hidden@[i as int]@ == o);
                        if keep {
                            assert(kept@[kept@.len() - 1]@ == o);
                        } else {
                            assert(o == oid@);
                        }
                    }
                }
                if keep {
                    assert forall|j: int, k: int| 0 <= j < k < kept@.len() implies kept@[j]@
                        != kept@[k]@ by {
                        if k == kept@.len() - 1 {
                            if kept@[j]@ == kept@[k]@ {
                                assert(oldkept[j]@ == self.hidden@[i as int]@);
                                assert(in_oid_views(oldkept, self.hidden@[i as int]@));
                                assert(in_oid_views(oldkept, self.hidden@[i as int]@)
                                    == (in_oid_views_upto(
                                    self.hidden@,
                                    i as int,
                                    self.hidden@[i as int]@,
                                ) && self.hidden@[i as int]@ != oid@));
                                let j2 = choose|j2: int|
                                    0 <= j2 < i && j2 < self.hidden@.len() && self.hidden@[j2]@
                                        == self.hidden@[i as int]@;
                                assert(false);
                            }
                        } else {
                            assert(oldkept[j]@ != oldkept[k]@);
                        }
                    }
                }
            }
            i += 1;
        }
        self.hidden = kept;
        proof {
            let ghost a = old(self);
            let ghost b = *self;
            assert forall|o: Seq<u8>| #[trigger] b.hidden_set().contains(o) implies
                a.hidden_set().remove(oid@).contains(o) by {
                assert(in_oid_views_upto(a.hidden@, a.hidden@.len() as int, o));
            }
            assert forall|o: Seq<u8>| #[trigger] a.hidden_set().remove(oid@).contains(o) implies
                b.hidden_set().contains(o) by {
                assert(in_oid_views_upto(a.hidden@, a.hidden@.len() as int, o));
            }
            assert(b.hidden_set() =~= a.hidden_set().remove(oid@));
            assert(b.refs() =~= a.refs());
        }
    }
}

/// A replayer: a snapshot of the event log plus the injected
/// reference-exclusion policy (the list of transient reference names whose
/// updates replay ignores; the policy is external and configurable).
pub struct EventReplayer {
    pub events: Vec<Event>,
    pub ref_exclusion: Vec<Vec<u8>>,
}

impl EventReplayer {
    pub open spec fn wf(&self) -> bool {
        forall|i: int| 0 <= i < self.events@.len() ==> (#[trigger] self.events@[i]).wf()
    }

    /// Builds a replayer over a snapshot of the log's events, with the given
    /// exclusion policy. Build a fresh replayer after any append: a stale
    /// one silently omits the newer events.
    pub fn from_events(events: Vec<Event>, ref_exclusion: Vec<Vec<u8>>) -> (r: EventReplayer)
        requires
            forall|i: int| 0 <= i < events@.len() ==> (#[trigger] events@[i]).wf(),
        ensures
            r.wf(),
            r.events@ == events@,
            r.ref_exclusion@ == ref_exclusion@,
    {
        EventReplayer { events, ref_exclusion }
    }

    /// The cursor denoting the end of the snapshotted log.
    pub fn make_default_cursor(&self) -> (c: EventCursor)
        ensures
            c.event_id == self.events@.len(),
    {
        EventCursor { event_id: self.events.len() }
    }

    /// A cursor covering the first `n` events (clamped to the log's length).
    pub fn make_cursor(&self, n: usize) -> (c: EventCursor)
        ensures
            c.event_id == if n <= self.events@.len() {
                n as int
            } else {
                self.events@.len() as int
            },
    {
        if n <= self.events.len() {
            EventCursor { event_id: n }
        } else {
            EventCursor { event_id: self.events.len() }
        }
    }

    /// Whether the exclusion policy matches `name`.
    pub fn is_excluded(&self, name: &Vec<u8>) -> (r: bool)
        ensures
            r == excluded_in(self.ref_exclusion@, name@),
    {
        let mut i: usize = 0;
        while i < self.ref_exclusion.len()
            invariant
                i <= self.ref_exclusion@.len(),
                forall|j: int| 0 <= j < i ==> self.ref_exclusion@[j]@ != name@,
            decreases self.ref_exclusion@.len() - i,
        {
            if bytes_eq(&self.ref_exclusion[i], name) {
                return true;
            }
            i += 1;
        }
        false
    }

    /// The projection at a cursor: the deterministic left fold of all events
    /// up to the cursor, starting from the empty projection.
    pub fn projection_at(&self, cursor: EventCursor) -> (p: Projection)
        requires
            self.wf(),
        ensures
            p.wf(),
            p.model() == projection_of(self.events@, self.ref_exclusion@, cursor.event_id as int),
    {
        let c: usize = if cursor.event_id <= self.events.len() {
            cursor.event_id
        } else {
            self.events.len()
        };
        let mut p = Projection::new_empty();
        let mut i: usize = 0;
        while i < c
            invariant
                self.wf(),
                i <= c <= self.events@.len(),
                p.wf(),
                p.model() == projection_of(self.events@, self.ref_exclusion@, i as int),
            decreases c - i,
        {
            let ghost prev = p.model();
            let e = &self.events[i];
            match e {
                Event::RefUpdateEvent { ref_name, new_oid, .. } => {
                    if !self.is_excluded(ref_name) {
                        p.upsert_ref(ref_name, new_oid);
                    }
                },
                Event::HideEvent { commit_oid, .. } => {
                    p.insert_hidden(commit_oid);
                },
                Event::UnhideEvent { commit_oid, .. } => {
                    p.remove_hidden(commit_oid);
                },
                _ => {},
            }
            proof {
                assert(p.model() == apply_event(prev, self.events@[i as int], self.ref_exclusion@));
            }
            i += 1;
        }
        proof {
            if cursor.event_id > self.events@.len() {
                assert(projection_of(self.events@, self.ref_exclusion@, cursor.event_id as int)
                    == projection_of(self.events@, self.ref_exclusion@, self.events@.len() as int));
            }
        }
        p
    }
}

/// The most recent rewrite of `oid` among the first `cursor` events, as the
/// pair of its transaction id and the replacement id (`None` meaning the
/// commit was dropped). "Most recent" is the event with the highest
/// transaction id; among equal ids, the latest in the log.
pub open spec fn latest_rewrite_target(log: Seq<Event>, cursor: int, oid: Seq<u8>) -> Option<
    (u64, Option<Seq<u8>>),
>
    decreases cursor,
{
    if cursor <= 0 || cursor > log.len() {
        if cursor > log.len() {
            latest_rewrite_target(log, log.len() as int, oid)
        } else {
            None
        }
    } else {
        let prev = latest_rewrite_target(log, cursor - 1, oid);
        match log[cursor - 1] {
            Event::RewriteEvent { event_tx_id, old_commit_oid, new_commit_oid, .. } => {
                if old_commit_oid@ == oid && (prev is None || (prev->0).0 <= event_tx_id.0) {
                    Some((event_tx_id.0, new_commit_oid@))
                } else {
                    prev
                }
            },
            _ => prev,
        }
    }
}

/// Whether one of the first `cursor` events records the creation of commit
/// `o`.
pub open spec fn commit_mentioned_upto(log: Seq<Event>, cursor: int, o: Seq<u8>) -> bool {
    exists|i: int|
        #![trigger log[i]]
        0 <= i < cursor && i < log.len() && (log[i] matches Event::CommitEvent {
            commit_oid,
            ..
        } && commit_oid@ == o)
}

/// The commits visible at a cursor: recorded by a commit event up to the
/// cursor and not hidden in the projection there.
pub open spec fn visible_commit_set(log: Seq<Event>, policy: Seq<Vec<u8>>, cursor: int) -> Set<
    Seq<u8>,
> {
    Set::new(
        |o: Seq<u8>|
            commit_mentioned_upto(log, cursor, o) && !projection_of(
                log,
                policy,
                cursor,
            ).hidden.contains(o),
    )
}

impl EventReplayer {
    /// The replacement id of the most recent rewrite of `oid` up to the
    /// cursor, or `None` if no rewrite event mentions `oid` there.
    pub fn get_cursor_commit_latest_rewrite_target(
        &self,
        cursor: EventCursor,
        oid: &NonZeroOid,
    ) -> (r: Option<MaybeZeroOid>)
        requires
            self.wf(),
        ensures
            r is Some <==> latest_rewrite_target(
                self.events@,
                cursor.event_id as int,
                oid@,
            ) is Some,
            r is Some ==> r->0@ == (latest_rewrite_target(
                self.events@,
                cursor.event_id as int,
                oid@,
            )->0).1 && r->0.wf(),
    {
        let c: usize = if cursor.event_id <= self.events.len() {
            cursor.event_id
        } else {
            self.events.len()
        };
        proof {
            if cursor.event_id > self.events@.len() {
                assert(latest_rewrite_target(self.events@, cursor.event_id as int, oid@)
                    == latest_rewrite_target(self.events@, self.events@.len() as int, oid@));
            }
        }
        let mut best: Option<(u64, MaybeZeroOid)> = None;
        let mut i: usize = 0;
        while i < c
            invariant
                self.wf(),
                i <= c <= self.events@.len(),
                best is Some <==> latest_rewrite_target(self.events@, i as int, oid@) is Some,
                best is Some ==> {
                    let m = latest_rewrite_target(self.events@, i as int, oid@)->0;
                    (best->0).0 == m.0 && (best->0).1@ == m.1 && (best->0).1.wf()
                },
            decreases c - i,
        {
            match &self.events[i] {
                Event::RewriteEvent { event_tx_id, old_commit_oid, new_commit_oid, .. } => {
                    if bytes_eq(&old_commit_oid.bytes, &oid.bytes) {
                        let replace = match &best {
                            Option::None => true,
                            Option::Some(b) => b.0 <= event_tx_id.0,
                        };
                        if replace {
                            best = Some((event_tx_id.0, new_commit_oid.duplicate()));
                        }
                    }
                },
                _ => {},
            }
            i += 1;
        }
        match best {
            Option::None => None,
            Option::Some(b) => Some(b.1),
        }
    }

    /// The commits visible at the cursor: those recorded by a commit event
    /// up to the cursor and not hidden in the projection there. The result
    /// is duplicate-free.
    pub fn get_visible_commits(&self, cursor: EventCursor) -> (r: Vec<NonZeroOid>)
        requires
            self.wf(),
        ensures
            forall|o: Seq<u8>| #[trigger] in_oid_views(r@, o) <==> visible_commit_set(
                self.events@,
                self.ref_exclusion@,
                cursor.event_id as int,
            ).contains(o),
            forall|j: int, k: int| 0 <= j < k < r@.len() ==> r@[j]@ != r@[k]@,
            forall|j: int| 0 <= j < r@.len() ==> (#[trigger] r@[j]).wf(),
    {
        let c: usize = if cursor.event_id <= self.events.len() {
            cursor.event_id
        } else {
            self.events.len()
        };
        proof {
            if cursor.event_id > self.events@.len() {
                lemma_projection_deterministic(
                    self.events@,
                    self.events@,
                    self.ref_exclusion@,
                    self.events@.len() as int,
                );
                assert(projection_of(self.events@, self.ref_exclusion@, cursor.event_id as int)
                    == projection_of(self.events@, self.ref_exclusion@, self.events@.len() as int));
                assert forall|o: Seq<u8>|
                    commit_mentioned_upto(self.events@, cursor.event_id as int, o)
                        == commit_mentioned_upto(self.events@, c as int, o) by {
                    if commit_mentioned_upto(self.events@, cursor.event_id as int, o) {
                        let i = choose|i: int|
                            #![trigger self.events@[i]]
                            0 <= i < cursor.event_id && i < self.events@.len() && (self.events@[i]
                                matches Event::CommitEvent { commit_oid, .. } && commit_oid@ == o);
                        assert(0 <= i < c as int && i < self.events@.len() && (self.events@[i]
                            matches Event::CommitEvent { commit_oid, .. } && commit_oid@ == o));
                    }
                }
            }
        }
        let p = self.projection_at(EventCursor { event_id: c });
        let mut out: Vec<NonZeroOid> = Vec::new();
        let mut i: usize = 0;
        while i < c
            invariant
                self.wf(),
                p.wf(),
                i <= c <= self.events@.len(),
                p.model() == projection_of(self.events@, self.ref_exclusion@, c as int),
                forall|o: Seq<u8>| #[trigger] in_oid_views(out@, o) <==> (commit_mentioned_upto(
                    self.events@,
                    i as int,
                    o,
                ) && !p.hidden_set().contains(o)),
                forall|j: int, k: int| 0 <= j < k < out@.len() ==> out@[j]@ != out@[k]@,
                forall|j: int| 0 <= j < out@.len() ==> (#[trigger] out@[j]).wf(),
            decreases c - i,
        {
            let ghost oldout = out@;
            match &self.events[i] {
                Event::CommitEvent { commit_oid, .. } => {
                    if !p.is_hidden(commit_oid) && !oid_in_list(&out, commit_oid) {
                        out.push(commit_oid.duplicate());
                    }
                },
                _ => {},
            }
            proof {
                assert forall|o: Seq<u8>| #[trigger] in_oid_views(out@, o) implies (
                    commit_mentioned_upto(self.events@, i + 1, o) && !p.hidden_set().contains(o))
                    by {
                    let k = choose|k: int| 0 <= k < out@.len() && out@[k]@ == o;
                    if k < oldout.len() {
                        assert(in_oid_views(oldout, o));
                        let i2 = choose|i2: int|
                            #![trigger self.events@[i2]]
                            0 <= i2 < i && i2 < self.events@.len() && (self.events@[i2]
                                matches Event::CommitEvent { commit_oid, .. } && commit_oid@ == o);
                        assert(0 <= i2 < i + 1 && i2 < self.events@.len() && (self.events@[i2]
                            matches Event::CommitEvent { commit_oid, .. } && commit_oid@ == o));
                    } else {
                        assert(self.events@[i as int] matches Event::CommitEvent {
                            commit_oid,
                            ..
                        } && commit_oid@ == o);
                    }
                }
                assert forall|o: Seq<u8>|
                    commit_mentioned_upto(self.events@, i + 1, o) && !p.hidden_set().contains(
                        o,
                    ) implies #[trigger] in_oid_views(out@, o) by {
                    let i2 = choose|i2: int|
                        #![trigger self.events@[i2]]
                        0 <= i2 < i + 1 && i2 < self.events@.len() && (self.events@[i2]
                            matches Event::CommitEvent { commit_oid, .. } && commit_oid@ == o);
                    if i2 < i as int {
                        assert(commit_mentioned_upto(self.events@, i as int, o));
                        assert(in_oid_views(oldout, o));
                        let k = choose|k: int| 0 <= k < oldout.len() && oldout[k]@ == o;
                        assert(out@[k]@ == o);
                    } else {
                        assert(self.events@[i as int] matches Event::CommitEvent {
                            commit_oid,
                            ..
                        } && commit_oid@ == o);
                        if in_oid_views(oldout, o) {
                            let k = choose|k: int| 0 <= k < oldout.len() && oldout[k]@ == o;
                            assert(out@[k]@ == o);
                        } else {
                            assert(out@[out@.len() - 1]@ == o);
                        }
                    }
                }
            }
            i += 1;
        }
        proof {
            assert forall|o: Seq<u8>|
                commit_mentioned_upto(self.events@, cursor.event_id as int, o)
                    == commit_mentioned_upto(self.events@, c as int, o) by {
                if cursor.event_id as int != c as int {
                    if commit_mentioned_upto(self.events@, cursor.event_id as int, o) {
                        let i2 = choose|i2: int|
                            #![trigger self.events@[i2]]
                            0 <= i2 < cursor.event_id && i2 < self.events@.len() && (self.events@[
                                i2
                            ] matches Event::CommitEvent { commit_oid, .. } && commit_oid@ == o);
                        assert(0 <= i2 < c as int && i2 < self.events@.len() && (self.events@[i2]
                            matches Event::CommitEvent { commit_oid, .. } && commit_oid@ == o));
                    }
                    if commit_mentioned_upto(self.events@, c as int, o) {
                        let i2 = choose|i2: int|
                            #![trigger self.events@[i2]]
                            0 <= i2 < c && i2 < self.events@.len() && (self.events@[i2]
                                matches Event::CommitEvent { commit_oid, .. } && commit_oid@ == o);
                        assert(0 <= i2 < cursor.event_id as int && i2 < self.events@.len() && (
                        self.events@[i2] matches Event::CommitEvent { commit_oid, .. }
                            && commit_oid@ == o));
                    }
                }
            }
        }
        out
    }
}

/// Whether `oid` occurs in the list (decides `in_oid_views`).
pub fn oid_in_list(list: &Vec<NonZeroOid>, oid: &NonZeroOid) -> (r: bool)
    ensures
        r == in_oid_views(list@, oid@),
{
    let mut i: usize = 0;
    while i < list.len()
        invariant
            i <= list@.len(),
            forall|j: int| 0 <= j < i ==> list@[j]@ != oid@,
        decreases list@.len() - i,
    {
        if bytes_eq(&list[i].bytes, &oid.bytes) {
            return true;
        }
        i += 1;
    }
    false
}

/// Determinism of replay: the projection at a cursor depends only on the
/// log prefix below the cursor (and on the exclusion policy), so replaying
/// the same prefix twice yields identical projections.
pub proof fn lemma_projection_deterministic(
    log1: Seq<Event>,
    log2: Seq<Event>,
    policy: Seq<Vec<u8>>,
    cursor: int,
)
    requires
        0 <= cursor <= log1.len(),
        cursor <= log2.len(),
        forall|i: int| 0 <= i < cursor ==> log1[i] == log2[i],
    ensures
        projection_of(log1, policy, cursor) == projection_of(log2, policy, cursor),
    decreases cursor,
{
    if cursor > 0 {
        lemma_projection_deterministic(log1, log2, policy, cursor - 1);
    }
}

/// Replay from the empty log at cursor zero yields the empty projection:
/// no reference positions and no hidden commits.
pub proof fn lemma_replay_from_empty(policy: Seq<Vec<u8>>)
    ensures
        projection_of(Seq::<Event>::empty(), policy, 0) == empty_projection(),
        projection_of(Seq::<Event>::empty(), policy, 0).refs == Map::<Seq<u8>, Option<Seq<u8>>>::empty(),
        projection_of(Seq::<Event>::empty(), policy, 0).hidden == Set::<Seq<u8>>::empty(),
{
}

/// Hide/unhide round trip: appending a hide of `x` and then an unhide of
/// `x` to the log yields the same projection as before either event, with
/// `x` not hidden. (If `x` was already hidden before the pair, the unhide
/// removes that earlier hiding too, so the requirement excludes that case.)
pub proof fn lemma_hide_unhide_round_trip(
    log: Seq<Event>,
    policy: Seq<Vec<u8>>,
    hiding: Event,
    unhiding: Event,
    x: Seq<u8>,
)
    requires
        hiding matches Event::HideEvent { commit_oid, .. } && commit_oid@ == x,
        unhiding matches Event::UnhideEvent { commit_oid, .. } && commit_oid@ == x,
        !projection_of(log, policy, log.len() as int).hidden.contains(x),
    ensures
        projection_of(log.push(hiding).push(unhiding), policy, log.len() + 2 as int) == projection_of(
            log,
            policy,
            log.len() as int,
        ),
        !projection_of(log.push(hiding).push(unhiding), policy, log.len() + 2 as int).hidden.contains(x),
{
    let log2 = log.push(hiding).push(unhiding);
    let n = log.len() as int;
    lemma_projection_deterministic(log, log2, policy, n);
    let p0 = projection_of(log, policy, n);
    assert(log2[n] == hiding);
    assert(log2[n + 1] == unhiding);
    let p1 = projection_of(log2, policy, n + 1);
    assert(p1 == apply_event(projection_of(log2, policy, n), hiding, policy));
    let p2 = projection_of(log2, policy, n + 2);
    assert(p2 == apply_event(p1, unhiding, policy));
    assert(p2.hidden =~= p0.hidden);
    assert(p2.refs == p0.refs);
}

/// Exclusion policy: a reference update whose name the policy matches never
/// changes the projection, even though the event itself stays in the log.
pub proof fn lemma_excluded_ref_update_ignored(
    log: Seq<Event>,
    policy: Seq<Vec<u8>>,
    update: Event,
)
    requires
        update matches Event::RefUpdateEvent { ref_name, .. } && excluded_in(policy, ref_name@),
    ensures
        projection_of(log.push(update), policy, log.len() + 1 as int) == projection_of(
            log,
            policy,
            log.len() as int,
        ),
{
    let log2 = log.push(update);
    let n = log.len() as int;
    lemma_projection_deterministic(log, log2, policy, n);
    assert(log2[n] == update);
}

} // verus!
