//! The merge-base cache: a persisted memoization table for pairwise
//! merge-base queries.
//!
//! Keys are unordered pairs of commit ids (the relation is symmetric), kept
//! normalized: the lexicographically smaller id first. A stored value is the
//! merge-base id, or `None` as the explicit "no common ancestor" marker.
//! Entries are only ever inserted or overwritten, never invalidated: a
//! merge-base is a pure function of its content-addressed, immutable inputs.

use vstd::prelude::*;

use crate::bytes::{bytes_eq, bytes_lex_le, lemma_lex_le_antisymmetric, lex_le};
use crate::oid::NonZeroOid;

verus! {

/// The normalized form of an unordered pair of ids.
pub open spec fn norm_pair(a: Seq<u8>, b: Seq<u8>) -> (Seq<u8>, Seq<u8>) {
    if lex_le(a, b) {
        (a, b)
    } else {
        (b, a)
    }
}

/// The stored value for a pair: the merge-base id, or `None` for "these two
/// commits have no common ancestor".
pub open spec fn merge_base_view(v: Option<NonZeroOid>) -> Option<Seq<u8>> {
    match v {
        Option::None => None,
        Option::Some(o) => Some(o@),
    }
}

/// One cache entry: a normalized pair and its merge-base result.
pub struct CacheEntry {
    pub first: NonZeroOid,
    pub second: NonZeroOid,
    pub merge_base: Option<NonZeroOid>,
}

/// The memoization table.
pub struct MergeBaseCache {
    pub entries: Vec<CacheEntry>,
}

impl MergeBaseCache {
    /// Whether some entry carries the (normalized) key `k`.
    pub open spec fn has_key(&self, k: (Seq<u8>, Seq<u8>)) -> bool {
        exists|i: int|
            0 <= i < self.entries@.len() && (self.entries@[i].first@, self.entries@[i].second@)
                == k
    }

    /// The entry index for a key (unique when well-formed).
    pub open spec fn key_index(&self, k: (Seq<u8>, Seq<u8>)) -> int {
        choose|i: int|
            0 <= i < self.entries@.len() && (self.entries@[i].first@, self.entries@[i].second@)
                == k
    }

    /// The table this cache denotes: normalized pair to stored result.
    pub open spec fn table(&self) -> Map<(Seq<u8>, Seq<u8>), Option<Seq<u8>>> {
        Map::new(
            |k: (Seq<u8>, Seq<u8>)| self.has_key(k),
            |k: (Seq<u8>, Seq<u8>)| merge_base_view(self.entries@[self.key_index(k)].merge_base),
        )
    }

    /// Well-formed: every stored id is well-formed, every pair is
    /// normalized, and keys are distinct.
    pub open spec fn wf(&self) -> bool {
        &&& forall|i: int|
            0 <= i < self.entries@.len() ==> {
                let e = #[trigger] self.entries@[i];
                &&& e.first.wf()
                &&& e.second.wf()
                &&& (e.merge_base matches Option::Some(o) ==> o.wf())
                &&& lex_le(e.first@, e.second@)
            }
        &&& forall|i: int, j: int|
            0 <= i < j < self.entries@.len() ==> (self.entries@[i].first@, self.entries@[i].second@)
                != (self.entries@[j].first@, self.entries@[j].second@)
    }

    /// An empty cache.
    pub fn new() -> (r: MergeBaseCache)
        ensures
            r.wf(),
            r.table() == Map::<(Seq<u8>, Seq<u8>), Option<Seq<u8>>>::empty(),
    {
        let r = MergeBaseCache { entries: Vec::new() };
        proof {
            assert(r.table() =~= Map::empty());
        }
        r
    }

    /// The cached result for the unordered pair `{a, b}`, if present.
    /// `Some(None)` means "cached: no common ancestor".
    pub fn get(&self, a: &NonZeroOid, b: &NonZeroOid) -> (r: Option<Option<NonZeroOid>>)
        requires
            self.wf(),
            a.wf(),
            b.wf(),
        ensures
            r is Some <==> self.table().contains_key(norm_pair(a@, b@)),
            r is Some ==> merge_base_view(r->0) == self.table()[norm_pair(a@, b@)],
            r is Some ==> (r->0 matches Option::Some(o) ==> o.wf()),
    {
        let (x, y) = if bytes_lex_le(&a.bytes, &b.bytes) {
            (a, b)
        } else {
            (b, a)
        };
        let mut i: usize = 0;
        while i < self.entries.len()
            invariant
                self.wf(),
                a.wf(),
                b.wf(),
                (x@, y@) == norm_pair(a@, b@),
                i <= self.entries@.len(),
                forall|j: int|
                    0 <= j < i ==> (self.entries@[j].first@, self.entries@[j].second@) != (x@, y@),
            decreases self.entries@.len() - i,
        {
            if bytes_eq(&self.entries[i].first.bytes, &x.bytes) && bytes_eq(
                &self.entries[i].second.bytes,
                &y.bytes,
            ) {
                proof {
                    assert(self.has_key((x@, y@)));
                    assert(self.key_index((x@, y@)) == i as int);
                }
                let r = match &self.entries[i].merge_base {
                    Option::None => None,
                    Option::Some(o) => Some(o.duplicate()),
                };
                return Some(r);
            }
            i += 1;
        }
        proof {
            assert(!self.has_key((x@, y@)));
        }
        None
    }

    /// Stores the result for the unordered pair `{a, b}`, overwriting any
    /// earlier entry for the same pair.
    pub fn put(&mut self, a: &NonZeroOid, b: &NonZeroOid, merge_base: Option<NonZeroOid>)
        requires
            old(self).wf(),
            a.wf(),
            b.wf(),
            merge_base matches Option::Some(o) ==> o.wf(),
        ensures
            final(self).wf(),
            final(self).table() == old(self).table().insert(
                norm_pair(a@, b@),
                merge_base_view(merge_base),
            ),
    {
        let (x, y) = if bytes_lex_le(&a.bytes, &b.bytes) {
            (a, b)
        } else {
            (b, a)
        };
        proof {
            lemma_lex_le_total(a@, b@);
        }
        let entry = CacheEntry { first: x.duplicate(), second: y.duplicate(), merge_base };
        let ghost key = (x@, y@);
        let mut i: usize = 0;
        while i < self.entries.len()
            invariant
                old(self).wf(),
                self == old(self),
                i <= self.entries@.len(),
                key == norm_pair(a@, b@),
                entry.first@ == key.0 && entry.second@ == key.1,
                entry.first.wf() && entry.second.wf() && lex_le(entry.first@, entry.second@),
                entry.merge_base matches Option::Some(o) ==> o.wf(),
                merge_base_view(entry.merge_base) == merge_base_view(merge_base),
                forall|j: int|
                    0 <= j < i ==> (self.entries@[j].first@, self.entries@[j].second@) != key,
            decreases self.entries@.len() - i,
        {
            if bytes_eq(&self.entries[i].first.bytes, &entry.first.bytes) && bytes_eq(
                &self.entries[i].second.bytes,
                &entry.second.bytes,
            ) {
                self.entries[i] = entry;
                proof {
                    let ghost sa = old(self);
                    let ghost sb = *self;
                    assert(sb.entries@.len() == sa.entries@.len());
                    assert forall|j: int| 0 <= j < sb.entries@.len() implies (sb.entries@[j].first@,
                        sb.entries@[j].second@) == (sa.entries@[j].first@, sa.entries@[j].second@)
                        by {
                        if j != i as int {
                            assert(sb.entries@[j] == sa.entries@[j]);
                        }
                    }
                    assert forall|k: (Seq<u8>, Seq<u8>)| #[trigger] sb.has_key(k) implies
                        sa.has_key(k) by {
                        let j = choose|j: int|
                            0 <= j < sb.entries@.len() && (sb.entries@[j].first@,
                            sb.entries@[j].second@) == k;
                        assert((sa.entries@[j].first@, sa.entries@[j].second@) == k);
                    }
                    assert forall|k: (Seq<u8>, Seq<u8>)| #[trigger] sa.has_key(k) implies
                        sb.has_key(k) by {
                        let j = choose|j: int|
                            0 <= j < sa.entries@.len() && (sa.entries@[j].first@,
                            sa.entries@[j].second@) == k;
                        assert((sb.entries@[j].first@, sb.entries@[j].second@) == k);
                    }
                    assert forall|k: (Seq<u8>, Seq<u8>)| #[trigger] sb.has_key(k) implies
                        sb.table()[k] == sa.table().insert(key, merge_base_view(merge_base))[k]
                        by {
                        let j = sb.key_index(k);
                        assert(0 <= j < sb.entries@.len() && (sb.entries@[j].first@,
                        sb.entries@[j].second@) == k);
                        if k == key {
                            assert(j == i as int);
                        } else {
                            assert(j != i as int);
                            let j2 = sa.key_index(k);
                            assert(0 <= j2 < sa.entries@.len() && (sa.entries@[j2].first@,
                            sa.entries@[j2].second@) == k);
                            assert(j2 == j);
                            assert(sb.entries@[j] == sa.entries@[j]);
                        }
                    }
                    assert(sb.table() =~= sa.table().insert(key, merge_base_view(merge_base)));
                    assert(norm_pair(a@, b@) == key);
                }
                return ;
            }
            i += 1;
        }
        self.entries.push(entry);
        proof {
            let ghost sa = old(self);
            let ghost sb = *self;
            let ghost len = sa.entries@.len() as int;
            assert((sb.entries@[len].first@, sb.entries@[len].second@) == key);
            assert(forall|j: int| 0 <= j < len ==> sb.entries@[j] == sa.entries@[j]);
            assert(!sa.has_key(key));
            assert forall|k: (Seq<u8>, Seq<u8>)| #[trigger] sb.has_key(k) implies sa.has_key(k) || k
                == key by {
                let j = choose|j: int|
                    0 <= j < sb.entries@.len() && (sb.entries@[j].first@, sb.entries@[j].second@)
                        == k;
                if j < len {
                    assert((sa.entries@[j].first@, sa.entries@[j].second@) == k);
                }
            }
            assert forall|k: (Seq<u8>, Seq<u8>)| #[trigger] sa.has_key(k) implies sb.has_key(k) by {
                let j = choose|j: int|
                    0 <= j < sa.entries@.len() && (sa.entries@[j].first@, sa.entries@[j].second@)
                        == k;
                assert((sb.entries@[j].first@, sb.entries@[j].second@) == k);
            }
            assert forall|k: (Seq<u8>, Seq<u8>)| #[trigger] sb.has_key(k) implies sb.table()[k]
                == sa.table().insert(key, merge_base_view(merge_base))[k] by {
                let j = sb.key_index(k);
                assert(0 <= j < sb.entries@.len() && (sb.entries@[j].first@,
                sb.entries@[j].second@) == k);
                if k == key {
                    assert(j == len);
                } else {
                    assert(j != len);
                    assert(sa.has_key(k));
                    let j2 = sa.key_index(k);
                    assert(0 <= j2 < sa.entries@.len() && (sa.entries@[j2].first@,
                    sa.entries@[j2].second@) == k);
                    assert(j2 == j);
                    assert(sb.entries@[j] == sa.entries@[j]);
                }
            }
            assert(sb.table() =~= sa.table().insert(key, merge_base_view(merge_base)));
            assert(norm_pair(a@, b@) == key);
        }
    }
}

/// One of two equal-length byte strings is lexicographically at most the
/// other.
pub proof fn lemma_lex_le_total(a: Seq<u8>, b: Seq<u8>)
    requires
        a.len() == b.len(),
    ensures
        lex_le(a, b) || lex_le(b, a),
{
    lemma_lex_le_total_from(a, b, 0);
}

proof fn lemma_lex_le_total_from(a: Seq<u8>, b: Seq<u8>, i: int)
    requires
        a.len() == b.len(),
        0 <= i <= a.len(),
        forall|j: int| 0 <= j < i ==> a[j] == b[j],
    ensures
        lex_le(a, b) || lex_le(b, a),
    decreases a.len() - i,
{
    if i == a.len() {
        assert(a =~= b);
    } else if a[i] < b[i] {
        assert(lex_le(a, b));
    } else if b[i] < a[i] {
        assert(lex_le(b, a));
    } else {
        lemma_lex_le_total_from(a, b, i + 1);
    }
}

/// Key normalization is symmetric: the unordered pair `{a, b}` always maps
/// to the same table key, so `get(a, b)` and `get(b, a)` read — and
/// `put(a, b, v)` and `put(b, a, v)` write — one and the same entry.
pub proof fn lemma_norm_pair_symmetric(a: Seq<u8>, b: Seq<u8>)
    requires
        a.len() == b.len(),
    ensures
        norm_pair(a, b) == norm_pair(b, a),
{
    lemma_lex_le_total(a, b);
    if lex_le(a, b) && lex_le(b, a) {
        lemma_lex_le_antisymmetric(a, b);
    }
}

/// Storing the same result for the same pair twice leaves exactly the table
/// that one store leaves: `put` is idempotent.
pub proof fn lemma_put_idempotent(
    table: Map<(Seq<u8>, Seq<u8>), Option<Seq<u8>>>,
    k: (Seq<u8>, Seq<u8>),
    v: Option<Seq<u8>>,
)
    ensures
        table.insert(k, v).insert(k, v) == table.insert(k, v),
{
    assert(table.insert(k, v).insert(k, v) =~= table.insert(k, v));
}

} // verus!
