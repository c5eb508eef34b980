use vstd::prelude::*;

use crate::record::{Record, RecordV};

verus! {

/// The view of a record sequence: each record replaced by its mathematical
/// shape.
pub open spec fn views_of(s: Seq<Record>) -> Seq<RecordV> {
    s.map_values(|r: Record| r@)
}

/// Last-write-wins merge of a sequence of records into a map keyed by
/// source-file path: records are applied in order, and a later record for a
/// path replaces an earlier one.
pub open spec fn merge_seq(m: Map<Seq<char>, RecordV>, s: Seq<RecordV>) -> Map<Seq<char>, RecordV>
    decreases s.len(),
{
    if s.len() == 0 {
        m
    } else {
        merge_seq(m, s.drop_last()).insert(s.last().file, s.last())
    }
}

/// True when no two records in the sequence share a source-file path.
pub open spec fn distinct_keys(s: Seq<RecordV>) -> bool {
    forall|i: int, j: int| 0 <= i < j < s.len() ==> s[i].file != s[j].file
}

/// The in-memory merge state: the latest record for each source-file path,
/// in first-insertion order.
pub struct RecordStore {
    recs: Vec<Record>,
}

impl RecordStore {
    /// The stored records, in order.
    pub closed spec fn seq(&self) -> Seq<RecordV> {
        views_of(self.recs@)
    }

    /// The store as a map from source-file path to record.
    pub open spec fn as_map(&self) -> Map<Seq<char>, RecordV> {
        merge_seq(Map::empty(), self.seq())
    }

    /// Well-formedness: at most one record per source-file path.
    pub open spec fn wf(&self) -> bool {
        distinct_keys(self.seq())
    }

    /// Whether some stored record has the given source-file path.
    pub open spec fn has_key(&self, k: Seq<char>) -> bool {
        exists|i: int| 0 <= i < self.seq().len() && self.seq()[i].file == k
    }

    /// The index of the record with the given source-file path.
    pub open spec fn key_index(&self, k: Seq<char>) -> int {
        choose|i: int| 0 <= i < self.seq().len() && self.seq()[i].file == k
    }

    /// Creates an empty store.
    pub fn new() -> (r: RecordStore)
        ensures
            r.wf(),
            r.seq() == Seq::<RecordV>::empty(),
            r.as_map() == Map::<Seq<char>, RecordV>::empty(),
    {
        let r = RecordStore { recs: Vec::new() };
        proof {
            assert(r.seq() =~= Seq::<RecordV>::empty());
        }
        r
    }

    /// The stored records, in order.
    pub fn records(&self) -> (r: &Vec<Record>)
        ensures
            views_of(r@) == self.seq(),
    {
        &self.recs
    }

    /// The number of stored records.
    pub fn len(&self) -> (r: usize)
        ensures
            r == self.seq().len(),
    {
        self.recs.len()
    }

    /// Inserts one record, replacing any stored record with the same
    /// source-file path (last write wins).
    pub fn insert(&mut self, rec: Record)
        requires
            old(self).wf(),
        ensures
            final(self).wf(),
            final(self).as_map() == old(self).as_map().insert(rec@.file, rec@),
            old(self).has_key(rec@.file) ==> final(self).seq() == old(self).seq().update(
                old(self).key_index(rec@.file),
                rec@,
            ),
            !old(self).has_key(rec@.file) ==> final(self).seq() == old(self).seq().push(rec@),
    {
        let ghost old_seq = self.seq();
        let n = self.recs.len();
        let mut i: usize = 0;
        while i < n
            invariant
                n == self.recs.len(),
                i <= n,
                *self == *old(self),
                old(self).wf(),
                forall|j: int| 0 <= j < i ==> self.seq()[j].file != rec@.file,
            decreases n - i,
        {
            if self.recs[i].file == rec.file {
                proof {
                    assert(old(self).seq()[i as int].file == rec@.file);
                    assert(old(self).has_key(rec@.file));
                    assert(old(self).key_index(rec@.file) == i) by {
                        let ki = old(self).key_index(rec@.file);
                        if ki != i {
                            assert(old(self).seq()[ki].file == old(self).seq()[i as int].file);
                        }
                    }
                }
                self.recs[i] = rec;
                proof {
                    assert(self.seq() =~= old(self).seq().update(i as int, rec@));
                    lemma_merge_update(old(self).seq(), i as int, rec@);
                }
                return ;
            }
            i += 1;
        }
        proof {
            assert(!old(self).has_key(rec@.file));
        }
        self.recs.push(rec);
        proof {
            assert(self.seq() =~= old(self).seq().push(rec@));
            assert(self.seq().drop_last() =~= old(self).seq());
            assert(forall|a: int, b: int|
                0 <= a < b < self.seq().len() ==> self.seq()[a].file != self.seq()[b].file);
        }
    }
    /// Applies every record of the sequence to the store, in order: the
    /// batch form of `insert`. Returns the number of records applied.
    pub fn merge_records(&mut self, recs: Vec<Record>) -> (count: usize)
        requires
            old(self).wf(),
        ensures
            final(self).wf(),
            final(self).as_map() == merge_seq(old(self).as_map(), views_of(recs@)),
            count == recs@.len(),
    {
        let ghost orig = views_of(recs@);
        let count = recs.len();
        let mut recs = recs;
        let mut i: usize = 0;
        proof {
            assert(views_of(recs@) =~= orig.skip(0));
            assert(self.as_map() == merge_seq(old(self).as_map(), orig.take(0))) by {
                assert(orig.take(0).len() == 0);
            }
        }
        while i < count
            invariant
                i <= count,
                orig.len() == count,
                self.wf(),
                recs@.len() == count - i,
                views_of(recs@) =~= orig.skip(i as int),
                self.as_map() == merge_seq(old(self).as_map(), orig.take(i as int)),
            decreases count - i,
        {
            let ghost pre_recs = recs@;
            let r = recs.remove(0);
            proof {
                assert(r@ == views_of(pre_recs)[0]);
                assert(r@ == orig[i as int]);
                assert(views_of(recs@) =~= orig.skip(i + 1)) by {
                    assert(views_of(recs@) =~= views_of(pre_recs).drop_first());
                }
            }
            self.insert(r);
            proof {
                let m = old(self).as_map();
                assert(orig.take(i + 1).drop_last() =~= orig.take(i as int));
                assert(orig.take(i + 1).last() == orig[i as int]);
                assert(merge_seq(m, orig.take(i + 1)) == merge_seq(m, orig.take(i as int)).insert(
                    orig[i as int].file,
                    orig[i as int],
                ));
            }
            i += 1;
        }
        proof {
            assert(orig.take(count as int) =~= orig);
        }
        count
    }
}

/// Merging a concatenation is merging each part in turn: loading two batches
/// of records in sequence leaves the same state as loading their
/// concatenation at once.
pub proof fn lemma_merge_append(m: Map<Seq<char>, RecordV>, a: Seq<RecordV>, b: Seq<RecordV>)
    ensures
        merge_seq(m, a + b) == merge_seq(merge_seq(m, a), b),
    decreases b.len(),
{
    if b.len() == 0 {
        assert(a + b =~= a);
    } else {
        lemma_merge_append(m, a, b.drop_last());
        assert((a + b).drop_last() =~= a + b.drop_last());
        assert((a + b).last() == b.last());
    }
}

/// Last write wins: if the record at position `i` is the last in the
/// sequence with its source-file path, the merged map holds exactly that
/// record for that path.
pub proof fn lemma_merge_last_wins(m: Map<Seq<char>, RecordV>, s: Seq<RecordV>, i: int)
    requires
        0 <= i < s.len(),
        forall|j: int| i < j < s.len() ==> s[j].file != s[i].file,
    ensures
        merge_seq(m, s).contains_key(s[i].file),
        merge_seq(m, s)[s[i].file] == s[i],
    decreases s.len(),
{
    if i == s.len() - 1 {
    } else {
        assert(s.drop_last()[i] == s[i]);
        lemma_merge_last_wins(m, s.drop_last(), i);
        assert(s.last() == s[s.len() - 1]);
        assert(s.last().file != s[i].file);
    }
}

/// A path is merged in exactly when it was in the base map or carried by
/// some record of the sequence.
pub proof fn lemma_merge_dom(m: Map<Seq<char>, RecordV>, s: Seq<RecordV>, k: Seq<char>)
    ensures
        merge_seq(m, s).contains_key(k) <==> (m.contains_key(k) || exists|i: int|
            0 <= i < s.len() && s[i].file == k),
    decreases s.len(),
{
    if s.len() == 0 {
    } else {
        lemma_merge_dom(m, s.drop_last(), k);
        if s.last().file == k {
            assert(s[s.len() - 1].file == k);
        } else {
            if exists|i: int| 0 <= i < s.len() && s[i].file == k {
                let i = choose|i: int| 0 <= i < s.len() && s[i].file == k;
                assert(i < s.len() - 1);
                assert(s.drop_last()[i].file == k);
            }
            if exists|i: int| 0 <= i < s.drop_last().len() && s.drop_last()[i].file == k {
                let i = choose|i: int| 0 <= i < s.drop_last().len() && s.drop_last()[i].file == k;
                assert(s[i].file == k);
            }
        }
    }
}

/// Distinct-path union: when no two records of a sequence share a
/// source-file path, merging the sequence into an empty map yields exactly
/// those records, one per path, each under its own path.
pub proof fn lemma_merge_distinct_union(s: Seq<RecordV>)
    requires
        distinct_keys(s),
    ensures
        forall|i: int|
            0 <= i < s.len() ==> #[trigger] merge_seq(Map::empty(), s).contains_key(s[i].file)
                && merge_seq(Map::empty(), s)[s[i].file] == s[i],
        forall|k: Seq<char>|
            #[trigger] merge_seq(Map::empty(), s).contains_key(k) ==> exists|i: int|
                0 <= i < s.len() && s[i].file == k,
{
    assert forall|i: int| 0 <= i < s.len() implies #[trigger] merge_seq(
        Map::empty(),
        s,
    ).contains_key(s[i].file) && merge_seq(Map::empty(), s)[s[i].file] == s[i] by {
        lemma_merge_last_wins(Map::empty(), s, i);
    }
    assert forall|k: Seq<char>| #[trigger] merge_seq(Map::empty(), s).contains_key(k) implies exists|
        i: int,
    | 0 <= i < s.len() && s[i].file == k by {
        lemma_merge_dom(Map::empty(), s, k);
    }
}

/// Updating the record at an index with a record for the same source-file
/// path changes the merged map exactly as inserting that record does.
proof fn lemma_merge_update(s: Seq<RecordV>, i: int, r: RecordV)
    requires
        0 <= i < s.len(),
        s[i].file == r.file,
        distinct_keys(s),
    ensures
        merge_seq(Map::empty(), s.update(i, r)) == merge_seq(Map::empty(), s).insert(r.file, r),
    decreases s.len(),
{
    lemma_merge_update_general(Map::empty(), s, i, r);
}

/// As `lemma_merge_update`, over an arbitrary base map.
proof fn lemma_merge_update_general(m: Map<Seq<char>, RecordV>, s: Seq<RecordV>, i: int, r: RecordV)
    requires
        0 <= i < s.len(),
        s[i].file == r.file,
        distinct_keys(s),
    ensures
        merge_seq(m, s.update(i, r)) == merge_seq(m, s).insert(r.file, r),
    decreases s.len(),
{
    let su = s.update(i, r);
    assert(su.len() == s.len());
    if i == s.len() - 1 {
        assert(su.drop_last() =~= s.drop_last());
        assert(su.last() == r);
        assert(merge_seq(m, s).insert(r.file, r) =~= merge_seq(m, s.drop_last()).insert(
            s.last().file,
            s.last(),
        ).insert(r.file, r));
        assert(merge_seq(m, s.drop_last()).insert(s.last().file, s.last()).insert(r.file, r)
            =~= merge_seq(m, s.drop_last()).insert(r.file, r));
    } else {
        assert(su.drop_last() =~= s.drop_last().update(i, r));
        assert(su.last() == s.last());
        assert(distinct_keys(s.drop_last())) by {
            assert(forall|a: int, b: int|
                0 <= a < b < s.drop_last().len() ==> s.drop_last()[a].file != s.drop_last()[b].file);
        }
        assert(s.drop_last()[i] == s[i]);
        lemma_merge_update_general(m, s.drop_last(), i, r);
        assert(s.last().file != r.file) by {
            assert(s[i].file != s[s.len() - 1].file);
        }
        assert(merge_seq(m, s.drop_last()).insert(r.file, r).insert(s.last().file, s.last())
            =~= merge_seq(m, s.drop_last()).insert(s.last().file, s.last()).insert(r.file, r));
    }
}

} // verus!
