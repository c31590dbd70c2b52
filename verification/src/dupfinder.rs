//! The duplicate index: it drains records of hashed files one at a
//! time, classifies each as a first sighting of its content or as a
//! duplicate, and keeps running byte totals. When a second copy of some
//! content arrives, the first copy's bytes move from the unique total
//! to the duplicated total, so the two totals always partition the
//! bytes of everything hashed.

use vstd::prelude::*;
use std::collections::HashMap;
use crate::records::FileRecord;
use crate::records::Rec;
use crate::records::cnt;
use crate::records::total_bytes;
use crate::records::hash_bytes;
use crate::records::unique_bytes;
use crate::records::duped_bytes;
use crate::records::lemma_cnt_push;
use crate::records::lemma_bytes_push;
use crate::records::lemma_bytes_nonneg;
use crate::records::lemma_bytes_partition;
use crate::records::lemma_absent_hash_bytes;
use crate::records::lemma_accounting_push;
use crate::records::lemma_unique_covers_hash;
use crate::records::lemma_cnt_at_least_one;
use crate::records::lemma_take_step;
use crate::records::lemma_paths_push;
use crate::records::lemma_total_front;
use crate::records::paths_of;
use crate::records::dup_hashes;
use crate::records::dup_hashes_upto;
use crate::records::single_hashes;
use crate::records::single_hashes_upto;

verus! {

broadcast use vstd::std_specs::hash::group_hash_axioms;

/// How the index classified one incoming record.
#[derive(Clone, Copy, PartialEq, Eq, Structural, Debug)]
pub enum Sighting {
    /// The record's hash had not been seen before.
    First,
    /// The record's hash had been seen before.
    Duplicate,
}

/// What the index keeps per seen hash: whether a second copy has
/// arrived, and the size of the first copy (meaningful while it is the
/// only one).
#[derive(Clone, Copy)]
struct HashEntry {
    dup: bool,
    first_size: u64,
}

/// The sequence of record views held in `v`.
pub open spec fn views(v: Seq<FileRecord>) -> Seq<Rec> {
    v.map_values(|r: FileRecord| r@)
}

proof fn lemma_views_push(v: Seq<FileRecord>, r: FileRecord)
    ensures
        views(v.push(r)) == views(v).push(r@),
{
    assert(views(v.push(r)) =~= views(v).push(r@));
}

/// The duplicate index. It owns every record it has consumed, a map
/// from seen hash to its classification state, and the two byte
/// totals.
pub struct DupFinder {
    duped: u64,
    unique: u64,
    hashes: HashMap<u64, HashEntry>,
    hashed: Vec<FileRecord>,
}

impl DupFinder {
    /// The history of records consumed so far, in arrival order.
    pub closed spec fn recs(self) -> Seq<Rec> {
        views(self.hashed@)
    }

    /// The index is consistent with its history: the map's keys are
    /// exactly the seen hashes, each entry's flag says whether the hash
    /// occurs twice, each still-unique entry remembers its first copy's
    /// size, and the byte totals are the unique and duplicated bytes of
    /// the history.
    pub closed spec fn wf(self) -> bool {
        &&& forall|h: u64| self.hashes@.contains_key(h) <==> cnt(self.recs(), h) >= 1
        &&& forall|h: u64| self.hashes@.contains_key(h) ==> ((#[trigger] self.hashes@[h]).dup <==> cnt(
            self.recs(),
            h,
        ) >= 2)
        &&& forall|h: u64| self.hashes@.contains_key(h) && cnt(self.recs(), h) == 1 ==> (
        #[trigger] self.hashes@[h]).first_size == hash_bytes(self.recs(), h)
        &&& self.unique == unique_bytes(self.recs())
        &&& self.duped == duped_bytes(self.recs())
    }

    /// An empty index: nothing seen, both totals zero.
    pub fn new() -> (r: DupFinder)
        ensures
            r.wf(),
            r.recs() == Seq::<Rec>::empty(),
    {
        let r = DupFinder {
            duped: 0,
            unique: 0,
            hashes: HashMap::new(),
            hashed: Vec::new(),
        };
        proof {
            assert(r.recs() =~= Seq::<Rec>::empty());
        }
        r
    }

    /// Consume one record: classify it against the hashes seen so far,
    /// update the byte totals, and append it to the history. The
    /// record is a first sighting exactly when no earlier record
    /// carried its hash.
    pub fn insert(&mut self, rec: FileRecord) -> (s: Sighting)
        requires
            old(self).wf(),
            total_bytes(old(self).recs()) + rec.size <= u64::MAX,
        ensures
            final(self).wf(),
            final(self).recs() == old(self).recs().push(rec@),
            s == (if cnt(old(self).recs(), rec.hash) == 0 {
                Sighting::First
            } else {
                Sighting::Duplicate
            }),
    {
        let ghost s0 = self.recs();
        let ghost t = s0.push(rec@);
        proof {
            lemma_bytes_nonneg(s0, s0);
            lemma_bytes_partition(s0);
            lemma_cnt_push(s0, rec@);
            lemma_bytes_push(s0, rec@);
            lemma_accounting_push(s0, rec@);
        }
        let h = rec.hash;
        let found: Option<HashEntry> = match self.hashes.get(&h) {
            Some(e) => Some(*e),
            None => None,
        };
        let sighting: Sighting;
        match found {
            None => {
                proof {
                    lemma_absent_hash_bytes(s0, rec@.hash);
                }
                self.unique = self.unique + rec.size;
                self.hashes.insert(h, HashEntry { dup: false, first_size: rec.size });
                sighting = Sighting::First;
            },
            Some(e) => {
                if e.dup {
                    self.duped = self.duped + rec.size;
                } else {
                    proof {
                        lemma_unique_covers_hash(s0, rec@.hash);
                    }
                    self.unique = self.unique - e.first_size;
                    self.duped = self.duped + (e.first_size + rec.size);
                }
                self.hashes.insert(h, HashEntry { dup: true, first_size: e.first_size });
                sighting = Sighting::Duplicate;
            },
        }
        self.hashed.push(rec);
        proof {
            lemma_views_push(old(self).hashed@, rec);
            assert(self.recs() == t);
        }
        sighting
    }

    /// Drain a whole batch of records in order, classifying each one
    /// against everything consumed before it, exactly as one `insert`
    /// per record would.
    pub fn process_all(&mut self, batch: Vec<FileRecord>) -> (sights: Vec<Sighting>)
        requires
            old(self).wf(),
            total_bytes(old(self).recs()) + total_bytes(views(batch@)) <= u64::MAX,
        ensures
            final(self).wf(),
            final(self).recs() == old(self).recs() + views(batch@),
            sights@.len() == batch@.len(),
            forall|i: int|
                0 <= i < batch@.len() ==> sights@[i] == (if cnt(
                    old(self).recs() + views(batch@).take(i),
                    views(batch@)[i].hash,
                ) == 0 {
                    Sighting::First
                } else {
                    Sighting::Duplicate
                }),
    {
        let ghost orig = self.recs();
        let ghost bv = views(batch@);
        let mut rest = batch;
        let mut sights: Vec<Sighting> = Vec::new();
        proof {
            assert(orig + bv.take(0) =~= orig);
            assert(bv.skip(0) =~= bv);
        }
        while rest.len() > 0
            invariant
                self.wf(),
                sights@.len() <= bv.len(),
                views(rest@) == bv.skip(sights@.len() as int),
                self.recs() == orig + bv.take(sights@.len() as int),
                total_bytes(self.recs()) + total_bytes(views(rest@)) <= u64::MAX,
                forall|i: int|
                    0 <= i < sights@.len() ==> sights@[i] == (if cnt(
                        orig + bv.take(i),
                        bv[i].hash,
                    ) == 0 {
                        Sighting::First
                    } else {
                        Sighting::Duplicate
                    }),
            decreases rest@.len(),
        {
            let ghost k = sights@.len() as int;
            let ghost rv = views(rest@);
            let r = rest.remove(0);
            proof {
                assert(r@ == rv[0]);
                assert(rv[0] == bv[k]);
                assert(views(rest@) =~= rv.drop_first());
                assert(rv.drop_first() =~= bv.skip(k + 1));
                lemma_total_front(rv);
                lemma_bytes_nonneg(rv.drop_first(), rv.drop_first());
            }
            let s = self.insert(r);
            sights.push(s);
            proof {
                lemma_bytes_push(orig + bv.take(k), bv[k]);
                assert((orig + bv.take(k)).push(bv[k]) =~= orig + bv.take(k + 1));
            }
        }
        proof {
            assert(bv.skip(sights@.len() as int).len() == 0);
            assert(bv.take(sights@.len() as int) =~= bv);
        }
        sights
    }

    /// How many files have been hashed and recorded.
    pub fn files_hashed(&self) -> (n: usize)
        ensures
            n == self.recs().len(),
    {
        self.hashed.len()
    }

    /// Bytes held in content seen exactly once so far.
    pub fn unique_bytes_total(&self) -> (n: u64)
        requires
            self.wf(),
        ensures
            n == unique_bytes(self.recs()),
    {
        self.unique
    }

    /// Bytes held in content seen two or more times so far; every copy
    /// counts, the first one included.
    pub fn duped_bytes_total(&self) -> (n: u64)
        requires
            self.wf(),
        ensures
            n == duped_bytes(self.recs()),
    {
        self.duped
    }
}

/// One group of the final report: a duplicated hash and the paths of
/// every file carrying it, in arrival order.
pub struct DupGroup {
    pub hash: u64,
    pub paths: Vec<String>,
}

/// The final report: one group per duplicated hash, in first-sighting
/// order, and the aggregate statistics.
pub struct Report {
    pub groups: Vec<DupGroup>,
    pub files_hashed: usize,
    pub single_hashes: usize,
    pub multi_hashes: usize,
    pub unique_bytes: u64,
    pub duped_bytes: u64,
}

/// The sequence of path views held in `v`.
pub open spec fn path_views(v: Seq<String>) -> Seq<Seq<char>> {
    v.map_values(|p: String| p@)
}

/// The hashes of a sequence of groups, in order.
pub open spec fn group_hashes(gs: Seq<DupGroup>) -> Seq<u64> {
    gs.map_values(|g: DupGroup| g.hash)
}

proof fn lemma_path_views_push(v: Seq<String>, p: String)
    ensures
        path_views(v.push(p)) == path_views(v).push(p@),
{
    assert(path_views(v.push(p)) =~= path_views(v).push(p@));
}

proof fn lemma_group_hashes_push(gs: Seq<DupGroup>, g: DupGroup)
    ensures
        group_hashes(gs.push(g)) == group_hashes(gs).push(g.hash),
{
    assert(group_hashes(gs.push(g)) =~= group_hashes(gs).push(g.hash));
}

impl DupFinder {
    /// How many of the first `end` records carry hash `h`.
    fn count_upto(&self, end: usize, h: u64) -> (c: usize)
        requires
            end <= self.hashed@.len(),
        ensures
            c == cnt(self.recs().take(end as int), h),
            c <= end,
    {
        let ghost s = self.recs();
        let mut c: usize = 0;
        let mut i: usize = 0;
        proof {
            assert(s.take(0) =~= Seq::<Rec>::empty());
        }
        while i < end
            invariant
                i <= end,
                end <= self.hashed@.len(),
                s == self.recs(),
                c == cnt(s.take(i as int), h),
                c <= i,
            decreases end - i,
        {
            proof {
                lemma_take_step(s, i as int);
                lemma_cnt_push(s.take(i as int), s[i as int]);
            }
            if self.hashed[i].hash == h {
                c = c + 1;
            }
            i = i + 1;
        }
        c
    }

    /// Build the final report over everything consumed so far: one
    /// group per hash carried by two or more files, in first-sighting
    /// order, each listing every path with that hash in arrival order;
    /// the number of files hashed; the numbers of hashes pointing to
    /// exactly one and to more than one file; and the unique and
    /// duplicated byte totals. The report reads the index and changes
    /// nothing.
    pub fn report(&self) -> (r: Report)
        requires
            self.wf(),
        ensures
            r.files_hashed == self.recs().len(),
            r.unique_bytes == unique_bytes(self.recs()),
            r.duped_bytes == duped_bytes(self.recs()),
            group_hashes(r.groups@) == dup_hashes(self.recs()),
            forall|j: int|
                0 <= j < r.groups@.len() ==> path_views(#[trigger] r.groups@[j].paths@)
                    == paths_of(self.recs(), r.groups@[j].hash),
            r.multi_hashes == dup_hashes(self.recs()).len(),
            r.single_hashes == single_hashes(self.recs()).len(),
    {
        let ghost s = self.recs();
        let n = self.hashed.len();
        let mut groups: Vec<DupGroup> = Vec::new();
        let mut singles: usize = 0;
        let mut i: usize = 0;
        proof {
            assert(group_hashes(groups@) =~= dup_hashes_upto(s, 0));
            assert(single_hashes_upto(s, 0) =~= Seq::<u64>::empty());
        }
        while i < n
            invariant
                self.wf(),
                n == self.hashed@.len(),
                s == self.recs(),
                i <= n,
                group_hashes(groups@) == dup_hashes_upto(s, i as int),
                forall|j: int|
                    0 <= j < groups@.len() ==> path_views(#[trigger] groups@[j].paths@)
                        == paths_of(s, groups@[j].hash),
                singles == single_hashes_upto(s, i as int).len(),
                singles <= i,
            decreases n - i,
        {
            let h = self.hashed[i].hash;
            proof {
                assert(s[i as int].hash == h);
                lemma_cnt_at_least_one(s, i as int);
            }
            let seen_before = self.count_upto(i, h);
            if seen_before == 0 {
                let c = self.count_upto(n, h);
                proof {
                    assert(s.take(n as int) =~= s);
                }
                if c >= 2 {
                    let mut paths: Vec<String> = Vec::new();
                    let mut j: usize = 0;
                    proof {
                        assert(path_views(paths@) =~= paths_of(s.take(0), h));
                    }
                    while j < n
                        invariant
                            n == self.hashed@.len(),
                            s == self.recs(),
                            j <= n,
                            path_views(paths@) == paths_of(s.take(j as int), h),
                        decreases n - j,
                    {
                        proof {
                            lemma_take_step(s, j as int);
                            lemma_paths_push(s.take(j as int), s[j as int]);
                        }
                        if self.hashed[j].hash == h {
                            let p = self.hashed[j].path.clone();
                            proof {
                                lemma_path_views_push(paths@, p);
                            }
                            paths.push(p);
                        }
                        j = j + 1;
                    }
                    proof {
                        assert(s.take(n as int) =~= s);
                    }
                    let g = DupGroup { hash: h, paths };
                    proof {
                        lemma_group_hashes_push(groups@, g);
                    }
                    groups.push(g);
                } else {
                    singles = singles + 1;
                }
            }
            i = i + 1;
        }
        proof {
            assert(s.take(n as int) =~= s);
        }
        let multi = groups.len();
        proof {
            assert(group_hashes(groups@).len() == groups@.len());
        }
        Report {
            groups,
            files_hashed: n,
            single_hashes: singles,
            multi_hashes: multi,
            unique_bytes: self.unique,
            duped_bytes: self.duped,
        }
    }
}

impl Default for DupFinder {
    /// The same empty index that `new` builds.
    fn default() -> (r: DupFinder)
        ensures
            r.wf(),
            r.recs() == Seq::<Rec>::empty(),
    {
        DupFinder::new()
    }
}

} // verus!
