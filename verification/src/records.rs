//! Records of hashed files and the spec-level accounting over a history
//! of such records: per-hash occurrence counts, byte totals attributed
//! to unique and to duplicated content, and the lemmas that say how all
//! of these move when one more record arrives.

use vstd::prelude::*;

verus! {

/// A successfully hashed file: its path, its 64-bit content hash and
/// its size in bytes.
pub struct FileRecord {
    pub path: String,
    pub hash: u64,
    pub size: u64,
}

/// The mathematical image of a `FileRecord`.
pub ghost struct Rec {
    pub path: Seq<char>,
    pub hash: u64,
    pub size: u64,
}

impl View for FileRecord {
    type V = Rec;

    open spec fn view(&self) -> Rec {
        Rec { path: self.path@, hash: self.hash, size: self.size }
    }
}

/// How many records of `s` carry the content hash `h`.
pub open spec fn cnt(s: Seq<Rec>, h: u64) -> nat
    decreases s.len(),
{
    if s.len() == 0 {
        0
    } else {
        cnt(s.drop_last(), h) + if s.last().hash == h {
            1nat
        } else {
            0nat
        }
    }
}

/// The sum of the sizes of all records of `s`.
pub open spec fn total_bytes(s: Seq<Rec>) -> int
    decreases s.len(),
{
    if s.len() == 0 {
        0
    } else {
        total_bytes(s.drop_last()) + s.last().size
    }
}

/// The sum of the sizes of the records of `s` that carry hash `h`.
pub open spec fn hash_bytes(s: Seq<Rec>, h: u64) -> int
    decreases s.len(),
{
    if s.len() == 0 {
        0
    } else {
        hash_bytes(s.drop_last(), h) + if s.last().hash == h {
            s.last().size as int
        } else {
            0
        }
    }
}

/// The sum of the sizes of the records of `s` whose hash occurs exactly
/// once in `full`.
pub open spec fn unique_bytes_in(s: Seq<Rec>, full: Seq<Rec>) -> int
    decreases s.len(),
{
    if s.len() == 0 {
        0
    } else {
        unique_bytes_in(s.drop_last(), full) + if cnt(full, s.last().hash) == 1 {
            s.last().size as int
        } else {
            0
        }
    }
}

/// The sum of the sizes of the records of `s` whose hash occurs at
/// least twice in `full`.
pub open spec fn duped_bytes_in(s: Seq<Rec>, full: Seq<Rec>) -> int
    decreases s.len(),
{
    if s.len() == 0 {
        0
    } else {
        duped_bytes_in(s.drop_last(), full) + if cnt(full, s.last().hash) >= 2 {
            s.last().size as int
        } else {
            0
        }
    }
}

/// Bytes held in files whose content (by hash) occurs exactly once in `s`.
pub open spec fn unique_bytes(s: Seq<Rec>) -> int {
    unique_bytes_in(s, s)
}

/// Bytes held in files whose content (by hash) occurs two or more times
/// in `s`: every copy counts, the first one included.
pub open spec fn duped_bytes(s: Seq<Rec>) -> int {
    duped_bytes_in(s, s)
}

proof fn lemma_push_parts(s: Seq<Rec>, r: Rec)
    ensures
        s.push(r).drop_last() == s,
        s.push(r).last() == r,
{
    assert(s.push(r).drop_last() =~= s);
}

/// Appending a record raises the count of its own hash by one and
/// leaves every other count alone.
pub proof fn lemma_cnt_push(s: Seq<Rec>, r: Rec)
    ensures
        cnt(s.push(r), r.hash) == cnt(s, r.hash) + 1,
        forall|h: u64| h != r.hash ==> cnt(s.push(r), h) == cnt(s, h),
{
    lemma_push_parts(s, r);
}

/// Appending a record adds its size to the total, and to its own
/// hash's share only.
pub proof fn lemma_bytes_push(s: Seq<Rec>, r: Rec)
    ensures
        total_bytes(s.push(r)) == total_bytes(s) + r.size,
        hash_bytes(s.push(r), r.hash) == hash_bytes(s, r.hash) + r.size,
        forall|h: u64| h != r.hash ==> hash_bytes(s.push(r), h) == hash_bytes(s, h),
{
    lemma_push_parts(s, r);
}

/// The total also splits off at the front.
pub proof fn lemma_total_front(s: Seq<Rec>)
    requires
        s.len() > 0,
    ensures
        total_bytes(s) == s[0].size + total_bytes(s.drop_first()),
    decreases s.len(),
{
    if s.len() == 1 {
        assert(s.drop_first() =~= Seq::<Rec>::empty());
        assert(s.drop_last() =~= Seq::<Rec>::empty());
        assert(total_bytes(s.drop_last()) == 0);
        assert(total_bytes(s.drop_first()) == 0);
        assert(total_bytes(s) == total_bytes(s.drop_last()) + s.last().size);
        assert(s.last() == s[0]);
    } else {
        lemma_total_front(s.drop_last());
        assert(s.drop_last().drop_first() =~= s.drop_first().drop_last());
        assert(s.drop_first().last() == s.last());
        assert(s.drop_last()[0] == s[0]);
        assert(total_bytes(s.drop_first()) == total_bytes(s.drop_first().drop_last())
            + s.drop_first().last().size);
    }
}

/// All the byte sums are nonnegative.
pub proof fn lemma_bytes_nonneg(s: Seq<Rec>, full: Seq<Rec>)
    ensures
        unique_bytes_in(s, full) >= 0,
        duped_bytes_in(s, full) >= 0,
        total_bytes(s) >= 0,
        forall|h: u64| #[trigger] hash_bytes(s, h) >= 0,
    decreases s.len(),
{
    if s.len() > 0 {
        lemma_bytes_nonneg(s.drop_last(), full);
        assert forall|h: u64| #[trigger] hash_bytes(s, h) >= 0 by {
            assert(hash_bytes(s.drop_last(), h) >= 0);
        }
    }
}

/// A hash that no record of `s` carries contributes no bytes.
pub proof fn lemma_absent_hash_bytes(s: Seq<Rec>, h: u64)
    requires
        cnt(s, h) == 0,
    ensures
        hash_bytes(s, h) == 0,
    decreases s.len(),
{
    if s.len() > 0 {
        lemma_absent_hash_bytes(s.drop_last(), h);
    }
}

/// Every record's own hash is counted at least once.
pub proof fn lemma_cnt_at_least_one(s: Seq<Rec>, i: int)
    requires
        0 <= i < s.len(),
    ensures
        cnt(s, s[i].hash) >= 1,
    decreases s.len(),
{
    if i < s.len() - 1 {
        lemma_cnt_at_least_one(s.drop_last(), i);
    }
}

/// Replacing the reference history `f1` by `f2` moves a sum only by the
/// bytes of the one hash `h` whose count differs: those bytes enter or
/// leave the sum as `h`'s count enters or leaves the selected range.
proof fn lemma_cond_sum_shift(s: Seq<Rec>, f1: Seq<Rec>, f2: Seq<Rec>, h: u64)
    requires
        forall|h2: u64| h2 != h ==> cnt(f1, h2) == cnt(f2, h2),
    ensures
        unique_bytes_in(s, f2) == unique_bytes_in(s, f1) + (if cnt(f2, h) == 1 {
            hash_bytes(s, h)
        } else {
            0
        }) - (if cnt(f1, h) == 1 {
            hash_bytes(s, h)
        } else {
            0
        }),
        duped_bytes_in(s, f2) == duped_bytes_in(s, f1) + (if cnt(f2, h) >= 2 {
            hash_bytes(s, h)
        } else {
            0
        }) - (if cnt(f1, h) >= 2 {
            hash_bytes(s, h)
        } else {
            0
        }),
    decreases s.len(),
{
    if s.len() > 0 {
        lemma_cond_sum_shift(s.drop_last(), f1, f2, h);
    }
}

/// How one more record moves the unique and duplicated byte totals: a
/// first copy counts as unique; a second copy moves the first copy's
/// bytes over and adds its own; later copies only add their own.
pub proof fn lemma_accounting_push(s: Seq<Rec>, r: Rec)
    ensures
        unique_bytes(s.push(r)) == if cnt(s, r.hash) == 0 {
            unique_bytes(s) + r.size
        } else if cnt(s, r.hash) == 1 {
            unique_bytes(s) - hash_bytes(s, r.hash)
        } else {
            unique_bytes(s)
        },
        duped_bytes(s.push(r)) == if cnt(s, r.hash) == 0 {
            duped_bytes(s)
        } else if cnt(s, r.hash) == 1 {
            duped_bytes(s) + hash_bytes(s, r.hash) + r.size
        } else {
            duped_bytes(s) + r.size
        },
{
    let t = s.push(r);
    lemma_push_parts(s, r);
    lemma_cnt_push(s, r);
    lemma_cond_sum_shift(s, s, t, r.hash);
    if cnt(s, r.hash) == 0 {
        lemma_absent_hash_bytes(s, r.hash);
    }
}

/// Bytes with a history `full` in which every hash of `s` occurs split
/// exactly into the uniquely and the multiply occurring.
proof fn lemma_partition_in(s: Seq<Rec>, full: Seq<Rec>)
    requires
        forall|i: int| 0 <= i < s.len() ==> cnt(full, s[i].hash) >= 1,
    ensures
        unique_bytes_in(s, full) + duped_bytes_in(s, full) == total_bytes(s),
    decreases s.len(),
{
    if s.len() > 0 {
        assert forall|i: int| 0 <= i < s.drop_last().len() implies cnt(
            full,
            s.drop_last()[i].hash,
        ) >= 1 by {
            assert(s.drop_last()[i] == s[i]);
        }
        lemma_partition_in(s.drop_last(), full);
    }
}

/// The bytes of every history split exactly into those of uniquely
/// occurring content and those of duplicated content.
pub proof fn lemma_bytes_partition(s: Seq<Rec>)
    ensures
        unique_bytes(s) + duped_bytes(s) == total_bytes(s),
{
    assert forall|i: int| 0 <= i < s.len() implies cnt(s, s[i].hash) >= 1 by {
        lemma_cnt_at_least_one(s, i);
    }
    lemma_partition_in(s, s);
}

/// When a hash occurs exactly once, its bytes are part of the unique
/// total.
pub proof fn lemma_unique_covers_hash(s: Seq<Rec>, h: u64)
    requires
        cnt(s, h) == 1,
    ensures
        unique_bytes(s) >= hash_bytes(s, h),
{
    lemma_unique_covers_hash_in(s, s, h);
}

proof fn lemma_unique_covers_hash_in(s: Seq<Rec>, full: Seq<Rec>, h: u64)
    requires
        cnt(full, h) == 1,
    ensures
        unique_bytes_in(s, full) >= hash_bytes(s, h),
    decreases s.len(),
{
    if s.len() > 0 {
        lemma_unique_covers_hash_in(s.drop_last(), full, h);
    }
}

/// The paths of the records of `s` that carry hash `h`, in arrival
/// order.
pub open spec fn paths_of(s: Seq<Rec>, h: u64) -> Seq<Seq<char>>
    decreases s.len(),
{
    if s.len() == 0 {
        Seq::empty()
    } else if s.last().hash == h {
        paths_of(s.drop_last(), h).push(s.last().path)
    } else {
        paths_of(s.drop_last(), h)
    }
}

/// Appending a record appends its path to its own hash's path list and
/// leaves every other list alone.
pub proof fn lemma_paths_push(s: Seq<Rec>, r: Rec)
    ensures
        paths_of(s.push(r), r.hash) == paths_of(s, r.hash).push(r.path),
        forall|h: u64| h != r.hash ==> paths_of(s.push(r), h) == paths_of(s, h),
{
    lemma_push_parts(s, r);
}

/// The duplicated hashes among the first `n` records of `s`: every
/// hash that occurs at least twice in all of `s`, listed once, at its
/// first occurrence, in first-sighting order.
pub open spec fn dup_hashes_upto(s: Seq<Rec>, n: int) -> Seq<u64>
    decreases n,
{
    if n <= 0 {
        Seq::empty()
    } else if cnt(s, s[n - 1].hash) >= 2 && cnt(s.take(n - 1), s[n - 1].hash) == 0 {
        dup_hashes_upto(s, n - 1).push(s[n - 1].hash)
    } else {
        dup_hashes_upto(s, n - 1)
    }
}

/// The duplicated hashes of `s`, in first-sighting order.
pub open spec fn dup_hashes(s: Seq<Rec>) -> Seq<u64> {
    dup_hashes_upto(s, s.len() as int)
}

/// The hashes occurring exactly once among the first `n` records of
/// `s`, in sighting order.
pub open spec fn single_hashes_upto(s: Seq<Rec>, n: int) -> Seq<u64>
    decreases n,
{
    if n <= 0 {
        Seq::empty()
    } else if cnt(s, s[n - 1].hash) == 1 && cnt(s.take(n - 1), s[n - 1].hash) == 0 {
        single_hashes_upto(s, n - 1).push(s[n - 1].hash)
    } else {
        single_hashes_upto(s, n - 1)
    }
}

/// The hashes of `s` that point to exactly one file.
pub open spec fn single_hashes(s: Seq<Rec>) -> Seq<u64> {
    single_hashes_upto(s, s.len() as int)
}

/// One more record extends a prefix by one.
pub proof fn lemma_take_step(s: Seq<Rec>, i: int)
    requires
        0 <= i < s.len(),
    ensures
        s.take(i + 1) == s.take(i).push(s[i]),
{
    assert(s.take(i + 1) =~= s.take(i).push(s[i]));
}

/// Appending an element that a duplicate-free sequence lacks keeps it
/// duplicate-free.
proof fn lemma_push_no_dup(p: Seq<u64>, x: u64)
    requires
        p.no_duplicates(),
        !p.contains(x),
    ensures
        p.push(x).no_duplicates(),
{
    let q = p.push(x);
    assert forall|i: int, j: int|
        0 <= i < q.len() && 0 <= j < q.len() && i != j implies q[i] != q[j] by {
        if i < p.len() && j < p.len() {
        } else if j == p.len() {
            assert(q[i] == p[i]);
            if q[i] == x {
                assert(p.contains(x));
            }
        } else {
            assert(q[j] == p[j]);
            if q[j] == x {
                assert(p.contains(x));
            }
        }
    }
}

/// The duplicated-hash list holds each duplicated hash that has
/// already appeared, once and only once.
pub proof fn lemma_dup_hashes_membership(s: Seq<Rec>, n: int)
    requires
        0 <= n <= s.len(),
    ensures
        forall|h: u64| #[trigger] dup_hashes_upto(s, n).contains(h) <==> (cnt(s, h) >= 2 && cnt(
            s.take(n),
            h,
        ) >= 1),
        dup_hashes_upto(s, n).no_duplicates(),
    decreases n,
{
    if n > 0 {
        lemma_dup_hashes_membership(s, n - 1);
        lemma_take_step(s, n - 1);
        lemma_cnt_push(s.take(n - 1), s[n - 1]);
        let p = dup_hashes_upto(s, n - 1);
        let q = dup_hashes_upto(s, n);
        if cnt(s, s[n - 1].hash) >= 2 && cnt(s.take(n - 1), s[n - 1].hash) == 0 {
            assert(!p.contains(s[n - 1].hash));
            lemma_push_no_dup(p, s[n - 1].hash);
        }
        assert forall|h: u64| #[trigger] q.contains(h) implies (cnt(s, h) >= 2 && cnt(
            s.take(n),
            h,
        ) >= 1) by {
            if p.contains(h) {
            } else {
                assert(q.last() == h);
            }
        }
        assert forall|h: u64| (cnt(s, h) >= 2 && cnt(s.take(n), h) >= 1) implies #[trigger] q
            .contains(h) by {
            if cnt(s.take(n - 1), h) >= 1 {
                assert(p.contains(h));
                assert(q.contains(h)) by {
                    if p.len() > 0 {
                        let k = choose|k: int| 0 <= k < p.len() && p[k] == h;
                        if q.len() > p.len() {
                            assert(q[k] == h);
                        }
                    }
                }
            } else {
                assert(s[n - 1].hash == h);
                assert(q.last() == h);
            }
        }
    } else {
        assert(s.take(0) =~= Seq::<Rec>::empty());
    }
}

/// The single-file-hash list holds each once-occurring hash that has
/// already appeared, once and only once.
pub proof fn lemma_single_hashes_membership(s: Seq<Rec>, n: int)
    requires
        0 <= n <= s.len(),
    ensures
        forall|h: u64| #[trigger] single_hashes_upto(s, n).contains(h) <==> (cnt(s, h) == 1 && cnt(
            s.take(n),
            h,
        ) >= 1),
        single_hashes_upto(s, n).no_duplicates(),
    decreases n,
{
    if n > 0 {
        lemma_single_hashes_membership(s, n - 1);
        lemma_take_step(s, n - 1);
        lemma_cnt_push(s.take(n - 1), s[n - 1]);
        let p = single_hashes_upto(s, n - 1);
        let q = single_hashes_upto(s, n);
        if cnt(s, s[n - 1].hash) == 1 && cnt(s.take(n - 1), s[n - 1].hash) == 0 {
            assert(!p.contains(s[n - 1].hash));
            lemma_push_no_dup(p, s[n - 1].hash);
        }
        assert forall|h: u64| #[trigger] q.contains(h) implies (cnt(s, h) == 1 && cnt(
            s.take(n),
            h,
        ) >= 1) by {
            if p.contains(h) {
            } else {
                assert(q.last() == h);
            }
        }
        assert forall|h: u64| (cnt(s, h) == 1 && cnt(s.take(n), h) >= 1) implies #[trigger] q
            .contains(h) by {
            if cnt(s.take(n - 1), h) >= 1 {
                assert(p.contains(h));
                let k = choose|k: int| 0 <= k < p.len() && p[k] == h;
                if q.len() > p.len() {
                    assert(q[k] == h);
                }
            } else {
                assert(s[n - 1].hash == h);
                assert(q.last() == h);
            }
        }
    } else {
        assert(s.take(0) =~= Seq::<Rec>::empty());
    }
}

/// Removing one record lowers its own hash's count and byte share and
/// the total by exactly that record, and touches nothing else.
proof fn lemma_remove_all(s: Seq<Rec>, j: int)
    requires
        0 <= j < s.len(),
    ensures
        forall|h: u64|
            #[trigger] cnt(s.remove(j), h) == cnt(s, h) - (if s[j].hash == h {
                1int
            } else {
                0int
            }),
        forall|h: u64|
            #[trigger] hash_bytes(s.remove(j), h) == hash_bytes(s, h) - (if s[j].hash == h {
                s[j].size as int
            } else {
                0int
            }),
        total_bytes(s.remove(j)) == total_bytes(s) - s[j].size,
    decreases s.len(),
{
    let u = s.remove(j);
    if j == s.len() - 1 {
        assert(u =~= s.drop_last());
    } else {
        lemma_remove_all(s.drop_last(), j);
        assert(u.drop_last() =~= s.drop_last().remove(j));
        assert(u.last() == s.last());
        assert(s.drop_last()[j] == s[j]);
        assert forall|h: u64|
            #[trigger] cnt(u, h) == cnt(s, h) - (if s[j].hash == h {
                1int
            } else {
                0int
            }) by {
            assert(cnt(u, h) == cnt(u.drop_last(), h) + if u.last().hash == h {
                1nat
            } else {
                0nat
            });
        }
        assert forall|h: u64|
            #[trigger] hash_bytes(u, h) == hash_bytes(s, h) - (if s[j].hash == h {
                s[j].size as int
            } else {
                0int
            }) by {
            assert(hash_bytes(u, h) == hash_bytes(u.drop_last(), h) + if u.last().hash == h {
                u.last().size as int
            } else {
                0int
            });
        }
        assert(total_bytes(u) == total_bytes(u.drop_last()) + u.last().size);
    }
}

/// Removing one record from the measured sequence, with the reference
/// history held fixed, removes exactly that record's contribution.
proof fn lemma_cond_in_remove(s: Seq<Rec>, full: Seq<Rec>, j: int)
    requires
        0 <= j < s.len(),
    ensures
        unique_bytes_in(s.remove(j), full) == unique_bytes_in(s, full) - (if cnt(
            full,
            s[j].hash,
        ) == 1 {
            s[j].size as int
        } else {
            0int
        }),
        duped_bytes_in(s.remove(j), full) == duped_bytes_in(s, full) - (if cnt(full, s[j].hash)
            >= 2 {
            s[j].size as int
        } else {
            0int
        }),
    decreases s.len(),
{
    let u = s.remove(j);
    if j == s.len() - 1 {
        assert(u =~= s.drop_last());
    } else {
        lemma_cond_in_remove(s.drop_last(), full, j);
        assert(u.drop_last() =~= s.drop_last().remove(j));
        assert(u.last() == s.last());
        assert(s.drop_last()[j] == s[j]);
    }
}

/// How removing one record moves the unique and duplicated byte
/// totals, by how often its hash occurred.
proof fn lemma_accounting_remove(s: Seq<Rec>, j: int)
    requires
        0 <= j < s.len(),
    ensures
        unique_bytes(s.remove(j)) == if cnt(s, s[j].hash) == 1 {
            unique_bytes(s) - s[j].size
        } else if cnt(s, s[j].hash) == 2 {
            unique_bytes(s) + hash_bytes(s, s[j].hash) - s[j].size
        } else {
            unique_bytes(s)
        },
        duped_bytes(s.remove(j)) == if cnt(s, s[j].hash) == 1 {
            duped_bytes(s)
        } else if cnt(s, s[j].hash) == 2 {
            duped_bytes(s) - hash_bytes(s, s[j].hash)
        } else {
            duped_bytes(s) - s[j].size
        },
{
    let u = s.remove(j);
    let h = s[j].hash;
    lemma_remove_all(s, j);
    lemma_cond_in_remove(s, s, j);
    lemma_cond_sum_shift(u, s, u, h);
    if cnt(s, h) == 1 {
        lemma_absent_hash_bytes(u, h);
    }
}

/// Two record histories holding the same records, in whatever order,
/// agree on every per-hash count, every per-hash byte share, the
/// total, and the unique and duplicated byte totals.
pub proof fn lemma_scan_permutation(s1: Seq<Rec>, s2: Seq<Rec>)
    requires
        s1.to_multiset() == s2.to_multiset(),
    ensures
        s1.len() == s2.len(),
        forall|h: u64| #[trigger] cnt(s1, h) == cnt(s2, h),
        forall|h: u64| #[trigger] hash_bytes(s1, h) == hash_bytes(s2, h),
        total_bytes(s1) == total_bytes(s2),
        unique_bytes(s1) == unique_bytes(s2),
        duped_bytes(s1) == duped_bytes(s2),
    decreases s1.len(),
{
    broadcast use vstd::seq_lib::group_to_multiset_ensures;
    broadcast use vstd::multiset::group_multiset_axioms;

    assert(s1.to_multiset().len() == s1.len());
    assert(s2.to_multiset().len() == s2.len());
    if s1.len() == 0 {
        assert(s1 =~= s2);
    } else {
        let r = s1.last();
        let t1 = s1.drop_last();
        assert(s1 =~= t1.push(r));
        assert(s1.to_multiset() =~= t1.to_multiset().insert(r));
        assert(s1.contains(r));
        assert(s2.to_multiset().count(r) > 0);
        assert(s2.contains(r));
        let j = choose|j: int| 0 <= j < s2.len() && s2[j] == r;
        let u = s2.remove(j);
        assert(u.to_multiset() =~= s2.to_multiset().remove(r));
        assert(t1.to_multiset() =~= s2.to_multiset().remove(r));
        lemma_scan_permutation(t1, u);
        lemma_remove_all(s2, j);
        lemma_accounting_remove(s2, j);
        lemma_cnt_push(t1, r);
        lemma_bytes_push(t1, r);
        lemma_accounting_push(t1, r);
        assert forall|h: u64| #[trigger] cnt(s1, h) == cnt(s2, h) by {
            assert(cnt(t1, h) == cnt(u, h));
            assert(cnt(u, h) == cnt(s2, h) - (if s2[j].hash == h {
                1int
            } else {
                0int
            }));
        }
        assert forall|h: u64| #[trigger] hash_bytes(s1, h) == hash_bytes(s2, h) by {
            assert(hash_bytes(t1, h) == hash_bytes(u, h));
            assert(hash_bytes(u, h) == hash_bytes(s2, h) - (if s2[j].hash == h {
                s2[j].size as int
            } else {
                0int
            }));
        }
        let c0 = cnt(t1, r.hash);
        assert(cnt(u, r.hash) == c0);
        assert(cnt(s2, r.hash) == c0 + 1);
        assert(hash_bytes(u, r.hash) == hash_bytes(t1, r.hash));
        assert(hash_bytes(s2, r.hash) == hash_bytes(t1, r.hash) + r.size);
    }
}

/// A hash's group holds one path per record carrying the hash.
pub proof fn lemma_paths_of_len(s: Seq<Rec>, h: u64)
    ensures
        paths_of(s, h).len() == cnt(s, h),
    decreases s.len(),
{
    if s.len() > 0 {
        lemma_paths_of_len(s.drop_last(), h);
    }
}

/// Duplicate-grouping correctness for the basic scene: scanning
/// exactly two files of identical content and one of distinct content
/// (distinct hashes standing for distinct content) yields exactly one
/// duplicated hash — the pair's — whose group holds the pair's two
/// paths and, their paths being distinct, nothing of the third file,
/// while the third file's hash points to a single file. By
/// `lemma_grouping_permutation` the same grouping comes out in
/// whatever order the three records arrive.
pub proof fn lemma_pair_and_distinct_grouping(a: Rec, b: Rec, c: Rec)
    requires
        a.hash == b.hash,
        c.hash != a.hash,
    ensures
        dup_hashes(seq![a, b, c]) == seq![a.hash],
        paths_of(seq![a, b, c], a.hash) == seq![a.path, b.path],
        single_hashes(seq![a, b, c]) == seq![c.hash],
        c.path != a.path && c.path != b.path ==> !paths_of(seq![a, b, c], a.hash).contains(
            c.path,
        ),
{
    let s = seq![a, b, c];
    let s2 = seq![a, b];
    let s1 = seq![a];
    let s0 = Seq::<Rec>::empty();
    assert(s1 =~= s0.push(a));
    assert(s2 =~= s1.push(b));
    assert(s =~= s2.push(c));
    lemma_cnt_push(s0, a);
    lemma_cnt_push(s1, b);
    lemma_cnt_push(s2, c);
    assert(cnt(s1, a.hash) == 1);
    assert(cnt(s2, a.hash) == 2);
    assert(cnt(s, a.hash) == 2);
    assert(cnt(s0, c.hash) == 0);
    assert(cnt(s1, c.hash) == 0);
    assert(cnt(s2, c.hash) == 0);
    assert(cnt(s, c.hash) == 1);
    lemma_paths_push(s0, a);
    lemma_paths_push(s1, b);
    lemma_paths_push(s2, c);
    assert(paths_of(s, a.hash) =~= seq![a.path, b.path]);
    assert(s.take(0) =~= s0);
    assert(s.take(1) =~= s1);
    assert(s.take(2) =~= s2);
    assert(s[0] == a && s[1] == b && s[2] == c);
    assert(dup_hashes_upto(s, 0) =~= Seq::<u64>::empty());
    assert(dup_hashes_upto(s, 1) =~= seq![a.hash]);
    assert(dup_hashes_upto(s, 2) =~= seq![a.hash]);
    assert(dup_hashes_upto(s, 3) =~= seq![a.hash]);
    assert(single_hashes_upto(s, 0) =~= Seq::<u64>::empty());
    assert(single_hashes_upto(s, 1) =~= Seq::<u64>::empty());
    assert(single_hashes_upto(s, 2) =~= Seq::<u64>::empty());
    assert(single_hashes_upto(s, 3) =~= seq![c.hash]);
    if c.path != a.path && c.path != b.path {
        assert(!paths_of(s, a.hash).contains(c.path)) by {
            if paths_of(s, a.hash).contains(c.path) {
                let k = choose|k: int|
                    0 <= k < paths_of(s, a.hash).len() && paths_of(s, a.hash)[k] == c.path;
                assert(k == 0 || k == 1);
            }
        }
    }
}

proof fn lemma_pointwise_counts(s1: Seq<Rec>, s2: Seq<Rec>)
    requires
        s1.len() == s2.len(),
        forall|i: int|
            0 <= i < s1.len() ==> (#[trigger] s1[i]).hash == s2[i].hash && s1[i].size
                == s2[i].size,
    ensures
        forall|h: u64| #[trigger] cnt(s1, h) == cnt(s2, h),
        forall|h: u64| #[trigger] hash_bytes(s1, h) == hash_bytes(s2, h),
        total_bytes(s1) == total_bytes(s2),
    decreases s1.len(),
{
    if s1.len() > 0 {
        assert forall|i: int|
            0 <= i < s1.drop_last().len() implies (#[trigger] s1.drop_last()[i]).hash
            == s2.drop_last()[i].hash && s1.drop_last()[i].size == s2.drop_last()[i].size by {
            assert(s1.drop_last()[i] == s1[i]);
            assert(s2.drop_last()[i] == s2[i]);
        }
        lemma_pointwise_counts(s1.drop_last(), s2.drop_last());
        assert(s1[s1.len() - 1].hash == s2[s2.len() - 1].hash);
        assert(s1[s1.len() - 1].size == s2[s2.len() - 1].size);
        assert forall|h: u64| #[trigger] cnt(s1, h) == cnt(s2, h) by {
            assert(cnt(s1.drop_last(), h) == cnt(s2.drop_last(), h));
        }
        assert forall|h: u64| #[trigger] hash_bytes(s1, h) == hash_bytes(s2, h) by {
            assert(hash_bytes(s1.drop_last(), h) == hash_bytes(s2.drop_last(), h));
        }
    }
}

proof fn lemma_pointwise_cond(s1: Seq<Rec>, s2: Seq<Rec>, f1: Seq<Rec>, f2: Seq<Rec>)
    requires
        s1.len() == s2.len(),
        forall|i: int|
            0 <= i < s1.len() ==> (#[trigger] s1[i]).hash == s2[i].hash && s1[i].size
                == s2[i].size,
        forall|h: u64| #[trigger] cnt(f1, h) == cnt(f2, h),
    ensures
        unique_bytes_in(s1, f1) == unique_bytes_in(s2, f2),
        duped_bytes_in(s1, f1) == duped_bytes_in(s2, f2),
    decreases s1.len(),
{
    if s1.len() > 0 {
        assert forall|i: int|
            0 <= i < s1.drop_last().len() implies (#[trigger] s1.drop_last()[i]).hash
            == s2.drop_last()[i].hash && s1.drop_last()[i].size == s2.drop_last()[i].size by {
            assert(s1.drop_last()[i] == s1[i]);
            assert(s2.drop_last()[i] == s2[i]);
        }
        lemma_pointwise_cond(s1.drop_last(), s2.drop_last(), f1, f2);
        assert(s1[s1.len() - 1].hash == s2[s2.len() - 1].hash);
        assert(s1[s1.len() - 1].size == s2[s2.len() - 1].size);
        assert(cnt(f1, s1.last().hash) == cnt(f2, s2.last().hash));
    }
}

proof fn lemma_pointwise_upto(s1: Seq<Rec>, s2: Seq<Rec>, n: int)
    requires
        s1.len() == s2.len(),
        forall|i: int|
            0 <= i < s1.len() ==> (#[trigger] s1[i]).hash == s2[i].hash && s1[i].size
                == s2[i].size,
        forall|h: u64| #[trigger] cnt(s1, h) == cnt(s2, h),
        0 <= n <= s1.len(),
    ensures
        dup_hashes_upto(s1, n) == dup_hashes_upto(s2, n),
        single_hashes_upto(s1, n) == single_hashes_upto(s2, n),
    decreases n,
{
    if n > 0 {
        lemma_pointwise_upto(s1, s2, n - 1);
        assert(s1[n - 1].hash == s2[n - 1].hash);
        assert forall|i: int|
            0 <= i < s1.take(n - 1).len() implies (#[trigger] s1.take(n - 1)[i]).hash == s2.take(
            n - 1,
        )[i].hash && s1.take(n - 1)[i].size == s2.take(n - 1)[i].size by {
            assert(s1.take(n - 1)[i] == s1[i]);
            assert(s2.take(n - 1)[i] == s2[i]);
        }
        lemma_pointwise_counts(s1.take(n - 1), s2.take(n - 1));
        assert(cnt(s1.take(n - 1), s1[n - 1].hash) == cnt(s2.take(n - 1), s2[n - 1].hash));
    }
}

/// Grouping and the statistics see only hashes and sizes, never
/// paths: two scans whose records carry the same hashes and sizes in
/// the same order — the same contents laid out at any directory
/// depths — yield the same duplicated hashes in the same order, the
/// same single-file hashes, groups of the same sizes, and the same
/// byte totals. By `lemma_grouping_permutation`, the order need not
/// even match for the group sets and counts to agree.
pub proof fn lemma_grouping_ignores_paths(s1: Seq<Rec>, s2: Seq<Rec>)
    requires
        s1.len() == s2.len(),
        forall|i: int|
            0 <= i < s1.len() ==> (#[trigger] s1[i]).hash == s2[i].hash && s1[i].size
                == s2[i].size,
    ensures
        forall|h: u64| #[trigger] cnt(s1, h) == cnt(s2, h),
        total_bytes(s1) == total_bytes(s2),
        unique_bytes(s1) == unique_bytes(s2),
        duped_bytes(s1) == duped_bytes(s2),
        dup_hashes(s1) == dup_hashes(s2),
        single_hashes(s1) == single_hashes(s2),
        forall|h: u64| #[trigger] paths_of(s1, h).len() == paths_of(s2, h).len(),
{
    lemma_pointwise_counts(s1, s2);
    lemma_pointwise_cond(s1, s2, s1, s2);
    lemma_pointwise_upto(s1, s2, s1.len() as int);
    assert forall|h: u64| #[trigger] paths_of(s1, h).len() == paths_of(s2, h).len() by {
        lemma_paths_of_len(s1, h);
        lemma_paths_of_len(s2, h);
    }
}

/// A hash's path list holds exactly the paths of the records that
/// carry that hash.
pub proof fn lemma_paths_of_membership(s: Seq<Rec>, h: u64)
    ensures
        forall|p: Seq<char>|
            #[trigger] paths_of(s, h).contains(p) <==> exists|i: int|
                0 <= i < s.len() && s[i].hash == h && s[i].path == p,
    decreases s.len(),
{
    if s.len() > 0 {
        lemma_paths_of_membership(s.drop_last(), h);
        let pl = paths_of(s.drop_last(), h);
        let q = paths_of(s, h);
        assert forall|p: Seq<char>| #[trigger] q.contains(p) implies exists|i: int|
            0 <= i < s.len() && s[i].hash == h && s[i].path == p by {
            let k = choose|k: int| 0 <= k < q.len() && q[k] == p;
            if k < pl.len() {
                assert(pl[k] == p);
                assert(pl.contains(p));
                let i = choose|i: int|
                    0 <= i < s.drop_last().len() && s.drop_last()[i].hash == h
                        && s.drop_last()[i].path == p;
                assert(s[i].hash == h && s[i].path == p);
            } else {
                assert(s.last().hash == h && s.last().path == p);
                assert(s[s.len() - 1].hash == h && s[s.len() - 1].path == p);
            }
        }
        assert forall|p: Seq<char>|
            (exists|i: int| 0 <= i < s.len() && s[i].hash == h && s[i].path == p) implies (
        #[trigger] q.contains(p)) by {
            let i = choose|i: int| 0 <= i < s.len() && s[i].hash == h && s[i].path == p;
            if i < s.len() - 1 {
                assert(s.drop_last()[i].hash == h && s.drop_last()[i].path == p);
                assert(pl.contains(p));
                let k = choose|k: int| 0 <= k < pl.len() && pl[k] == p;
                assert(q[k] == p);
            } else {
                assert(s.last().hash == h);
                assert(q.last() == p);
            }
        }
    }
}

/// Which hashes are duplicated, which point to a single file, and
/// which paths make up each duplicate group depend only on which
/// records were scanned, never on the order they arrived in: two scans
/// of the same unmodified files group alike.
pub proof fn lemma_grouping_permutation(s1: Seq<Rec>, s2: Seq<Rec>)
    requires
        s1.to_multiset() == s2.to_multiset(),
    ensures
        dup_hashes(s1).to_set() == dup_hashes(s2).to_set(),
        dup_hashes(s1).len() == dup_hashes(s2).len(),
        single_hashes(s1).to_set() == single_hashes(s2).to_set(),
        single_hashes(s1).len() == single_hashes(s2).len(),
        forall|h: u64| #[trigger] paths_of(s1, h).to_set() == paths_of(s2, h).to_set(),
{
    broadcast use vstd::seq_lib::group_to_multiset_ensures;
    broadcast use vstd::set::group_set_axioms;

    lemma_scan_permutation(s1, s2);
    lemma_dup_hashes_membership(s1, s1.len() as int);
    lemma_dup_hashes_membership(s2, s2.len() as int);
    lemma_single_hashes_membership(s1, s1.len() as int);
    lemma_single_hashes_membership(s2, s2.len() as int);
    assert(s1.take(s1.len() as int) =~= s1);
    assert(s2.take(s2.len() as int) =~= s2);
    assert(dup_hashes(s1).to_set() =~= dup_hashes(s2).to_set());
    assert(single_hashes(s1).to_set() =~= single_hashes(s2).to_set());
    dup_hashes(s1).unique_seq_to_set();
    dup_hashes(s2).unique_seq_to_set();
    single_hashes(s1).unique_seq_to_set();
    single_hashes(s2).unique_seq_to_set();
    assert forall|h: u64| #[trigger] paths_of(s1, h).to_set() == paths_of(s2, h).to_set() by {
        lemma_paths_of_membership(s1, h);
        lemma_paths_of_membership(s2, h);
        assert forall|p: Seq<char>| paths_of(s1, h).contains(p) implies paths_of(
            s2,
            h,
        ).contains(p) by {
            let i = choose|i: int| 0 <= i < s1.len() && s1[i].hash == h && s1[i].path == p;
            let r = s1[i];
            assert(s1.contains(r));
            assert(s1.to_multiset().count(r) > 0);
            assert(s2.contains(r));
            let k = choose|k: int| 0 <= k < s2.len() && s2[k] == r;
            assert(s2[k].hash == h && s2[k].path == p);
        }
        assert forall|p: Seq<char>| paths_of(s2, h).contains(p) implies paths_of(
            s1,
            h,
        ).contains(p) by {
            let i = choose|i: int| 0 <= i < s2.len() && s2[i].hash == h && s2[i].path == p;
            let r = s2[i];
            assert(s2.contains(r));
            assert(s2.to_multiset().count(r) > 0);
            assert(s1.contains(r));
            let k = choose|k: int| 0 <= k < s1.len() && s1[k] == r;
            assert(s1[k].hash == h && s1[k].path == p);
        }
        assert(paths_of(s1, h).to_set() =~= paths_of(s2, h).to_set());
    }
}

} // verus!
