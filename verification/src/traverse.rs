//! Traversal bookkeeping. The walk over a directory tree keeps a
//! frontier of directories still to be read. Reading a directory is
//! I/O and happens outside; what is verified here is the decision per
//! resolved listing: every subdirectory joins the frontier, every
//! regular file is emitted exactly once to be hashed, everything else
//! is dropped, and an unreadable directory is simply never absorbed,
//! so the walk goes on with its siblings.

use vstd::prelude::*;
use crate::dupfinder::path_views;

verus! {

/// What a directory entry resolved to.
#[derive(Clone, Copy, PartialEq, Eq, Structural, Debug)]
pub enum EntryKind {
    /// A regular file.
    File,
    /// A directory.
    Dir,
    /// Anything else: it takes no part in the walk.
    Other,
}

/// One resolved directory entry: its full path and what it is.
pub struct DirEntry {
    pub path: String,
    pub kind: EntryKind,
}

/// The mathematical image of a `DirEntry`.
pub ghost struct EntryV {
    pub path: Seq<char>,
    pub kind: EntryKind,
}

impl View for DirEntry {
    type V = EntryV;

    open spec fn view(&self) -> EntryV {
        EntryV { path: self.path@, kind: self.kind }
    }
}

/// The sequence of entry views held in `v`.
pub open spec fn entry_views(v: Seq<DirEntry>) -> Seq<EntryV> {
    v.map_values(|e: DirEntry| e@)
}

/// The paths of the regular files among `es`, in listing order.
pub open spec fn files_of(es: Seq<EntryV>) -> Seq<Seq<char>>
    decreases es.len(),
{
    if es.len() == 0 {
        Seq::empty()
    } else if es.last().kind == EntryKind::File {
        files_of(es.drop_last()).push(es.last().path)
    } else {
        files_of(es.drop_last())
    }
}

/// The paths of the directories among `es`, in listing order.
pub open spec fn dirs_of(es: Seq<EntryV>) -> Seq<Seq<char>>
    decreases es.len(),
{
    if es.len() == 0 {
        Seq::empty()
    } else if es.last().kind == EntryKind::Dir {
        dirs_of(es.drop_last()).push(es.last().path)
    } else {
        dirs_of(es.drop_last())
    }
}

proof fn lemma_entry_push(es: Seq<EntryV>, e: EntryV)
    ensures
        files_of(es.push(e)) == (if e.kind == EntryKind::File {
            files_of(es).push(e.path)
        } else {
            files_of(es)
        }),
        dirs_of(es.push(e)) == (if e.kind == EntryKind::Dir {
            dirs_of(es).push(e.path)
        } else {
            dirs_of(es)
        }),
{
    assert(es.push(e).drop_last() =~= es);
}

/// How many entries of `es` are regular files at path `p`.
pub open spec fn file_entry_cnt(es: Seq<EntryV>, p: Seq<char>) -> nat
    decreases es.len(),
{
    if es.len() == 0 {
        0
    } else {
        file_entry_cnt(es.drop_last(), p) + if es.last().kind == EntryKind::File && es.last().path
            == p {
            1nat
        } else {
            0nat
        }
    }
}

/// How many times the path `p` occurs in `ps`.
pub open spec fn path_cnt(ps: Seq<Seq<char>>, p: Seq<char>) -> nat
    decreases ps.len(),
{
    if ps.len() == 0 {
        0
    } else {
        path_cnt(ps.drop_last(), p) + if ps.last() == p {
            1nat
        } else {
            0nat
        }
    }
}

/// Absorbing a listing emits each regular file's path exactly as often
/// as the listing holds it: no file is dropped and none is emitted
/// twice.
pub proof fn lemma_traverse_complete(es: Seq<EntryV>, p: Seq<char>)
    ensures
        path_cnt(files_of(es), p) == file_entry_cnt(es, p),
    decreases es.len(),
{
    if es.len() > 0 {
        lemma_traverse_complete(es.drop_last(), p);
        lemma_entry_push(es.drop_last(), es.last());
        assert(es.drop_last().push(es.last()) =~= es);
        if es.last().kind == EntryKind::File {
            assert(files_of(es) == files_of(es.drop_last()).push(es.last().path));
            assert(files_of(es).drop_last() =~= files_of(es.drop_last()));
        }
    }
}

/// The traversal frontier: every directory discovered and not yet
/// read, the deepest-discovered first in line.
pub struct Traverser {
    pending: Vec<String>,
}

impl Traverser {
    /// The pending directories, oldest first.
    pub closed spec fn pending_dirs(self) -> Seq<Seq<char>> {
        path_views(self.pending@)
    }

    /// A walk about to start at `root`.
    pub fn new(root: String) -> (t: Traverser)
        ensures
            t.pending_dirs() == seq![root@],
    {
        let mut pending: Vec<String> = Vec::new();
        pending.push(root);
        let t = Traverser { pending };
        proof {
            assert(t.pending_dirs() =~= seq![root@]);
        }
        t
    }

    /// Take one pending directory to read next. The walk is finished
    /// exactly when none is left.
    pub fn next_dir(&mut self) -> (d: Option<String>)
        ensures
            old(self).pending_dirs().len() == 0 ==> d is None && final(self).pending_dirs()
                == old(self).pending_dirs(),
            old(self).pending_dirs().len() > 0 ==> (d matches Some(p) && p@ == old(
                self,
            ).pending_dirs().last() && final(self).pending_dirs() == old(
                self,
            ).pending_dirs().drop_last()),
    {
        let d = self.pending.pop();
        proof {
            if old(self).pending_dirs().len() > 0 {
                assert(self.pending_dirs() =~= old(self).pending_dirs().drop_last());
            }
        }
        d
    }

    /// Absorb one directory's resolved listing: its subdirectories
    /// join the frontier in listing order, and the paths of its
    /// regular files come back, each exactly once, in listing order.
    /// Everything else in the listing is dropped.
    pub fn traverse(&mut self, entries: Vec<DirEntry>) -> (files: Vec<String>)
        ensures
            final(self).pending_dirs() == old(self).pending_dirs() + dirs_of(
                entry_views(entries@),
            ),
            path_views(files@) == files_of(entry_views(entries@)),
    {
        let ghost orig = self.pending_dirs();
        let ghost ev = entry_views(entries@);
        let mut rest = entries;
        let mut files: Vec<String> = Vec::new();
        let ghost k: int = 0;
        proof {
            assert(ev.skip(0) =~= ev);
            assert(ev.take(0) =~= Seq::<EntryV>::empty());
            assert(orig + dirs_of(ev.take(0)) =~= orig);
        }
        while rest.len() > 0
            invariant
                0 <= k <= ev.len(),
                entry_views(rest@) == ev.skip(k),
                self.pending_dirs() == orig + dirs_of(ev.take(k)),
                path_views(files@) == files_of(ev.take(k)),
            decreases rest@.len(),
        {
            let ghost rv = entry_views(rest@);
            proof {
                assert(rv == ev.skip(k));
                assert(rv.len() == rest@.len());
                assert(rv.len() > 0);
                assert(k < ev.len());
                assert(rv[0] == ev[k]);
            }
            let e = rest.remove(0);
            proof {
                assert(e@ == rv[0]);
                assert(entry_views(rest@) =~= rv.drop_first());
                assert(rv.drop_first() =~= ev.skip(k + 1));
                assert(ev.take(k + 1) =~= ev.take(k).push(ev[k]));
                lemma_entry_push(ev.take(k), ev[k]);
            }
            match e.kind {
                EntryKind::Dir => {
                    let ghost pv = self.pending_dirs();
                    let ghost pd = e.path@;
                    self.pending.push(e.path);
                    proof {
                        assert(self.pending_dirs() =~= pv.push(pd));
                        assert(dirs_of(ev.take(k + 1)) == dirs_of(ev.take(k)).push(ev[k].path));
                        assert(pv.push(pd) =~= orig + dirs_of(ev.take(k + 1)));
                    }
                },
                EntryKind::File => {
                    files.push(e.path);
                    proof {
                        assert(path_views(files@) =~= files_of(ev.take(k + 1)));
                    }
                },
                EntryKind::Other => {},
            }
            proof {
                k = k + 1;
            }
        }
        proof {
            assert(ev.skip(k).len() == 0);
            assert(ev.take(k) =~= ev);
        }
        files
    }
}

} // verus!
