//! The files of the working tree that differ from the last commit: which
//! were created, which were changed and which were removed.

use crate::keys::PathIndex;
use crate::places::lemma_place;
use crate::places::place_in;
use vstd::prelude::*;

verus! {

/// What the version control says of the state of one file.
#[derive(Clone, Copy, Debug, PartialEq, Eq, Structural)]
pub struct ChangeFlags {
    pub conflicted: bool,
    pub ignored: bool,
    pub wt_new: bool,
    pub index_new: bool,
    pub index_deleted: bool,
    pub wt_deleted: bool,
    pub index_modified: bool,
    pub wt_modified: bool,
    pub index_renamed: bool,
    pub wt_renamed: bool,
    pub index_typechange: bool,
    pub wt_typechange: bool,
}

/// What is to be done with a file of the working tree.
#[derive(Clone, Copy, Debug, PartialEq, Eq, Structural)]
pub enum IndexVerdict {
    New,
    Modify,
    Remove,
    Ignore,
}

/// What a file of the working tree holds, seen from the last commit.
#[derive(Debug, PartialEq, Eq)]
pub enum FileContent {
    Created(String),
    Modified(String),
    Deleted,
    NotChanged,
}

/// A file in conflict or ignored is left alone; else a new file counts as
/// new, else a deleted one as removed, else a changed, renamed or retyped
/// one as modified; any other is left alone.
pub open spec fn verdict_of(status: ChangeFlags) -> IndexVerdict {
    if status.conflicted || status.ignored {
        IndexVerdict::Ignore
    } else if status.wt_new || status.index_new {
        IndexVerdict::New
    } else if status.index_deleted || status.wt_deleted {
        IndexVerdict::Remove
    } else if status.index_modified || status.wt_modified || status.index_renamed
        || status.wt_renamed || status.index_typechange || status.wt_typechange {
        IndexVerdict::Modify
    } else {
        IndexVerdict::Ignore
    }
}

pub fn classify_change(status: ChangeFlags) -> (verdict: IndexVerdict)
    ensures
        verdict == verdict_of(status),
{
    if status.conflicted || status.ignored {
        return IndexVerdict::Ignore;
    }
    // Untracked or added
    if status.wt_new || status.index_new {
        return IndexVerdict::New;
    }
    // Removed (either staged or unstaged delete)
    if status.index_deleted || status.wt_deleted {
        return IndexVerdict::Remove;
    }
    // Modified (index or worktree)
    if status.index_modified || status.wt_modified || status.index_renamed || status.wt_renamed
        || status.index_typechange || status.wt_typechange {
        return IndexVerdict::Modify;
    }
    // Do not index rest of cases.
    IndexVerdict::Ignore
}

/// Whether a path is among the created, the modified and the removed files.
#[derive(Clone, Copy, Debug, PartialEq, Eq, Structural)]
pub struct Marks {
    pub created: bool,
    pub modified: bool,
    pub removed: bool,
}

pub open spec fn no_marks() -> Marks {
    Marks { created: false, modified: false, removed: false }
}

/// The marks of a path after a verdict on it was noted.
pub open spec fn with_verdict(marks: Marks, verdict: IndexVerdict) -> Marks {
    match verdict {
        IndexVerdict::New => Marks { created: true, ..marks },
        IndexVerdict::Modify => Marks { modified: true, ..marks },
        IndexVerdict::Remove => Marks { removed: true, ..marks },
        IndexVerdict::Ignore => marks,
    }
}

/// The paths of the status entries, in order.
pub open spec fn status_paths(statuses: Seq<(String, ChangeFlags)>) -> Seq<Seq<char>> {
    Seq::new(statuses.len(), |i: int| statuses[i].0@)
}

/// The path is one of the list.
pub open spec fn is_among(paths: Seq<String>, p: Seq<char>) -> bool {
    exists|i: int| 0 <= i < paths.len() && (#[trigger] paths[i])@ == p
}

/// The marks of a path after the files `paths` were looked at again. A
/// path that was not asked for keeps its marks. One that was asked for and
/// has a status gets the verdict on its first status noted; one without a
/// status is no longer changed and loses its marks.
pub open spec fn marks_after(
    before: Marks,
    paths: Seq<String>,
    statuses: Seq<(String, ChangeFlags)>,
    p: Seq<char>,
) -> Marks {
    if !is_among(paths, p) {
        before
    } else {
        match place_in(status_paths(statuses), statuses.len() as int, p) {
            Some(i) => with_verdict(before, verdict_of(statuses[i].1)),
            None => no_marks(),
        }
    }
}

/// The files of the working tree that differ from the last commit.
pub struct NotCommitedFilesIndexer {
    pub paths: PathIndex,
    /// The marks of each path, by its place in `paths`.
    pub marks: Vec<Marks>,
}

impl NotCommitedFilesIndexer {
    pub open spec fn wf(&self) -> bool {
        self.paths.wf() && self.marks@.len() == self.paths.count()
    }

    /// The marks of a path.
    pub open spec fn marks_of(&self, p: Seq<char>) -> Marks {
        if self.paths.has_path(p) {
            self.marks@[self.paths.file_id(p)]
        } else {
            no_marks()
        }
    }

    /// No file differs.
    pub fn new() -> (out: Self)
        ensures
            out.wf(),
            forall|p: Seq<char>| out.marks_of(p) == no_marks(),
    {
        Self { paths: PathIndex::new(), marks: Vec::new() }
    }

    /// Notes a verdict on a path.
    pub fn note(&mut self, path: &str, verdict: IndexVerdict)
        requires
            old(self).wf(),
        ensures
            final(self).wf(),
            final(self).marks_of(path@) == with_verdict(old(self).marks_of(path@), verdict),
            forall|p: Seq<char>| p != path@ ==> final(self).marks_of(p) == old(self).marks_of(p),
    {
        if verdict == IndexVerdict::Ignore {
            return ;
        }
        let (id, added) = self.paths.find_or_add(path);
        if added {
            self.marks.push(Marks { created: false, modified: false, removed: false });
        }
        let was = self.marks[id];
        let now = match verdict {
            IndexVerdict::New => Marks { created: true, modified: was.modified, removed: was.removed },
            IndexVerdict::Modify => Marks { created: was.created, modified: true, removed: was.removed },
            IndexVerdict::Remove => Marks { created: was.created, modified: was.modified, removed: true },
            IndexVerdict::Ignore => was,
        };
        self.marks.set(id, now);
        proof {
            assert forall|p: Seq<char>| p != path@ implies self.marks_of(p) == old(self).marks_of(
                p,
            ) by {
                if self.paths.has_path(p) {
                    let k = self.paths.file_id(p);
                    assert(self.paths.paths@[k]@ == p);
                    if !old(self).paths.has_path(p) {
                        if k < old(self).paths.count() {
                            assert(self.paths.paths@[k] == old(self).paths.paths@[k]);
                            assert(old(self).paths.has_path(old(self).paths.paths@[k]@));
                        }
                    }
                }
            }
        }
    }

    /// Takes a path out of the created, the modified and the removed files.
    pub fn forget(&mut self, path: &str)
        requires
            old(self).wf(),
        ensures
            final(self).wf(),
            final(self).marks_of(path@) == no_marks(),
            forall|p: Seq<char>| p != path@ ==> final(self).marks_of(p) == old(self).marks_of(p),
    {
        match self.paths.find(path) {
            Some(id) => {
                self.marks.set(id, Marks { created: false, modified: false, removed: false });
                proof {
                    assert forall|p: Seq<char>| p != path@ implies self.marks_of(p) == old(
                        self,
                    ).marks_of(p) by {
                        if self.paths.has_path(p) {
                            assert(self.paths.paths@[self.paths.file_id(p)]@ == p);
                        }
                    }
                }
            },
            None => {},
        }
    }

    /// Looks again at the files `path`, given the status of every file of
    /// the working tree that has one.
    pub fn reindex_files(&mut self, path: &Vec<String>, statuses: &Vec<(String, ChangeFlags)>)
        requires
            old(self).wf(),
        ensures
            final(self).wf(),
            forall|p: Seq<char>| #[trigger]
                final(self).marks_of(p) == marks_after(old(self).marks_of(p), path@, statuses@, p),
    {
        let ghost start = *self;
        let ghost reports = status_paths(statuses@);
        let mut wanted = PathIndex::new();
        let mut seen: Vec<bool> = Vec::new();
        let mut n: usize = 0;
        while n < path.len()
            invariant
                n <= path@.len(),
                wanted.wf(),
                seen@.len() == wanted.count(),
                forall|k: int| 0 <= k < seen@.len() ==> !(#[trigger] seen@[k]),
                forall|p: Seq<char>| wanted.has_path(p) <==> is_among(path@.take(n as int), p),
            decreases path@.len() - n,
        {
            let ghost before = wanted;
            let (_, added) = wanted.find_or_add(path[n].as_str());
            if added {
                seen.push(false);
            }
            proof {
                let q = path@[n as int]@;
                assert(path@.take(n + 1)[n as int] == path@[n as int]);
                assert forall|p: Seq<char>| wanted.has_path(p) <==> is_among(
                    path@.take(n + 1),
                    p,
                ) by {
                    if is_among(path@.take(n + 1), p) {
                        let i = choose|i: int|
                            0 <= i < path@.take(n + 1).len() && (#[trigger] path@.take(n + 1)[i])@
                                == p;
                        if i < n {
                            assert(path@.take(n as int)[i]@ == p);
                            assert(is_among(path@.take(n as int), p));
                        }
                    }
                    if wanted.has_path(p) {
                        if before.has_path(p) {
                            let i = choose|i: int|
                                0 <= i < path@.take(n as int).len() && (#[trigger] path@.take(
                                    n as int,
                                )[i])@ == p;
                            assert(path@.take(n + 1)[i]@ == p);
                        } else {
                            let k = wanted.file_id(p);
                            assert(wanted.paths@[k]@ == p);
                            if k < before.count() {
                                assert(wanted.paths@[k] == before.paths@[k]);
                                assert(before.has_path(before.paths@[k]@));
                            }
                            assert(p == q);
                        }
                    }
                }
            }
            n += 1;
        }
        proof {
            assert(path@.take(path@.len() as int) =~= path@);
        }
        let mut i: usize = 0;
        while i < statuses.len()
            invariant
                i <= statuses@.len(),
                self.wf(),
                wanted.wf(),
                reports == status_paths(statuses@),
                seen@.len() == wanted.count(),
                forall|p: Seq<char>| wanted.has_path(p) <==> is_among(path@, p),
                forall|k: int|
                    0 <= k < seen@.len() ==> (#[trigger] seen@[k] <==> place_in(
                        reports,
                        i as int,
                        wanted.paths@[k]@,
                    ) is Some),
                forall|p: Seq<char>| #[trigger]
                    self.marks_of(p) == (if !is_among(path@, p) {
                        start.marks_of(p)
                    } else {
                        match place_in(reports, i as int, p) {
                            Some(at) => with_verdict(start.marks_of(p), verdict_of(statuses@[at].1)),
                            None => start.marks_of(p),
                        }
                    }),
            decreases statuses@.len() - i,
        {
            let ghost q = statuses@[i as int].0@;
            let ghost before = *self;
            proof {
                assert(reports[i as int] == q);
                lemma_place(reports, i as int, q);
            }
            match wanted.find(statuses[i].0.as_str()) {
                Some(k) => {
                    if !seen[k] {
                        seen.set(k, true);
                        self.note(statuses[i].0.as_str(), classify_change(statuses[i].1));
                    }
                },
                None => {},
            }
            proof {
                assert forall|k: int| 0 <= k < seen@.len() implies (#[trigger] seen@[k] <==> place_in(
                    reports,
                    i + 1,
                    wanted.paths@[k]@,
                ) is Some) by {
                    let w = wanted.paths@[k]@;
                    assert(wanted.has_path(w) && wanted.file_id(w) == k);
                }
                assert forall|p: Seq<char>| #[trigger]
                    self.marks_of(p) == (if !is_among(path@, p) {
                        start.marks_of(p)
                    } else {
                        match place_in(reports, i + 1, p) {
                            Some(at) => with_verdict(start.marks_of(p), verdict_of(statuses@[at].1)),
                            None => start.marks_of(p),
                        }
                    }) by {
                    assert(before.marks_of(p) == (if !is_among(path@, p) {
                        start.marks_of(p)
                    } else {
                        match place_in(reports, i as int, p) {
                            Some(at) => with_verdict(start.marks_of(p), verdict_of(statuses@[at].1)),
                            None => start.marks_of(p),
                        }
                    }));
                    if p == q && wanted.has_path(q) {
                        let k = wanted.file_id(q);
                        assert(wanted.paths@[k]@ == q);
                    }
                }
            }
            i += 1;
        }
        let mut k: usize = 0;
        let ghost middle = *self;
        while k < seen.len()
            invariant
                k <= seen@.len(),
                self.wf(),
                wanted.wf(),
                seen@.len() == wanted.count(),
                forall|p: Seq<char>| #[trigger]
                    self.marks_of(p) == (if wanted.has_path(p) && wanted.file_id(p) < k && !seen@[wanted.file_id(
                        p,
                    )] {
                        no_marks()
                    } else {
                        middle.marks_of(p)
                    }),
            decreases seen@.len() - k,
        {
            let ghost before = *self;
            if !seen[k] {
                self.forget(wanted.paths[k].as_str());
            }
            proof {
                let w = wanted.paths@[k as int]@;
                assert(wanted.has_path(w) && wanted.file_id(w) == k);
                assert forall|p: Seq<char>| #[trigger]
                    self.marks_of(p) == (if wanted.has_path(p) && wanted.file_id(p) < k + 1
                        && !seen@[wanted.file_id(p)] {
                        no_marks()
                    } else {
                        middle.marks_of(p)
                    }) by {
                    assert(before.marks_of(p) == (if wanted.has_path(p) && wanted.file_id(p) < k
                        && !seen@[wanted.file_id(p)] {
                        no_marks()
                    } else {
                        middle.marks_of(p)
                    }));
                    if wanted.has_path(p) && wanted.file_id(p) == k {
                        assert(wanted.paths@[wanted.file_id(p)]@ == p);
                    }
                }
            }
            k += 1;
        }
        proof {
            assert forall|p: Seq<char>| #[trigger]
                self.marks_of(p) == marks_after(start.marks_of(p), path@, statuses@, p) by {
                assert(middle.marks_of(p) == (if !is_among(path@, p) {
                    start.marks_of(p)
                } else {
                    match place_in(reports, statuses@.len() as int, p) {
                        Some(at) => with_verdict(start.marks_of(p), verdict_of(statuses@[at].1)),
                        None => start.marks_of(p),
                    }
                }));
                if wanted.has_path(p) {
                    let j = wanted.file_id(p);
                    assert(wanted.paths@[j]@ == p);
                }
            }
        }
    }

    /// Whether the content of the file has to be read to say what it holds.
    pub fn needs_content(&self, file_path: &str) -> (needed: bool)
        requires
            self.wf(),
        ensures
            needed == (!self.marks_of(file_path@).removed && (self.marks_of(file_path@).created
                || self.marks_of(file_path@).modified)),
    {
        match self.paths.find(file_path) {
            Some(id) => !self.marks[id].removed && (self.marks[id].created || self.marks[id].modified),
            None => false,
        }
    }

    /// What the file holds, seen from the last commit: a removed file is
    /// gone, whatever else is noted of it; else a created file counts as
    /// created, else a modified one as modified. `content` is what the
    /// file holds now.
    pub fn get_file_content(&self, file_path: &str, content: String) -> (out: FileContent)
        requires
            self.wf(),
        ensures
            out == (if self.marks_of(file_path@).removed {
                FileContent::Deleted
            } else if self.marks_of(file_path@).created {
                FileContent::Created(content)
            } else if self.marks_of(file_path@).modified {
                FileContent::Modified(content)
            } else {
                FileContent::NotChanged
            }),
    {
        let marks = match self.paths.find(file_path) {
            Some(id) => self.marks[id],
            None => Marks { created: false, modified: false, removed: false },
        };
        if marks.removed {
            FileContent::Deleted
        } else if marks.created {
            FileContent::Created(content)
        } else if marks.modified {
            FileContent::Modified(content)
        } else {
            FileContent::NotChanged
        }
    }
}

} // verus!
