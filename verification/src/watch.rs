//! What to do when files of the working tree change: which changes count,
//! when to wake the indexer, and which paths it has to look at once the
//! changes of a while are taken together.

use crate::keys::PathIndex;
use crate::matcher::strings_view;
use vstd::prelude::*;

verus! {

/// What the file system reports of a change.
#[derive(Clone, Copy, Debug, PartialEq, Eq, Structural)]
pub enum ChangeKind {
    Create,
    Remove,
    /// The content of a file changed.
    ModifyData,
    /// The name of a file changed.
    ModifyName,
    /// Anything else: access, a change of metadata.
    Other,
}

/// What a change means for the index.
#[derive(Clone, Copy, Debug, PartialEq, Eq, Structural)]
pub enum FsEventType {
    Create,
    Remove,
    Modify,
}

/// A change that counts, with the paths it is about.
#[derive(Debug)]
pub struct FsEvent {
    pub kind: FsEventType,
    pub paths: Vec<String>,
}

pub struct WatcherConfig {
    pub debounce_seconds: u64,
}

/// What a change means for the index. A new name counts as a new file;
/// anything but creating, removing, writing and renaming does not count.
pub open spec fn meaning(kind: ChangeKind) -> Option<FsEventType> {
    match kind {
        ChangeKind::Create => Some(FsEventType::Create),
        ChangeKind::Remove => Some(FsEventType::Remove),
        ChangeKind::ModifyData => Some(FsEventType::Modify),
        ChangeKind::ModifyName => Some(FsEventType::Create),
        ChangeKind::Other => None,
    }
}

/// Whether a change counts.
pub fn is_modify_event(kind: ChangeKind) -> (counts: bool)
    ensures
        counts == meaning(kind) is Some,
{
    match kind {
        ChangeKind::Create => true,
        ChangeKind::Remove => true,
        ChangeKind::ModifyData => true,
        ChangeKind::ModifyName => true,
        ChangeKind::Other => false,
    }
}

impl FsEvent {
    /// The event of a change that counts.
    pub fn from(kind: ChangeKind, paths: Vec<String>) -> (event: Option<FsEvent>)
        ensures
            match event {
                Some(e) => meaning(kind) == Some(e.kind) && e.paths == paths,
                None => meaning(kind) is None,
            },
    {
        match kind {
            ChangeKind::Create => Some(FsEvent { kind: FsEventType::Create, paths }),
            ChangeKind::Remove => Some(FsEvent { kind: FsEventType::Remove, paths }),
            ChangeKind::ModifyData => Some(FsEvent { kind: FsEventType::Modify, paths }),
            ChangeKind::ModifyName => Some(FsEvent { kind: FsEventType::Create, paths }),
            ChangeKind::Other => None,
        }
    }
}

/// The changes that wait for the indexer, and whether a timer runs that
/// will wake it.
pub struct Debouncer {
    pub file_paths_modified: Vec<FsEvent>,
    pub is_timer_set: bool,
    pub debounce_seconds: u64,
}

impl Debouncer {
    pub fn new(debounce_seconds: u64) -> (out: Self)
        ensures
            out.file_paths_modified@.len() == 0,
            !out.is_timer_set,
            out.debounce_seconds == debounce_seconds,
    {
        Self { file_paths_modified: Vec::new(), is_timer_set: false, debounce_seconds }
    }

    /// Notes a change. Where no timer runs, one is to be started: then the
    /// number of seconds after which it is to fire is handed back.
    pub fn schedule_indexer_wakeup(&mut self, event: FsEvent) -> (timer: Option<u64>)
        ensures
            final(self).file_paths_modified@ == old(self).file_paths_modified@.push(event),
            final(self).is_timer_set,
            final(self).debounce_seconds == old(self).debounce_seconds,
            timer == (if old(self).is_timer_set {
                None
            } else {
                Some(old(self).debounce_seconds)
            }),
    {
        self.file_paths_modified.push(event);
        if !self.is_timer_set {
            self.is_timer_set = true;
            Some(self.debounce_seconds)
        } else {
            None
        }
    }

    /// The timer fired: the indexer is woken, and the next change starts a
    /// new timer.
    pub fn timer_fired(&mut self)
        ensures
            !final(self).is_timer_set,
            final(self).file_paths_modified == old(self).file_paths_modified,
            final(self).debounce_seconds == old(self).debounce_seconds,
    {
        self.is_timer_set = false;
    }

    /// Hands the changes that wait to the indexer.
    pub fn take_events(&mut self) -> (events: Vec<FsEvent>)
        ensures
            events == old(self).file_paths_modified,
            final(self).file_paths_modified@.len() == 0,
            final(self).is_timer_set == old(self).is_timer_set,
            final(self).debounce_seconds == old(self).debounce_seconds,
    {
        let mut events: Vec<FsEvent> = Vec::new();
        std::mem::swap(&mut events, &mut self.file_paths_modified);
        events
    }
}

/// The paths that were created, and those that were changed, since the
/// indexer last looked.
pub struct Merged {
    pub created: Set<Seq<char>>,
    pub modified: Set<Seq<char>>,
}

/// What one change of one path does. A file that was created and is
/// removed again needs no look at all; any other removed file does.
pub open spec fn with_path(state: Merged, kind: FsEventType, p: Seq<char>) -> Merged {
    match kind {
        FsEventType::Create => Merged { created: state.created.insert(p), modified: state.modified },
        FsEventType::Modify => Merged { created: state.created, modified: state.modified.insert(p) },
        FsEventType::Remove => if state.created.contains(p) {
            Merged { created: state.created.remove(p), modified: state.modified.remove(p) }
        } else {
            Merged { created: state.created, modified: state.modified.insert(p) }
        },
    }
}

/// What the first `n` paths of one event do.
pub open spec fn with_paths(state: Merged, kind: FsEventType, paths: Seq<String>, n: int) -> Merged
    decreases n,
{
    if n <= 0 || n > paths.len() {
        state
    } else {
        with_path(with_paths(state, kind, paths, n - 1), kind, paths[n - 1]@)
    }
}

/// What the first `n` events do, one after the other.
pub open spec fn with_events(events: Seq<FsEvent>, n: int) -> Merged
    decreases n,
{
    if n <= 0 || n > events.len() {
        Merged { created: Set::empty(), modified: Set::empty() }
    } else {
        with_paths(
            with_events(events, n - 1),
            events[n - 1].kind,
            events[n - 1].paths@,
            events[n - 1].paths@.len() as int,
        )
    }
}

/// The paths that the indexer has to look at after the events.
pub open spec fn paths_to_visit(events: Seq<FsEvent>) -> Set<Seq<char>> {
    with_events(events, events.len() as int).modified.union(
        with_events(events, events.len() as int).created,
    )
}

/// The path was seen and its flag is set.
pub open spec fn flagged(seen: PathIndex, flags: Seq<bool>, p: Seq<char>) -> bool {
    seen.has_path(p) && flags[seen.file_id(p)]
}

/// The paths that the indexer has to look at after the events, each once.
pub fn merge_events(events: &Vec<FsEvent>) -> (out: Vec<String>)
    ensures
        strings_view(out@).to_set() == paths_to_visit(events@),
        strings_view(out@).no_duplicates(),
{
    let mut seen = PathIndex::new();
    let mut created: Vec<bool> = Vec::new();
    let mut modified: Vec<bool> = Vec::new();
    let mut e: usize = 0;
    while e < events.len()
        invariant
            e <= events@.len(),
            seen.wf(),
            created@.len() == seen.count(),
            modified@.len() == seen.count(),
            forall|p: Seq<char>| #[trigger]
                flagged(seen, created@, p) == with_events(events@, e as int).created.contains(p),
            forall|p: Seq<char>| #[trigger]
                flagged(seen, modified@, p) == with_events(events@, e as int).modified.contains(p),
        decreases events@.len() - e,
    {
        let event = &events[e];
        let ghost start = with_events(events@, e as int);
        let mut k: usize = 0;
        while k < event.paths.len()
            invariant
                k <= event.paths@.len(),
                e < events@.len(),
                *event == events@[e as int],
                seen.wf(),
                created@.len() == seen.count(),
                modified@.len() == seen.count(),
                start == with_events(events@, e as int),
                forall|p: Seq<char>| #[trigger]
                    flagged(seen, created@, p) == with_paths(
                        start,
                        event.kind,
                        event.paths@,
                        k as int,
                    ).created.contains(p),
                forall|p: Seq<char>| #[trigger]
                    flagged(seen, modified@, p) == with_paths(
                        start,
                        event.kind,
                        event.paths@,
                        k as int,
                    ).modified.contains(p),
            decreases event.paths@.len() - k,
        {
            let ghost before = with_paths(start, event.kind, event.paths@, k as int);
            let ghost was = seen;
            let ghost was_created = created@;
            let ghost was_modified = modified@;
            let ghost q = event.paths@[k as int]@;
            let (id, added) = seen.find_or_add(event.paths[k].as_str());
            if added {
                created.push(false);
                modified.push(false);
            }
            match event.kind {
                FsEventType::Create => {
                    created.set(id, true);
                },
                FsEventType::Modify => {
                    modified.set(id, true);
                },
                FsEventType::Remove => {
                    if created[id] {
                        created.set(id, false);
                        modified.set(id, false);
                    } else {
                        modified.set(id, true);
                    }
                },
            }
            proof {
                let after = with_path(before, event.kind, q);
                assert(with_paths(start, event.kind, event.paths@, k + 1) == after);
                assert forall|p: Seq<char>| p != q implies (seen.has_path(p) <==> was.has_path(p))
                    && (was.has_path(p) ==> seen.file_id(p) == was.file_id(p) && seen.file_id(p)
                    != id) by {
                    if seen.has_path(p) {
                        let j = seen.file_id(p);
                        assert(seen.paths@[j]@ == p);
                        if !was.has_path(p) {
                            if j < was.count() {
                                assert(seen.paths@[j] == was.paths@[j]);
                                assert(was.has_path(was.paths@[j]@));
                            }
                        }
                    }
                }
                assert(seen.has_path(q) && seen.file_id(q) == id);
                assert forall|p: Seq<char>| #[trigger]
                    flagged(seen, created@, p) == after.created.contains(p) by {
                    assert(flagged(was, was_created, p) == before.created.contains(p));
                }
                assert forall|p: Seq<char>| #[trigger]
                    flagged(seen, modified@, p) == after.modified.contains(p) by {
                    assert(flagged(was, was_modified, p) == before.modified.contains(p));
                    assert(flagged(was, was_created, p) == before.created.contains(p));
                }
            }
            k += 1;
        }
        proof {
            assert(with_events(events@, e + 1) == with_paths(
                start,
                event.kind,
                event.paths@,
                event.paths@.len() as int,
            ));
        }
        e += 1;
    }
    let ghost end = with_events(events@, events@.len() as int);
    let mut out: Vec<String> = Vec::new();
    let mut i: usize = 0;
    while i < seen.paths.len()
        invariant
            i <= seen.paths@.len(),
            seen.wf(),
            created@.len() == seen.count(),
            modified@.len() == seen.count(),
            forall|p: Seq<char>| #[trigger]
                strings_view(out@).contains(p) <==> seen.has_path(p) && seen.file_id(p) < i && (
                created@[seen.file_id(p)] || modified@[seen.file_id(p)]),
            strings_view(out@).no_duplicates(),
        decreases seen.paths@.len() - i,
    {
        let ghost before = strings_view(out@);
        if created[i] || modified[i] {
            out.push(seen.paths[i].clone());
            proof {
                let q = seen.paths@[i as int]@;
                assert(strings_view(out@) =~= before.push(q));
                assert(seen.has_path(q) && seen.file_id(q) == i);
                assert(!before.contains(q));
            }
        }
        proof {
            let q = seen.paths@[i as int]@;
            assert(seen.has_path(q) && seen.file_id(q) == i);
            assert forall|p: Seq<char>| #[trigger]
                strings_view(out@).contains(p) <==> seen.has_path(p) && seen.file_id(p) < i + 1
                    && (created@[seen.file_id(p)] || modified@[seen.file_id(p)]) by {
                assert(before.contains(p) <==> seen.has_path(p) && seen.file_id(p) < i && (
                created@[seen.file_id(p)] || modified@[seen.file_id(p)]));
                if seen.has_path(p) && seen.file_id(p) == i {
                    assert(seen.paths@[seen.file_id(p)]@ == p);
                }
                if created@[i as int] || modified@[i as int] {
                    assert(strings_view(out@) =~= before.push(q));
                    assert(strings_view(out@).contains(p) <==> before.contains(p) || p == q) by {
                        if before.contains(p) {
                            let j = choose|j: int| 0 <= j < before.len() && before[j] == p;
                            assert(strings_view(out@)[j] == p);
                        }
                        if p == q {
                            assert(strings_view(out@)[before.len() as int] == p);
                        }
                    }
                }
            }
        }
        i += 1;
    }
    proof {
        assert forall|p: Seq<char>| strings_view(out@).to_set().contains(p) <==> paths_to_visit(
            events@,
        ).contains(p) by {
            assert(flagged(seen, created@, p) == end.created.contains(p));
            assert(flagged(seen, modified@, p) == end.modified.contains(p));
            assert(strings_view(out@).contains(p) <==> seen.has_path(p) && seen.file_id(p)
                < seen.paths@.len() && (created@[seen.file_id(p)] || modified@[seen.file_id(p)]));
            if seen.has_path(p) {
                assert(seen.paths@[seen.file_id(p)]@ == p);
            }
        }
        assert(strings_view(out@).to_set() =~= paths_to_visit(events@));
    }
    out
}

} // verus!
