//! Collecting the paths of the files under a directory.
//!
//! The collector does no listing of its own. It says which directory it wants
//! listed next, the caller lists that directory and supplies its entries, and
//! so on until no directory is left. Files come out in the order in which a
//! depth-first walk meets them: where a listing names a directory, the files
//! under it come before what the listing names next.

use vstd::prelude::*;

verus! {

/// One line of a directory listing, as the contracts speak of it: the name
/// of a child and whether it is a directory.
pub struct Listed {
    pub name: Seq<char>,
    pub is_dir: bool,
}

/// Something the walk has met and not yet dealt with: a file to record or a
/// directory to list.
pub struct Task {
    pub path: Seq<char>,
    pub is_dir: bool,
}

/// How far a walk has come. `pending` is a stack whose last task is dealt
/// with first; `found` holds the paths of the files recorded so far.
pub struct Progress {
    pub pending: Seq<Task>,
    pub found: Seq<Seq<char>>,
}

/// The path of `name` inside the directory `dir`, both relative to the root.
/// The root itself is the empty path.
pub open spec fn join(dir: Seq<char>, name: Seq<char>) -> Seq<char> {
    if dir.len() == 0 {
        name
    } else {
        dir + seq!['/'] + name
    }
}

/// The task for one line of the listing of `dir`.
pub open spec fn task_for(dir: Seq<char>, entry: Listed) -> Task {
    Task { path: join(dir, entry.name), is_dir: entry.is_dir }
}

/// The tasks for the listing of `dir`, stacked so that the first line is
/// dealt with first.
pub open spec fn stacked(dir: Seq<char>, entries: Seq<Listed>) -> Seq<Task> {
    Seq::new(entries.len(), |k: int| task_for(dir, entries[entries.len() - 1 - k]))
}

/// The state before anything is listed: the root is to be listed, and no
/// file is found.
pub open spec fn start() -> Progress {
    Progress { pending: seq![Task { path: Seq::empty(), is_dir: true }], found: Seq::empty() }
}

/// Records the files on top of the stack, in turn, until a directory is on
/// top or nothing is pending.
pub open spec fn settle(progress: Progress) -> Progress
    decreases progress.pending.len(),
{
    if progress.pending.len() > 0 && !progress.pending.last().is_dir {
        settle(
            Progress {
                pending: progress.pending.drop_last(),
                found: progress.found.push(progress.pending.last().path),
            },
        )
    } else {
        progress
    }
}

/// Replaces the directory on top of the stack by the tasks for its listing.
/// Where no directory is on top, nothing changes.
pub open spec fn expand(progress: Progress, entries: Seq<Listed>) -> Progress {
    if progress.pending.len() > 0 && progress.pending.last().is_dir {
        Progress {
            pending: progress.pending.drop_last() + stacked(
                progress.pending.last().path,
                entries,
            ),
            found: progress.found,
        }
    } else {
        progress
    }
}

/// One line of a directory listing: the name of a child and whether it is a
/// directory.
#[derive(Debug, PartialEq, Eq)]
pub struct DirEntry {
    pub name: String,
    pub is_dir: bool,
}

impl View for DirEntry {
    type V = Listed;

    open spec fn view(&self) -> Listed {
        Listed { name: self.name@, is_dir: self.is_dir }
    }
}

/// The lines of a listing, as the contracts speak of them.
pub open spec fn listing(entries: Seq<DirEntry>) -> Seq<Listed> {
    Seq::new(entries.len(), |i: int| entries[i]@)
}

struct Pending {
    path: String,
    is_dir: bool,
}

impl View for Pending {
    type V = Task;

    closed spec fn view(&self) -> Task {
        Task { path: self.path@, is_dir: self.is_dir }
    }
}

/// A walk over a directory tree that is told each listing it asks for.
pub struct Collector {
    pending: Vec<Pending>,
    found: Vec<String>,
}

impl View for Collector {
    type V = Progress;

    closed spec fn view(&self) -> Progress {
        Progress {
            pending: Seq::new(self.pending@.len(), |i: int| self.pending@[i]@),
            found: Seq::new(self.found@.len(), |i: int| self.found@[i]@),
        }
    }
}

/// The path of `name` inside the directory `dir`.
pub fn join_path(dir: &str, name: &str) -> (path: String)
    ensures
        path@ == join(dir@, name@),
{
    if dir.is_empty() {
        name.to_owned()
    } else {
        let mut path = dir.to_owned();
        proof {
            reveal_strlit("/");
        }
        path.append("/");
        path.append(name);
        path
    }
}

impl Collector {
    /// A walk that has not started: it wants the root listed.
    pub fn new() -> (collector: Self)
        ensures
            collector@ == start(),
    {
        let mut pending: Vec<Pending> = Vec::new();
        pending.push(Pending { path: String::new(), is_dir: true });
        let collector = Collector { pending, found: Vec::new() };
        assert(collector@.pending =~= start().pending);
        assert(collector@.found =~= start().found);
        collector
    }

    /// Records the files met since the last listing and says which directory
    /// is to be listed next: its path relative to the root, which is empty
    /// for the root itself. `None` means that the walk is over.
    pub fn next_dir(&mut self) -> (dir: Option<String>)
        ensures
            final(self)@ == settle(old(self)@),
            match dir {
                Some(path) => settle(old(self)@).pending.len() > 0 && path@ == settle(
                    old(self)@,
                ).pending.last().path,
                None => settle(old(self)@).pending.len() == 0,
            },
    {
        loop
            invariant
                settle(self@) == settle(old(self)@),
            decreases self.pending.len(),
        {
            let n = self.pending.len();
            if n == 0 {
                return None;
            }
            if self.pending[n - 1].is_dir {
                return Some(self.pending[n - 1].path.clone());
            }
            let ghost before = self@;
            let task = self.pending.pop().unwrap();
            self.found.push(task.path);
            proof {
                assert(self@.pending =~= before.pending.drop_last());
                assert(self@.found =~= before.found.push(before.pending.last().path));
            }
        }
    }

    /// Takes the listing of the directory that `next_dir` asked for: each of
    /// its entries becomes a task, the first of them to be dealt with first.
    /// Where no directory is waiting to be listed, nothing changes.
    pub fn supply(&mut self, entries: &Vec<DirEntry>)
        ensures
            final(self)@ == expand(old(self)@, listing(entries@)),
    {
        let n = self.pending.len();
        if n == 0 || !self.pending[n - 1].is_dir {
            return;
        }
        let ghost before = self@;
        let ghost lines = listing(entries@);
        let dir = self.pending.pop().unwrap();
        let mut i: usize = entries.len();
        while i > 0
            invariant
                i <= entries.len(),
                lines == listing(entries@),
                before.pending.len() > 0,
                dir@ == before.pending.last(),
                self@.found == before.found,
                self@.pending == before.pending.drop_last() + stacked(dir@.path, lines).take(
                    entries.len() - i,
                ),
            decreases i,
        {
            i -= 1;
            let ghost stack = self@.pending;
            let path = join_path(dir.path.as_str(), entries[i].name.as_str());
            self.pending.push(Pending { path, is_dir: entries[i].is_dir });
            proof {
                let k = entries.len() - 1 - i;
                assert(self@.pending =~= stack.push(stacked(dir@.path, lines)[k]));
                assert(stacked(dir@.path, lines).take(k + 1) =~= stacked(dir@.path, lines).take(
                    k,
                ).push(stacked(dir@.path, lines)[k]));
            }
        }
        assert(stacked(dir@.path, lines).take(entries.len() as int) =~= stacked(
            dir@.path,
            lines,
        ));
    }

    /// Whether every directory has been listed and every file recorded.
    pub fn is_done(&self) -> (done: bool)
        ensures
            done == (self@.pending.len() == 0),
    {
        self.pending.len() == 0
    }

    /// The paths of the files recorded so far, in the order in which the walk
    /// met them.
    pub fn into_paths(self) -> (paths: Vec<String>)
        ensures
            paths@.len() == self@.found.len(),
            forall|i: int| 0 <= i < paths@.len() ==> (#[trigger] paths@[i])@ == self@.found[i],
    {
        self.found
    }
}

} // verus!
