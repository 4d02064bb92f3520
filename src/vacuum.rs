//! Removing the directories that deleting module files left empty. Only an
//! empty directory can be removed, and removing one may empty its parent,
//! so passes over the same list of directories repeat until one removes
//! nothing. The removals themselves are the caller's: it asks for the next
//! directory to try and reports whether the removal succeeded.

use vstd::prelude::*;

verus! {

/// The state of a vacuum run over a fixed list of directories.
pub struct Vacuum {
    dirs: Vec<String>,
    next: usize,
    removed_in_pass: bool,
    done: bool,
}

impl Vacuum {
    /// The directories, in the order in which each pass tries them.
    pub closed spec fn list(&self) -> Seq<Seq<char>> {
        crate::text::views(self.dirs@)
    }

    /// Index of the next directory to try in the current pass.
    pub closed spec fn position(&self) -> int {
        self.next as int
    }

    /// Whether a directory has been removed in the current pass.
    pub closed spec fn any_removed(&self) -> bool {
        self.removed_in_pass
    }

    /// Whether the run is over.
    pub closed spec fn finished(&self) -> bool {
        self.done
    }

    /// A run that is not over stands within the list.
    pub open spec fn wf(&self) -> bool {
        self.finished() || 0 <= self.position() < self.list().len()
    }

    /// `new` is `old` after recording whether the directory tried was
    /// removed: the pass goes on to the next directory; at its end another
    /// pass starts if this one removed a directory, else the run is over.
    pub open spec fn recorded(old: Vacuum, new: Vacuum, removed: bool) -> bool {
        &&& new.list() == old.list()
        &&& old.position() + 1 < old.list().len() ==> {
            &&& new.position() == old.position() + 1
            &&& new.any_removed() == (old.any_removed() || removed)
            &&& !new.finished()
        }
        &&& old.position() + 1 == old.list().len() ==> {
            &&& new.finished() == !(old.any_removed() || removed)
            &&& new.position() == 0
            &&& !new.any_removed()
        }
    }

    /// A run over `dirs`, at the start of its first pass; a run over no
    /// directory is over at once.
    pub fn new(dirs: Vec<String>) -> (r: Vacuum)
        ensures
            r.wf(),
            r.list() == crate::text::views(dirs@),
            r.position() == 0,
            !r.any_removed(),
            r.finished() <==> dirs@.len() == 0,
    {
        let done = dirs.len() == 0;
        Vacuum { dirs, next: 0, removed_in_pass: false, done }
    }

    /// The directory to try next, or `None` when the run is over.
    pub fn next_dir(&self) -> (r: Option<String>)
        requires
            self.wf(),
        ensures
            self.finished() <==> r is None,
            r matches Some(d) ==> d@ == self.list()[self.position()],
    {
        if self.done {
            None
        } else {
            let d = self.dirs[self.next].clone();
            assert(d@ == self.list()[self.position()]);
            Some(d)
        }
    }

    /// Records whether the directory just tried was removed. At the end of
    /// a pass another pass starts if this one removed a directory; else the
    /// run is over.
    pub fn record(&mut self, removed: bool)
        requires
            old(self).wf(),
            !old(self).finished(),
        ensures
            final(self).wf(),
            Vacuum::recorded(*old(self), *final(self), removed),
    {
        let any = self.removed_in_pass || removed;
        assert(self.list().len() == self.dirs@.len());
        if self.next < self.dirs.len() - 1 {
            self.next = self.next + 1;
            self.removed_in_pass = any;
        } else {
            self.next = 0;
            self.removed_in_pass = false;
            self.done = !any;
        }
    }
}

/// `q` lies beneath the directory `p`.
pub open spec fn lies_under(q: Seq<char>, p: Seq<char>) -> bool {
    q.len() > p.len() && q.take(p.len() as int) == p && q[p.len() as int] == '/'
}

/// `p` is an empty directory of the tree whose directories are `dirs` and
/// whose files are `files`: only such a directory can be removed.
pub open spec fn removable(dirs: Set<Seq<char>>, files: Set<Seq<char>>, p: Seq<char>) -> bool {
    &&& dirs.contains(p)
    &&& forall|q: Seq<char>| (dirs.contains(q) || files.contains(q)) ==> !lies_under(q, p)
}

/// One pass over `list`, each directory tried in turn: the directories
/// left, and how many were removed.
pub open spec fn pass(dirs: Set<Seq<char>>, files: Set<Seq<char>>, list: Seq<Seq<char>>) -> (
    Set<Seq<char>>,
    nat,
)
    decreases list.len(),
{
    if list.len() == 0 {
        (dirs, 0)
    } else {
        let p = list[0];
        if removable(dirs, files, p) {
            let r = pass(dirs.remove(p), files, list.drop_first());
            (r.0, r.1 + 1)
        } else {
            pass(dirs, files, list.drop_first())
        }
    }
}

/// How many entries of `list` are directories of the tree.
pub open spec fn live(dirs: Set<Seq<char>>, list: Seq<Seq<char>>) -> nat
    decreases list.len(),
{
    if list.len() == 0 {
        0
    } else {
        (if dirs.contains(list[0]) {
            1nat
        } else {
            0nat
        }) + live(dirs, list.drop_first())
    }
}

/// A whole vacuum run: passes until one removes nothing. The directories
/// left, and how many were removed.
pub open spec fn run(dirs: Set<Seq<char>>, files: Set<Seq<char>>, list: Seq<Seq<char>>) -> (
    Set<Seq<char>>,
    nat,
)
    decreases live(dirs, list),
    via lemma_run_decreases
{
    let r = pass(dirs, files, list);
    if r.1 == 0 {
        (r.0, 0)
    } else {
        let t = run(r.0, files, list);
        (t.0, r.1 + t.1)
    }
}

#[via_fn]
proof fn lemma_run_decreases(dirs: Set<Seq<char>>, files: Set<Seq<char>>, list: Seq<Seq<char>>) {
    lemma_pass_live(dirs, files, list);
}

/// A pass only takes directories away; one that removes none leaves the
/// tree as it was.
proof fn lemma_pass_shrinks(dirs: Set<Seq<char>>, files: Set<Seq<char>>, list: Seq<Seq<char>>)
    ensures
        pass(dirs, files, list).0.subset_of(dirs),
        pass(dirs, files, list).1 == 0 ==> pass(dirs, files, list).0 == dirs,
    decreases list.len(),
{
    if list.len() > 0 {
        let p = list[0];
        if removable(dirs, files, p) {
            lemma_pass_shrinks(dirs.remove(p), files, list.drop_first());
        } else {
            lemma_pass_shrinks(dirs, files, list.drop_first());
        }
    }
}

proof fn lemma_live_mono(d1: Set<Seq<char>>, d2: Set<Seq<char>>, list: Seq<Seq<char>>)
    requires
        d1.subset_of(d2),
    ensures
        live(d1, list) <= live(d2, list),
    decreases list.len(),
{
    if list.len() > 0 {
        lemma_live_mono(d1, d2, list.drop_first());
    }
}

/// A pass that removes a directory leaves fewer entries of the list alive.
proof fn lemma_pass_live(dirs: Set<Seq<char>>, files: Set<Seq<char>>, list: Seq<Seq<char>>)
    ensures
        pass(dirs, files, list).1 > 0 ==> live(pass(dirs, files, list).0, list) < live(dirs, list),
    decreases list.len(),
{
    if list.len() > 0 {
        let p = list[0];
        let rest = list.drop_first();
        if removable(dirs, files, p) {
            let d1 = dirs.remove(p);
            let r = pass(d1, files, rest);
            lemma_pass_shrinks(d1, files, rest);
            lemma_live_mono(r.0, d1, rest);
            lemma_live_mono(d1, dirs, rest);
            assert(!r.0.contains(p));
        } else {
            lemma_pass_live(dirs, files, rest);
            lemma_pass_shrinks(dirs, files, rest);
        }
    }
}

/// A pass over the first `i + 1` directories is the pass over the first `i`
/// and one more try.
pub proof fn lemma_pass_step(
    dirs: Set<Seq<char>>,
    files: Set<Seq<char>>,
    list: Seq<Seq<char>>,
    i: int,
)
    requires
        0 <= i < list.len(),
    ensures
        ({
            let r = pass(dirs, files, list.take(i));
            pass(dirs, files, list.take(i + 1)) == if removable(r.0, files, list[i]) {
                (r.0.remove(list[i]), r.1 + 1)
            } else {
                r
            }
        }),
    decreases i,
{
    let t0 = list.take(i);
    let t1 = list.take(i + 1);
    if i == 0 {
        let e = Seq::<Seq<char>>::empty();
        assert(t0 =~= e);
        assert(t1.drop_first() =~= e);
        assert(t1[0] == list[0]);
        assert(pass(dirs, files, e) == (dirs, 0nat));
        assert(pass(dirs.remove(list[0]), files, e) == (dirs.remove(list[0]), 0nat));
    } else {
        let p = list[0];
        let rest = list.drop_first();
        assert(t1.drop_first() =~= rest.take(i));
        assert(t0.drop_first() =~= rest.take(i - 1));
        assert(t1[0] == p && t0[0] == p);
        assert(rest[i - 1] == list[i]);
        if removable(dirs, files, p) {
            lemma_pass_step(dirs.remove(p), files, rest, i - 1);
            let a = pass(dirs.remove(p), files, rest.take(i - 1));
            assert(pass(dirs, files, t0) == (a.0, a.1 + 1));
        } else {
            lemma_pass_step(dirs, files, rest, i - 1);
            assert(pass(dirs, files, t0) == pass(dirs, files, rest.take(i - 1)));
        }
    }
}

/// The driver follows the removal model: if it stands at position `i` of a
/// pass that started on the tree `start`, with `d` the tree that the first
/// `i` tries left and its flag telling whether they removed a directory,
/// then recording the outcome of trying the next directory on `d` keeps it
/// so; at the end of the pass it is over exactly when the whole pass removed
/// nothing, as `run` stops, and else starts the next pass, on the tree the
/// pass left, as `run` goes on.
pub proof fn law_driver_follows_run(
    v1: Vacuum,
    v2: Vacuum,
    start: Set<Seq<char>>,
    files: Set<Seq<char>>,
    d: Set<Seq<char>>,
)
    requires
        v1.wf(),
        !v1.finished(),
        d == pass(start, files, v1.list().take(v1.position())).0,
        v1.any_removed() == (pass(start, files, v1.list().take(v1.position())).1 > 0),
        Vacuum::recorded(v1, v2, removable(d, files, v1.list()[v1.position()])),
    ensures
        ({
            let p = v1.list()[v1.position()];
            let i = v1.position() + 1;
            let r = pass(start, files, v1.list().take(i));
            &&& r.0 == if removable(d, files, p) {
                d.remove(p)
            } else {
                d
            }
            &&& i < v1.list().len() ==> v2.position() == i && !v2.finished() && v2.any_removed()
                == (r.1 > 0)
            &&& i == v1.list().len() ==> {
                &&& r == pass(start, files, v1.list())
                &&& v2.finished() <==> pass(start, files, v1.list()).1 == 0
                &&& v2.position() == 0 && !v2.any_removed()
                &&& !v2.finished() ==> run(start, files, v1.list()) == ({
                    let t = run(r.0, files, v1.list());
                    (t.0, r.1 + t.1)
                })
            }
        }),
{
    let list = v1.list();
    let i = v1.position();
    lemma_pass_step(start, files, list, i);
    if i + 1 == list.len() {
        assert(list.take(i + 1) =~= list);
    }
}

/// A run ends on a tree in which no directory of the list can be removed.
proof fn lemma_run_fixpoint(dirs: Set<Seq<char>>, files: Set<Seq<char>>, list: Seq<Seq<char>>)
    ensures
        pass(run(dirs, files, list).0, files, list).1 == 0,
    decreases live(dirs, list),
{
    let r = pass(dirs, files, list);
    lemma_pass_shrinks(dirs, files, list);
    if r.1 > 0 {
        lemma_pass_live(dirs, files, list);
        lemma_run_fixpoint(r.0, files, list);
    }
}

/// In a pass that removes nothing, every directory tried could not be removed.
proof fn lemma_idle_pass(dirs: Set<Seq<char>>, files: Set<Seq<char>>, list: Seq<Seq<char>>)
    requires
        pass(dirs, files, list).1 == 0,
    ensures
        forall|i: int| 0 <= i < list.len() ==> !removable(dirs, files, #[trigger] list[i]),
    decreases list.len(),
{
    if list.len() > 0 {
        let rest = list.drop_first();
        assert(!removable(dirs, files, list[0]));
        lemma_idle_pass(dirs, files, rest);
        assert forall|i: int| 0 <= i < list.len() implies !removable(
            dirs,
            files,
            #[trigger] list[i],
        ) by {
            if i > 0 {
                assert(list[i] == rest[i - 1]);
            }
        }
    }
}

/// Vacuuming again right after a vacuum removes no directory: a run ends
/// only after a pass that removed nothing, and such a pass leaves the tree
/// as it found it. So on the tree a run leaves, no directory of the list can
/// be removed: each `record` of the next run reports a failure, and that run
/// is over after one pass.
pub proof fn law_vacuum_idempotent(dirs: Set<Seq<char>>, files: Set<Seq<char>>, list: Seq<Seq<char>>)
    ensures
        run(run(dirs, files, list).0, files, list).1 == 0,
        forall|i: int|
            0 <= i < list.len() ==> !removable(
                run(dirs, files, list).0,
                files,
                #[trigger] list[i],
            ),
{
    lemma_run_fixpoint(dirs, files, list);
    lemma_idle_pass(run(dirs, files, list).0, files, list);
}

} // verus!
