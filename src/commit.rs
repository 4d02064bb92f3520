//! What a commit deletes: the module files on disk that no registered
//! module needs, and the count of those deleted and of those already gone.

use vstd::prelude::*;
use crate::registry::ModList;
use crate::text::{chars_of, concat_chars, find_from, find_seq, string_from, views};

verus! {

/// The file of module `m` under the module tree `root`.
pub open spec fn module_file(root: Seq<char>, m: Seq<char>) -> Seq<char> {
    root + seq!['/'] + m
}

/// The last module of `mods` is deleted: its file was present, and no
/// earlier entry named it (a repeat finds the file gone).
pub open spec fn deletes_last(mods: Seq<Seq<char>>, present: Seq<bool>) -> bool {
    present.last() && !mods.drop_last().contains(mods.last())
}

/// The files of the modules that are deleted, in order: each present module,
/// once.
pub open spec fn files_to_delete(root: Seq<char>, mods: Seq<Seq<char>>, present: Seq<bool>) -> Seq<
    Seq<char>,
>
    decreases mods.len(),
{
    if mods.len() == 0 || present.len() == 0 {
        Seq::empty()
    } else {
        let f = files_to_delete(root, mods.drop_last(), present.drop_last());
        if deletes_last(mods, present) {
            f.push(module_file(root, mods.last()))
        } else {
            f
        }
    }
}

/// How many modules are deleted: the distinct present ones.
pub open spec fn count_deleted(mods: Seq<Seq<char>>, present: Seq<bool>) -> nat
    decreases mods.len(),
{
    if mods.len() == 0 || present.len() == 0 {
        0
    } else {
        count_deleted(mods.drop_last(), present.drop_last()) + if deletes_last(mods, present) {
            1nat
        } else {
            0nat
        }
    }
}

/// A file of the module tree is a module when its name holds `.ko` (which
/// also takes in compressed modules, `.ko.xz` or `.ko.zst`).
pub open spec fn is_module_name(name: Seq<char>) -> bool {
    find_from(name, seq!['.', 'k', 'o'], 0) < name.len()
}

/// The modules of `disk` that `keep` does not hold, in order.
pub open spec fn orphans(disk: Seq<Seq<char>>, keep: Seq<Seq<char>>) -> Seq<Seq<char>> {
    disk.filter(|m: Seq<char>| !keep.contains(m))
}

proof fn lemma_count_deleted_le(mods: Seq<Seq<char>>, present: Seq<bool>)
    ensures
        count_deleted(mods, present) <= mods.len(),
    decreases mods.len(),
{
    if mods.len() > 0 && present.len() > 0 {
        lemma_count_deleted_le(mods.drop_last(), present.drop_last());
    }
}

/// The files a commit deletes, and how many modules were deleted and how
/// many skipped because their file is already gone.
pub struct CommitPlan {
    pub delete: Vec<String>,
    pub removed: usize,
    pub skipped: usize,
}

impl<'a> ModList<'a> {
    /// Plans the deletion of `modules` (module paths relative to the
    /// kernel's module tree), `present[i]` telling whether the file of
    /// `modules[i]` existed before any deletion: each present one is deleted
    /// and counted as removed, each absent one, and each repeat of a module
    /// met earlier, counted as skipped.
    pub fn commit(&self, modules: &[String], present: &[bool]) -> (r: CommitPlan)
        requires
            modules@.len() == present@.len(),
        ensures
            views(r.delete@) == files_to_delete(
                self.kernel().root_path(),
                views(modules@),
                present@,
            ),
            r.removed == count_deleted(views(modules@), present@),
            r.removed + r.skipped == modules@.len(),
    {
        let ghost root = self.kernel().root_path();
        let mut base = chars_of(self.kernel_info().get_kernel_path());
        base.push('/');
        let mut delete: Vec<String> = Vec::new();
        let mut seen: Vec<String> = Vec::new();
        let mut removed: usize = 0;
        let mut skipped: usize = 0;
        let mut i: usize = 0;
        while i < modules.len()
            invariant
                i <= modules@.len(),
                modules@.len() == present@.len(),
                base@ == root + seq!['/'],
                views(delete@) == files_to_delete(
                    root,
                    views(modules@).take(i as int),
                    present@.take(i as int),
                ),
                views(seen@) == views(modules@).take(i as int),
                removed == count_deleted(views(modules@).take(i as int), present@.take(i as int)),
                removed + skipped == i,
            decreases modules.len() - i,
        {
            let ghost m = views(modules@).take(i + 1);
            let ghost p = present@.take(i + 1);
            assert(m.drop_last() =~= views(modules@).take(i as int));
            assert(p.drop_last() =~= present@.take(i as int));
            assert(m.last() == modules@[i as int]@);
            proof {
                lemma_count_deleted_le(views(modules@).take(i as int), present@.take(i as int));
            }
            let repeat = crate::graph::contains_str(&seen, &modules[i]);
            let ghost seen_before = seen@;
            seen.push(modules[i].clone());
            assert(views(seen@) =~= views(seen_before).push(modules@[i as int]@));
            assert(views(seen@) =~= m);
            if present[i] && !repeat {
                let f = string_from(&concat_chars(&base, &chars_of(modules[i].as_str())));
                let ghost before = delete@;
                delete.push(f);
                assert(views(delete@) =~= views(before).push(f@));
                removed = removed + 1;
            } else {
                skipped = skipped + 1;
            }
            i = i + 1;
        }
        assert(views(modules@).take(modules@.len() as int) =~= views(modules@));
        assert(present@.take(present@.len() as int) =~= present@);
        CommitPlan { delete, removed, skipped }
    }
}

/// Whether the file called `name` is a module (see `is_module_name`).
pub fn is_module_file(name: &str) -> (r: bool)
    ensures
        r == is_module_name(name@),
{
    let mut ext: Vec<char> = Vec::new();
    ext.push('.');
    ext.push('k');
    ext.push('o');
    assert(ext@ =~= seq!['.', 'k', 'o']);
    let v = chars_of(name);
    find_seq(&v, &ext) < v.len()
}

/// The modules of `disk` that `keep` does not hold, in order: the files a
/// commit may delete.
pub fn orphaned_modules(disk: &[String], keep: &Vec<String>) -> (r: Vec<String>)
    ensures
        views(r@) == orphans(views(disk@), views(keep@)),
{
    let ghost k = views(keep@);
    let mut out: Vec<String> = Vec::new();
    let mut i: usize = 0;
    while i < disk.len()
        invariant
            i <= disk@.len(),
            k == views(keep@),
            views(out@) == orphans(views(disk@).take(i as int), k),
        decreases disk.len() - i,
    {
        let ghost d = views(disk@).take(i + 1);
        assert(d.drop_last() =~= views(disk@).take(i as int));
        assert(d.last() == disk@[i as int]@);
        proof {
            reveal(Seq::filter);
        }
        if !crate::graph::contains_str(keep, &disk[i]) {
            let ghost before = out@;
            out.push(disk[i].clone());
            assert(views(out@) =~= views(before).push(disk@[i as int]@));
        }
        i = i + 1;
    }
    assert(views(disk@).take(disk@.len() as int) =~= views(disk@));
    out
}

/// A commit deletes nothing that is kept, and spares no module on disk that
/// is not kept.
pub proof fn law_commit_spares_kept(disk: Seq<Seq<char>>, keep: Seq<Seq<char>>)
    ensures
        forall|x: Seq<char>| orphans(disk, keep).contains(x) ==> !keep.contains(x),
        forall|x: Seq<char>| disk.contains(x) && !keep.contains(x) ==> orphans(disk, keep).contains(x),
{
    let pred = |m: Seq<char>| !keep.contains(m);
    assert forall|x: Seq<char>| orphans(disk, keep).contains(x) implies !keep.contains(x) by {
        let i = choose|i: int| 0 <= i < disk.filter(pred).len() && disk.filter(pred)[i] == x;
        disk.lemma_filter_pred(pred, i);
    }
    assert forall|x: Seq<char>| disk.contains(x) && !keep.contains(x) implies orphans(
        disk,
        keep,
    ).contains(x) by {
        let i = choose|i: int| 0 <= i < disk.len() && disk[i] == x;
        disk.lemma_filter_contains(pred, i);
    }
}

} // verus!
