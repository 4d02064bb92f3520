//! Dependency closures for a list of modules, or for the modules that are
//! loaded now, and their merge into one sorted list.

use vstd::prelude::*;
use crate::kernel::{is_tree_for, KernelInfo, ModInfoQuery};
use crate::order::{insert_sorted, lemma_sorted_same, sorted_strict};
use crate::text::views;

verus! {

/// `x` is a module of the tree or a dependency of one.
pub open spec fn in_tree(t: Seq<(String, Vec<String>)>, x: Seq<char>) -> bool {
    exists|i: int| 0 <= i < t.len() && (t[i].0@ == x || views(t[i].1@).contains(x))
}

/// `r` is the tree merged: each module and each dependency once, sorted.
pub open spec fn is_flattened(t: Seq<(String, Vec<String>)>, r: Seq<Seq<char>>) -> bool {
    &&& sorted_strict(r)
    &&& forall|x: Seq<char>| r.contains(x) <==> in_tree(t, x)
}

/// Every module of the tree and every one of its dependencies, each once,
/// in sorted order.
pub fn flatten(tree: &Vec<(String, Vec<String>)>) -> (r: Vec<String>)
    ensures
        is_flattened(tree@, views(r@)),
{
    let mut out: Vec<String> = Vec::new();
    let mut i: usize = 0;
    while i < tree.len()
        invariant
            i <= tree@.len(),
            sorted_strict(views(out@)),
            forall|x: Seq<char>| views(out@).contains(x) <==> in_tree(tree@.take(i as int), x),
        decreases tree.len() - i,
    {
        let ghost before = views(out@);
        assert(forall|x: Seq<char>| before.contains(x) <==> in_tree(tree@.take(i as int), x));
        let entry = &tree[i];
        let key = entry.0.clone();
        assert(key@ == tree@[i as int].0@);
        insert_sorted(&mut out, key);
        assert(views(entry.1@).take(0) =~= Seq::<Seq<char>>::empty());
        let deps = &entry.1;
        let mut j: usize = 0;
        while j < deps.len()
            invariant
                i < tree@.len(),
                deps == &tree@[i as int].1,
                j <= deps@.len(),
                sorted_strict(views(out@)),
                forall|x: Seq<char>|
                    views(out@).contains(x) <==> (before.contains(x) || x == tree@[i as int].0@
                        || views(deps@).take(j as int).contains(x)),
            decreases deps.len() - j,
        {
            let ghost mid = views(out@);
            assert(forall|x: Seq<char>|
                mid.contains(x) <==> (before.contains(x) || x == tree@[i as int].0@ || views(
                    deps@,
                ).take(j as int).contains(x)));
            let d = deps[j].clone();
            assert(d@ == deps@[j as int]@);
            assert(views(deps@)[j as int] == d@);
            insert_sorted(&mut out, d);
            proof {
                let s0 = views(deps@).take(j as int);
                let s1 = views(deps@).take(j + 1);
                assert(s1 =~= s0.push(deps@[j as int]@));
                assert forall|x: Seq<char>| s1.contains(x) <==> (s0.contains(x) || x
                    == deps@[j as int]@) by {
                    if s1.contains(x) {
                        let k = choose|k: int| 0 <= k < s1.len() && s1[k] == x;
                        if k < j {
                            assert(s0[k] == x);
                        }
                    }
                    if s0.contains(x) {
                        let k = choose|k: int| 0 <= k < s0.len() && s0[k] == x;
                        assert(s1[k] == x);
                    }
                    if x == deps@[j as int]@ {
                        assert(s1[j as int] == x);
                    }
                }
                assert forall|x: Seq<char>| views(out@).contains(x) <==> (before.contains(x) || x
                    == tree@[i as int].0@ || s1.contains(x)) by {
                    assert(views(out@).contains(x) <==> (mid.contains(x) || x == deps@[j as int]@));
                }
            }
            j = j + 1;
        }
        proof {
            assert(j == deps@.len());
            assert(views(deps@).take(j as int) =~= views(deps@));
            assert forall|x: Seq<char>|
                views(out@).contains(x) <==> (before.contains(x) || x == tree@[i as int].0@
                    || views(deps@).contains(x)) by {
                assert(views(out@).contains(x) <==> (before.contains(x) || x == tree@[i as int].0@
                    || views(deps@).take(j as int).contains(x)));
            }
            assert(views(deps@) == views(tree@[i as int].1@));
            let t0 = tree@.take(i as int);
            let t1 = tree@.take(i + 1);
            assert(t1[i as int] == tree@[i as int]);
            assert forall|x: Seq<char>| views(out@).contains(x) <==> in_tree(t1, x) by {
                assert(before.contains(x) <==> in_tree(t0, x));
                if in_tree(t0, x) {
                    let k = choose|k: int|
                        0 <= k < t0.len() && (t0[k].0@ == x || views(t0[k].1@).contains(x));
                    assert(t1[k] == t0[k]);
                    assert(0 <= k < t1.len() && (t1[k].0@ == x || views(t1[k].1@).contains(x)));
                }
                if x == tree@[i as int].0@ || views(deps@).contains(x) {
                    assert(t1[i as int].0@ == x || views(t1[i as int].1@).contains(x));
                }
                if in_tree(t1, x) {
                    let k = choose|k: int|
                        0 <= k < t1.len() && (t1[k].0@ == x || views(t1[k].1@).contains(x));
                    if k < i {
                        assert(t0[k] == t1[k]);
                        assert(0 <= k < t0.len() && (t0[k].0@ == x || views(t0[k].1@).contains(
                            x,
                        )));
                    } else {
                        assert(k == i);
                    }
                }
            }
        }
        i = i + 1;
    }
    assert(tree@.take(tree@.len() as int) =~= tree@);
    out
}

/// Two merges of trees with the same modules and dependencies are the same
/// sorted list: merging is determined by what the tree holds.
pub proof fn law_flatten_determined(
    t: Seq<(String, Vec<String>)>,
    a: Seq<Seq<char>>,
    b: Seq<Seq<char>>,
)
    requires
        is_flattened(t, a),
        is_flattened(t, b),
    ensures
        a == b,
{
    lemma_sorted_same(a, b);
}

/// The modules to work on: those given, or the loaded ones when none are.
pub open spec fn scope(modules: Seq<Seq<char>>, loaded: Seq<Seq<char>>) -> Seq<Seq<char>> {
    if modules.len() == 0 {
        loaded
    } else {
        modules
    }
}

/// Dependency closures over one kernel's graph, with a snapshot of the
/// modules loaded now.
pub struct KModuleTree<'a> {
    kernel: &'a KernelInfo,
    loaded: Vec<String>,
}

impl<'a> KModuleTree<'a> {
    /// The kernel whose graph is used.
    pub closed spec fn kinfo(&self) -> &'a KernelInfo {
        self.kernel
    }

    /// The loaded modules' names.
    pub closed spec fn loaded_names(&self) -> Seq<Seq<char>> {
        views(self.loaded@)
    }

    /// Closures over `kinfo`'s graph; `loaded` holds the names of the modules
    /// loaded now (as `lsmod` lists them).
    pub fn new(kinfo: &'a KernelInfo, loaded: Vec<String>) -> (r: KModuleTree<'a>)
        ensures
            r.kinfo() == kinfo,
            r.loaded_names() == views(loaded@),
    {
        KModuleTree { kernel: kinfo, loaded }
    }

    /// The names of the modules loaded now.
    pub fn get_loaded_modules(&self) -> (r: Vec<String>)
        ensures
            views(r@) == self.loaded_names(),
    {
        crate::graph::clone_strings(self.loaded.as_slice())
    }

    /// The closures of the modules loaded now.
    pub fn get_loaded_deps<Q: ModInfoQuery>(&self, q: &Q) -> (r: Vec<(String, Vec<String>)>)
        ensures
            is_tree_for(self.kinfo(), self.loaded_names(), r@),
    {
        self.kernel.get_deps_for(self.loaded.as_slice(), q)
    }

    /// The closures of `modules`, or of the loaded modules when `modules` is
    /// empty.
    pub fn get_specified_deps<Q: ModInfoQuery>(&self, modules: &[String], q: &Q) -> (r: Vec<
        (String, Vec<String>),
    >)
        ensures
            is_tree_for(self.kinfo(), scope(views(modules@), self.loaded_names()), r@),
    {
        if modules.len() == 0 {
            return self.kernel.get_deps_for(self.loaded.as_slice(), q);
        }
        self.kernel.get_deps_for(modules, q)
    }

    /// The loaded modules and everything they need, each once, sorted.
    pub fn merge_loaded_deps<Q: ModInfoQuery>(&self, q: &Q) -> (r: Vec<String>)
        ensures
            exists|t: Seq<(String, Vec<String>)>|
                is_tree_for(self.kinfo(), self.loaded_names(), t) && is_flattened(t, views(r@)),
    {
        let t = self.get_loaded_deps(q);
        flatten(&t)
    }

    /// `modules` (or the loaded modules when it is empty) and everything they
    /// need, each once, sorted.
    pub fn merge_specified_deps<Q: ModInfoQuery>(&self, modules: &[String], q: &Q) -> (r: Vec<
        String,
    >)
        ensures
            exists|t: Seq<(String, Vec<String>)>|
                is_tree_for(self.kinfo(), scope(views(modules@), self.loaded_names()), t)
                    && is_flattened(t, views(r@)),
    {
        let t = self.get_specified_deps(modules, q);
        flatten(&t)
    }
}

} // verus!
