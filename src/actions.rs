//! The operations of the tool, one kernel at a time: list the modules that
//! a set of modules needs, register and unregister modules, and find what a
//! commit deletes.

use vstd::prelude::*;
use crate::commit::{orphaned_modules, orphans};
use crate::error::ModError;
use crate::graph::Graph;
use crate::kernel::{could_resolve, is_known, is_tree_for, KernelInfo, ModInfoQuery};
use crate::order::{insert_sorted, sorted_strict};
use crate::registry::{add_spec, count_of, has_row, remove_spec, ModList, Rows};
use crate::text::views;
use crate::tree::{flatten, in_tree, is_flattened, scope, KModuleTree};

verus! {

/// The registry after adding (`add`) or removing each of `names` in turn;
/// the first name that cannot be handled stops it: one whose counter is at
/// its largest for an add, one with no row for a remove.
pub open spec fn apply_all(r: Rows, names: Seq<Seq<char>>, add: bool, is_static: bool) -> Result<
    Rows,
    Seq<char>,
>
    decreases names.len(),
{
    if names.len() == 0 {
        Ok(r)
    } else {
        let k = names[0];
        if add {
            if count_of(r, k) == Some(i16::MAX as int) {
                Err(k)
            } else {
                apply_all(add_spec(r, k, is_static), names.drop_first(), add, is_static)
            }
        } else {
            if count_of(r, k) is None {
                Err(k)
            } else {
                apply_all(remove_spec(r, k), names.drop_first(), add, is_static)
            }
        }
    }
}

/// `e` is the error that stops `apply_all` at name `k`.
pub open spec fn stop_error(e: ModError, k: Seq<char>, add: bool) -> bool {
    if add {
        e matches ModError::CounterOverflow(s) && s@ == k
    } else {
        e matches ModError::NotFound(s) && s@ == k
    }
}

/// `x` is in some tree of `ts`.
pub open spec fn in_some_tree(ts: Seq<Seq<(String, Vec<String>)>>, x: Seq<char>) -> bool {
    exists|k: int| 0 <= k < ts.len() && in_tree(#[trigger] ts[k], x)
}

/// `ts` holds a tree of closures of `names` for each kernel, and `r` is what
/// they hold, each once.
pub open spec fn is_list_for(
    kernels: Seq<KernelInfo>,
    names: Seq<Seq<char>>,
    ts: Seq<Seq<(String, Vec<String>)>>,
    r: Seq<Seq<char>>,
) -> bool {
    &&& ts.len() == kernels.len()
    &&& forall|k: int| 0 <= k < ts.len() ==> is_tree_for(&kernels[k], names, #[trigger] ts[k])
    &&& forall|x: Seq<char>| r.contains(x) <==> in_some_tree(ts, x)
}

/// Every module that `modules` (or, when it is empty, the loaded modules
/// `loaded`) need, over each of the kernels, each once, sorted.
pub fn do_list<Q: ModInfoQuery>(
    kernels: &[KernelInfo],
    loaded: &[String],
    modules: &[String],
    q: &Q,
) -> (r: Vec<String>)
    ensures
        sorted_strict(views(r@)),
        exists|ts: Seq<Seq<(String, Vec<String>)>>|
            is_list_for(kernels@, scope(views(modules@), views(loaded@)), ts, views(r@)),
{
    let ghost names = scope(views(modules@), views(loaded@));
    let mut out: Vec<String> = Vec::new();
    let ghost mut ts: Seq<Seq<(String, Vec<String>)>> = Seq::empty();
    let mut i: usize = 0;
    while i < kernels.len()
        invariant
            i <= kernels@.len(),
            ts.len() == i,
            names == scope(views(modules@), views(loaded@)),
            sorted_strict(views(out@)),
            forall|k: int| 0 <= k < i ==> is_tree_for(&kernels@[k], names, #[trigger] ts[k]),
            forall|x: Seq<char>| views(out@).contains(x) <==> in_some_tree(ts, x),
        decreases kernels.len() - i,
    {
        let snapshot = crate::graph::clone_strings(loaded);
        let kmtree = KModuleTree::new(&kernels[i], snapshot);
        let merged = kmtree.merge_specified_deps(modules, q);
        let ghost t = choose|t: Seq<(String, Vec<String>)>|
            is_tree_for(&kernels@[i as int], names, t) && is_flattened(t, views(merged@));
        let ghost before = views(out@);
        let mut j: usize = 0;
        while j < merged.len()
            invariant
                j <= merged@.len(),
                sorted_strict(views(out@)),
                forall|x: Seq<char>|
                    views(out@).contains(x) <==> (before.contains(x) || views(merged@).take(
                        j as int,
                    ).contains(x)),
            decreases merged.len() - j,
        {
            let ghost mid = views(out@);
            let m = merged[j].clone();
            assert(m@ == views(merged@)[j as int]);
            insert_sorted(&mut out, m);
            proof {
                let s0 = views(merged@).take(j as int);
                let s1 = views(merged@).take(j + 1);
                assert(s1 =~= s0.push(m@));
                assert forall|x: Seq<char>| views(out@).contains(x) <==> (before.contains(x)
                    || s1.contains(x)) by {
                    assert(mid.contains(x) <==> (before.contains(x) || s0.contains(x)));
                    if s1.contains(x) {
                        let k = choose|k: int| 0 <= k < s1.len() && s1[k] == x;
                        if k < j {
                            assert(s0[k] == x);
                        }
                    }
                    if s0.contains(x) {
                        let k = choose|k: int| 0 <= k < s0.len() && s0[k] == x;
                        assert(s1[k] == x);
                    }
                    if x == m@ {
                        assert(s1[j as int] == x);
                    }
                }
            }
            j = j + 1;
        }
        proof {
            assert(views(merged@).take(merged@.len() as int) =~= views(merged@));
            let ts2 = ts.push(t);
            assert forall|x: Seq<char>| views(out@).contains(x) <==> in_some_tree(ts2, x) by {
                assert(views(out@).contains(x) <==> (before.contains(x) || views(
                    merged@,
                ).take(j as int).contains(x)));
                assert(before.contains(x) <==> in_some_tree(ts, x));
                if in_some_tree(ts, x) {
                    let k = choose|k: int| 0 <= k < ts.len() && in_tree(#[trigger] ts[k], x);
                    assert(ts2[k] == ts[k]);
                }
                if in_tree(t, x) {
                    assert(ts2[i as int] == t);
                }
                if in_some_tree(ts2, x) {
                    let k = choose|k: int| 0 <= k < ts2.len() && in_tree(#[trigger] ts2[k], x);
                    if k < i {
                        assert(ts2[k] == ts[k]);
                    }
                }
            }
            assert forall|k: int| 0 <= k < i + 1 implies is_tree_for(
                &kernels@[k],
                names,
                #[trigger] ts2[k],
            ) by {
                if k < i {
                    assert(ts2[k] == ts[k]);
                }
            }
            ts = ts2;
        }
        i = i + 1;
    }
    assert(is_list_for(kernels@, names, ts, views(out@)));
    out
}

/// The paths of `paths` that stand for modules on disk (see `is_known`), in
/// order; the others are skipped.
pub open spec fn known_only(g: Graph, paths: Seq<Seq<char>>) -> Seq<Seq<char>>
    decreases paths.len(),
{
    if paths.len() == 0 {
        Seq::empty()
    } else if is_known(g, paths[0]) {
        seq![paths[0]] + known_only(g, paths.drop_first())
    } else {
        known_only(g, paths.drop_first())
    }
}

/// `res` holds, for each of `names`, what it resolves to for some output of
/// the metadata tool.
pub open spec fn resolves_to(g: Graph, names: Seq<Seq<char>>, res: Seq<Seq<char>>) -> bool {
    &&& res.len() == names.len()
    &&& forall|i: int| 0 <= i < res.len() ==> could_resolve(g, names[i], #[trigger] res[i])
}

/// The registry `new` and the result `r` are what adding (`add`) or removing
/// each of `paths` in turn from `old` gives (see `apply_all`).
pub open spec fn applied(
    old: Rows,
    paths: Seq<Seq<char>>,
    add: bool,
    is_static: bool,
    new: Rows,
    r: Result<(), ModError>,
) -> bool {
    match apply_all(old, paths, add, is_static) {
        Ok(rows) => r is Ok && new == rows,
        Err(k) => r matches Err(e) && stop_error(e, k, add),
    }
}

/// Adds (`add`) or removes each of the module paths `paths` in turn in the
/// registry, nothing written; paths that are no module of the kernel's graph
/// are skipped (see `known_only` and `apply_all`). An add is refused with
/// `CounterOverflow` for a module whose counter is at its largest, and a
/// remove with `NotFound` for a module with no row; the first such module
/// stops the work.
pub fn apply_paths(ml: &mut ModList, add: bool, is_static: bool, paths: &[String]) -> (r: Result<
    (),
    ModError,
>)
    requires
        old(ml).wf(),
    ensures
        final(ml).wf(),
        final(ml).kernel() == old(ml).kernel(),
        applied(
            old(ml).rows(),
            known_only(old(ml).kernel().graph(), views(paths@)),
            add,
            is_static,
            final(ml).rows(),
            r,
        ),
{
    let ghost g = ml.kernel().graph();
    let ghost names = views(paths@);
    let ghost goal = apply_all(ml.rows(), known_only(g, names), add, is_static);
    let mut i: usize = 0;
    assert(names.skip(0) =~= names);
    while i < paths.len()
        invariant
            i <= paths@.len(),
            names == views(paths@),
            ml.wf(),
            ml.kernel() == old(ml).kernel(),
            g == old(ml).kernel().graph(),
            goal == apply_all(old(ml).rows(), known_only(g, names), add, is_static),
            goal == apply_all(ml.rows(), known_only(g, names.skip(i as int)), add, is_static),
        decreases paths.len() - i,
    {
        let ghost rest = names.skip(i as int);
        assert(rest[0] == paths@[i as int]@);
        assert(rest.drop_first() =~= names.skip(i + 1));
        if ml.kernel_info().is_known_path(&paths[i]) {
            let name = paths[i].clone();
            let ghost krest = known_only(g, rest);
            assert(krest[0] == name@);
            assert(krest.drop_first() =~= known_only(g, names.skip(i + 1)));
            if add {
                match ml.get_count(&name) {
                    Some(c) => {
                        if c == i16::MAX {
                            assert(apply_all(ml.rows(), krest, add, is_static) == Err::<
                                Rows,
                                Seq<char>,
                            >(name@));
                            let e = ModError::CounterOverflow(name);
                            assert(stop_error(e, krest[0], add));
                            return Err(e);
                        }
                    },
                    None => {},
                }
                ml.add(name, is_static);
            } else {
                let ghost before = ml.rows();
                let ghost nv = name@;
                match ml.remove(name) {
                    Ok(()) => {},
                    Err(e) => {
                        assert(apply_all(before, krest, add, is_static) == Err::<Rows, Seq<char>>(
                            nv,
                        ));
                        assert(stop_error(e, krest[0], add));
                        return Err(e);
                    },
                }
            }
        }
        i = i + 1;
    }
    assert(names.skip(i as int) =~= Seq::<Seq<char>>::empty());
    Ok(())
}

/// Adds (`add`) or removes each of `modules` in turn in the registry, or
/// each of the loaded modules `loaded` when `modules` is empty; nothing is
/// written. Each name is first resolved to the path the kernel's graph knows
/// it by (see `KernelInfo::expand_module_name`, which may ask `q`); names
/// that resolve to no module on disk are skipped (see `apply_paths`).
pub fn add_remove<Q: ModInfoQuery>(
    ml: &mut ModList,
    add: bool,
    is_static: bool,
    modules: &[String],
    loaded: &[String],
    q: &Q,
) -> (r: Result<(), ModError>)
    requires
        old(ml).wf(),
    ensures
        final(ml).wf(),
        final(ml).kernel() == old(ml).kernel(),
        exists|res: Seq<Seq<char>>|
            #[trigger] resolves_to(
                old(ml).kernel().graph(),
                scope(views(modules@), views(loaded@)),
                res,
            ) && applied(
                old(ml).rows(),
                known_only(old(ml).kernel().graph(), res),
                add,
                is_static,
                final(ml).rows(),
                r,
            ),
{
    let work = if modules.len() == 0 {
        loaded
    } else {
        modules
    };
    let ghost names = views(work@);
    let ghost g = ml.kernel().graph();
    assert(names == scope(views(modules@), views(loaded@)));
    let mut resolved: Vec<String> = Vec::new();
    let mut i: usize = 0;
    while i < work.len()
        invariant
            i <= work@.len(),
            names == views(work@),
            g == ml.kernel().graph(),
            resolved@.len() == i,
            forall|j: int|
                0 <= j < i ==> could_resolve(g, names[j], #[trigger] views(resolved@)[j]),
        decreases work.len() - i,
    {
        let p = ml.kernel_info().expand_module_name(&work[i], q);
        let ghost before = resolved@;
        resolved.push(p);
        proof {
            assert(names[i as int] == work@[i as int]@);
            assert forall|j: int| 0 <= j < i + 1 implies could_resolve(
                g,
                names[j],
                #[trigger] views(resolved@)[j],
            ) by {
                if j < i {
                    assert(views(resolved@)[j] == views(before)[j]);
                }
            }
        }
        i = i + 1;
    }
    assert(resolves_to(g, names, views(resolved@)));
    apply_paths(ml, add, is_static, resolved.as_slice())
}

/// Registers `modules` (or the loaded modules when it is empty), static or
/// counted, each under its resolved path (see `add_remove`).
pub fn do_add<Q: ModInfoQuery>(
    ml: &mut ModList,
    is_static: bool,
    modules: &[String],
    loaded: &[String],
    q: &Q,
) -> (r: Result<(), ModError>)
    requires
        old(ml).wf(),
    ensures
        final(ml).wf(),
        final(ml).kernel() == old(ml).kernel(),
        exists|res: Seq<Seq<char>>|
            #[trigger] resolves_to(
                old(ml).kernel().graph(),
                scope(views(modules@), views(loaded@)),
                res,
            ) && applied(
                old(ml).rows(),
                known_only(old(ml).kernel().graph(), res),
                true,
                is_static,
                final(ml).rows(),
                r,
            ),
{
    add_remove(ml, true, is_static, modules, loaded, q)
}

/// Unregisters `modules` (or the loaded modules when it is empty), one
/// reference each, each under its resolved path (see `add_remove`).
pub fn do_remove<Q: ModInfoQuery>(
    ml: &mut ModList,
    modules: &[String],
    loaded: &[String],
    q: &Q,
) -> (r: Result<(), ModError>)
    requires
        old(ml).wf(),
    ensures
        final(ml).wf(),
        final(ml).kernel() == old(ml).kernel(),
        exists|res: Seq<Seq<char>>|
            #[trigger] resolves_to(
                old(ml).kernel().graph(),
                scope(views(modules@), views(loaded@)),
                res,
            ) && applied(
                old(ml).rows(),
                known_only(old(ml).kernel().graph(), res),
                false,
                false,
                final(ml).rows(),
                r,
            ),
{
    add_remove(ml, false, false, modules, loaded, q)
}

/// The modules of `disk_mods` (every module file of the kernel's tree) that
/// the registry does not keep: neither a registered module nor one that a
/// registered module needs. These are what a commit deletes.
pub fn do_commit<Q: ModInfoQuery>(ml: &ModList, disk_mods: &[String], q: &Q) -> (r: Vec<String>)
    ensures
        exists|names: Seq<Seq<char>>, t: Seq<(String, Vec<String>)>, keep: Seq<Seq<char>>|
            {
                &&& sorted_strict(names)
                &&& forall|x: Seq<char>| names.contains(x) <==> has_row(ml.rows(), x)
                &&& is_tree_for(ml.kernel(), names, t)
                &&& is_flattened(t, keep)
                &&& views(r@) == orphans(views(disk_mods@), keep)
            },
{
    let mods = ml.get_modules();
    let tree = ml.kernel_info().get_deps_for(mods.as_slice(), q);
    let keep = flatten(&tree);
    orphaned_modules(disk_mods, &keep)
}

/// `do_list` is determined by the closures it lists: two sorted lists of
/// what the same trees hold are the same list.
pub proof fn law_list_determined(
    kernels: Seq<KernelInfo>,
    names: Seq<Seq<char>>,
    ts: Seq<Seq<(String, Vec<String>)>>,
    a: Seq<Seq<char>>,
    b: Seq<Seq<char>>,
)
    requires
        is_list_for(kernels, names, ts, a),
        is_list_for(kernels, names, ts, b),
        sorted_strict(a),
        sorted_strict(b),
    ensures
        a == b,
{
    crate::order::lemma_sorted_same(a, b);
}

} // verus!
