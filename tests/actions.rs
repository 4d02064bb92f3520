use limopack::actions::{add_remove, do_add, do_commit, do_list, do_remove};
use limopack::commit::{is_module_file, orphaned_modules};
use limopack::dpkg::{do_unregister_pkg, DpkgMod, PackMod};
use limopack::error::ModError;
use limopack::kernel::{KernelInfo, ModInfoQuery};
use limopack::modinfo::lsmod;
use limopack::registry::ModList;
use limopack::sysutils::user_is_root;
use limopack::vacuum::Vacuum;

struct NoInfo;

impl ModInfoQuery for NoInfo {
    fn query(&self, _name: &str) -> Option<String> {
        None
    }
}

fn s(x: &str) -> String {
    x.to_string()
}

fn kernel() -> KernelInfo {
    let mut k = KernelInfo::new("5.15.0-generic");
    k.load_deps(
        true,
        "kernel/net/sunrpc/sunrpc.ko:\nkernel/drivers/stray.ko:\nkernel/fs/nfs/nfs.ko: kernel/net/sunrpc/sunrpc.ko\n",
    );
    k
}

#[test]
fn commit_deletes_only_what_the_registry_does_not_keep() {
    let k = kernel();
    let ml = ModList::new(&k, "kernel/net/sunrpc/sunrpc.ko:S\n");
    let disk = vec![s("kernel/net/sunrpc/sunrpc.ko"), s("kernel/drivers/stray.ko")];
    let gone = do_commit(&ml, &disk, &NoInfo);
    assert_eq!(gone, vec![s("kernel/drivers/stray.ko")]);
    let plan = ml.commit(&gone, &[true]);
    assert_eq!(plan.delete, vec![s("/lib/modules/5.15.0-generic/kernel/drivers/stray.ko")]);
    assert_eq!(plan.removed, 1);
    assert_eq!(plan.skipped, 0);
}

#[test]
fn commit_keeps_dependencies_of_registered_modules() {
    let k = kernel();
    let ml = ModList::new(&k, "kernel/fs/nfs/nfs.ko:1\n");
    let disk = vec![s("kernel/net/sunrpc/sunrpc.ko"), s("kernel/drivers/stray.ko"), s("kernel/fs/nfs/nfs.ko")];
    assert_eq!(do_commit(&ml, &disk, &NoInfo), vec![s("kernel/drivers/stray.ko")]);
}

#[test]
fn commit_counts_missing_files_as_skipped() {
    let k = kernel();
    let ml = ModList::new(&k, "");
    let plan = ml.commit(&[s("a.ko"), s("b.ko"), s("c.ko")], &[false, true, false]);
    assert_eq!(plan.delete, vec![s("/lib/modules/5.15.0-generic/b.ko")]);
    assert_eq!(plan.removed, 1);
    assert_eq!(plan.skipped, 2);
}

#[test]
fn orphans_keep_disk_order() {
    let keep = vec![s("b")];
    assert_eq!(orphaned_modules(&[s("c"), s("b"), s("a")], &keep), vec![s("c"), s("a")]);
}

#[test]
fn add_and_remove_in_turn() {
    let k = kernel();
    let mut ml = ModList::new(&k, "");
    assert_eq!(do_add(&mut ml, false, &[s("nfs"), s("kernel/drivers/stray.ko"), s("nfs.ko")], &[], &NoInfo), Ok(()));
    assert_eq!(ml.save(), "kernel/fs/nfs/nfs.ko:2\nkernel/drivers/stray.ko:1\n");
    assert_eq!(do_remove(&mut ml, &[s("stray")], &[], &NoInfo), Ok(()));
    assert_eq!(ml.save(), "kernel/fs/nfs/nfs.ko:2\n");
    assert_eq!(
        do_remove(&mut ml, &[s("nfs"), s("sunrpc")], &[], &NoInfo),
        Err(ModError::NotFound(s("kernel/net/sunrpc/sunrpc.ko")))
    );
}

#[test]
fn add_resolves_a_short_name_to_its_path() {
    let k = kernel();
    let mut ml = ModList::new(&k, "");
    assert_eq!(do_add(&mut ml, false, &[s("sunrpc")], &[], &NoInfo), Ok(()));
    assert_eq!(ml.save(), "kernel/net/sunrpc/sunrpc.ko:1\n");
    assert_eq!(ml.get_count(&s("sunrpc")), None);
}

#[test]
fn names_that_resolve_to_nothing_are_skipped() {
    let k = kernel();
    let mut ml = ModList::new(&k, "");
    assert_eq!(do_add(&mut ml, true, &[s("nosuch"), s("kernel/x/y.ko")], &[], &NoInfo), Ok(()));
    assert_eq!(ml.save(), "");
    assert_eq!(do_remove(&mut ml, &[s("nosuch")], &[], &NoInfo), Ok(()));
}

#[test]
fn loaded_modules_stand_in_for_an_empty_list() {
    let k = kernel();
    let mut ml = ModList::new(&k, "");
    assert_eq!(add_remove(&mut ml, true, true, &[], &[s("sunrpc")], &NoInfo), Ok(()));
    assert_eq!(ml.save(), "kernel/net/sunrpc/sunrpc.ko:S\n");
}

#[test]
fn add_refuses_a_full_counter() {
    let k = kernel();
    let mut ml = ModList::new(&k, "kernel/fs/nfs/nfs.ko:32767\n");
    assert_eq!(
        do_add(&mut ml, false, &[s("nfs")], &[], &NoInfo),
        Err(ModError::CounterOverflow(s("kernel/fs/nfs/nfs.ko")))
    );
}

#[test]
fn commit_deletes_a_repeated_module_once() {
    let k = kernel();
    let ml = ModList::new(&k, "");
    let plan = ml.commit(&[s("a.ko"), s("a.ko"), s("b.ko")], &[true, true, true]);
    assert_eq!(plan.delete, vec![s("/lib/modules/5.15.0-generic/a.ko"), s("/lib/modules/5.15.0-generic/b.ko")]);
    assert_eq!(plan.removed, 2);
    assert_eq!(plan.skipped, 1);
}

#[test]
fn list_merges_kernels() {
    let k1 = kernel();
    let mut k2 = KernelInfo::new("6.1");
    k2.load_deps(true, "kernel/fs/nfs/nfs.ko: kernel/lib/extra.ko\nkernel/lib/extra.ko:\n");
    let out = do_list(&[k1, k2], &[], &[s("nfs")], &NoInfo);
    assert_eq!(
        out,
        vec![s("kernel/fs/nfs/nfs.ko"), s("kernel/lib/extra.ko"), s("kernel/net/sunrpc/sunrpc.ko")]
    );
}

#[test]
fn list_of_nothing_loaded_is_empty() {
    let k = kernel();
    assert_eq!(do_list(&[k], &[], &[], &NoInfo), Vec::<String>::new());
}

#[test]
fn root_only() {
    assert_eq!(user_is_root(0, 0), Ok(()));
    assert_eq!(user_is_root(1000, 0), Err(ModError::PermissionDenied));
    assert_eq!(user_is_root(0, 1000), Err(ModError::PermissionDenied));
}

#[test]
fn lsmod_snapshot_is_empty() {
    assert_eq!(lsmod().len(), 0);
}

const STATUS: &str = "Package: foo\nStatus: install ok installed\n\nPackage: limopack-mods\nVersion: 1\n\nPackage: bar\nVersion: 2";

#[test]
fn unregister_takes_the_paragraph_out() {
    let mut db = DpkgMod::new(Some(STATUS));
    assert_eq!(do_unregister_pkg(&mut db, &s("limopack-mods")), Ok(()));
    assert_eq!(db.to_text(), "Package: foo\nStatus: install ok installed\n\nPackage: bar\nVersion: 2");
}

#[test]
fn unregister_unknown_package_is_not_found() {
    let mut db = DpkgMod::new(Some(STATUS));
    assert_eq!(db.remove_package(s("nope")), Err(ModError::NotFound(s("nope"))));
    assert_eq!(db.save(), STATUS);
}

#[test]
fn field_values_and_package_match() {
    let db = DpkgMod::new(None);
    assert_eq!(db.chop_field("Package:   foo  "), "foo");
    assert_eq!(db.chop_field("no field"), "");
    assert!(db.is_package(&s("foo"), &s("Package: foo\nVersion: 1")));
    assert!(!db.is_package(&s("fo"), &s("Package: foo")));
    assert_eq!(db.to_text(), "");
}

/// A directory tree where only empty directories can be removed.
struct Tree {
    dirs: Vec<String>,
    files: Vec<String>,
}

impl Tree {
    fn rmdir(&mut self, d: &str) -> bool {
        let prefix = format!("{}/", d);
        if !self.dirs.iter().any(|x| x == d) {
            return false;
        }
        if self.dirs.iter().chain(self.files.iter()).any(|x| x.starts_with(&prefix)) {
            return false;
        }
        self.dirs.retain(|x| x != d);
        true
    }
}

fn run(tree: &mut Tree, list: &[String]) -> usize {
    let mut v = Vacuum::new(list.to_vec());
    let mut removed = 0;
    while let Some(d) = v.next_dir() {
        let ok = tree.rmdir(&d);
        if ok {
            removed += 1;
        }
        v.record(ok);
    }
    removed
}

#[test]
fn vacuum_repeats_until_nothing_is_removed_and_a_second_run_removes_nothing() {
    let list = vec![s("k"), s("k/a"), s("k/a/b"), s("k/c")];
    let mut tree = Tree { dirs: list.clone(), files: vec![s("k/c/x.ko")] };
    assert_eq!(run(&mut tree, &list), 2);
    assert_eq!(tree.dirs, vec![s("k"), s("k/c")]);
    assert_eq!(run(&mut tree, &list), 0);
}

#[test]
fn vacuum_of_no_directory_is_over_at_once() {
    let v = Vacuum::new(vec![]);
    assert_eq!(v.next_dir(), None);
}

#[test]
fn module_files_are_recognised() {
    assert!(is_module_file("sunrpc.ko"));
    assert!(is_module_file("sunrpc.ko.zst"));
    assert!(!is_module_file("modules.dep"));
    assert!(!is_module_file(""));
}
