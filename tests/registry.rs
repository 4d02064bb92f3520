use limopack::error::ModError;
use limopack::kernel::KernelInfo;
use limopack::registry::ModList;

fn s(x: &str) -> String {
    x.to_string()
}

fn kernel() -> KernelInfo {
    let mut k = KernelInfo::new("5.15.0-generic");
    k.load_deps(true, "kernel/x.ko:\n");
    k
}

#[test]
fn empty_text_is_an_empty_registry() {
    let k = kernel();
    let ml = ModList::new(&k, "");
    assert_eq!(ml.get_modules(), Vec::<String>::new());
    assert_eq!(ml.save(), "");
}

#[test]
fn storage_path_is_under_the_kernel() {
    let k = kernel();
    let ml = ModList::new(&k, "");
    assert_eq!(ml.get_storage_path(), "/lib/modules/5.15.0-generic/modules.active");
}

#[test]
fn load_reads_counts_and_static_marks() {
    let k = kernel();
    let ml = ModList::new(&k, "kernel/drivers/net/tap.ko:S\nkernel/drivers/acpi/acpi_pad.ko:1\n# a comment\n\n  kernel/b.ko:12  \n");
    assert_eq!(ml.get_count(&s("kernel/drivers/net/tap.ko")), Some(-1));
    assert_eq!(ml.get_count(&s("kernel/drivers/acpi/acpi_pad.ko")), Some(1));
    assert_eq!(ml.get_count(&s("kernel/b.ko")), Some(12));
    assert_eq!(ml.get_count(&s("# a comment")), None);
}

#[test]
fn malformed_lines_are_skipped() {
    let k = kernel();
    let ml = ModList::new(&k, "a.ko:x\nb.ko\nc.ko:1:2\nd.ko:0\ne.ko:99999\nf.ko:-3\ng.ko:\nh.ko:7\n");
    assert_eq!(ml.get_modules(), vec![s("h.ko")]);
}

#[test]
fn get_modules_is_sorted() {
    let k = kernel();
    let ml = ModList::new(&k, "z.ko:1\na.ko:S\nm.ko:2\n");
    assert_eq!(ml.get_modules(), vec![s("a.ko"), s("m.ko"), s("z.ko")]);
}

#[test]
fn add_new_counted_and_static() {
    let k = kernel();
    let mut ml = ModList::new(&k, "");
    ml.add(s("x.ko"), false);
    ml.add(s("y.ko"), true);
    assert_eq!(ml.get_count(&s("x.ko")), Some(1));
    assert_eq!(ml.get_count(&s("y.ko")), Some(-1));
}

#[test]
fn add_increments_and_static_stays() {
    let k = kernel();
    let mut ml = ModList::new(&k, "x.ko:2\ny.ko:S\n");
    ml.add(s("x.ko"), true);
    ml.add(s("y.ko"), false);
    assert_eq!(ml.get_count(&s("x.ko")), Some(3));
    assert_eq!(ml.get_count(&s("y.ko")), Some(-1));
}

#[test]
fn remove_to_zero_deletes_the_entry() {
    let k = kernel();
    let mut ml = ModList::new(&k, "x.ko:1\n");
    assert_eq!(ml.remove(s("x.ko")), Ok(()));
    assert_eq!(ml.get_count(&s("x.ko")), None);
    assert_eq!(ml.get_modules(), Vec::<String>::new());
    assert_eq!(ml.save(), "");
}

#[test]
fn remove_decrements() {
    let k = kernel();
    let mut ml = ModList::new(&k, "x.ko:3\n");
    assert_eq!(ml.remove(s("x.ko")), Ok(()));
    assert_eq!(ml.get_count(&s("x.ko")), Some(2));
}

#[test]
fn remove_static_changes_nothing() {
    let k = kernel();
    let mut ml = ModList::new(&k, "kernel/net/sunrpc/sunrpc.ko:S\nb.ko:1\n");
    let before = ml.save();
    assert_eq!(ml.remove(s("kernel/net/sunrpc/sunrpc.ko")), Ok(()));
    assert_eq!(ml.save(), before);
}

#[test]
fn remove_absent_is_not_found() {
    let k = kernel();
    let mut ml = ModList::new(&k, "b.ko:1\n");
    assert_eq!(ml.remove(s("x.ko")), Err(ModError::NotFound(s("x.ko"))));
    assert_eq!(ml.save(), "b.ko:1\n");
}

#[test]
fn add_then_remove_restores() {
    let k = kernel();
    let mut ml = ModList::new(&k, "a.ko:4\nb.ko:S\n");
    for name in ["a.ko", "b.ko", "c.ko"] {
        let before = ml.get_count(&s(name));
        ml.add(s(name), false);
        assert!(ml.get_count(&s(name)) >= before);
        ml.remove(s(name)).unwrap();
        assert_eq!(ml.get_count(&s(name)), before);
    }
}

#[test]
fn save_writes_one_line_per_entry() {
    let k = kernel();
    let mut ml = ModList::new(&k, "");
    ml.add(s("kernel/drivers/net/tap.ko"), true);
    ml.add(s("kernel/drivers/acpi/acpi_pad.ko"), false);
    ml.add(s("kernel/drivers/acpi/acpi_pad.ko"), false);
    assert_eq!(ml.save(), "kernel/drivers/net/tap.ko:S\nkernel/drivers/acpi/acpi_pad.ko:2\n");
}

#[test]
fn save_then_load_round_trip() {
    let k = kernel();
    let mut ml = ModList::new(&k, "");
    ml.add(s("kernel/a.ko"), true);
    ml.add(s("kernel/b.ko"), false);
    for _ in 0..31 {
        ml.add(s("kernel/c.ko"), false);
    }
    let text = ml.save();
    let back = ModList::new(&k, &text);
    assert_eq!(back.save(), text);
    assert_eq!(back.get_count(&s("kernel/a.ko")), Some(-1));
    assert_eq!(back.get_count(&s("kernel/b.ko")), Some(1));
    assert_eq!(back.get_count(&s("kernel/c.ko")), Some(31));
    assert_eq!(back.get_modules(), ml.get_modules());
}

#[test]
fn largest_count_reads_back() {
    let k = kernel();
    let ml = ModList::new(&k, "a.ko:32767\nb.ko:32768\n");
    assert_eq!(ml.get_count(&s("a.ko")), Some(32767));
    assert_eq!(ml.get_count(&s("b.ko")), None);
    assert_eq!(ml.save(), "a.ko:32767\n");
}

#[test]
fn later_registry_line_replaces_earlier() {
    let k = kernel();
    let ml = ModList::new(&k, "a.ko:1\nb.ko:S\na.ko:3\n");
    assert_eq!(ml.get_count(&s("a.ko")), Some(3));
    assert_eq!(ml.save(), "a.ko:3\nb.ko:S\n");
}

#[test]
fn counts_may_carry_a_plus_sign() {
    let k = kernel();
    let ml = ModList::new(&k, "a.ko:+5\nb.ko:+\nc.ko:+S\nd.ko:++1\n");
    assert_eq!(ml.get_count(&s("a.ko")), Some(5));
    assert_eq!(ml.get_modules(), vec![s("a.ko")]);
    assert_eq!(ml.save(), "a.ko:5\n");
}
