use limopack::kernel::{KernelInfo, ModInfoQuery};
use limopack::tree::{flatten, KModuleTree};

struct NoInfo;

impl ModInfoQuery for NoInfo {
    fn query(&self, _name: &str) -> Option<String> {
        None
    }
}

struct FixedInfo(String);

impl ModInfoQuery for FixedInfo {
    fn query(&self, _name: &str) -> Option<String> {
        Some(self.0.clone())
    }
}

const DEPS: &str = "kernel/m/m.ko: kernel/a/a.ko kernel/b/b.ko\n\
kernel/a/a.ko: kernel/c/c.ko\n\
kernel/b/b.ko:\n\
kernel/c/c.ko:\n\
kernel/net/sunrpc/sunrpc.ko: kernel/net/sunrpc/auth_gss/auth_rpcgss.ko\n\
kernel/net/sunrpc/auth_gss/auth_rpcgss.ko:\n\
kernel/drivers/net/snd-soc-clk.ko:\n";

fn kernel() -> KernelInfo {
    let mut k = KernelInfo::new("5.15.0-generic");
    k.load_deps(true, DEPS);
    k
}

fn sorted(mut v: Vec<String>) -> Vec<String> {
    v.sort();
    v
}

fn s(x: &str) -> String {
    x.to_string()
}

#[test]
fn paths_of_a_kernel() {
    let k = KernelInfo::new("5.15.0-generic");
    assert_eq!(k.get_kernel_path(), "/lib/modules/5.15.0-generic");
    assert_eq!(k.get_dep_path(), "/lib/modules/5.15.0-generic/modules.dep");
    assert_eq!(k.get_modules_dir(), "/lib/modules/5.15.0-generic/kernel");
    assert_eq!(k.version, "5.15.0-generic");
    assert!(!k.is_valid());
}

#[test]
fn invalid_kernel_keeps_an_empty_graph() {
    let mut k = KernelInfo::new("4.0");
    k.load_deps(false, DEPS);
    assert!(!k.is_valid());
    assert!(!k.has_module(&s("kernel/m/m.ko")));
}

#[test]
fn second_load_changes_nothing() {
    let mut k = kernel();
    k.load_deps(true, "kernel/z/z.ko:\n");
    assert!(k.has_module(&s("kernel/m/m.ko")));
    assert!(!k.has_module(&s("kernel/z/z.ko")));
}

#[test]
fn dependency_lines_are_parsed() {
    let k = kernel();
    assert!(k.is_valid());
    assert_eq!(k.get_direct_deps(&s("kernel/m/m.ko")), Some(vec![s("kernel/a/a.ko"), s("kernel/b/b.ko")]));
    assert_eq!(k.get_direct_deps(&s("kernel/b/b.ko")), Some(vec![]));
    assert_eq!(k.get_direct_deps(&s("kernel/x/x.ko")), None);
}

#[test]
fn line_without_colon_gives_no_entry_and_spaces_are_trimmed() {
    let mut k = KernelInfo::new("1");
    k.load_deps(true, "no colon here\n  kernel/p/p.ko :  kernel/q/q.ko   kernel/r/r.ko \r\n");
    assert!(!k.has_module(&s("no colon here")));
    assert_eq!(k.get_direct_deps(&s("kernel/p/p.ko")), Some(vec![s("kernel/q/q.ko"), s("kernel/r/r.ko")]));
}

#[test]
fn later_line_replaces_earlier() {
    let mut k = KernelInfo::new("1");
    k.load_deps(true, "kernel/p/p.ko: kernel/q/q.ko\nkernel/p/p.ko: kernel/r/r.ko");
    assert_eq!(k.get_direct_deps(&s("kernel/p/p.ko")), Some(vec![s("kernel/r/r.ko")]));
}

#[test]
fn closure_includes_dependencies_of_dependencies() {
    let k = kernel();
    let t = k.get_deps_for(&[s("kernel/m/m.ko")], &NoInfo);
    assert_eq!(t.len(), 1);
    assert_eq!(t[0].0, "kernel/m/m.ko");
    assert_eq!(sorted(t[0].1.clone()), vec![s("kernel/a/a.ko"), s("kernel/b/b.ko"), s("kernel/c/c.ko")]);
}

#[test]
fn closure_of_a_short_name() {
    let k = kernel();
    let t = k.get_deps_for(&[s("m")], &NoInfo);
    assert_eq!(t.len(), 1);
    assert_eq!(t[0].0, "kernel/m/m.ko");
    assert_eq!(t[0].1.len(), 3);
}

#[test]
fn cycle_ends_the_walk() {
    let mut k = KernelInfo::new("1");
    k.load_deps(true, "kernel/x.ko: kernel/y.ko\nkernel/y.ko: kernel/x.ko\n");
    let d = k.get_mod_dep(&s("kernel/x.ko"));
    assert_eq!(sorted(d), vec![s("kernel/x.ko"), s("kernel/y.ko")]);
}

#[test]
fn unknown_names_are_skipped() {
    let k = kernel();
    let t = k.get_deps_for(&[s("nosuch"), s("kernel/m/m.ko"), s("m.ko")], &NoInfo);
    assert_eq!(t.len(), 1);
    assert_eq!(t[0].0, "kernel/m/m.ko");
}

#[test]
fn name_resolution_bare_and_with_extension() {
    let k = kernel();
    assert_eq!(k.expand_module_name(&s("sunrpc"), &NoInfo), "kernel/net/sunrpc/sunrpc.ko");
    assert_eq!(k.expand_module_name(&s("sunrpc.ko"), &NoInfo), "kernel/net/sunrpc/sunrpc.ko");
    assert_eq!(k.find_module_key(&s("sunrpc")), Some(s("kernel/net/sunrpc/sunrpc.ko")));
}

#[test]
fn name_resolution_partial_path() {
    let k = kernel();
    assert_eq!(k.expand_module_name(&s("sunrpc/sunrpc.ko"), &NoInfo), "kernel/net/sunrpc/sunrpc.ko");
}

#[test]
fn name_resolution_underscore_as_hyphen() {
    let k = kernel();
    assert_eq!(k.expand_module_name(&s("snd_soc_clk"), &NoInfo), "kernel/drivers/net/snd-soc-clk.ko");
}

#[test]
fn suffix_must_follow_a_slash() {
    let k = kernel();
    assert_eq!(k.find_module_key(&s("rpc")), None);
    assert_eq!(k.expand_module_name(&s("rpc"), &NoInfo), "rpc");
}

#[test]
fn unresolved_name_comes_back_unchanged() {
    let k = kernel();
    assert_eq!(k.expand_module_name(&s("nosuch"), &NoInfo), "nosuch");
    assert_eq!(k.expand_module_name(&s("kernel/m/m"), &NoInfo), "kernel/m/m");
}

#[test]
fn metadata_tool_resolves_what_the_graph_does_not() {
    let k = kernel();
    let info = FixedInfo(s("filename:       /lib/modules/5.15.0-generic/kernel/net/sunrpc/auth_gss/auth_rpcgss.ko\nlicense:        GPL\n"));
    assert_eq!(k.expand_module_name(&s("rpcsec_gss_krb5"), &info), "kernel/net/sunrpc/auth_gss/auth_rpcgss.ko");
}

#[test]
fn metadata_output_is_read() {
    let k = kernel();
    let out = "name: x\nfilename: /lib/modules/1/kernel/b/b.ko\n";
    assert_eq!(k.key_from_modinfo(out), Some(s("kernel/b/b.ko")));
    assert_eq!(k.key_from_modinfo("filename: /lib/modules/1/kernel/q/q.ko\n"), None);
    assert_eq!(k.key_from_modinfo("filename: relative/kernel/b/b.ko\n"), None);
    assert_eq!(k.key_from_modinfo(""), None);
    assert_eq!(k.resolve_name(&s("zz"), Some(s(out))), "kernel/b/b.ko");
    assert_eq!(k.resolve_name(&s("zz"), None), "zz");
}

#[test]
fn metadata_tool_is_not_asked_when_the_graph_knows() {
    let k = kernel();
    let info = FixedInfo(s("filename: /lib/modules/1/kernel/b/b.ko\n"));
    assert_eq!(k.expand_module_name(&s("c"), &info), "kernel/c/c.ko");
}

#[test]
fn flatten_sorts_and_deduplicates() {
    let tree = vec![
        (s("kernel/m/m.ko"), vec![s("kernel/c/c.ko"), s("kernel/a/a.ko")]),
        (s("kernel/a/a.ko"), vec![s("kernel/c/c.ko")]),
    ];
    let once = flatten(&tree);
    assert_eq!(once, vec![s("kernel/a/a.ko"), s("kernel/c/c.ko"), s("kernel/m/m.ko")]);
    assert_eq!(flatten(&tree), once);
    assert_eq!(flatten(&vec![]), Vec::<String>::new());
}

#[test]
fn tree_uses_loaded_modules_when_none_given() {
    let k = kernel();
    let t = KModuleTree::new(&k, vec![s("a")]);
    assert_eq!(t.get_loaded_modules(), vec![s("a")]);
    let d = t.get_specified_deps(&[], &NoInfo);
    assert_eq!(d.len(), 1);
    assert_eq!(d[0].0, "kernel/a/a.ko");
    assert_eq!(t.get_loaded_deps(&NoInfo).len(), 1);
    assert_eq!(t.merge_loaded_deps(&NoInfo), vec![s("kernel/a/a.ko"), s("kernel/c/c.ko")]);
    assert_eq!(
        t.merge_specified_deps(&[s("m")], &NoInfo),
        vec![s("kernel/a/a.ko"), s("kernel/b/b.ko"), s("kernel/c/c.ko"), s("kernel/m/m.ko")]
    );
}
