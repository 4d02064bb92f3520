//! One installed kernel: where its module tree lives, its dependency graph,
//! and the resolution of a user's module name to the path that the graph
//! knows it by.

use vstd::prelude::*;
use crate::graph::{
    closure_of, find_key, graph_view, has_key, in_closure, key_index, keys_unique,
    parse_dep_text, parse_deps, Graph,
};
use crate::text::{
    chars_of, concat_chars, drop_spaces, ends_with, find_char, find_from, find_seq, has_prefix,
    has_suffix, hyphenate, hyphenated, lemma_first_of_range, occurs_at, split_on, starts_with,
    string_from, sub_chars, views, without_spaces,
};

verus! {

/// Where the module trees of all installed kernels live, with a trailing slash.
pub open spec fn modules_root() -> Seq<char> {
    "/lib/modules/"@
}

/// The module tree of kernel `kver`.
pub open spec fn root_path_of(kver: Seq<char>) -> Seq<char> {
    modules_root() + kver
}

/// The dependency file of kernel `kver`.
pub open spec fn dep_path_of(kver: Seq<char>) -> Seq<char> {
    root_path_of(kver) + "/modules.dep"@
}

/// `name` with the `.ko` extension added when it is absent.
pub open spec fn with_ko(name: Seq<char>) -> Seq<char> {
    if ends_with(name, ".ko"@) {
        name
    } else {
        name + ".ko"@
    }
}

/// `key` ends with `/` and the file name `m`, as spelt or with hyphens for
/// underscores.
pub open spec fn key_matches(key: Seq<char>, m: Seq<char>) -> bool {
    ends_with(key, seq!['/'] + m) || ends_with(key, hyphenated(seq!['/'] + m))
}

/// Index of the first entry whose module matches the file name `m`, or `g.len()`.
pub open spec fn match_index(g: Graph, m: Seq<char>) -> int
    decreases g.len(),
{
    if g.len() == 0 {
        0
    } else if key_matches(g[0].0, m) {
        0
    } else {
        1 + match_index(g.drop_first(), m)
    }
}

/// What the graph alone makes of a user's module name: the first module whose
/// path ends with the name (`.ko` added), unless the name is already a path
/// under `kernel/`.
pub open spec fn graph_match(g: Graph, name: Seq<char>) -> Option<Seq<char>> {
    let m = with_ko(name);
    if starts_with(m, "kernel/"@) {
        None
    } else if match_index(g, m) < g.len() {
        Some(g[match_index(g, m)].0)
    } else {
        None
    }
}

/// The module path that one line of the metadata tool's output names: spaces
/// are left out, the line must start with `filename:/` and hold `/kernel/`;
/// the path is `kernel/` and what follows the first `/kernel/` up to the next.
pub open spec fn info_line_path(line: Seq<char>) -> Option<Seq<char>> {
    let l = without_spaces(line);
    let a = find_from(l, "/kernel/"@, 0);
    if starts_with(l, "filename:/"@) && a < l.len() {
        let rest = l.skip(a + "/kernel/"@.len());
        Some("kernel/"@ + rest.take(find_from(rest, "/kernel/"@, 0)))
    } else {
        None
    }
}

/// The first module path named by the lines that is a module of the graph.
pub open spec fn info_lines_key(g: Graph, lines: Seq<Seq<char>>) -> Option<Seq<char>>
    decreases lines.len(),
{
    if lines.len() == 0 {
        None
    } else {
        match info_line_path(lines[0]) {
            Some(t) if has_key(g, t) => Some(t),
            _ => info_lines_key(g, lines.drop_first()),
        }
    }
}

/// The module of the graph that the metadata tool's output names, if any.
pub open spec fn info_key(g: Graph, info: Seq<char>) -> Option<Seq<char>> {
    info_lines_key(g, split_on(info, '\n'))
}

/// A user's module name resolved: by the graph first, then by the metadata
/// tool's output when there is one; else the name itself, unchanged.
pub open spec fn resolve(g: Graph, name: Seq<char>, info: Option<Seq<char>>) -> Seq<char> {
    match graph_match(g, name) {
        Some(k) => k,
        None => match info {
            Some(t) => match info_key(g, t) {
                Some(k) => k,
                None => name,
            },
            None => name,
        },
    }
}

/// A resolved name that stands for a module on disk: a path, and a module of
/// the graph.
pub open spec fn is_known(g: Graph, p: Seq<char>) -> bool {
    p.contains('/') && has_key(g, p)
}

/// The known paths among `paths`, each once, in the order of first mention.
pub open spec fn kept_paths(g: Graph, paths: Seq<Seq<char>>) -> Seq<Seq<char>>
    decreases paths.len(),
{
    if paths.len() == 0 {
        Seq::empty()
    } else {
        let k = kept_paths(g, paths.drop_last());
        if is_known(g, paths.last()) && !k.contains(paths.last()) {
            k.push(paths.last())
        } else {
            k
        }
    }
}

/// The view of an optional text.
pub open spec fn text_of(o: Option<String>) -> Option<Seq<char>> {
    match o {
        Some(t) => Some(t@),
        None => None,
    }
}

/// `p` is what `name` resolves to for some output of the metadata tool.
pub open spec fn could_resolve(g: Graph, name: Seq<char>, p: Seq<char>) -> bool {
    exists|info: Option<Seq<char>>| p == resolve(g, name, info)
}

/// The module paths of a tree: each entry's module.
pub open spec fn tree_keys(t: Seq<(String, Vec<String>)>) -> Seq<Seq<char>> {
    t.map_values(|e: (String, Vec<String>)| e.0@)
}

/// Each entry of `t` lists the closure of its module in `g`, each module once.
pub open spec fn is_closure_tree(g: Graph, t: Seq<(String, Vec<String>)>) -> bool {
    forall|i: int|
        0 <= i < t.len() ==> {
            &&& views(#[trigger] t[i].1@).no_duplicates()
            &&& forall|x: Seq<char>| views(t[i].1@).contains(x) <==> in_closure(g, t[i].0@, x)
        }
}

/// `r` holds, for each of `names` resolved for some output of the metadata
/// tool, the closure of its dependencies in `k`'s graph, as
/// `KernelInfo::get_deps_for` gives them.
pub open spec fn is_tree_for(k: &KernelInfo, names: Seq<Seq<char>>, r: Seq<(String, Vec<String>)>) -> bool {
    &&& is_closure_tree(k.graph(), r)
    &&& exists|res: Seq<Seq<char>>|
        {
            &&& res.len() == names.len()
            &&& forall|i: int|
                0 <= i < res.len() ==> could_resolve(k.graph(), names[i], #[trigger] res[i])
            &&& tree_keys(r) == kept_paths(k.graph(), res)
        }
}

/// The source of module metadata, asked when the graph does not know a name.
pub trait ModInfoQuery {
    /// What the module metadata tool prints for `name`, or `None` when it
    /// could not be run.
    fn query(&self, name: &str) -> Option<String>;
}

/// One installed kernel and its module dependency graph.
pub struct KernelInfo {
    pub version: String,
    path: String,
    dep_path: String,
    deplist: Vec<(String, Vec<String>)>,
    is_valid: bool,
    loaded: bool,
}

impl KernelInfo {
    /// The dependency graph.
    pub closed spec fn graph(&self) -> Graph {
        graph_view(self.deplist@)
    }

    /// The kernel's version.
    pub closed spec fn kernel_version(&self) -> Seq<char> {
        self.version@
    }

    /// The module tree's path.
    pub closed spec fn root_path(&self) -> Seq<char> {
        self.path@
    }

    /// The dependency file's path.
    pub closed spec fn dep_file(&self) -> Seq<char> {
        self.dep_path@
    }

    /// Whether real module files exist for this kernel.
    pub closed spec fn valid(&self) -> bool {
        self.is_valid
    }

    /// Whether the dependency graph has been read.
    pub closed spec fn has_loaded(&self) -> bool {
        self.loaded
    }

    /// Every module stands in one entry of the graph.
    pub closed spec fn wf(&self) -> bool {
        keys_unique(self.graph())
    }

    /// The kernel `kver`, with its paths and an empty graph not yet read.
    pub fn new(kver: &str) -> (r: KernelInfo)
        ensures
            r.kernel_version() == kver@,
            r.root_path() == root_path_of(kver@),
            r.dep_file() == dep_path_of(kver@),
            r.graph() == Seq::<(Seq<char>, Seq<Seq<char>>)>::empty(),
            !r.valid(),
            !r.has_loaded(),
            r.wf(),
    {
        let root = concat_chars(&chars_of("/lib/modules/"), &chars_of(kver));
        let dep = concat_chars(&root, &chars_of("/modules.dep"));
        let r = KernelInfo {
            version: string_from(&chars_of(kver)),
            path: string_from(&root),
            dep_path: string_from(&dep),
            deplist: Vec::new(),
            is_valid: false,
            loaded: false,
        };
        assert(r.graph() =~= Seq::<(Seq<char>, Seq<Seq<char>>)>::empty());
        r
    }

    /// Reads the graph from the text of the dependency file, once: a kernel
    /// without real module files (`has_modules` false) keeps an empty graph
    /// and is not valid. A second call changes nothing.
    pub fn load_deps(&mut self, has_modules: bool, dep_text: &str)
        requires
            old(self).wf(),
        ensures
            final(self).wf(),
            final(self).kernel_version() == old(self).kernel_version(),
            final(self).root_path() == old(self).root_path(),
            final(self).dep_file() == old(self).dep_file(),
            final(self).has_loaded(),
            old(self).has_loaded() ==> final(self).graph() == old(self).graph(),
            old(self).has_loaded() ==> final(self).valid() == old(self).valid(),
            !old(self).has_loaded() ==> final(self).valid() == has_modules,
            !old(self).has_loaded() && has_modules ==> final(self).graph() == parse_deps(dep_text@),
            !old(self).has_loaded() && !has_modules ==> final(self).graph() == old(self).graph(),
    {
        if self.loaded {
            return;
        }
        self.is_valid = has_modules;
        if has_modules {
            self.deplist = parse_dep_text(dep_text);
        }
        self.loaded = true;
    }

    /// Whether real module files exist for this kernel; kernel directories are
    /// often left behind by a kernel that was not wholly purged.
    pub fn is_valid(&self) -> (r: bool)
        ensures
            r == self.valid(),
    {
        self.is_valid
    }

    /// The path of the dependency file.
    pub fn get_dep_path(&self) -> (r: &str)
        ensures
            r@ == self.dep_file(),
    {
        self.dep_path.as_str()
    }

    /// The path of the module tree.
    pub fn get_kernel_path(&self) -> (r: &str)
        ensures
            r@ == self.root_path(),
    {
        self.path.as_str()
    }

    /// The directory whose presence tells that real module files exist.
    pub fn get_modules_dir(&self) -> (r: String)
        ensures
            r@ == self.root_path() + "/kernel"@,
    {
        let v = concat_chars(&chars_of(self.path.as_str()), &chars_of("/kernel"));
        string_from(&v)
    }

    /// Whether `p` is a module of the graph.
    pub fn has_module(&self, p: &String) -> (r: bool)
        ensures
            r == has_key(self.graph(), p@),
    {
        find_key(&self.deplist, p) < self.deplist.len()
    }

    /// The direct dependencies of `p`, when it is a module of the graph.
    pub fn get_direct_deps(&self, p: &String) -> (r: Option<Vec<String>>)
        ensures
            has_key(self.graph(), p@) <==> r is Some,
            r matches Some(d) ==> views(d@) == self.graph()[key_index(self.graph(), p@)].1,
    {
        let i = find_key(&self.deplist, p);
        if i < self.deplist.len() {
            Some(crate::graph::clone_strings(self.deplist[i].1.as_slice()))
        } else {
            None
        }
    }

    /// A user's module name resolved (see `resolve`), given what the metadata
    /// tool printed for it, if it was asked.
    pub fn resolve_name(&self, name: &String, info: Option<String>) -> (r: String)
        ensures
            r@ == resolve(self.graph(), name@, text_of(info)),
    {
        match self.find_module_key(name) {
            Some(k) => k,
            None => match info {
                Some(t) => match self.key_from_modinfo(t.as_str()) {
                    Some(k) => k,
                    None => name.clone(),
                },
                None => name.clone(),
            },
        }
    }

    /// Resolves a user's module name to the path the graph knows it by: by
    /// the graph first; only when that fails is `q` asked, and its output
    /// read. When nothing resolves it, the name comes back unchanged.
    pub fn expand_module_name<Q: ModInfoQuery>(&self, name: &String, q: &Q) -> (r: String)
        ensures
            graph_match(self.graph(), name@) matches Some(k) ==> r@ == k,
            exists|info: Option<Seq<char>>| r@ == resolve(self.graph(), name@, info),
    {
        match self.find_module_key(name) {
            Some(k) => {
                assert(k@ == resolve(self.graph(), name@, None));
                k
            },
            None => {
                let info = q.query(name.as_str());
                let r = self.resolve_name(name, info);
                r
            },
        }
    }

    /// Whether `p` names a module on disk: it is a path and a module of the graph.
    pub fn is_known_path(&self, p: &String) -> (r: bool)
        ensures
            r == is_known(self.graph(), p@),
    {
        let v = chars_of(p.as_str());
        let k = find_char(&v, 0, v.len(), '/');
        proof {
            assert(v@.subrange(0, v@.len() as int) =~= v@);
            lemma_first_of_range(v@, '/');
        }
        if k == v.len() {
            assert(!v@.contains('/'));
            false
        } else {
            self.has_module(p)
        }
    }

    /// Every module that `name` needs, directly or through other modules,
    /// each once (see `closure_of`).
    pub fn get_mod_dep(&self, name: &String) -> (r: Vec<String>)
        ensures
            views(r@).no_duplicates(),
            forall|x: Seq<char>| views(r@).contains(x) <==> in_closure(self.graph(), name@, x),
    {
        closure_of(&self.deplist, name)
    }

    /// One entry per known path of `paths` (see `kept_paths`), with the
    /// closure of its dependencies; unknown paths are left out.
    pub fn deps_for_paths(&self, paths: &[String]) -> (r: Vec<(String, Vec<String>)>)
        ensures
            tree_keys(r@) == kept_paths(self.graph(), views(paths@)),
            is_closure_tree(self.graph(), r@),
    {
        let ghost g = self.graph();
        let mut out: Vec<(String, Vec<String>)> = Vec::new();
        let mut i: usize = 0;
        assert(tree_keys(out@) =~= kept_paths(g, views(paths@).take(0)));
        while i < paths.len()
            invariant
                i <= paths@.len(),
                g == self.graph(),
                tree_keys(out@) == kept_paths(g, views(paths@).take(i as int)),
                is_closure_tree(g, out@),
            decreases paths.len() - i,
        {
            let p = &paths[i];
            let ghost pre = views(paths@).take(i as int);
            assert(views(paths@).take(i + 1).drop_last() =~= pre);
            assert(views(paths@).take(i + 1).last() == p@);
            if self.is_known_path(p) && !tree_has_key(&out, p) {
                let d = self.get_mod_dep(p);
                let ghost before = out@;
                out.push((p.clone(), d));
                assert(tree_keys(out@) =~= tree_keys(before).push(p@));
                assert forall|j: int| 0 <= j < out@.len() implies {
                    &&& views(#[trigger] out@[j].1@).no_duplicates()
                    &&& forall|x: Seq<char>|
                        views(out@[j].1@).contains(x) <==> in_closure(g, out@[j].0@, x)
                } by {
                    if j < before.len() {
                        assert(out@[j] == before[j]);
                    }
                }
            }
            i = i + 1;
        }
        assert(views(paths@).take(paths@.len() as int) =~= views(paths@));
        out
    }

    /// For each of `names`, resolved (see `expand_module_name`), the closure
    /// of its dependencies; names that resolve to no module on disk are left
    /// out, and a module named twice has one entry.
    pub fn get_deps_for<Q: ModInfoQuery>(&self, names: &[String], q: &Q) -> (r: Vec<
        (String, Vec<String>),
    >)
        ensures
            is_tree_for(self, views(names@), r@),
    {
        let mut resolved: Vec<String> = Vec::new();
        let mut i: usize = 0;
        while i < names.len()
            invariant
                i <= names@.len(),
                resolved@.len() == i,
                forall|j: int|
                    0 <= j < i ==> could_resolve(
                        self.graph(),
                        names@[j]@,
                        #[trigger] views(resolved@)[j],
                    ),
            decreases names.len() - i,
        {
            let p = self.expand_module_name(&names[i], q);
            let ghost before = resolved@;
            resolved.push(p);
            proof {
                assert forall|j: int| 0 <= j < i + 1 implies could_resolve(
                    self.graph(),
                    names@[j]@,
                    #[trigger] views(resolved@)[j],
                ) by {
                    if j < i {
                        assert(views(resolved@)[j] == views(before)[j]);
                    }
                }
            }
            i = i + 1;
        }
        let r = self.deps_for_paths(resolved.as_slice());
        assert(views(resolved@).len() == names@.len());
        assert forall|j: int| 0 <= j < views(resolved@).len() implies could_resolve(
            self.graph(),
            views(names@)[j],
            #[trigger] views(resolved@)[j],
        ) by {
            assert(views(names@)[j] == names@[j]@);
        }
        r
    }

    /// What the graph alone makes of a user's module name (see `graph_match`).
    pub fn find_module_key(&self, name: &String) -> (r: Option<String>)
        ensures
            r matches Some(k) ==> graph_match(self.graph(), name@) == Some(k@),
            r is None ==> graph_match(self.graph(), name@) is None,
    {
        let ghost g = self.graph();
        let nv = chars_of(name.as_str());
        let ko = chars_of(".ko");
        let m = if has_suffix(&nv, &ko) {
            nv
        } else {
            concat_chars(&nv, &ko)
        };
        if has_prefix(&m, &chars_of("kernel/")) {
            return None;
        }
        let mut slash: Vec<char> = Vec::new();
        slash.push('/');
        let suffix = concat_chars(&slash, &m);
        let alt = hyphenate(&suffix);
        assert(suffix@ == seq!['/'] + m@);
        let mut i: usize = 0;
        assert(g.skip(0) =~= g);
        while i < self.deplist.len()
            invariant
                i <= self.deplist@.len(),
                g == graph_view(self.deplist@),
                m@ == with_ko(name@),
                !starts_with(m@, "kernel/"@),
                suffix@ == seq!['/'] + m@,
                alt@ == hyphenated(suffix@),
                match_index(g, m@) == i + match_index(g.skip(i as int), m@),
            decreases self.deplist.len() - i,
        {
            let kv = chars_of(self.deplist[i].0.as_str());
            assert(g.skip(i as int)[0] == g[i as int]);
            assert(g[i as int].0 == self.deplist@[i as int].0@);
            if has_suffix(&kv, &suffix) || has_suffix(&kv, &alt) {
                assert(key_matches(g[i as int].0, m@));
                assert(match_index(g.skip(i as int), m@) == 0);
                assert(match_index(g, m@) == i);
                let k = self.deplist[i].0.clone();
                assert(k@ == g[i as int].0);
                return Some(k);
            }
            assert(g.skip(i as int).drop_first() =~= g.skip(i + 1));
            i = i + 1;
        }
        assert(g.skip(i as int) =~= Seq::<(Seq<char>, Seq<Seq<char>>)>::empty());
        None
    }

    /// The module of the graph that the metadata tool's output names, if any
    /// (see `info_key`).
    pub fn key_from_modinfo(&self, info: &str) -> (r: Option<String>)
        ensures
            r matches Some(k) ==> info_key(self.graph(), info@) == Some(k@),
            r is None ==> info_key(self.graph(), info@) is None,
    {
        let ghost g = self.graph();
        let v = chars_of(info);
        let n = v.len();
        let pat = chars_of("/kernel/");
        let head = chars_of("filename:/");
        let kernel = chars_of("kernel/");
        let mut i: usize = 0;
        assert(v@.subrange(0, n as int) =~= v@);
        loop
            invariant
                i <= n,
                n == v@.len(),
                g == graph_view(self.deplist@),
                pat@ == "/kernel/"@,
                head@ == "filename:/"@,
                kernel@ == "kernel/"@,
                info_key(g, info@) == info_lines_key(
                    g,
                    split_on(v@.subrange(i as int, n as int), '\n'),
                ),
            decreases n - i,
        {
            let ghost s = v@.subrange(i as int, n as int);
            let j = find_char(&v, i, n, '\n');
            proof {
                lemma_first_of_range(s, '\n');
            }
            let line = sub_chars(&v, i, j);
            assert(s.take(j - i) =~= line@);
            let l = drop_spaces(&line);
            let a = find_seq(&l, &pat);
            let ghost lp = info_line_path(line@);
            if has_prefix(&l, &head) && a < l.len() {
                proof {
                    lemma_find_from_range(l@, pat@, 0);
                }
                let rest = sub_chars(&l, a + pat.len(), l.len());
                assert(rest@ =~= l@.skip(a + pat@.len()));
                let b = find_seq(&rest, &pat);
                proof {
                    lemma_find_from_range(rest@, pat@, 0);
                }
                let piece = sub_chars(&rest, 0, b);
                assert(piece@ =~= rest@.take(b as int));
                let t = string_from(&concat_chars(&kernel, &piece));
                assert(lp == Some(t@));
                if find_key(&self.deplist, &t) < self.deplist.len() {
                    proof {
                        if j < n {
                            assert(split_on(s, '\n') == seq![line@] + split_on(
                                s.skip(j - i + 1),
                                '\n',
                            ));
                        } else {
                            assert(split_on(s, '\n') == seq![s]);
                            assert(s =~= line@);
                        }
                    }
                    return Some(t);
                }
                assert(!has_key(g, t@));
            } else {
                assert(lp is None);
            }
            assert(!(lp matches Some(t) && has_key(g, t)));
            if j == n {
                assert(split_on(s, '\n') == seq![s]);
                assert(s =~= line@);
                assert(seq![s].drop_first() =~= Seq::<Seq<char>>::empty());
                assert(info_lines_key(g, Seq::<Seq<char>>::empty()) is None);
                assert(seq![s][0] == line@);
                assert(info_lines_key(g, seq![s]) == info_lines_key(g, seq![s].drop_first()));
                return None;
            }
            proof {
                assert(s.skip(j - i + 1) =~= v@.subrange(j + 1, n as int));
                assert(split_on(s, '\n') == seq![line@] + split_on(
                    v@.subrange(j + 1, n as int),
                    '\n',
                ));
                assert((seq![line@] + split_on(v@.subrange(j + 1, n as int), '\n')).drop_first()
                    =~= split_on(v@.subrange(j + 1, n as int), '\n'));
            }
            i = j + 1;
        }
    }
}

/// Whether the tree has an entry for `p`.
pub fn tree_has_key(t: &Vec<(String, Vec<String>)>, p: &String) -> (r: bool)
    ensures
        r == tree_keys(t@).contains(p@),
{
    let mut i: usize = 0;
    while i < t.len()
        invariant
            i <= t@.len(),
            forall|j: int| 0 <= j < i ==> t@[j].0@ != p@,
        decreases t.len() - i,
    {
        if t[i].0 == *p {
            assert(tree_keys(t@)[i as int] == p@);
            return true;
        }
        i = i + 1;
    }
    assert forall|j: int| 0 <= j < tree_keys(t@).len() implies tree_keys(t@)[j] != p@ by {
        assert(tree_keys(t@)[j] == t@[j].0@);
    }
    false
}

/// `find_from` from 0 is an index of `s` or its length.
pub proof fn lemma_find_from_range(s: Seq<char>, pat: Seq<char>, i: int)
    requires
        0 <= i <= s.len(),
    ensures
        i <= find_from(s, pat, i) <= s.len(),
        find_from(s, pat, i) < s.len() ==> occurs_at(s, pat, find_from(s, pat, i)),
    decreases s.len() + 1 - i,
{
    if pat.len() == 0 {
        assert(s.subrange(i, i) =~= pat);
    }
    if i + pat.len() <= s.len() && !occurs_at(s, pat, i) {
        lemma_find_from_range(s, pat, i + 1);
    }
}

/// In a tree of closures, the entry of module `m` lists each dependency of
/// each of its dependencies, not only its direct ones.
pub proof fn law_closure_through_dependency(
    g: Graph,
    t: Seq<(String, Vec<String>)>,
    i: int,
    a: Seq<char>,
    c: Seq<char>,
)
    requires
        is_closure_tree(g, t),
        0 <= i < t.len(),
        crate::graph::deps_of(g, t[i].0@).contains(a),
        crate::graph::deps_of(g, a).contains(c),
    ensures
        views(t[i].1@).contains(a),
        views(t[i].1@).contains(c),
{
    crate::graph::lemma_closure_direct(g, t[i].0@, a);
    crate::graph::lemma_closure_step(g, t[i].0@, a, c);
}

/// Every known path among `paths` is kept.
proof fn lemma_kept_holds_known(g: Graph, paths: Seq<Seq<char>>, j: int)
    requires
        0 <= j < paths.len(),
        is_known(g, paths[j]),
    ensures
        kept_paths(g, paths).contains(paths[j]),
    decreases paths.len(),
{
    let k = kept_paths(g, paths.drop_last());
    if j == paths.len() - 1 {
        if !k.contains(paths.last()) {
            assert(k.push(paths.last())[k.len() as int] == paths.last());
        }
    } else {
        assert(paths.drop_last()[j] == paths[j]);
        lemma_kept_holds_known(g, paths.drop_last(), j);
        let x = choose|x: int| 0 <= x < k.len() && k[x] == paths[j];
        if is_known(g, paths.last()) && !k.contains(paths.last()) {
            assert(k.push(paths.last())[x] == paths[j]);
        }
    }
}

/// A name that the graph resolves to a path has its entry in a tree of
/// closures made for the names, whatever the metadata tool would say.
pub proof fn law_graph_names_have_entries(
    k: &KernelInfo,
    names: Seq<Seq<char>>,
    t: Seq<(String, Vec<String>)>,
    i: int,
    p: Seq<char>,
)
    requires
        is_tree_for(k, names, t),
        0 <= i < names.len(),
        graph_match(k.graph(), names[i]) == Some(p),
        p.contains('/'),
    ensures
        tree_keys(t).contains(p),
{
    let g = k.graph();
    let res = choose|res: Seq<Seq<char>>|
        {
            &&& res.len() == names.len()
            &&& forall|j: int| 0 <= j < res.len() ==> could_resolve(g, names[j], #[trigger] res[j])
            &&& tree_keys(t) == kept_paths(g, res)
        };
    assert(could_resolve(g, names[i], res[i]));
    let m = with_ko(names[i]);
    assert(match_index(g, m) < g.len());
    lemma_match_index_key(g, m);
    assert(res[i] == p);
    lemma_kept_holds_known(g, res, i);
}

proof fn lemma_match_index_nonneg(g: Graph, m: Seq<char>)
    ensures
        match_index(g, m) >= 0,
    decreases g.len(),
{
    if g.len() > 0 && !key_matches(g[0].0, m) {
        lemma_match_index_nonneg(g.drop_first(), m);
    }
}

/// The entry at `match_index` is a module of the graph.
proof fn lemma_match_index_key(g: Graph, m: Seq<char>)
    requires
        match_index(g, m) < g.len(),
    ensures
        has_key(g, g[match_index(g, m)].0),
{
    lemma_match_index_nonneg(g, m);
    let i = match_index(g, m);
    crate::graph::lemma_key_index_range(g, g[i].0);
    let j = crate::graph::key_index(g, g[i].0);
    if j > i {
        assert(forall|jj: int| 0 <= jj < j ==> g[jj].0 != g[i].0);
    }
}

} // verus!
