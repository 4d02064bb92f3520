//! The module dependency graph: entries of a module path and its direct
//! dependencies, read from the kernel's `modules.dep` text, and the
//! transitive closure of a module's dependencies.

use vstd::prelude::*;
use crate::text::{
    chars_of, find_char, first_of, lemma_first_of_range, slice_string, split_on, split_tokens,
    tokens, trim, trim_bounds, views,
};

verus! {

/// A graph as the contracts see it: `(module, direct dependencies)` in the
/// order in which the modules were first met.
pub type Graph = Seq<(Seq<char>, Seq<Seq<char>>)>;

/// The view of the graph's entries.
pub open spec fn graph_view(d: Seq<(String, Vec<String>)>) -> Graph {
    d.map_values(|e: (String, Vec<String>)| (e.0@, views(e.1@)))
}

/// Index of the entry whose module is `k`, or `g.len()`.
pub open spec fn key_index(g: Graph, k: Seq<char>) -> int
    decreases g.len(),
{
    if g.len() == 0 {
        0
    } else if g[0].0 == k {
        0
    } else {
        1 + key_index(g.drop_first(), k)
    }
}

/// `k` is a module of the graph.
pub open spec fn has_key(g: Graph, k: Seq<char>) -> bool {
    key_index(g, k) < g.len()
}

/// The direct dependencies of `k`; none when `k` is not in the graph.
pub open spec fn deps_of(g: Graph, k: Seq<char>) -> Seq<Seq<char>> {
    if has_key(g, k) {
        g[key_index(g, k)].1
    } else {
        Seq::empty()
    }
}

/// No module stands in two entries.
pub open spec fn keys_unique(g: Graph) -> bool {
    forall|i: int, j: int| 0 <= i < j < g.len() ==> g[i].0 != g[j].0
}

/// `g` with the dependencies of `k` set to `d`: in place when `k` is there,
/// as a new last entry otherwise.
pub open spec fn graph_insert(g: Graph, k: Seq<char>, d: Seq<Seq<char>>) -> Graph {
    let i = key_index(g, k);
    if i < g.len() {
        g.update(i, (k, d))
    } else {
        g.push((k, d))
    }
}

/// One line of `modules.dep`: `<path>: <dep> <dep> ...`, split at its first
/// colon; both sides are trimmed and the right side is cut into tokens at
/// spaces. A line with no colon gives nothing.
pub open spec fn parse_line(line: Seq<char>) -> Option<(Seq<char>, Seq<Seq<char>>)> {
    let k = first_of(line, ':');
    if k < line.len() {
        Some((trim(line.take(k)), tokens(trim(line.skip(k + 1)))))
    } else {
        None
    }
}

/// The graph that a sequence of lines describes; a later line for the same
/// module replaces the earlier one.
pub open spec fn graph_of_lines(lines: Seq<Seq<char>>) -> Graph
    decreases lines.len(),
{
    if lines.len() == 0 {
        Seq::empty()
    } else {
        let g = graph_of_lines(lines.drop_last());
        match parse_line(lines.last()) {
            Some(e) => graph_insert(g, e.0, e.1),
            None => g,
        }
    }
}

/// The graph that the text of a `modules.dep` file describes.
pub open spec fn parse_deps(text: Seq<char>) -> Graph {
    graph_of_lines(split_on(text, '\n'))
}

/// `p` is a chain of dependencies starting at a direct dependency of `m`.
pub open spec fn is_dep_chain(g: Graph, m: Seq<char>, p: Seq<Seq<char>>) -> bool {
    &&& p.len() >= 1
    &&& deps_of(g, m).contains(p[0])
    &&& forall|i: int| 0 <= i < p.len() - 1 ==> deps_of(g, #[trigger] p[i]).contains(p[i + 1])
}

/// `x` is needed by `m`, directly or through other modules.
pub open spec fn in_closure(g: Graph, m: Seq<char>, x: Seq<char>) -> bool {
    exists|p: Seq<Seq<char>>| is_dep_chain(g, m, p) && p.last() == x
}

/// Every dependency that the graph names, entry after entry.
pub open spec fn all_deps(g: Graph) -> Seq<Seq<char>>
    decreases g.len(),
{
    if g.len() == 0 {
        Seq::empty()
    } else {
        all_deps(g.drop_last()) + g.last().1
    }
}

pub proof fn lemma_key_index_range(g: Graph, k: Seq<char>)
    ensures
        0 <= key_index(g, k) <= g.len(),
        forall|j: int| 0 <= j < key_index(g, k) ==> g[j].0 != k,
        key_index(g, k) < g.len() ==> g[key_index(g, k)].0 == k,
    decreases g.len(),
{
    if g.len() > 0 && g[0].0 != k {
        lemma_key_index_range(g.drop_first(), k);
        assert forall|j: int| 0 <= j < key_index(g, k) implies g[j].0 != k by {
            if j > 0 {
                assert(g[j] == g.drop_first()[j - 1]);
            }
        }
    }
}

pub proof fn lemma_key_index_is(g: Graph, k: Seq<char>, i: int)
    requires
        0 <= i <= g.len(),
        forall|j: int| 0 <= j < i ==> g[j].0 != k,
        i == g.len() || g[i].0 == k,
    ensures
        key_index(g, k) == i,
    decreases i,
{
    if i > 0 {
        assert forall|j: int| 0 <= j < i - 1 implies g.drop_first()[j].0 != k by {
            assert(g.drop_first()[j] == g[j + 1]);
        }
        lemma_key_index_is(g.drop_first(), k, i - 1);
    }
}

pub proof fn lemma_graph_insert_unique(g: Graph, k: Seq<char>, d: Seq<Seq<char>>)
    requires
        keys_unique(g),
    ensures
        keys_unique(graph_insert(g, k, d)),
{
    lemma_key_index_range(g, k);
}

/// Each direct dependency of a module is among `all_deps`.
pub proof fn lemma_deps_in_all(g: Graph, k: Seq<char>, x: Seq<char>)
    requires
        deps_of(g, k).contains(x),
    ensures
        all_deps(g).contains(x),
    decreases g.len(),
{
    lemma_key_index_range(g, k);
    let i = key_index(g, k);
    let j = choose|j: int| 0 <= j < g[i].1.len() && g[i].1[j] == x;
    if i == g.len() - 1 {
        assert((all_deps(g.drop_last()) + g.last().1)[all_deps(g.drop_last()).len() + j] == x);
    } else {
        lemma_key_index_is(g.drop_last(), k, i);
        assert(deps_of(g.drop_last(), k) == deps_of(g, k));
        lemma_deps_in_all(g.drop_last(), k, x);
        let a = all_deps(g.drop_last());
        let m = choose|m: int| 0 <= m < a.len() && a[m] == x;
        assert((a + g.last().1)[m] == x);
    }
}

/// Extending a chain by one dependency keeps it a chain.
pub proof fn lemma_closure_step(g: Graph, m: Seq<char>, x: Seq<char>, y: Seq<char>)
    requires
        in_closure(g, m, x),
        deps_of(g, x).contains(y),
    ensures
        in_closure(g, m, y),
{
    let p = choose|p: Seq<Seq<char>>| is_dep_chain(g, m, p) && p.last() == x;
    let q = p.push(y);
    assert forall|i: int| 0 <= i < q.len() - 1 implies deps_of(g, #[trigger] q[i]).contains(
        q[i + 1],
    ) by {
        if i < p.len() - 1 {
            assert(q[i] == p[i] && q[i + 1] == p[i + 1]);
        } else {
            assert(q[i] == x && q[i + 1] == y);
        }
    }
    assert(is_dep_chain(g, m, q) && q.last() == y);
}

/// A direct dependency is in the closure.
pub proof fn lemma_closure_direct(g: Graph, m: Seq<char>, y: Seq<char>)
    requires
        deps_of(g, m).contains(y),
    ensures
        in_closure(g, m, y),
{
    let q = seq![y];
    assert(is_dep_chain(g, m, q) && q.last() == y);
}

/// A set that holds the direct dependencies of `m` and is closed under
/// dependencies holds the whole closure of `m`.
pub proof fn lemma_closed_holds_closure(g: Graph, m: Seq<char>, s: Set<Seq<char>>, x: Seq<char>)
    requires
        forall|y: Seq<char>| deps_of(g, m).contains(y) ==> s.contains(y),
        forall|y: Seq<char>, z: Seq<char>|
            s.contains(y) && #[trigger] deps_of(g, y).contains(z) ==> s.contains(z),
        in_closure(g, m, x),
    ensures
        s.contains(x),
{
    let p = choose|p: Seq<Seq<char>>| is_dep_chain(g, m, p) && p.last() == x;
    assert forall|i: int| 0 <= i < p.len() implies s.contains(#[trigger] p[i]) by {
        lemma_chain_prefix_in(g, m, s, p, i);
    }
}

proof fn lemma_chain_prefix_in(g: Graph, m: Seq<char>, s: Set<Seq<char>>, p: Seq<Seq<char>>, i: int)
    requires
        forall|y: Seq<char>| deps_of(g, m).contains(y) ==> s.contains(y),
        forall|y: Seq<char>, z: Seq<char>|
            s.contains(y) && #[trigger] deps_of(g, y).contains(z) ==> s.contains(z),
        is_dep_chain(g, m, p),
        0 <= i < p.len(),
    ensures
        s.contains(p[i]),
    decreases i,
{
    if i > 0 {
        lemma_chain_prefix_in(g, m, s, p, i - 1);
        assert(deps_of(g, p[i - 1]).contains(p[i]));
    }
}

/// Index of the entry for `k` in `d`, or `d.len()`.
pub fn find_key(d: &Vec<(String, Vec<String>)>, k: &String) -> (r: usize)
    ensures
        r == key_index(graph_view(d@), k@),
{
    let ghost g = graph_view(d@);
    let mut i: usize = 0;
    while i < d.len()
        invariant
            i <= d@.len(),
            g == graph_view(d@),
            forall|j: int| 0 <= j < i ==> g[j].0 != k@,
        decreases d.len() - i,
    {
        if d[i].0 == *k {
            proof {
                lemma_key_index_is(g, k@, i as int);
            }
            return i;
        }
        i = i + 1;
    }
    proof {
        lemma_key_index_is(g, k@, i as int);
    }
    i
}

/// Whether the list holds a string equal to `s`.
pub fn contains_str(v: &Vec<String>, s: &String) -> (r: bool)
    ensures
        r == views(v@).contains(s@),
{
    let mut i: usize = 0;
    while i < v.len()
        invariant
            i <= v@.len(),
            forall|j: int| 0 <= j < i ==> v@[j]@ != s@,
        decreases v.len() - i,
    {
        if v[i] == *s {
            assert(views(v@)[i as int] == s@);
            return true;
        }
        i = i + 1;
    }
    assert forall|j: int| 0 <= j < views(v@).len() implies views(v@)[j] != s@ by {
        assert(views(v@)[j] == v@[j]@);
    }
    false
}

/// Copies of the strings of `v`.
pub fn clone_strings(v: &[String]) -> (r: Vec<String>)
    ensures
        views(r@) == views(v@),
{
    let mut out: Vec<String> = Vec::new();
    let mut i: usize = 0;
    while i < v.len()
        invariant
            i <= v@.len(),
            views(out@) == views(v@.take(i as int)),
        decreases v.len() - i,
    {
        let ghost before = out@;
        let c = v[i].clone();
        assert(c@ == v@[i as int]@);
        out.push(c);
        assert(views(out@) =~= views(before).push(v@[i as int]@));
        assert(views(v@.take(i + 1)) =~= views(v@.take(i as int)).push(v@[i as int]@));
        i = i + 1;
    }
    assert(v@.take(v@.len() as int) =~= v@);
    out
}

/// Sets the dependencies of `k` to `deps` (see `graph_insert`).
pub fn insert_entry(d: &mut Vec<(String, Vec<String>)>, k: String, deps: Vec<String>)
    ensures
        graph_view(final(d)@) == graph_insert(graph_view(old(d)@), k@, views(deps@)),
{
    let i = find_key(d, &k);
    let ghost g = graph_view(d@);
    let ghost kv = k@;
    let ghost dv = views(deps@);
    if i < d.len() {
        d.set(i, (k, deps));
        assert(graph_view(d@) =~= g.update(i as int, (kv, dv)));
    } else {
        d.push((k, deps));
        assert(graph_view(d@) =~= g.push((kv, dv)));
    }
}

/// Reads the text of a `modules.dep` file into its entries.
pub fn parse_dep_text(text: &str) -> (r: Vec<(String, Vec<String>)>)
    ensures
        graph_view(r@) == parse_deps(text@),
        keys_unique(graph_view(r@)),
{
    let v = chars_of(text);
    let n = v.len();
    let mut out: Vec<(String, Vec<String>)> = Vec::new();
    let ghost mut done: Seq<Seq<char>> = Seq::empty();
    let mut i: usize = 0;
    assert(v@.subrange(0, n as int) =~= v@);
    assert(Seq::<Seq<char>>::empty() + split_on(v@, '\n') =~= split_on(v@, '\n'));
    loop
        invariant_except_break
            i <= n,
            n == v@.len(),
            done + split_on(v@.subrange(i as int, n as int), '\n') == split_on(v@, '\n'),
            graph_view(out@) == graph_of_lines(done),
            keys_unique(graph_view(out@)),
        ensures
            graph_view(out@) == graph_of_lines(split_on(v@, '\n')),
            keys_unique(graph_view(out@)),
        decreases n - i,
    {
        let ghost s = v@.subrange(i as int, n as int);
        let j = find_char(&v, i, n, '\n');
        let ghost line = v@.subrange(i as int, j as int);
        proof {
            lemma_first_of_range(s, '\n');
            assert(s.take(j - i) =~= line);
        }
        let c = find_char(&v, i, j, ':');
        let ghost before = graph_view(out@);
        if c < j {
            let (a, b) = trim_bounds(&v, i, c);
            let (a2, b2) = trim_bounds(&v, c + 1, j);
            let key = slice_string(&v, a, b);
            let deps = split_tokens(&v, a2, b2);
            proof {
                assert(line.take(c - i) =~= v@.subrange(i as int, c as int));
                assert(line.skip(c - i + 1) =~= v@.subrange(c + 1, j as int));
                lemma_graph_insert_unique(before, key@, views(deps@));
            }
            insert_entry(&mut out, key, deps);
        }
        let ghost old_done = done;
        proof {
            assert(done.push(line).drop_last() =~= done);
            done = done.push(line);
        }
        if j == n {
            assert(s =~= line);
            assert(split_on(s, '\n') == seq![s]);
            assert(old_done + seq![s] =~= done);
            break;
        }
        proof {
            assert(s.skip(j - i + 1) =~= v@.subrange(j + 1, n as int));
            assert(split_on(s, '\n') == seq![line] + split_on(v@.subrange(j + 1, n as int), '\n'));
            assert(old_done + (seq![line] + split_on(v@.subrange(j + 1, n as int), '\n')) =~= done
                + split_on(v@.subrange(j + 1, n as int), '\n'));
        }
        i = j + 1;
    }
    out
}

/// A list without repeats whose items all stand in `t` is no longer than `t`.
pub proof fn lemma_unique_within(s: Seq<Seq<char>>, t: Seq<Seq<char>>)
    requires
        s.no_duplicates(),
        forall|i: int| 0 <= i < s.len() ==> t.contains(#[trigger] s[i]),
    ensures
        s.len() <= t.len(),
{
    s.unique_seq_to_set();
    t.lemma_cardinality_of_set();
    assert(s.to_set().subset_of(t.to_set())) by {
        assert forall|x: Seq<char>| s.to_set().contains(x) implies t.to_set().contains(x) by {
            let i = choose|i: int| 0 <= i < s.len() && s[i] == x;
        }
    }
    vstd::set_lib::lemma_len_subset(s.to_set(), t.to_set());
}

/// Appends to `out` each direct dependency of `k` that it does not hold yet.
fn add_deps(d: &Vec<(String, Vec<String>)>, k: &String, out: &mut Vec<String>)
    ensures
        views(final(out)@).len() >= views(old(out)@).len(),
        views(final(out)@).take(views(old(out)@).len() as int) == views(old(out)@),
        forall|z: Seq<char>| #[trigger]
            deps_of(graph_view(d@), k@).contains(z) ==> views(final(out)@).contains(z),
        forall|j: int|
            views(old(out)@).len() <= j < views(final(out)@).len() ==> deps_of(
                graph_view(d@),
                k@,
            ).contains(#[trigger] views(final(out)@)[j]),
        views(old(out)@).no_duplicates() ==> views(final(out)@).no_duplicates(),
{
    let ghost g = graph_view(d@);
    let ghost o = views(out@);
    let idx = find_key(d, k);
    proof {
        lemma_key_index_range(g, k@);
    }
    if idx == d.len() {
        assert(views(out@).take(o.len() as int) =~= o);
        return;
    }
    let deps = &d[idx].1;
    assert(views(deps@) == deps_of(g, k@));
    let mut i: usize = 0;
    while i < deps.len()
        invariant
            i <= deps@.len(),
            views(deps@) == deps_of(g, k@),
            views(out@).len() >= o.len(),
            views(out@).take(o.len() as int) == o,
            forall|j: int| 0 <= j < i ==> views(out@).contains(#[trigger] views(deps@)[j]),
            forall|j: int|
                o.len() <= j < views(out@).len() ==> deps_of(g, k@).contains(
                    #[trigger] views(out@)[j],
                ),
            o.no_duplicates() ==> views(out@).no_duplicates(),
        decreases deps.len() - i,
    {
        let present = contains_str(out, &deps[i]);
        let ghost before = views(out@);
        assert(views(deps@)[i as int] == deps@[i as int]@);
        if !present {
            let c = deps[i].clone();
            out.push(c);
            assert(views(out@) =~= before.push(deps@[i as int]@));
            assert(views(out@).take(o.len() as int) =~= before.take(o.len() as int));
            assert forall|j: int| 0 <= j <= i implies views(out@).contains(
                #[trigger] views(deps@)[j],
            ) by {
                if j < i {
                    let m = choose|m: int| 0 <= m < before.len() && before[m] == views(deps@)[j];
                    assert(views(out@)[m] == before[m]);
                } else {
                    assert(views(out@)[before.len() as int] == views(deps@)[j]);
                }
            }
        }
        i = i + 1;
    }
    assert forall|z: Seq<char>| #[trigger] deps_of(g, k@).contains(z) implies views(
        out@,
    ).contains(z) by {
        let j = choose|j: int| 0 <= j < views(deps@).len() && views(deps@)[j] == z;
    }
}

/// Every module that `m` needs, directly or through other modules, each
/// once, in the order in which a breadth-first walk meets them. A module
/// met again is not walked again, so a cycle in the graph ends the walk.
pub fn closure_of(d: &Vec<(String, Vec<String>)>, m: &String) -> (r: Vec<String>)
    ensures
        views(r@).no_duplicates(),
        forall|x: Seq<char>| views(r@).contains(x) <==> in_closure(graph_view(d@), m@, x),
{
    let ghost g = graph_view(d@);
    let mut out: Vec<String> = Vec::new();
    add_deps(d, m, &mut out);
    proof {
        assert forall|j: int| 0 <= j < views(out@).len() implies in_closure(
            g,
            m@,
            #[trigger] views(out@)[j],
        ) && all_deps(g).contains(views(out@)[j]) by {
            lemma_closure_direct(g, m@, views(out@)[j]);
            lemma_deps_in_all(g, m@, views(out@)[j]);
        }
    }
    let mut i: usize = 0;
    while i < out.len()
        invariant
            i <= out@.len(),
            views(out@).no_duplicates(),
            forall|y: Seq<char>| #[trigger] deps_of(g, m@).contains(y) ==> views(out@).contains(y),
            forall|j: int|
                0 <= j < views(out@).len() ==> in_closure(g, m@, #[trigger] views(out@)[j])
                    && all_deps(g).contains(views(out@)[j]),
            forall|j: int, z: Seq<char>|
                0 <= j < i && #[trigger] deps_of(g, views(out@)[j]).contains(z) ==> views(
                    out@,
                ).contains(z),
            g == graph_view(d@),
        decreases all_deps(g).len() - i,
    {
        proof {
            lemma_unique_within(views(out@), all_deps(g));
        }
        let x = out[i].clone();
        let ghost before = views(out@);
        assert(x@ == before[i as int]);
        add_deps(d, &x, &mut out);
        proof {
            let now = views(out@);
            assert forall|y: Seq<char>| before.contains(y) implies now.contains(y) by {
                let j = choose|j: int| 0 <= j < before.len() && before[j] == y;
                assert(now.take(before.len() as int)[j] == y);
            }
            assert forall|j: int| 0 <= j < now.len() implies in_closure(
                g,
                m@,
                #[trigger] now[j],
            ) && all_deps(g).contains(now[j]) by {
                if j < before.len() {
                    assert(now.take(before.len() as int)[j] == now[j]);
                } else {
                    lemma_closure_step(g, m@, x@, now[j]);
                    lemma_deps_in_all(g, x@, now[j]);
                }
            }
            assert forall|j: int, z: Seq<char>|
                0 <= j < i + 1 && #[trigger] deps_of(g, now[j]).contains(z) implies now.contains(
                z,
            ) by {
                assert(now.take(before.len() as int)[j] == now[j]);
                assert(now[j] == before[j]);
            }
        }
        i = i + 1;
    }
    proof {
        let s = views(out@).to_set();
        assert forall|x: Seq<char>| in_closure(g, m@, x) implies views(out@).contains(x) by {
            assert forall|y: Seq<char>, z: Seq<char>|
                s.contains(y) && #[trigger] deps_of(g, y).contains(z) implies s.contains(z) by {
                let j = choose|j: int| 0 <= j < views(out@).len() && views(out@)[j] == y;
            }
            lemma_closed_holds_closure(g, m@, s, x);
        }
    }
    out
}

} // verus!
