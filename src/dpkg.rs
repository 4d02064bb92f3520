//! The package manager's status database, as dpkg keeps it: paragraphs
//! separated by a blank line, each opening with a `Package: <name>` line.
//! Taking a package's paragraph out unregisters the package while its files
//! stay, so that a package manager can install it again later.

use vstd::prelude::*;
use crate::error::ModError;
use crate::text::{
    chars_of, find_char, find_from, first_of, lemma_first_of_range, slice_string, split_on,
    string_from, sub_chars, trim, trim_bounds, views,
};

verus! {

/// A blank line between paragraphs.
pub open spec fn blank_line() -> Seq<char> {
    seq!['\n', '\n']
}

/// The paragraphs of `s`: the pieces between blank lines (`str::split`
/// with `"\n\n"`), always at least one.
pub open spec fn paragraphs(s: Seq<char>) -> Seq<Seq<char>>
    decreases s.len(),
{
    let k = find_from(s, blank_line(), 0);
    if 0 <= k && k + 2 <= s.len() {
        seq![s.take(k)] + paragraphs(s.skip(k + 2))
    } else {
        seq![s]
    }
}

/// The paragraphs joined again, a blank line between each two.
pub open spec fn join_paragraphs(p: Seq<Seq<char>>) -> Seq<char>
    decreases p.len(),
{
    if p.len() == 0 {
        Seq::empty()
    } else if p.len() == 1 {
        p[0]
    } else {
        p[0] + blank_line() + join_paragraphs(p.drop_first())
    }
}

/// The value of a `field: value` line, trimmed; empty when there is no colon.
pub open spec fn field_value(line: Seq<char>) -> Seq<char> {
    let k = first_of(line, ':');
    if k < line.len() {
        trim(line.skip(k + 1))
    } else {
        Seq::empty()
    }
}

/// The paragraph is the one of package `name`: its first line's value is
/// the name.
pub open spec fn is_package_of(name: Seq<char>, p: Seq<char>) -> bool {
    field_value(split_on(p, '\n')[0]) == name
}

/// The paragraphs that are not package `name`'s, in order.
pub open spec fn without_package(ps: Seq<Seq<char>>, name: Seq<char>) -> Seq<Seq<char>> {
    ps.filter(|p: Seq<char>| !is_package_of(name, p))
}

/// An editor of the package manager's database: it can unregister a package.
pub trait PackMod {
    /// The database's paragraphs.
    spec fn db(&self) -> Seq<Seq<char>>;

    /// Takes package `name` out of the database, without writing anything;
    /// `NotFound` when it is not there, with nothing changed.
    fn remove_package(&mut self, name: String) -> (r: Result<(), ModError>)
        ensures
            final(self).db() == without_package(old(self).db(), name@),
            r is Ok <==> exists|i: int|
                0 <= i < old(self).db().len() && is_package_of(name@, old(self).db()[i]),
            r matches Err(e) ==> e == ModError::NotFound(name),
    ;

    /// The database's text, to be written back: the paragraphs with a blank
    /// line between each two.
    fn save(&self) -> (r: String)
        ensures
            r@ == join_paragraphs(self.db()),
    ;
}

/// dpkg's status database, held as its paragraphs.
pub struct DpkgMod {
    packages: Vec<String>,
}

impl DpkgMod {
    /// The paragraphs.
    pub closed spec fn chunks(&self) -> Seq<Seq<char>> {
        views(self.packages@)
    }

    /// The database of the status text `status`; with no text (the file
    /// could not be read) it holds nothing.
    pub fn new(status: Option<&str>) -> (r: DpkgMod)
        ensures
            match status {
                Some(t) => r.chunks() == paragraphs(t@),
                None => r.chunks() == Seq::<Seq<char>>::empty(),
            },
    {
        match status {
            Some(t) => DpkgMod { packages: split_paragraphs(t) },
            None => {
                let r = DpkgMod { packages: Vec::new() };
                assert(r.chunks() =~= Seq::<Seq<char>>::empty());
                r
            },
        }
    }

    /// The value of a `field: value` line (see `field_value`).
    pub fn chop_field(&self, line: &str) -> (r: String)
        ensures
            r@ == field_value(line@),
    {
        let v = chars_of(line);
        let k = find_char(&v, 0, v.len(), ':');
        assert(v@.subrange(0, v@.len() as int) =~= v@);
        if k < v.len() {
            let (a, b) = trim_bounds(&v, k + 1, v.len());
            assert(v@.skip(k + 1) =~= v@.subrange(k + 1, v@.len() as int));
            slice_string(&v, a, b)
        } else {
            let e: Vec<char> = Vec::new();
            assert(e@ =~= Seq::<char>::empty());
            string_from(&e)
        }
    }

    /// Whether the paragraph `data` is the one of package `name`.
    pub fn is_package(&self, name: &String, data: &String) -> (r: bool)
        ensures
            r == is_package_of(name@, data@),
    {
        let v = chars_of(data.as_str());
        let j = find_char(&v, 0, v.len(), '\n');
        let ghost s = v@;
        proof {
            assert(v@.subrange(0, v@.len() as int) =~= s);
            lemma_first_of_range(s, '\n');
            if j < v.len() {
                assert(split_on(s, '\n')[0] == s.take(j as int));
            } else {
                assert(split_on(s, '\n')[0] == s);
                assert(s.take(j as int) =~= s);
            }
        }
        let first = slice_string(&v, 0, j);
        assert(first@ =~= s.take(j as int));
        let value = self.chop_field(first.as_str());
        value == *name
    }

    /// Takes the paragraphs of package `name` out; `NotFound` when there
    /// are none, with nothing changed.
    pub fn remove_paragraphs(&mut self, name: &String) -> (r: Result<(), ModError>)
        ensures
            final(self).chunks() == without_package(old(self).chunks(), name@),
            r is Ok <==> exists|i: int|
                0 <= i < old(self).chunks().len() && is_package_of(name@, old(self).chunks()[i]),
            r matches Err(e) ==> e == ModError::NotFound(*name),
    {
        let ghost c = self.chunks();
        let mut buff: Vec<String> = Vec::new();
        let mut found = false;
        let mut i: usize = 0;
        while i < self.packages.len()
            invariant
                i <= self.packages@.len(),
                c == views(self.packages@),
                views(buff@) == without_package(c.take(i as int), name@),
                found <==> exists|j: int| 0 <= j < i && is_package_of(name@, c[j]),
            decreases self.packages.len() - i,
        {
            let ghost t = c.take(i + 1);
            assert(t.drop_last() =~= c.take(i as int));
            assert(t.last() == self.packages@[i as int]@);
            proof {
                reveal(Seq::filter);
            }
            if !self.is_package(name, &self.packages[i]) {
                let ghost before = buff@;
                buff.push(self.packages[i].clone());
                assert(views(buff@) =~= views(before).push(self.packages@[i as int]@));
            } else {
                found = true;
            }
            i = i + 1;
        }
        assert(c.take(c.len() as int) =~= c);
        self.packages = buff;
        if !found {
            return Err(ModError::NotFound(name.clone()));
        }
        Ok(())
    }

    /// The database's text: the paragraphs with a blank line between each two.
    pub fn to_text(&self) -> (r: String)
        ensures
            r@ == join_paragraphs(self.chunks()),
    {
        let ghost c = self.chunks();
        let n = self.packages.len();
        let mut out: Vec<char> = Vec::new();
        if n == 0 {
            assert(out@ =~= join_paragraphs(c));
            return string_from(&out);
        }
        push_chars(&mut out, self.packages[0].as_str());
        assert(c.take(1) =~= seq![c[0]]);
        let mut i: usize = 1;
        while i < n
            invariant
                1 <= i <= n,
                n == c.len(),
                c == views(self.packages@),
                out@ == join_paragraphs(c.take(i as int)),
            decreases n - i,
        {
            out.push('\n');
            out.push('\n');
            push_chars(&mut out, self.packages[i].as_str());
            proof {
                lemma_join_push(c.take(i as int), c[i as int]);
                assert(c.take(i + 1) =~= c.take(i as int).push(c[i as int]));
            }
            i = i + 1;
        }
        assert(c.take(n as int) =~= c);
        string_from(&out)
    }
}

/// Joining one paragraph more adds a blank line and the paragraph.
proof fn lemma_join_push(p: Seq<Seq<char>>, x: Seq<char>)
    requires
        p.len() >= 1,
    ensures
        join_paragraphs(p.push(x)) == join_paragraphs(p) + blank_line() + x,
    decreases p.len(),
{
    let q = p.push(x);
    if p.len() == 1 {
        assert(q.drop_first() =~= seq![x]);
        assert(join_paragraphs(seq![x]) == x);
        assert(q[0] == p[0]);
        assert(join_paragraphs(p) == p[0]);
    } else {
        lemma_join_push(p.drop_first(), x);
        assert(q.drop_first() =~= p.drop_first().push(x));
        assert(q[0] == p[0]);
        assert(join_paragraphs(q) == q[0] + blank_line() + join_paragraphs(q.drop_first()));
        assert(join_paragraphs(p) == p[0] + blank_line() + join_paragraphs(p.drop_first()));
    }
}

/// Appends the characters of `s` to `out`.
fn push_chars(out: &mut Vec<char>, s: &str)
    ensures
        final(out)@ == old(out)@ + s@,
{
    let v = chars_of(s);
    let mut i: usize = 0;
    let ghost start = out@;
    while i < v.len()
        invariant
            i <= v@.len(),
            v@ == s@,
            out@ == start + v@.take(i as int),
        decreases v.len() - i,
    {
        out.push(v[i]);
        i = i + 1;
        assert(out@ =~= start + v@.take(i as int));
    }
    assert(v@.take(v@.len() as int) =~= v@);
}

impl PackMod for DpkgMod {
    open spec fn db(&self) -> Seq<Seq<char>> {
        self.chunks()
    }

    fn remove_package(&mut self, name: String) -> Result<(), ModError> {
        self.remove_paragraphs(&name)
    }

    fn save(&self) -> String {
        self.to_text()
    }
}

/// The paragraphs of `text` (see `paragraphs`).
pub fn split_paragraphs(text: &str) -> (r: Vec<String>)
    ensures
        views(r@) == paragraphs(text@),
{
    let v = chars_of(text);
    let n = v.len();
    let mut out: Vec<String> = Vec::new();
    let mut i: usize = 0;
    assert(v@.subrange(0, n as int) =~= v@);
    assert(Seq::<Seq<char>>::empty() + paragraphs(v@) =~= paragraphs(v@));
    loop
        invariant_except_break
            i <= n,
            n == v@.len(),
            views(out@) + paragraphs(v@.subrange(i as int, n as int)) == paragraphs(v@),
        ensures
            views(out@) == paragraphs(v@),
        decreases n - i,
    {
        let ghost s = v@.subrange(i as int, n as int);
        let rest = sub_chars(&v, i, n);
        let mut sep: Vec<char> = Vec::new();
        sep.push('\n');
        sep.push('\n');
        assert(sep@ =~= blank_line());
        let k = crate::text::find_seq(&rest, &sep);
        proof {
            crate::kernel::lemma_find_from_range(s, blank_line(), 0);
        }
        let ghost before = out@;
        if k < rest.len() && rest.len() - k >= 2 {
            let piece = slice_string(&v, i, i + k);
            assert(piece@ =~= s.take(k as int));
            out.push(piece);
            assert(s.skip(k + 2) =~= v@.subrange(i + k + 2, n as int));
            assert(views(out@) =~= views(before).push(s.take(k as int)));
            assert(views(out@) + paragraphs(v@.subrange(i + k + 2, n as int)) =~= views(before)
                + paragraphs(s));
            i = i + k + 2;
        } else {
            let piece = slice_string(&v, i, n);
            out.push(piece);
            assert(views(out@) =~= views(before).push(s));
            assert(paragraphs(s) == seq![s]);
            assert(views(before) + seq![s] =~= views(out@));
            break;
        }
    }
    out
}

/// Unregisters package `pkgname` from the database `pmod`, without writing
/// anything; `NotFound` when the database does not hold it.
pub fn do_unregister_pkg(pmod: &mut DpkgMod, pkgname: &String) -> (r: Result<(), ModError>)
    ensures
        final(pmod).chunks() == without_package(old(pmod).chunks(), pkgname@),
        r is Ok <==> exists|i: int|
            0 <= i < old(pmod).chunks().len() && is_package_of(pkgname@, old(pmod).chunks()[i]),
        r matches Err(e) ==> e == ModError::NotFound(*pkgname),
{
    pmod.remove_paragraphs(pkgname)
}

} // verus!
