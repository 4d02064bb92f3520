//! Character-level text handling shared by the parsers: the characters of a
//! string, splitting on a separator, whitespace trimming and tokens.

use vstd::prelude::*;

verus! {

/// Whitespace as `char::is_whitespace` knows it (the Unicode `White_Space` set).
pub open spec fn is_ws(c: char) -> bool {
    let u = c as u32;
    u == 0x20 || (0x09 <= u && u <= 0x0d) || u == 0x85 || u == 0xa0 || u == 0x1680 || (0x2000
        <= u && u <= 0x200a) || u == 0x2028 || u == 0x2029 || u == 0x202f || u == 0x205f || u
        == 0x3000
}

/// Index of the first `c` in `s`, or `s.len()` when there is none.
pub open spec fn first_of(s: Seq<char>, c: char) -> int
    decreases s.len(),
{
    if s.len() == 0 {
        0
    } else if s[0] == c {
        0
    } else {
        1 + first_of(s.drop_first(), c)
    }
}

/// Index of the first character of `s` that is not whitespace, or `s.len()`.
pub open spec fn first_non_ws(s: Seq<char>) -> int
    decreases s.len(),
{
    if s.len() == 0 {
        0
    } else if !is_ws(s[0]) {
        0
    } else {
        1 + first_non_ws(s.drop_first())
    }
}

/// Index just past the last character of `s` that is not whitespace, or 0.
pub open spec fn end_non_ws(s: Seq<char>) -> int
    decreases s.len(),
{
    if s.len() == 0 {
        0
    } else if !is_ws(s.last()) {
        s.len() as int
    } else {
        end_non_ws(s.drop_last())
    }
}

/// `s` without leading and trailing whitespace (`str::trim`).
pub open spec fn trim(s: Seq<char>) -> Seq<char> {
    let a = first_non_ws(s);
    let b = end_non_ws(s);
    if a < b {
        s.subrange(a, b)
    } else {
        Seq::empty()
    }
}

/// The pieces of `s` between occurrences of `c`, empty pieces included
/// (`str::split` with a character): always at least one piece.
pub open spec fn split_on(s: Seq<char>, c: char) -> Seq<Seq<char>>
    decreases s.len(),
{
    let k = first_of(s, c);
    if 0 <= k < s.len() {
        seq![s.take(k)] + split_on(s.skip(k + 1), c)
    } else {
        seq![s]
    }
}

/// The maximal runs of characters other than a space, in order.
pub open spec fn tokens(s: Seq<char>) -> Seq<Seq<char>>
    decreases s.len(),
{
    if s.len() == 0 {
        Seq::empty()
    } else if s[0] == ' ' {
        tokens(s.drop_first())
    } else {
        let k = first_of(s, ' ');
        if 0 < k <= s.len() {
            seq![s.take(k)] + tokens(s.skip(k))
        } else {
            Seq::empty()
        }
    }
}

/// The views of a sequence of strings.
pub open spec fn views(v: Seq<String>) -> Seq<Seq<char>> {
    v.map_values(|x: String| x@)
}

pub proof fn lemma_first_of_range(s: Seq<char>, c: char)
    ensures
        0 <= first_of(s, c) <= s.len(),
        forall|j: int| 0 <= j < first_of(s, c) ==> s[j] != c,
        first_of(s, c) < s.len() ==> s[first_of(s, c)] == c,
    decreases s.len(),
{
    if s.len() > 0 && s[0] != c {
        lemma_first_of_range(s.drop_first(), c);
        assert forall|j: int| 0 <= j < first_of(s, c) implies s[j] != c by {
            if j > 0 {
                assert(s[j] == s.drop_first()[j - 1]);
            }
        }
    }
}

/// `first_of` is the one index before which no `c` stands and at which `c`
/// stands (or the end is reached).
pub proof fn lemma_first_of_is(s: Seq<char>, c: char, k: int)
    requires
        0 <= k <= s.len(),
        forall|j: int| 0 <= j < k ==> s[j] != c,
        k == s.len() || s[k] == c,
    ensures
        first_of(s, c) == k,
    decreases k,
{
    if k > 0 {
        assert forall|j: int| 0 <= j < k - 1 implies s.drop_first()[j] != c by {
            assert(s.drop_first()[j] == s[j + 1]);
        }
        lemma_first_of_is(s.drop_first(), c, k - 1);
    }
}

pub proof fn lemma_first_non_ws_is(s: Seq<char>, k: int)
    requires
        0 <= k <= s.len(),
        forall|j: int| 0 <= j < k ==> is_ws(s[j]),
        k == s.len() || !is_ws(s[k]),
    ensures
        first_non_ws(s) == k,
    decreases k,
{
    if k > 0 {
        assert forall|j: int| 0 <= j < k - 1 implies is_ws(s.drop_first()[j]) by {
            assert(s.drop_first()[j] == s[j + 1]);
        }
        lemma_first_non_ws_is(s.drop_first(), k - 1);
    }
}

pub proof fn lemma_end_non_ws_is(s: Seq<char>, k: int)
    requires
        0 <= k <= s.len(),
        forall|j: int| k <= j < s.len() ==> is_ws(s[j]),
        k == 0 || !is_ws(s[k - 1]),
    ensures
        end_non_ws(s) == k,
    decreases s.len() - k,
{
    if s.len() > k {
        assert forall|j: int| k <= j < s.len() - 1 implies is_ws(s.drop_last()[j]) by {
            assert(s.drop_last()[j] == s[j]);
        }
        lemma_end_non_ws_is(s.drop_last(), k);
    }
}

pub exec fn is_ws_char(c: char) -> (r: bool)
    ensures
        r == is_ws(c),
{
    let u = c as u32;
    u == 0x20 || (0x09 <= u && u <= 0x0d) || u == 0x85 || u == 0xa0 || u == 0x1680 || (0x2000
        <= u && u <= 0x200a) || u == 0x2028 || u == 0x2029 || u == 0x202f || u == 0x205f || u
        == 0x3000
}

/// The characters of `s`, in order.
pub fn chars_of(s: &str) -> (r: Vec<char>)
    ensures
        r@ == s@,
{
    let mut out: Vec<char> = Vec::new();
    for c in it: s.chars()
        invariant
            out@ == it.seq().take(it.index() as int),
    {
        out.push(c);
    }
    out
}

/// Relies on `String: FromIterator<char>`: the string holds the characters in order.
#[verifier::external_body]
fn string_of(cs: &[char]) -> (r: String)
    ensures
        r@ == cs@,
{
    cs.iter().collect()
}

/// The string made of `v[lo..hi]`.
pub fn slice_string(v: &Vec<char>, lo: usize, hi: usize) -> (r: String)
    requires
        lo <= hi <= v@.len(),
    ensures
        r@ == v@.subrange(lo as int, hi as int),
{
    let s = v.as_slice();
    let part = &s[lo..hi];
    string_of(part)
}

/// The string made of all of `v`.
pub fn string_from(v: &Vec<char>) -> (r: String)
    ensures
        r@ == v@,
{
    let r = slice_string(v, 0, v.len());
    assert(v@.subrange(0, v@.len() as int) =~= v@);
    r
}

/// The first index in `lo..hi` that holds `c`, or `hi`.
pub fn find_char(v: &Vec<char>, lo: usize, hi: usize, c: char) -> (r: usize)
    requires
        lo <= hi <= v@.len(),
    ensures
        lo <= r <= hi,
        r - lo == first_of(v@.subrange(lo as int, hi as int), c),
{
    let mut i = lo;
    while i < hi && v[i] != c
        invariant
            lo <= i <= hi <= v@.len(),
            forall|j: int| lo <= j < i ==> v@[j] != c,
        decreases hi - i,
    {
        i = i + 1;
    }
    proof {
        lemma_first_of_is(v@.subrange(lo as int, hi as int), c, i - lo);
    }
    i
}

/// The bounds of `v[lo..hi]` with leading and trailing whitespace left out.
pub fn trim_bounds(v: &Vec<char>, lo: usize, hi: usize) -> (r: (usize, usize))
    requires
        lo <= hi <= v@.len(),
    ensures
        lo <= r.0 <= r.1 <= hi,
        v@.subrange(r.0 as int, r.1 as int) == trim(v@.subrange(lo as int, hi as int)),
{
    let ghost s = v@.subrange(lo as int, hi as int);
    let mut a = lo;
    while a < hi && is_ws_char(v[a])
        invariant
            lo <= a <= hi <= v@.len(),
            forall|j: int| lo <= j < a ==> is_ws(v@[j]),
        decreases hi - a,
    {
        a = a + 1;
    }
    proof {
        lemma_first_non_ws_is(s, a - lo);
    }
    if a == hi {
        proof {
            lemma_end_non_ws_is(s, 0);
        }
        assert(v@.subrange(hi as int, hi as int) =~= Seq::<char>::empty());
        return (hi, hi);
    }
    let mut b = hi;
    while b > a && is_ws_char(v[b - 1])
        invariant
            lo <= a < hi <= v@.len(),
            a <= b <= hi,
            !is_ws(v@[a as int]),
            forall|j: int| b <= j < hi ==> is_ws(v@[j]),
        decreases b - a,
    {
        b = b - 1;
    }
    proof {
        lemma_end_non_ws_is(s, b - lo);
        assert(v@.subrange(a as int, b as int) =~= s.subrange(a - lo, b - lo));
    }
    (a, b)
}

/// The tokens of `v[lo..hi]`: its maximal runs of characters other than a space.
pub fn split_tokens(v: &Vec<char>, lo: usize, hi: usize) -> (r: Vec<String>)
    requires
        lo <= hi <= v@.len(),
    ensures
        views(r@) == tokens(v@.subrange(lo as int, hi as int)),
{
    let mut out: Vec<String> = Vec::new();
    let mut i = lo;
    while i < hi
        invariant
            lo <= i <= hi <= v@.len(),
            views(out@) + tokens(v@.subrange(i as int, hi as int)) == tokens(
                v@.subrange(lo as int, hi as int),
            ),
        decreases hi - i,
    {
        let ghost s = v@.subrange(i as int, hi as int);
        if v[i] == ' ' {
            assert(s.drop_first() =~= v@.subrange(i + 1, hi as int));
            i = i + 1;
        } else {
            let j = find_char(v, i, hi, ' ');
            proof {
                lemma_first_of_range(s, ' ');
                if j == i {
                    assert(s[0] == ' ');
                }
            }
            let t = slice_string(v, i, j);
            assert(s.take(j - i) =~= t@);
            assert(s.skip(j - i) =~= v@.subrange(j as int, hi as int));
            let ghost before = out@;
            out.push(t);
            assert(views(out@) =~= views(before).push(t@));
            i = j;
        }
    }
    assert(views(out@) + tokens(v@.subrange(hi as int, hi as int)) =~= views(out@));
    out
}

/// `s` ends with `suf`.
pub open spec fn ends_with(s: Seq<char>, suf: Seq<char>) -> bool {
    s.len() >= suf.len() && s.skip(s.len() - suf.len()) == suf
}

/// `s` starts with `pre`.
pub open spec fn starts_with(s: Seq<char>, pre: Seq<char>) -> bool {
    s.len() >= pre.len() && s.take(pre.len() as int) == pre
}

/// `pat` stands in `s` at index `i`.
pub open spec fn occurs_at(s: Seq<char>, pat: Seq<char>, i: int) -> bool {
    0 <= i && i + pat.len() <= s.len() && s.subrange(i, i + pat.len()) == pat
}

/// The first index from `i` on at which `pat` stands in `s`, or `s.len()`.
pub open spec fn find_from(s: Seq<char>, pat: Seq<char>, i: int) -> int
    decreases s.len() + 1 - i,
{
    if i < 0 || i + pat.len() > s.len() {
        s.len() as int
    } else if occurs_at(s, pat, i) {
        i
    } else {
        find_from(s, pat, i + 1)
    }
}

/// `s` with every space left out.
pub open spec fn without_spaces(s: Seq<char>) -> Seq<char> {
    s.filter(|c: char| c != ' ')
}

/// `s` with every underscore written as a hyphen.
pub open spec fn hyphenated(s: Seq<char>) -> Seq<char> {
    s.map_values(|c: char| if c == '_' { '-' } else { c })
}

/// Whether `v` ends with `suf`.
pub fn has_suffix(v: &Vec<char>, suf: &Vec<char>) -> (r: bool)
    ensures
        r == ends_with(v@, suf@),
{
    if v.len() < suf.len() {
        return false;
    }
    let n = v.len();
    let off = n - suf.len();
    let mut i: usize = 0;
    while i < suf.len()
        invariant
            off + suf@.len() == v@.len(),
            n == v@.len(),
            off <= v@.len(),
            suf@.len() <= v@.len(),
            i <= suf@.len(),
            forall|j: int| 0 <= j < i ==> v@[off + j] == suf@[j],
        decreases suf.len() - i,
    {
        let k = off + i;
        if v[k] != suf[i] {
            assert(v@.skip(off as int)[i as int] != suf@[i as int]);
            return false;
        }
        i = i + 1;
    }
    assert(v@.skip(off as int) =~= suf@);
    true
}

/// Whether `pat` stands in `v` at index `i`.
pub fn matches_at(v: &Vec<char>, pat: &Vec<char>, i: usize) -> (r: bool)
    ensures
        r == occurs_at(v@, pat@, i as int),
{
    if i > v.len() || pat.len() > v.len() - i {
        return false;
    }
    let n = v.len();
    let mut j: usize = 0;
    while j < pat.len()
        invariant
            n == v@.len(),
            i + pat@.len() <= v@.len(),
            i <= v@.len(),
            pat@.len() <= v@.len(),
            j <= pat@.len(),
            forall|k: int| 0 <= k < j ==> v@[i + k] == pat@[k],
        decreases pat.len() - j,
    {
        let k = i + j;
        if v[k] != pat[j] {
            assert(v@.subrange(i as int, i + pat@.len())[j as int] != pat@[j as int]);
            return false;
        }
        j = j + 1;
    }
    assert(v@.subrange(i as int, i + pat@.len()) =~= pat@);
    true
}

/// Whether `v` starts with `pre`.
pub fn has_prefix(v: &Vec<char>, pre: &Vec<char>) -> (r: bool)
    ensures
        r == starts_with(v@, pre@),
{
    let r = matches_at(v, pre, 0);
    assert(v@.len() >= pre@.len() ==> v@.subrange(0, pre@.len() as int) =~= v@.take(
        pre@.len() as int,
    ));
    r
}

/// The first index at which `pat` stands in `v`, or `v.len()`.
pub fn find_seq(v: &Vec<char>, pat: &Vec<char>) -> (r: usize)
    ensures
        r == find_from(v@, pat@, 0),
{
    if pat.len() == 0 {
        assert(occurs_at(v@, pat@, 0)) by {
            assert(v@.subrange(0, 0) =~= pat@);
        }
        return 0;
    }
    let mut i: usize = 0;
    while i < v.len() && pat.len() <= v.len() - i
        invariant
            i <= v@.len(),
            pat@.len() > 0,
            find_from(v@, pat@, i as int) == find_from(v@, pat@, 0),
        decreases v@.len() - i,
    {
        if matches_at(v, pat, i) {
            return i;
        }
        i = i + 1;
    }
    v.len()
}

/// The characters of `v[lo..hi]` as a vector of their own.
pub fn sub_chars(v: &Vec<char>, lo: usize, hi: usize) -> (r: Vec<char>)
    requires
        lo <= hi <= v@.len(),
    ensures
        r@ == v@.subrange(lo as int, hi as int),
{
    let mut out: Vec<char> = Vec::new();
    let mut i = lo;
    while i < hi
        invariant
            lo <= i <= hi <= v@.len(),
            out@ == v@.subrange(lo as int, i as int),
        decreases hi - i,
    {
        out.push(v[i]);
        i = i + 1;
        assert(out@ =~= v@.subrange(lo as int, i as int));
    }
    out
}

/// `v` with every space left out.
pub fn drop_spaces(v: &Vec<char>) -> (r: Vec<char>)
    ensures
        r@ == without_spaces(v@),
{
    let mut out: Vec<char> = Vec::new();
    let mut i: usize = 0;
    while i < v.len()
        invariant
            i <= v@.len(),
            out@ == without_spaces(v@.take(i as int)),
        decreases v.len() - i,
    {
        assert(v@.take(i + 1).drop_last() =~= v@.take(i as int));
        proof {
            reveal(Seq::filter);
        }
        if v[i] != ' ' {
            out.push(v[i]);
        }
        i = i + 1;
    }
    assert(v@.take(v@.len() as int) =~= v@);
    out
}

/// `v` with every underscore written as a hyphen.
pub fn hyphenate(v: &Vec<char>) -> (r: Vec<char>)
    ensures
        r@ == hyphenated(v@),
{
    let mut out: Vec<char> = Vec::new();
    let mut i: usize = 0;
    while i < v.len()
        invariant
            i <= v@.len(),
            out@ == hyphenated(v@.take(i as int)),
        decreases v.len() - i,
    {
        let c = v[i];
        out.push(if c == '_' { '-' } else { c });
        i = i + 1;
        assert(out@ =~= hyphenated(v@.take(i as int)));
    }
    assert(v@.take(v@.len() as int) =~= v@);
    out
}

/// The two character vectors one after the other.
pub fn concat_chars(a: &Vec<char>, b: &Vec<char>) -> (r: Vec<char>)
    ensures
        r@ == a@ + b@,
{
    let mut out = sub_chars(a, 0, a.len());
    let mut i: usize = 0;
    while i < b.len()
        invariant
            i <= b@.len(),
            out@ == a@ + b@.take(i as int),
        decreases b.len() - i,
    {
        out.push(b[i]);
        i = i + 1;
        assert(out@ =~= a@ + b@.take(i as int));
    }
    assert(b@.take(b@.len() as int) =~= b@);
    out
}

} // verus!
