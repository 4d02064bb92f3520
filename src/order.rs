//! The order of strings (`str`'s `Ord`: character by character, by code
//! point) and sorted lists of distinct strings.

use vstd::prelude::*;
use crate::text::views;

verus! {

/// `a` comes before `b`: lexicographic, by code point, a proper prefix first.
pub open spec fn str_lt(a: Seq<char>, b: Seq<char>) -> bool
    decreases a.len(),
{
    if a.len() == 0 {
        b.len() > 0
    } else if b.len() == 0 {
        false
    } else if a[0] != b[0] {
        (a[0] as u32) < (b[0] as u32)
    } else {
        str_lt(a.drop_first(), b.drop_first())
    }
}

/// Strictly increasing, so each string at most once.
pub open spec fn sorted_strict(s: Seq<Seq<char>>) -> bool {
    forall|i: int, j: int| 0 <= i < j < s.len() ==> str_lt(s[i], s[j])
}

pub proof fn lemma_lt_irreflexive(a: Seq<char>)
    ensures
        !str_lt(a, a),
    decreases a.len(),
{
    if a.len() > 0 {
        lemma_lt_irreflexive(a.drop_first());
    }
}

pub proof fn lemma_lt_asymmetric(a: Seq<char>, b: Seq<char>)
    requires
        str_lt(a, b),
    ensures
        !str_lt(b, a),
    decreases a.len(),
{
    if a.len() > 0 && b.len() > 0 && a[0] == b[0] {
        lemma_lt_asymmetric(a.drop_first(), b.drop_first());
    }
}

pub proof fn lemma_lt_total(a: Seq<char>, b: Seq<char>)
    requires
        a != b,
    ensures
        str_lt(a, b) || str_lt(b, a),
    decreases a.len(),
{
    if a.len() > 0 && b.len() > 0 && a[0] == b[0] {
        if a.drop_first() == b.drop_first() {
            assert(a =~= seq![a[0]] + a.drop_first());
            assert(b =~= seq![b[0]] + b.drop_first());
        }
        lemma_lt_total(a.drop_first(), b.drop_first());
    } else if a.len() > 0 && b.len() > 0 {
        let x = a[0] as u32;
        let y = b[0] as u32;
        assert(x != y) by {
            vstd::utf8::char_u32_cast(a[0], x);
            vstd::utf8::char_u32_cast(b[0], y);
        }
    } else if a.len() == 0 && b.len() == 0 {
        assert(a =~= b);
    }
}

pub proof fn lemma_lt_trans(a: Seq<char>, b: Seq<char>, c: Seq<char>)
    requires
        str_lt(a, b),
        str_lt(b, c),
    ensures
        str_lt(a, c),
    decreases a.len(),
{
    if a.len() > 0 && b.len() > 0 && c.len() > 0 && a[0] == b[0] && b[0] == c[0] {
        lemma_lt_trans(a.drop_first(), b.drop_first(), c.drop_first());
    }
}

/// Two strictly increasing lists with the same strings are the same list.
pub proof fn lemma_sorted_same(a: Seq<Seq<char>>, b: Seq<Seq<char>>)
    requires
        sorted_strict(a),
        sorted_strict(b),
        forall|x: Seq<char>| a.contains(x) <==> b.contains(x),
    ensures
        a == b,
    decreases a.len(),
{
    if a.len() > 0 && b.len() > 0 {
        let x = a[0];
        let y = b[0];
        if x != y {
            lemma_lt_total(x, y);
            if str_lt(x, y) {
                assert(a.contains(x));
                assert(b.contains(x));
                let k = choose|k: int| 0 <= k < b.len() && b[k] == x;
                assert(k != 0);
                assert(str_lt(y, x));
                lemma_lt_asymmetric(x, y);
            } else {
                assert(b.contains(y));
                assert(a.contains(y));
                let j = choose|j: int| 0 <= j < a.len() && a[j] == y;
                assert(j != 0);
                assert(str_lt(x, y));
                lemma_lt_asymmetric(y, x);
            }
        }
        assert forall|z: Seq<char>| a.drop_first().contains(z) implies b.drop_first().contains(
            z,
        ) by {
            let j = choose|j: int| 0 <= j < a.drop_first().len() && a.drop_first()[j] == z;
            assert(str_lt(a[0], a[j + 1]));
            assert(a[j + 1] == z);
            assert(a.contains(z));
            assert(b.contains(z));
            let k = choose|k: int| 0 <= k < b.len() && b[k] == z;
            if k == 0 {
                lemma_lt_irreflexive(z);
            } else {
                assert(b.drop_first()[k - 1] == z);
            }
        }
        assert forall|z: Seq<char>| b.drop_first().contains(z) implies a.drop_first().contains(
            z,
        ) by {
            let k = choose|k: int| 0 <= k < b.drop_first().len() && b.drop_first()[k] == z;
            assert(str_lt(b[0], b[k + 1]));
            assert(b[k + 1] == z);
            assert(b.contains(z));
            assert(a.contains(z));
            let j = choose|j: int| 0 <= j < a.len() && a[j] == z;
            if j == 0 {
                lemma_lt_irreflexive(z);
            } else {
                assert(a.drop_first()[j - 1] == z);
            }
        }
        lemma_sorted_same(a.drop_first(), b.drop_first());
        assert(a =~= seq![x] + a.drop_first());
        assert(b =~= seq![y] + b.drop_first());
    } else if a.len() > 0 {
        assert(a.contains(a[0]));
    } else if b.len() > 0 {
        assert(b.contains(b[0]));
    } else {
        assert(a =~= b);
    }
}

/// Whether `a` comes before `b`.
pub fn less_than(a: &String, b: &String) -> (r: bool)
    ensures
        r == str_lt(a@, b@),
{
    let x = crate::text::chars_of(a.as_str());
    let y = crate::text::chars_of(b.as_str());
    let mut i: usize = 0;
    assert(x@.skip(0) =~= x@ && y@.skip(0) =~= y@);
    while i < x.len() && i < y.len() && x[i] == y[i]
        invariant
            i <= x@.len(),
            i <= y@.len(),
            str_lt(a@, b@) == str_lt(x@.skip(i as int), y@.skip(i as int)),
        decreases x.len() - i,
    {
        assert(x@.skip(i as int).drop_first() =~= x@.skip(i + 1));
        assert(y@.skip(i as int).drop_first() =~= y@.skip(i + 1));
        i = i + 1;
    }
    if i == x.len() {
        i < y.len()
    } else if i == y.len() {
        false
    } else {
        assert(x@.skip(i as int)[0] == x@[i as int]);
        assert(y@.skip(i as int)[0] == y@[i as int]);
        (x[i] as u32) < (y[i] as u32)
    }
}

/// Puts `s` into the strictly increasing list `v`, unless it is there already.
pub fn insert_sorted(v: &mut Vec<String>, s: String)
    requires
        sorted_strict(views(old(v)@)),
    ensures
        sorted_strict(views(final(v)@)),
        forall|x: Seq<char>|
            views(final(v)@).contains(x) <==> (views(old(v)@).contains(x) || x == s@),
{
    let ghost o = views(v@);
    let mut p: usize = 0;
    while p < v.len() && less_than(&v[p], &s)
        invariant
            p <= v@.len(),
            o == views(v@),
            forall|j: int| 0 <= j < p ==> str_lt(o[j], s@),
        decreases v.len() - p,
    {
        p = p + 1;
    }
    if p < v.len() && v[p] == s {
        assert(o[p as int] == s@);
        return;
    }
    proof {
        if p < o.len() {
            assert(o[p as int] != s@);
            lemma_lt_total(o[p as int], s@);
        }
    }
    let ghost sv = s@;
    v.insert(p, s);
    proof {
        let n = views(v@);
        assert(n =~= o.insert(p as int, sv));
        assert forall|i: int, j: int| 0 <= i < j < n.len() implies str_lt(n[i], n[j]) by {
            if j < p {
                assert(n[i] == o[i] && n[j] == o[j]);
            } else if j == p {
                assert(n[i] == o[i] && n[j] == sv);
            } else if i < p {
                assert(n[i] == o[i] && n[j] == o[j - 1]);
            } else if i == p {
                assert(n[i] == sv && n[j] == o[j - 1]);
                if j - 1 > p {
                    lemma_lt_trans(sv, o[p as int], o[j - 1]);
                }
            } else {
                assert(n[i] == o[i - 1] && n[j] == o[j - 1]);
            }
        }
        assert forall|x: Seq<char>| n.contains(x) <==> (o.contains(x) || x == sv) by {
            if n.contains(x) {
                let k = choose|k: int| 0 <= k < n.len() && n[k] == x;
                if k < p {
                    assert(o[k] == x);
                } else if k > p {
                    assert(o[k - 1] == x);
                }
            }
            if o.contains(x) {
                let k = choose|k: int| 0 <= k < o.len() && o[k] == x;
                if k < p {
                    assert(n[k] == x);
                } else {
                    assert(n[k + 1] == x);
                }
            }
            if x == sv {
                assert(n[p as int] == x);
            }
        }
    }
}

} // verus!
