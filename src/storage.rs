//! The registry's text form: one `<path>:<marker>` line per row, the marker
//! a decimal count or `S` for a static module. Reading skips blank lines,
//! `#` comments and lines of another shape; writing and reading back gives
//! the same rows.

use vstd::prelude::*;
use crate::registry::{
    has_row, lemma_row_index_range, lemma_rows_ops_wf, rows_set, rows_view, rows_wf, set_row,
    valid_count, Rows,
};
use crate::text::{
    chars_of, find_char, first_of, is_ws, lemma_end_non_ws_is, lemma_first_non_ws_is,
    lemma_first_of_is, lemma_first_of_range, slice_string, split_on, trim, trim_bounds,
};

verus! {

/// A decimal digit.
pub open spec fn is_digit(c: char) -> bool {
    c == '0' || c == '1' || c == '2' || c == '3' || c == '4' || c == '5' || c == '6' || c == '7'
        || c == '8' || c == '9'
}

/// The value of a decimal digit.
pub open spec fn digit_value(c: char) -> int {
    if c == '1' {
        1
    } else if c == '2' {
        2
    } else if c == '3' {
        3
    } else if c == '4' {
        4
    } else if c == '5' {
        5
    } else if c == '6' {
        6
    } else if c == '7' {
        7
    } else if c == '8' {
        8
    } else if c == '9' {
        9
    } else {
        0
    }
}

/// The digit of a value below ten.
pub open spec fn digit_char(d: int) -> char {
    if d == 1 {
        '1'
    } else if d == 2 {
        '2'
    } else if d == 3 {
        '3'
    } else if d == 4 {
        '4'
    } else if d == 5 {
        '5'
    } else if d == 6 {
        '6'
    } else if d == 7 {
        '7'
    } else if d == 8 {
        '8'
    } else if d == 9 {
        '9'
    } else {
        '0'
    }
}

/// Every character is a decimal digit.
pub open spec fn all_digits(s: Seq<char>) -> bool {
    forall|i: int| 0 <= i < s.len() ==> is_digit(#[trigger] s[i])
}

/// The value of a string of decimal digits.
pub open spec fn digits_value(s: Seq<char>) -> int
    decreases s.len(),
{
    if s.len() == 0 {
        0
    } else {
        digits_value(s.drop_last()) * 10 + digit_value(s.last())
    }
}

/// `n` in decimal, without leading zeros.
pub open spec fn decimal(n: nat) -> Seq<char>
    decreases n,
{
    if n < 10 {
        seq![digit_char(n as int)]
    } else {
        decimal(n / 10).push(digit_char((n % 10) as int))
    }
}

/// The counter that a marker stands for: `S` is the static mark; else a
/// decimal count, which may carry a `+` sign.
pub open spec fn parse_marker(m: Seq<char>) -> Option<int> {
    if m == seq!['S'] {
        Some(-1)
    } else if m.len() > 0 && m[0] == '+' {
        count_value(m.drop_first())
    } else {
        count_value(m)
    }
}

/// The count that a string of decimal digits stands for: it must be
/// positive and fit the counter type.
pub open spec fn count_value(d: Seq<char>) -> Option<int> {
    if d.len() > 0 && all_digits(d) && 0 < digits_value(d) <= i16::MAX {
        Some(digits_value(d))
    } else {
        None
    }
}

/// One line of the registry, trimmed: nothing for a blank line or a `#`
/// comment; else exactly one colon between the path and a valid marker.
pub open spec fn parse_reg_line(line: Seq<char>) -> Option<(Seq<char>, int)> {
    let t = trim(line);
    if t.len() == 0 || t[0] == '#' {
        None
    } else {
        let parts = split_on(t, ':');
        if parts.len() != 2 {
            None
        } else {
            match parse_marker(parts[1]) {
                Some(c) => Some((parts[0], c)),
                None => None,
            }
        }
    }
}

/// The rows that a sequence of lines describes; a later line for the same
/// module replaces the earlier one.
pub open spec fn rows_of_lines(lines: Seq<Seq<char>>) -> Rows
    decreases lines.len(),
{
    if lines.len() == 0 {
        Seq::empty()
    } else {
        let r = rows_of_lines(lines.drop_last());
        match parse_reg_line(lines.last()) {
            Some(e) => rows_set(r, e.0, e.1),
            None => r,
        }
    }
}

/// The rows that the registry text describes.
pub open spec fn parse_registry(text: Seq<char>) -> Rows {
    rows_of_lines(split_on(text, '\n'))
}

/// The marker of a counter: `S` for the static mark, else the count.
pub open spec fn marker_text(c: int) -> Seq<char> {
    if c < 0 {
        seq!['S']
    } else {
        decimal(c as nat)
    }
}

/// The line of one row, without its line end.
pub open spec fn line_of(row: (Seq<char>, int)) -> Seq<char> {
    row.0 + seq![':'] + marker_text(row.1)
}

/// The registry text of the rows: each row's line, each ended by a newline.
pub open spec fn render(r: Rows) -> Seq<char>
    decreases r.len(),
{
    if r.len() == 0 {
        Seq::empty()
    } else {
        line_of(r[0]) + seq!['\n'] + render(r.drop_first())
    }
}

/// A path that a line can hold and give back: no colon, no newline, and
/// neither whitespace nor `#` in front.
pub open spec fn storable_path(k: Seq<char>) -> bool {
    &&& !k.contains(':')
    &&& !k.contains('\n')
    &&& k.len() > 0 ==> !is_ws(k[0]) && k[0] != '#'
}

pub proof fn lemma_split_nonempty(s: Seq<char>, c: char)
    ensures
        split_on(s, c).len() >= 1,
    decreases s.len(),
{
    let k = first_of(s, c);
    lemma_first_of_range(s, c);
    if 0 <= k < s.len() {
        lemma_split_nonempty(s.skip(k + 1), c);
    }
}

pub proof fn lemma_decimal(n: nat)
    ensures
        decimal(n).len() > 0,
        all_digits(decimal(n)),
        digits_value(decimal(n)) == n,
        decimal(n) != seq!['S'],
    decreases n,
{
    if n >= 10 {
        lemma_decimal(n / 10);
        let d = decimal(n);
        let q = n / 10;
        let m = (n % 10) as int;
        assert(d.drop_last() =~= decimal(q));
        assert forall|i: int| 0 <= i < d.len() implies is_digit(#[trigger] d[i]) by {
            if i < d.len() - 1 {
                assert(d[i] == decimal(q)[i]);
            }
        }
        assert(digit_value(digit_char(m)) == m);
        assert(d.last() == digit_char(m));
        assert(digits_value(d) == digits_value(decimal(q)) * 10 + m);
        assert(n == q * 10 + m);
        assert(d.len() >= 2);
    } else {
        let d = decimal(n);
        assert(d.drop_last() =~= Seq::<char>::empty());
        assert(digit_value(digit_char(n as int)) == n);
        assert(is_digit(d[0]));
        assert(digits_value(d.drop_last()) == 0);
        assert(d.last() == digit_char(n as int));
    }
}

/// A digit's character is not whitespace, a colon or a newline.
proof fn lemma_marker_chars(c: int)
    requires
        valid_count(c),
    ensures
        marker_text(c).len() > 0,
        !marker_text(c).contains(':'),
        !marker_text(c).contains('\n'),
        !is_ws(marker_text(c).last()),
        parse_marker(marker_text(c)) == Some(c),
{
    if c > 0 {
        lemma_decimal(c as nat);
        let m = marker_text(c);
        assert(is_digit(m[m.len() - 1]));
        assert forall|i: int| 0 <= i < m.len() implies m[i] != ':' && m[i] != '\n' by {
            assert(is_digit(m[i]));
        }
    }
}

/// The line of a storable row reads back as that row.
pub proof fn lemma_line_round_trip(row: (Seq<char>, int))
    requires
        storable_path(row.0),
        valid_count(row.1),
    ensures
        parse_reg_line(line_of(row)) == Some(row),
        !line_of(row).contains('\n'),
{
    let k = row.0;
    let m = marker_text(row.1);
    let l = line_of(row);
    lemma_marker_chars(row.1);
    assert(l[k.len() as int] == ':');
    assert(!is_ws(l[0])) by {
        if k.len() > 0 {
            assert(l[0] == k[0]);
        }
    }
    assert(l.last() == m.last());
    lemma_first_non_ws_is(l, 0);
    lemma_end_non_ws_is(l, l.len() as int);
    assert(trim(l) =~= l);
    assert(l[0] != '#') by {
        if k.len() > 0 {
            assert(l[0] == k[0]);
        }
    }
    assert forall|j: int| 0 <= j < k.len() implies l[j] != ':' by {
        assert(l[j] == k[j]);
    }
    lemma_first_of_is(l, ':', k.len() as int);
    assert(l.take(k.len() as int) =~= k);
    assert(l.skip(k.len() as int + 1) =~= m);
    lemma_first_of_is(m, ':', m.len() as int);
    assert(split_on(m, ':') == seq![m]);
    assert(split_on(l, ':') =~= seq![k, m]);
    assert forall|j: int| 0 <= j < l.len() implies l[j] != '\n' by {
        if j < k.len() {
            assert(l[j] == k[j]);
        } else if j > k.len() {
            assert(l[j] == m[j - k.len() - 1]);
        }
    }
}

/// The rendered text splits into the rows' lines and one empty piece.
proof fn lemma_split_render(r: Rows)
    requires
        forall|i: int| 0 <= i < r.len() ==> !(#[trigger] line_of(r[i])).contains('\n'),
    ensures
        split_on(render(r), '\n') == r.map_values(|row: (Seq<char>, int)| line_of(row)).push(
            Seq::<char>::empty(),
        ),
    decreases r.len(),
{
    let lines = r.map_values(|row: (Seq<char>, int)| line_of(row));
    if r.len() == 0 {
        assert(split_on(Seq::<char>::empty(), '\n') == seq![Seq::<char>::empty()]);
        assert(lines.push(Seq::<char>::empty()) =~= seq![Seq::<char>::empty()]);
    } else {
        let t = r.drop_first();
        assert forall|i: int| 0 <= i < t.len() implies !(#[trigger] line_of(t[i])).contains('\n') by {
            assert(t[i] == r[i + 1]);
        }
        lemma_split_render(t);
        let l0 = line_of(r[0]);
        let s = render(r);
        assert(s == l0 + seq!['\n'] + render(t));
        assert forall|j: int| 0 <= j < l0.len() implies s[j] != '\n' by {
            assert(s[j] == l0[j]);
        }
        lemma_first_of_is(s, '\n', l0.len() as int);
        assert(s.take(l0.len() as int) =~= l0);
        assert(s.skip(l0.len() as int + 1) =~= render(t));
        let tl = t.map_values(|row: (Seq<char>, int)| line_of(row));
        assert(lines.push(Seq::<char>::empty()) =~= seq![l0] + tl.push(Seq::<char>::empty()));
    }
}

/// Rows with distinct modules, read line by line, are rebuilt as they were.
proof fn lemma_rows_of_own_lines(r: Rows)
    requires
        rows_wf(r),
        forall|i: int| 0 <= i < r.len() ==> storable_path(#[trigger] r[i].0),
    ensures
        rows_of_lines(r.map_values(|row: (Seq<char>, int)| line_of(row))) == r,
    decreases r.len(),
{
    let lines = r.map_values(|row: (Seq<char>, int)| line_of(row));
    if r.len() == 0 {
        assert(lines =~= Seq::<Seq<char>>::empty());
    } else {
        let d = r.drop_last();
        assert forall|i: int, j: int| 0 <= i < j < d.len() implies d[i].0 != d[j].0 by {
            assert(d[i] == r[i] && d[j] == r[j]);
        }
        assert forall|i: int| 0 <= i < d.len() implies valid_count(#[trigger] d[i].1) by {
            assert(d[i] == r[i]);
        }
        assert forall|i: int| 0 <= i < d.len() implies storable_path(#[trigger] d[i].0) by {
            assert(d[i] == r[i]);
        }
        lemma_rows_of_own_lines(d);
        assert(lines.drop_last() =~= d.map_values(|row: (Seq<char>, int)| line_of(row)));
        let last = r[r.len() - 1];
        assert(valid_count(last.1));
        lemma_line_round_trip(last);
        lemma_row_index_range(d, last.0);
        assert forall|j: int| 0 <= j < d.len() implies d[j].0 != last.0 by {
            assert(d[j] == r[j]);
        }
        crate::registry::lemma_row_index_is(d, last.0, d.len() as int);
        assert(!has_row(d, last.0));
        assert(d.push((last.0, last.1)) =~= r);
    }
}

/// What `save` writes, `load` reads back: the same rows, static ones static
/// and counts exact, for rows whose paths a line can hold.
pub proof fn law_save_load_round_trip(r: Rows)
    requires
        rows_wf(r),
        forall|i: int| 0 <= i < r.len() ==> storable_path(#[trigger] r[i].0),
    ensures
        parse_registry(render(r)) == r,
{
    let lines = r.map_values(|row: (Seq<char>, int)| line_of(row));
    assert forall|i: int| 0 <= i < r.len() implies !(#[trigger] line_of(r[i])).contains('\n') by {
        assert(valid_count(r[i].1));
        lemma_line_round_trip(r[i]);
    }
    lemma_split_render(r);
    let all = lines.push(Seq::<char>::empty());
    assert(all.drop_last() =~= lines);
    assert(trim(Seq::<char>::empty()).len() == 0);
    assert(parse_reg_line(Seq::<char>::empty()) is None);
    lemma_rows_of_own_lines(r);
}

/// Digits of a string of digits never say less than those of its prefix.
proof fn lemma_digits_mono(s: Seq<char>, i: int)
    requires
        all_digits(s),
        0 <= i <= s.len(),
    ensures
        0 <= digits_value(s.take(i)) <= digits_value(s),
    decreases s.len(),
{
    if i == s.len() {
        assert(s.take(i) =~= s);
        lemma_digits_nonneg(s);
    } else {
        let d = s.drop_last();
        assert forall|j: int| 0 <= j < d.len() implies is_digit(#[trigger] d[j]) by {
            assert(d[j] == s[j]);
        }
        lemma_digits_mono(d, i);
        assert(d.take(i) =~= s.take(i));
        lemma_digits_nonneg(d);
    }
}

proof fn lemma_digits_nonneg(s: Seq<char>)
    ensures
        digits_value(s) >= 0,
    decreases s.len(),
{
    if s.len() > 0 {
        lemma_digits_nonneg(s.drop_last());
    }
}

/// The value of a digit character, if it is one.
fn digit_of(c: char) -> (r: Option<i32>)
    ensures
        r matches Some(d) ==> is_digit(c) && d == digit_value(c),
        r is None ==> !is_digit(c),
{
    match c {
        '0' => Some(0),
        '1' => Some(1),
        '2' => Some(2),
        '3' => Some(3),
        '4' => Some(4),
        '5' => Some(5),
        '6' => Some(6),
        '7' => Some(7),
        '8' => Some(8),
        '9' => Some(9),
        _ => None,
    }
}

/// The character of a digit below ten.
fn digit_to_char(d: u16) -> (r: char)
    requires
        d < 10,
    ensures
        r == digit_char(d as int),
{
    match d {
        1 => '1',
        2 => '2',
        3 => '3',
        4 => '4',
        5 => '5',
        6 => '6',
        7 => '7',
        8 => '8',
        9 => '9',
        _ => '0',
    }
}

/// `n` in decimal.
fn decimal_chars(n: u16) -> (r: Vec<char>)
    ensures
        r@ == decimal(n as nat),
    decreases n,
{
    if n < 10 {
        let mut v: Vec<char> = Vec::new();
        v.push(digit_to_char(n));
        assert(v@ =~= seq![digit_char(n as int)]);
        v
    } else {
        let mut v = decimal_chars(n / 10);
        v.push(digit_to_char(n % 10));
        v
    }
}

/// The count that the digits `v[lo..hi]` stand for (see `count_value`).
fn count_chars(v: &Vec<char>, lo: usize, hi: usize) -> (r: Option<i16>)
    requires
        lo <= hi <= v@.len(),
    ensures
        r matches Some(c) ==> count_value(v@.subrange(lo as int, hi as int)) == Some(c as int),
        r is None ==> count_value(v@.subrange(lo as int, hi as int)) is None,
{
    let ghost m = v@.subrange(lo as int, hi as int);
    if lo == hi {
        return None;
    }
    let mut acc: i32 = 0;
    let mut i = lo;
    assert(m.take(0) =~= Seq::<char>::empty());
    while i < hi
        invariant
            lo <= i <= hi <= v@.len(),
            m == v@.subrange(lo as int, hi as int),
            all_digits(m.take(i - lo)),
            acc == digits_value(m.take(i - lo)),
            0 <= acc <= i16::MAX,
        decreases hi - i,
    {
        let ghost p = m.take(i - lo);
        let ghost grown = m.take(i - lo + 1);
        assert(grown.drop_last() =~= p);
        assert(grown.last() == v@[i as int]);
        match digit_of(v[i]) {
            None => {
                assert(!all_digits(m)) by {
                    assert(m[i - lo] == v@[i as int]);
                }
                return None;
            },
            Some(d) => {
                acc = acc * 10 + d;
                assert(all_digits(grown)) by {
                    assert forall|j: int| 0 <= j < grown.len() implies is_digit(#[trigger] grown[j]) by {
                        if j < p.len() {
                            assert(grown[j] == p[j]);
                        }
                    }
                }
                if acc > 32767 {
                    proof {
                        if all_digits(m) {
                            lemma_digits_mono(m, i - lo + 1);
                        }
                    }
                    return None;
                }
            },
        }
        i = i + 1;
    }
    assert(m.take(hi - lo) =~= m);
    if acc == 0 {
        return None;
    }
    Some(acc as i16)
}

/// The counter that the marker `v[lo..hi]` stands for (see `parse_marker`).
pub fn marker_value(v: &Vec<char>, lo: usize, hi: usize) -> (r: Option<i16>)
    requires
        lo <= hi <= v@.len(),
    ensures
        r matches Some(c) ==> parse_marker(v@.subrange(lo as int, hi as int)) == Some(c as int),
        r is None ==> parse_marker(v@.subrange(lo as int, hi as int)) is None,
{
    let ghost m = v@.subrange(lo as int, hi as int);
    if hi - lo == 1 && v[lo] == 'S' {
        assert(m =~= seq!['S']);
        return Some(-1);
    }
    assert(m != seq!['S']) by {
        if m == seq!['S'] {
            assert(seq!['S'].len() == 1 && seq!['S'][0] == 'S');
            assert(hi - lo == 1);
            assert(m[0] == v@[lo as int]);
        }
    }
    if lo < hi && v[lo] == '+' {
        assert(m[0] == '+');
        assert(m.drop_first() =~= v@.subrange(lo + 1, hi as int));
        return count_chars(v, lo + 1, hi);
    }
    assert(m.len() > 0 ==> m[0] == v@[lo as int]);
    count_chars(v, lo, hi)
}

/// One registry line, `v[lo..hi]`, read (see `parse_reg_line`).
fn reg_line(v: &Vec<char>, lo: usize, hi: usize) -> (r: Option<(String, i16)>)
    requires
        lo <= hi <= v@.len(),
    ensures
        r matches Some(e) ==> parse_reg_line(v@.subrange(lo as int, hi as int)) == Some(
            (e.0@, e.1 as int),
        ),
        r is None ==> parse_reg_line(v@.subrange(lo as int, hi as int)) is None,
{
    let (a, b) = trim_bounds(v, lo, hi);
    let ghost t = v@.subrange(a as int, b as int);
    if a == b {
        return None;
    }
    assert(t[0] == v@[a as int]);
    if v[a] == '#' {
        return None;
    }
    let k = find_char(v, a, b, ':');
    proof {
        lemma_first_of_range(t, ':');
    }
    if k == b {
        assert(split_on(t, ':') == seq![t]);
        return None;
    }
    let k2 = find_char(v, k + 1, b, ':');
    let ghost rest = v@.subrange(k + 1, b as int);
    assert(t.skip(k - a + 1) =~= rest);
    assert(t.take(k - a) =~= v@.subrange(a as int, k as int));
    assert(split_on(t, ':') == seq![t.take(k - a)] + split_on(rest, ':'));
    proof {
        lemma_first_of_range(rest, ':');
    }
    if k2 < b {
        proof {
            lemma_split_nonempty(rest.skip(k2 - k), ':');
            assert(split_on(rest, ':') == seq![rest.take(k2 - k - 1)] + split_on(
                rest.skip(k2 - k),
                ':',
            ));
        }
        return None;
    }
    assert(split_on(rest, ':') == seq![rest]);
    assert(split_on(t, ':') =~= seq![v@.subrange(a as int, k as int), rest]);
    match marker_value(v, k + 1, b) {
        Some(c) => Some((slice_string(v, a, k), c)),
        None => None,
    }
}

/// Reads the registry text into its rows (see `parse_registry`).
pub fn parse_registry_text(text: &str) -> (r: Vec<(String, i16)>)
    ensures
        rows_view(r@) == parse_registry(text@),
        rows_wf(rows_view(r@)),
{
    let v = chars_of(text);
    let n = v.len();
    let mut out: Vec<(String, i16)> = Vec::new();
    let ghost mut done: Seq<Seq<char>> = Seq::empty();
    let mut i: usize = 0;
    assert(v@.subrange(0, n as int) =~= v@);
    assert(Seq::<Seq<char>>::empty() + split_on(v@, '\n') =~= split_on(v@, '\n'));
    assert(rows_view(out@) =~= Seq::<(Seq<char>, int)>::empty());
    loop
        invariant_except_break
            i <= n,
            n == v@.len(),
            done + split_on(v@.subrange(i as int, n as int), '\n') == split_on(v@, '\n'),
            rows_view(out@) == rows_of_lines(done),
            rows_wf(rows_view(out@)),
        ensures
            rows_view(out@) == rows_of_lines(split_on(v@, '\n')),
            rows_wf(rows_view(out@)),
        decreases n - i,
    {
        let ghost s = v@.subrange(i as int, n as int);
        let j = find_char(&v, i, n, '\n');
        let ghost line = v@.subrange(i as int, j as int);
        proof {
            lemma_first_of_range(s, '\n');
            assert(s.take(j - i) =~= line);
        }
        let ghost before = rows_view(out@);
        match reg_line(&v, i, j) {
            Some(e) => {
                proof {
                    lemma_rows_ops_wf(before, e.0@, e.1 as int);
                }
                set_row(&mut out, e.0, e.1);
            },
            None => {},
        }
        let ghost old_done = done;
        proof {
            assert(done.push(line).drop_last() =~= done);
            done = done.push(line);
        }
        if j == n {
            assert(s =~= line);
            assert(split_on(s, '\n') == seq![s]);
            assert(old_done + seq![s] =~= done);
            break;
        }
        proof {
            assert(s.skip(j - i + 1) =~= v@.subrange(j + 1, n as int));
            assert(split_on(s, '\n') == seq![line] + split_on(v@.subrange(j + 1, n as int), '\n'));
            assert(old_done + (seq![line] + split_on(v@.subrange(j + 1, n as int), '\n')) =~= done
                + split_on(v@.subrange(j + 1, n as int), '\n'));
        }
        i = j + 1;
    }
    out
}

/// Appends the characters of `s` to `out`.
fn push_str(out: &mut Vec<char>, s: &str)
    ensures
        final(out)@ == old(out)@ + s@,
{
    let v = chars_of(s);
    let mut i: usize = 0;
    let ghost start = out@;
    while i < v.len()
        invariant
            i <= v@.len(),
            v@ == s@,
            out@ == start + v@.take(i as int),
        decreases v.len() - i,
    {
        out.push(v[i]);
        i = i + 1;
        assert(out@ =~= start + v@.take(i as int));
    }
    assert(v@.take(v@.len() as int) =~= v@);
}

/// The registry text of the rows (see `render`).
pub fn render_rows(d: &Vec<(String, i16)>) -> (r: String)
    requires
        rows_wf(rows_view(d@)),
    ensures
        r@ == render(rows_view(d@)),
{
    let ghost rv = rows_view(d@);
    let mut out: Vec<char> = Vec::new();
    let mut i: usize = 0;
    assert(rv.skip(0) =~= rv);
    assert(out@ + render(rv.skip(0)) =~= render(rv));
    while i < d.len()
        invariant
            i <= d@.len(),
            rv == rows_view(d@),
            rows_wf(rv),
            out@ + render(rv.skip(i as int)) == render(rv),
        decreases d.len() - i,
    {
        let ghost before = out@;
        let c = d[i].1;
        assert(rv[i as int] == (d@[i as int].0@, c as int));
        assert(valid_count(rv[i as int].1));
        push_str(&mut out, d[i].0.as_str());
        out.push(':');
        if c < 0 {
            out.push('S');
        } else {
            let digits = decimal_chars(c as u16);
            let mut j: usize = 0;
            let ghost mid = out@;
            while j < digits.len()
                invariant
                    j <= digits@.len(),
                    out@ == mid + digits@.take(j as int),
                decreases digits.len() - j,
            {
                out.push(digits[j]);
                j = j + 1;
                assert(out@ =~= mid + digits@.take(j as int));
            }
            assert(digits@.take(digits@.len() as int) =~= digits@);
        }
        out.push('\n');
        proof {
            let sk = rv.skip(i as int);
            assert(sk[0] == rv[i as int]);
            assert(sk.drop_first() =~= rv.skip(i + 1));
            assert(out@ =~= before + line_of(rv[i as int]) + seq!['\n']);
            assert(render(sk) == line_of(sk[0]) + seq!['\n'] + render(sk.drop_first()));
            assert(out@ + render(rv.skip(i + 1)) =~= before + render(sk));
        }
        i = i + 1;
    }
    assert(rv.skip(d@.len() as int) =~= Seq::<(Seq<char>, int)>::empty());
    assert(out@ + render(rv.skip(i as int)) =~= out@);
    crate::text::string_from(&out)
}

} // verus!
