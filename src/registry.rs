//! The registry of wanted modules: each module path with a reference count,
//! or marked static (kept for good). A module whose count falls to zero
//! leaves the registry; what no entry needs is then free to go from disk.
//!
//! On disk the registry is a text of `<relative/module/path>:<marker>` lines,
//! the marker being a count or `S` for a static module:
//!
//! ```text
//! kernel/drivers/net/tap.ko:S
//! kernel/drivers/acpi/acpi_pad.ko:1
//! ```

use vstd::prelude::*;
use crate::error::ModError;
use crate::kernel::KernelInfo;
use crate::order::{insert_sorted, sorted_strict};
use crate::storage::{parse_registry, parse_registry_text, render, render_rows};
use crate::text::{chars_of, concat_chars, string_from, views};

verus! {

/// The counter that marks a static module.
pub const STATIC_MARK: i16 = -1;

/// The registry as the contracts see it: `(module path, counter)` rows in
/// the order in which the modules came in.
pub type Rows = Seq<(Seq<char>, int)>;

/// The view of stored rows.
pub open spec fn rows_view(v: Seq<(String, i16)>) -> Rows {
    v.map_values(|e: (String, i16)| (e.0@, e.1 as int))
}

/// Index of the row of `k`, or `r.len()`.
pub open spec fn row_index(r: Rows, k: Seq<char>) -> int
    decreases r.len(),
{
    if r.len() == 0 {
        0
    } else if r[0].0 == k {
        0
    } else {
        1 + row_index(r.drop_first(), k)
    }
}

/// `k` has a row.
pub open spec fn has_row(r: Rows, k: Seq<char>) -> bool {
    row_index(r, k) < r.len()
}

/// The counter of `k`, when it has a row.
pub open spec fn count_of(r: Rows, k: Seq<char>) -> Option<int> {
    if has_row(r, k) {
        Some(r[row_index(r, k)].1)
    } else {
        None
    }
}

/// A counter that may be kept: the static mark, or a positive count that
/// fits the counter type.
pub open spec fn valid_count(c: int) -> bool {
    c == -1 || (0 < c <= i16::MAX)
}

/// Each module has one row, and each counter is the static mark or a
/// positive count.
pub open spec fn rows_wf(r: Rows) -> bool {
    &&& forall|i: int, j: int| 0 <= i < j < r.len() ==> r[i].0 != r[j].0
    &&& forall|i: int| 0 <= i < r.len() ==> valid_count(#[trigger] r[i].1)
}

/// `r` with the counter of `k` set to `c`: in place when `k` has a row, as a
/// new last row otherwise.
pub open spec fn rows_set(r: Rows, k: Seq<char>, c: int) -> Rows {
    if has_row(r, k) {
        r.update(row_index(r, k), (k, c))
    } else {
        r.push((k, c))
    }
}

/// `r` without the row of `k`.
pub open spec fn rows_drop(r: Rows, k: Seq<char>) -> Rows {
    if has_row(r, k) {
        r.remove(row_index(r, k))
    } else {
        r
    }
}

/// The registry after `add(k, is_static)`: a new module comes in static or
/// with one reference; a counted module gains a reference; a static module
/// stays as it is.
pub open spec fn add_spec(r: Rows, k: Seq<char>, is_static: bool) -> Rows {
    match count_of(r, k) {
        None => rows_set(r, k, if is_static { -1 } else { 1 }),
        Some(c) => if c > 0 {
            rows_set(r, k, c + 1)
        } else {
            r
        },
    }
}

/// The registry after a `remove(k)` of a module that has a row: a counted
/// module loses a reference and leaves when none is left; a static module
/// stays as it is.
pub open spec fn remove_spec(r: Rows, k: Seq<char>) -> Rows {
    match count_of(r, k) {
        None => r,
        Some(c) => if c == 1 {
            rows_drop(r, k)
        } else if c > 1 {
            rows_set(r, k, c - 1)
        } else {
            r
        },
    }
}

pub proof fn lemma_row_index_range(r: Rows, k: Seq<char>)
    ensures
        0 <= row_index(r, k) <= r.len(),
        forall|j: int| 0 <= j < row_index(r, k) ==> r[j].0 != k,
        row_index(r, k) < r.len() ==> r[row_index(r, k)].0 == k,
    decreases r.len(),
{
    if r.len() > 0 && r[0].0 != k {
        lemma_row_index_range(r.drop_first(), k);
        assert forall|j: int| 0 <= j < row_index(r, k) implies r[j].0 != k by {
            if j > 0 {
                assert(r[j] == r.drop_first()[j - 1]);
            }
        }
    }
}

pub proof fn lemma_row_index_is(r: Rows, k: Seq<char>, i: int)
    requires
        0 <= i <= r.len(),
        forall|j: int| 0 <= j < i ==> r[j].0 != k,
        i == r.len() || r[i].0 == k,
    ensures
        row_index(r, k) == i,
    decreases i,
{
    if i > 0 {
        assert forall|j: int| 0 <= j < i - 1 implies r.drop_first()[j].0 != k by {
            assert(r.drop_first()[j] == r[j + 1]);
        }
        lemma_row_index_is(r.drop_first(), k, i - 1);
    }
}

/// In well-formed rows, a row is found under its own module.
pub proof fn lemma_row_found(r: Rows, i: int)
    requires
        rows_wf(r),
        0 <= i < r.len(),
    ensures
        row_index(r, r[i].0) == i,
{
    lemma_row_index_is(r, r[i].0, i);
}

/// Setting a valid counter, or dropping a row, keeps rows well formed.
pub proof fn lemma_rows_ops_wf(r: Rows, k: Seq<char>, c: int)
    requires
        rows_wf(r),
        valid_count(c),
    ensures
        rows_wf(rows_set(r, k, c)),
        rows_wf(rows_drop(r, k)),
{
    lemma_row_index_range(r, k);
    let d = rows_drop(r, k);
    if has_row(r, k) {
        let i = row_index(r, k);
        assert forall|a: int, b: int| 0 <= a < b < d.len() implies d[a].0 != d[b].0 by {
            let a2 = if a < i { a } else { a + 1 };
            let b2 = if b < i { b } else { b + 1 };
            assert(d[a] == r[a2] && d[b] == r[b2]);
        }
        assert forall|a: int| 0 <= a < d.len() implies valid_count(#[trigger] d[a].1) by {
            let a2 = if a < i { a } else { a + 1 };
            assert(d[a] == r[a2]);
        }
    }
}

/// Index of the row of `k` in `d`, or `d.len()`.
pub fn find_row_in(d: &Vec<(String, i16)>, k: &String) -> (r: usize)
    ensures
        r == row_index(rows_view(d@), k@),
{
    let ghost rs = rows_view(d@);
    let mut i: usize = 0;
    while i < d.len()
        invariant
            i <= d@.len(),
            rs == rows_view(d@),
            forall|j: int| 0 <= j < i ==> rs[j].0 != k@,
        decreases d.len() - i,
    {
        if d[i].0 == *k {
            proof {
                lemma_row_index_is(rs, k@, i as int);
            }
            return i;
        }
        i = i + 1;
    }
    proof {
        lemma_row_index_is(rs, k@, i as int);
    }
    i
}

/// Sets the counter of `k` in `d` (see `rows_set`).
pub fn set_row(d: &mut Vec<(String, i16)>, k: String, c: i16)
    ensures
        rows_view(final(d)@) == rows_set(rows_view(old(d)@), k@, c as int),
{
    let i = find_row_in(d, &k);
    let ghost rs = rows_view(d@);
    let ghost kv = k@;
    if i < d.len() {
        d.set(i, (k, c));
        assert(rows_view(d@) =~= rs.update(i as int, (kv, c as int)));
    } else {
        d.push((k, c));
        assert(rows_view(d@) =~= rs.push((kv, c as int)));
    }
}

/// A registry of wanted modules for one kernel.
pub struct ModList<'a> {
    modlist: Vec<(String, i16)>,
    kinfo: &'a KernelInfo,
}

impl<'a> ModList<'a> {
    /// The rows.
    pub closed spec fn rows(&self) -> Rows {
        rows_view(self.modlist@)
    }

    /// The kernel the registry belongs to.
    pub closed spec fn kernel(&self) -> &'a KernelInfo {
        self.kinfo
    }

    /// Each module has one row with a valid counter.
    pub open spec fn wf(&self) -> bool {
        rows_wf(self.rows())
    }

    /// The counter of `k`, when it has a row.
    pub open spec fn count(&self, k: Seq<char>) -> Option<int> {
        count_of(self.rows(), k)
    }

    /// The registry of `kinfo`'s modules, read from `stored`, the text of its
    /// file (empty when there is no file yet, on a first run). Lines of
    /// another shape than `<path>:<marker>` are skipped.
    pub fn new(kinfo: &'a KernelInfo, stored: &str) -> (r: ModList<'a>)
        ensures
            r.wf(),
            r.kernel() == kinfo,
            r.rows() == parse_registry(stored@),
    {
        ModList { modlist: parse_registry_text(stored), kinfo }
    }

    /// The kernel the registry belongs to.
    pub fn kernel_info(&self) -> (r: &'a KernelInfo)
        ensures
            r == self.kernel(),
    {
        self.kinfo
    }

    /// Where the registry file of the kernel lives.
    pub fn get_storage_path(&self) -> (r: String)
        ensures
            r@ == self.kernel().root_path() + "/modules.active"@,
    {
        let v = concat_chars(&chars_of(self.kinfo.get_kernel_path()), &chars_of("/modules.active"));
        string_from(&v)
    }

    /// The registry's text, to be written to its file: one line per row.
    pub fn save(&self) -> (r: String)
        requires
            self.wf(),
        ensures
            r@ == render(self.rows()),
    {
        render_rows(&self.modlist)
    }

    /// Index of the row of `k`, or the number of rows.
    fn find_row(&self, k: &String) -> (r: usize)
        ensures
            r == row_index(self.rows(), k@),
    {
        find_row_in(&self.modlist, k)
    }

    /// The counter of `name`, when it has a row.
    pub fn get_count(&self, name: &String) -> (r: Option<i16>)
        ensures
            match r {
                Some(c) => self.count(name@) == Some(c as int),
                None => self.count(name@) is None,
            },
    {
        let i = self.find_row(name);
        if i < self.modlist.len() {
            Some(self.modlist[i].1)
        } else {
            None
        }
    }

    /// Sets the counter of `k` (see `rows_set`).
    fn set_count(&mut self, k: String, c: i16)
        ensures
            final(self).rows() == rows_set(old(self).rows(), k@, c as int),
            final(self).kernel() == old(self).kernel(),
    {
        set_row(&mut self.modlist, k, c);
    }

    /// Registers one more dependent of the module `name`, without writing
    /// anything: a new module comes in static (`is_static`) or with one
    /// reference, a counted one gains a reference, and a static one stays as
    /// it is (a later `is_static` does not make a counted module static).
    pub fn add(&mut self, name: String, is_static: bool)
        requires
            old(self).wf(),
            old(self).count(name@) matches Some(c) ==> c < i16::MAX,
        ensures
            final(self).wf(),
            final(self).kernel() == old(self).kernel(),
            final(self).rows() == add_spec(old(self).rows(), name@, is_static),
    {
        let ghost rs = self.rows();
        proof {
            lemma_row_index_range(rs, name@);
        }
        let i = self.find_row(&name);
        if i < self.modlist.len() {
            let c = self.modlist[i].1;
            if c > 0 {
                proof {
                    lemma_rows_ops_wf(rs, name@, c + 1);
                }
                self.set_count(name, c + 1);
            }
        } else {
            let c: i16 = if is_static { STATIC_MARK } else { 1 };
            proof {
                lemma_rows_ops_wf(rs, name@, c as int);
            }
            self.set_count(name, c);
        }
    }

    /// Releases one reference to the module `name`, without writing anything:
    /// a counted module loses a reference and leaves the registry when none
    /// is left; a static module stays as it is, which is no error. A module
    /// with no row is `NotFound`, and nothing changes.
    pub fn remove(&mut self, name: String) -> (r: Result<(), ModError>)
        requires
            old(self).wf(),
        ensures
            final(self).wf(),
            final(self).kernel() == old(self).kernel(),
            final(self).rows() == remove_spec(old(self).rows(), name@),
            r is Err <==> old(self).count(name@) is None,
            r matches Err(e) ==> e == ModError::NotFound(name),
    {
        let ghost rs = self.rows();
        proof {
            lemma_row_index_range(rs, name@);
        }
        let i = self.find_row(&name);
        if i == self.modlist.len() {
            return Err(ModError::NotFound(name));
        }
        let c = self.modlist[i].1;
        if c == 1 {
            proof {
                lemma_rows_ops_wf(rs, name@, 1);
            }
            self.modlist.remove(i);
            assert(self.rows() =~= rs.remove(i as int));
        } else if c > 1 {
            proof {
                lemma_rows_ops_wf(rs, name@, c - 1);
            }
            self.set_count(name, c - 1);
        }
        Ok(())
    }

    /// The registered module paths, sorted.
    pub fn get_modules(&self) -> (r: Vec<String>)
        ensures
            sorted_strict(views(r@)),
            forall|x: Seq<char>| views(r@).contains(x) <==> has_row(self.rows(), x),
    {
        let ghost rs = self.rows();
        let mut out: Vec<String> = Vec::new();
        let mut i: usize = 0;
        while i < self.modlist.len()
            invariant
                i <= self.modlist@.len(),
                rs == self.rows(),
                sorted_strict(views(out@)),
                forall|x: Seq<char>|
                    views(out@).contains(x) <==> exists|j: int| 0 <= j < i && rs[j].0 == x,
            decreases self.modlist.len() - i,
        {
            let k = self.modlist[i].0.clone();
            assert(k@ == rs[i as int].0);
            insert_sorted(&mut out, k);
            proof {
                assert forall|x: Seq<char>| views(out@).contains(x) <==> exists|j: int|
                    0 <= j < i + 1 && rs[j].0 == x by {
                    if x == rs[i as int].0 {
                        assert(0 <= i < i + 1 && rs[i as int].0 == x);
                    }
                }
            }
            i = i + 1;
        }
        proof {
            assert forall|x: Seq<char>| views(out@).contains(x) <==> has_row(rs, x) by {
                lemma_row_index_range(rs, x);
                if has_row(rs, x) {
                    assert(rs[row_index(rs, x)].0 == x);
                }
            }
        }
        out
    }
}

/// Adding a module never lowers its counter; removing one never leaves a
/// negative count behind, only the static mark that was there.
pub proof fn law_counters_monotonic(r: Rows, k: Seq<char>, is_static: bool)
    requires
        rows_wf(r),
    ensures
        count_of(r, k) matches Some(c) ==> count_of(add_spec(r, k, is_static), k) matches Some(
            d,
        ) && d >= c,
        count_of(remove_spec(r, k), k) matches Some(d) ==> (d > 0 || count_of(r, k) == Some(d)),
{
    lemma_row_index_range(r, k);
    if has_row(r, k) {
        let i = row_index(r, k);
        let c = r[i].1;
        if c > 0 {
            lemma_row_index_is(r.update(i, (k, c + 1)), k, i);
            if c > 1 {
                lemma_row_index_is(r.update(i, (k, c - 1)), k, i);
            } else {
                lemma_rows_ops_wf(r, k, 1);
                let d = r.remove(i);
                assert forall|j: int| 0 <= j < d.len() implies d[j].0 != k by {
                    if j < i {
                        assert(d[j] == r[j]);
                    } else {
                        assert(d[j] == r[j + 1]);
                        lemma_row_found(r, j + 1);
                    }
                }
                lemma_row_index_range(d, k);
            }
        }
    }
}

/// A module added and then removed is back where it was: at its old counter,
/// or absent when it was absent and came in counted.
pub proof fn law_add_then_remove(r: Rows, k: Seq<char>, is_static: bool)
    requires
        rows_wf(r),
        count_of(r, k) matches Some(c) ==> c < i16::MAX,
        count_of(r, k) is None ==> !is_static,
    ensures
        count_of(remove_spec(add_spec(r, k, is_static), k), k) == count_of(r, k),
{
    lemma_row_index_range(r, k);
    if has_row(r, k) {
        let i = row_index(r, k);
        let c = r[i].1;
        if c > 0 {
            let a = r.update(i, (k, c + 1));
            lemma_row_index_is(a, k, i);
            lemma_row_index_is(a.update(i, (k, c)), k, i);
        }
    } else {
        let a = r.push((k, 1));
        lemma_row_index_is(a, k, r.len() as int);
        let d = a.remove(r.len() as int);
        assert(d =~= r);
    }
}

/// Removing a static module changes nothing and is no error.
pub proof fn law_static_immune(r: Rows, k: Seq<char>)
    requires
        count_of(r, k) matches Some(c) && c < 0,
    ensures
        remove_spec(r, k) == r,
{
}

} // verus!
