//! The uniform table model: ordered rows of string cells plus an optional
//! header, validated for header uniqueness and row-length consistency.

use vstd::prelude::*;

verus! {

/// The cells of one row as mathematical values: each `String` seen as its
/// sequence of characters.
pub open spec fn views_of(v: Seq<String>) -> Seq<Seq<char>> {
    v.map_values(|s: String| s@)
}

/// A whole row set as mathematical values.
pub open spec fn row_views(v: Seq<Vec<String>>) -> Seq<Seq<Seq<char>>> {
    v.map_values(|r: Vec<String>| views_of(r@))
}

/// The parsed in-memory representation of tabular data: rows of string cells
/// plus an optional header. An empty `header` means the table is header-less.
#[derive(Debug)]
pub struct Table {
    data: Vec<Vec<String>>,
    header: Vec<String>,
}

/// Everything that can go wrong while building or extending a table.
#[derive(Debug)]
pub enum TableError {
    EmptyHeader,
    DuplicateColumn(String),
    RowLengthMismatch { row_index: usize, row_len: usize, header_len: usize },
    InvalidRowIndex(usize),
    InvalidTableSize,
}

/// Whether the name at position `j` already occurred earlier in the header.
pub open spec fn dup_before(h: Seq<Seq<char>>, j: int) -> bool {
    exists|i: int| 0 <= i < j && h[i] == h[j]
}

/// The leftmost position at or after `j` whose name already occurred, or
/// `h.len()` if there is none.
pub open spec fn first_dup_from(h: Seq<Seq<char>>, j: int) -> int
    decreases h.len() - j,
{
    if j < 0 || j >= h.len() {
        h.len() as int
    } else if dup_before(h, j) {
        j
    } else {
        first_dup_from(h, j + 1)
    }
}

/// The leftmost header position whose name already occurred, or `h.len()`
/// when all names are distinct.
pub open spec fn first_dup(h: Seq<Seq<char>>) -> int {
    first_dup_from(h, 0)
}

pub open spec fn distinct_names(h: Seq<Seq<char>>) -> bool {
    forall|i: int, j: int| 0 <= i < j < h.len() ==> h[i] != h[j]
}

/// The least row index at or after `j` whose length differs from `w`, or
/// `d.len()` if every such row has length `w`.
pub open spec fn first_bad_row_from(d: Seq<Seq<Seq<char>>>, w: int, j: int) -> int
    decreases d.len() - j,
{
    if j < 0 || j >= d.len() {
        d.len() as int
    } else if d[j].len() != w {
        j
    } else {
        first_bad_row_from(d, w, j + 1)
    }
}

/// The least row index whose length differs from `w`, or `d.len()`.
pub open spec fn first_bad_row(d: Seq<Seq<Seq<char>>>, w: int) -> int {
    first_bad_row_from(d, w, 0)
}

/// The position at or after `j` of the first header name equal to `name`,
/// or `h.len()` if there is none.
pub open spec fn col_index_from(h: Seq<Seq<char>>, name: Seq<char>, j: int) -> int
    decreases h.len() - j,
{
    if j < 0 || j >= h.len() {
        h.len() as int
    } else if h[j] == name {
        j
    } else {
        col_index_from(h, name, j + 1)
    }
}

/// The position of the first header name equal to `name`, or `h.len()`.
pub open spec fn col_index(h: Seq<Seq<char>>, name: Seq<char>) -> int {
    col_index_from(h, name, 0)
}

/// Exactly when building a table from `h` and `d` succeeds: a non-empty
/// header, no repeated name, and every row as wide as the header.
pub open spec fn construct_ok(h: Seq<Seq<char>>, d: Seq<Seq<Seq<char>>>) -> bool {
    &&& h.len() > 0
    &&& first_dup(h) == h.len()
    &&& first_bad_row(d, h.len() as int) == d.len()
}

proof fn lemma_first_dup_iff(h: Seq<Seq<char>>, j: int)
    requires
        0 <= j <= h.len(),
    ensures
        (first_dup_from(h, j) == h.len()) <==> (forall|t: int| j <= t < h.len() ==> !dup_before(
            h,
            t,
        )),
    decreases h.len() - j,
{
    if j < h.len() {
        lemma_first_dup_iff(h, j + 1);
        if dup_before(h, j) {
            assert(first_dup_from(h, j) == j);
        }
    }
}

proof fn lemma_first_bad_row_iff(d: Seq<Seq<Seq<char>>>, w: int, j: int)
    requires
        0 <= j <= d.len(),
    ensures
        (first_bad_row_from(d, w, j) == d.len()) <==> (forall|t: int| j <= t < d.len()
            ==> #[trigger] d[t].len() == w),
    decreases d.len() - j,
{
    if j < d.len() {
        lemma_first_bad_row_iff(d, w, j + 1);
    }
}

/// Building a table from a header and rows succeeds exactly when the header
/// is non-empty, its names are pairwise distinct, and every row is as wide
/// as the header.
pub proof fn lemma_construct_ok_iff(h: Seq<Seq<char>>, d: Seq<Seq<Seq<char>>>)
    ensures
        construct_ok(h, d) <==> (h.len() > 0 && distinct_names(h) && forall|i: int|
            0 <= i < d.len() ==> #[trigger] d[i].len() == h.len()),
{
    lemma_first_dup_iff(h, 0);
    lemma_first_bad_row_iff(d, h.len() as int, 0);
    if distinct_names(h) {
        assert forall|t: int| 0 <= t < h.len() implies !dup_before(h, t) by {
            if dup_before(h, t) {
                let i = choose|i: int| 0 <= i < t && h[i] == h[t];
                assert(false);
            }
        }
    }
    if forall|t: int| 0 <= t < h.len() ==> !dup_before(h, t) {
        assert forall|i: int, j: int| 0 <= i < j < h.len() implies h[i] != h[j] by {
            assert(!dup_before(h, j));
        }
    }
}

/// The full outcome of building a table from header `h` and rows `d`:
/// which error comes on which input, and what a successful table holds.
pub open spec fn construct_result_matches(
    h: Seq<Seq<char>>,
    d: Seq<Seq<Seq<char>>>,
    r: Result<Table, TableError>,
) -> bool {
    match r {
        Ok(t) => {
            &&& construct_ok(h, d)
            &&& t.header_names() == h
            &&& t.rows() == d
            &&& t.wf()
        },
        Err(e) => match e {
            TableError::EmptyHeader => h.len() == 0,
            TableError::DuplicateColumn(n) => {
                &&& h.len() > 0
                &&& first_dup(h) < h.len()
                &&& n@ == h[first_dup(h)]
            },
            TableError::RowLengthMismatch { row_index, row_len, header_len } => {
                &&& h.len() > 0
                &&& first_dup(h) == h.len()
                &&& first_bad_row(d, h.len() as int) < d.len()
                &&& row_index == first_bad_row(d, h.len() as int)
                &&& row_len == d[row_index as int].len()
                &&& header_len == h.len()
            },
            _ => false,
        },
    }
}

impl Table {
    /// The table's rows as mathematical values.
    pub closed spec fn rows(self) -> Seq<Seq<Seq<char>>> {
        row_views(self.data@)
    }

    /// The header's column names, in column order; empty when header-less.
    pub closed spec fn header_names(self) -> Seq<Seq<char>> {
        views_of(self.header@)
    }

    /// Well-formedness: header names are pairwise distinct, and a headered
    /// table is rectangular with the header's width.
    pub open spec fn wf(self) -> bool {
        &&& distinct_names(self.header_names())
        &&& (self.header_names().len() > 0 ==> forall|i: int|
            0 <= i < self.rows().len() ==> self.rows()[i].len() == self.header_names().len())
    }

    /// Creates a new empty table.
    pub fn new() -> (t: Table)
        ensures
            t.rows() == Seq::<Seq<Seq<char>>>::empty(),
            t.header_names() == Seq::<Seq<char>>::empty(),
            t.wf(),
    {
        let t = Table { data: Vec::new(), header: Vec::new() };
        proof {
            assert(t.rows() =~= Seq::<Seq<Seq<char>>>::empty());
            assert(t.header_names() =~= Seq::<Seq<char>>::empty());
        }
        t
    }

    /// Returns the number of rows in the table.
    pub fn row_count(&self) -> (n: usize)
        ensures
            n == self.rows().len(),
    {
        self.data.len()
    }

    /// Returns the number of columns: the larger of the header's width and
    /// the first row's length (0 for an empty header-less table).
    pub fn column_count(&self) -> (n: usize)
        ensures
            n == vstd::math::max(
                self.header_names().len() as int,
                if self.rows().len() > 0 { self.rows()[0].len() as int } else { 0 },
            ),
    {
        let h = self.header.len();
        let d = if self.data.len() > 0 { self.data[0].len() } else { 0 };
        if h > d { h } else { d }
    }

    /// Creates a table with a header and data rows. Fails with `EmptyHeader`
    /// on a zero-column header, with `DuplicateColumn` on the first repeated
    /// name in left-to-right scan order, and with `RowLengthMismatch` on the
    /// first row whose length differs from the header's.
    pub fn with_header_and_data(header: Vec<String>, data: Vec<Vec<String>>) -> (r: Result<
        Table,
        TableError,
    >)
        ensures
            construct_result_matches(views_of(header@), row_views(data@), r),
    {
        let ghost hv = views_of(header@);
        let ghost dv = row_views(data@);
        if header.len() == 0 {
            return Err(TableError::EmptyHeader);
        }
        let n = header.len();
        let mut j: usize = 0;
        while j < n
            invariant
                n == header@.len(),
                hv == views_of(header@),
                j <= n,
                forall|t: int| 0 <= t < j ==> !dup_before(hv, t),
                first_dup(hv) == first_dup_from(hv, j as int),
            decreases n - j,
        {
            let mut i: usize = 0;
            while i < j
                invariant
                    i <= j < n == header@.len(),
                    hv == views_of(header@),
                    first_dup(hv) == first_dup_from(hv, j as int),
                    forall|t: int| 0 <= t < i ==> hv[t] != hv[j as int],
                decreases j - i,
            {
                if header[i] == header[j] {
                    proof {
                        assert(hv[i as int] == hv[j as int]);
                        assert(dup_before(hv, j as int));
                        reveal_with_fuel(first_dup_from, 2);
                        assert(first_dup_from(hv, j as int) == j as int);
                        assert(first_dup(hv) == j);
                    }
                    return Err(TableError::DuplicateColumn(header[j].clone()));
                }
                i += 1;
            }
            proof {
                assert(!dup_before(hv, j as int));
            }
            j += 1;
        }
        assert(first_dup(hv) == hv.len());
        assert(distinct_names(hv)) by {
            assert forall|a: int, b: int| 0 <= a < b < hv.len() implies hv[a] != hv[b] by {
                assert(!dup_before(hv, b));
            }
        }
        let w = header.len();
        let m = data.len();
        let mut k: usize = 0;
        while k < m
            invariant
                m == data@.len(),
                w == header@.len(),
                hv == views_of(header@),
                dv == row_views(data@),
                k <= m,
                w > 0,
                first_dup(hv) == hv.len(),
                forall|t: int| 0 <= t < k ==> dv[t].len() == w,
                first_bad_row(dv, w as int) == first_bad_row_from(dv, w as int, k as int),
            decreases m - k,
        {
            if data[k].len() != w {
                proof {
                    assert(dv[k as int].len() == data@[k as int]@.len());
                    reveal_with_fuel(first_bad_row_from, 2);
                    assert(first_bad_row_from(dv, w as int, k as int) == k as int);
                    assert(first_bad_row(dv, w as int) == k);
                }
                return Err(
                    TableError::RowLengthMismatch {
                        row_index: k,
                        row_len: data[k].len(),
                        header_len: w,
                    },
                );
            }
            proof {
                assert(dv[k as int].len() == w);
            }
            k += 1;
        }
        assert(first_bad_row(dv, w as int) == dv.len());
        let t = Table { data, header };
        proof {
            assert(t.header_names() == hv);
            assert(t.rows() == dv);
        }
        Ok(t)
    }

    /// Creates a table with only data and no header. No row-length check is
    /// made: ragged data is accepted as-is.
    pub fn with_data(data: Vec<Vec<String>>) -> (r: Result<Table, TableError>)
        ensures
            r matches Ok(t) && t.rows() == row_views(data@) && t.header_names()
                == Seq::<Seq<char>>::empty() && t.wf(),
    {
        let t = Table { data, header: Vec::new() };
        proof {
            assert(t.header_names() =~= Seq::<Seq<char>>::empty());
        }
        Ok(t)
    }

    /// Appends a row. On a headered table this fails with `RowLengthMismatch`
    /// exactly when the row's length differs from the header's width; on a
    /// header-less table every row is accepted.
    pub fn add_row(&mut self, row: Vec<String>) -> (r: Result<(), TableError>)
        requires
            old(self).wf(),
        ensures
            final(self).wf(),
            final(self).header_names() == old(self).header_names(),
            ({
                let w = old(self).header_names().len() as int;
                match r {
                    Ok(()) => {
                        &&& (w == 0 || row@.len() == w)
                        &&& final(self).rows() == old(self).rows().push(views_of(row@))
                    },
                    Err(e) => {
                        &&& w > 0
                        &&& row@.len() != w
                        &&& (e matches TableError::RowLengthMismatch {
                            row_index,
                            row_len,
                            header_len,
                        } && row_index == old(self).rows().len() && row_len == row@.len()
                            && header_len == w)
                        &&& *final(self) == *old(self)
                    },
                }
            }),
    {
        if self.header.len() > 0 && self.header.len() != row.len() {
            return Err(
                TableError::RowLengthMismatch {
                    row_index: self.data.len(),
                    row_len: row.len(),
                    header_len: self.header.len(),
                },
            );
        }
        let ghost old_rows = self.rows();
        self.data.push(row);
        proof {
            assert(self.rows() =~= old_rows.push(views_of(row@)));
        }
        Ok(())
    }

    /// Gets a cell by row index and column name; absent when the column name
    /// is unknown, the row index is out of bounds, or the row is shorter than
    /// the resolved column position.
    pub fn get_value(&self, row_index: usize, column_name: &str) -> (r: Option<&String>)
        ensures
            ({
                let h = self.header_names();
                let j = col_index(h, column_name@);
                match r {
                    Some(v) => j < h.len() && row_index < self.rows().len() && j < self.rows()[
                        row_index as int].len() && v@ == self.rows()[row_index as int][j],
                    None => !(j < h.len() && row_index < self.rows().len() && j < self.rows()[
                        row_index as int].len()),
                }
            }),
    {
        let ghost h = self.header_names();
        let key: String = column_name.to_owned();
        let n = self.header.len();
        let mut j: usize = 0;
        while j < n
            invariant
                n == self.header@.len(),
                h == self.header_names(),
                key@ == column_name@,
                j <= n,
                col_index(h, column_name@) == col_index_from(h, column_name@, j as int),
            decreases n - j,
        {
            if self.header[j] == key {
                proof {
                    assert(h[j as int] == column_name@);
                    assert(col_index(h, column_name@) == j);
                }
                if row_index < self.data.len() {
                    if j < self.data[row_index].len() {
                        return Some(&self.data[row_index][j]);
                    }
                }
                return None;
            }
            proof {
                assert(h[j as int] != column_name@);
            }
            j += 1;
        }
        assert(col_index(h, column_name@) == h.len());
        None
    }

    /// Gets a row by index; absent when the index is out of bounds.
    pub fn get(&self, row_index: usize) -> (r: Option<&Vec<String>>)
        ensures
            match r {
                Some(v) => row_index < self.rows().len() && views_of(v@) == self.rows()[row_index as int],
                None => row_index >= self.rows().len(),
            },
    {
        if row_index < self.data.len() {
            Some(&self.data[row_index])
        } else {
            None
        }
    }
}

impl Default for Table {
    /// The default table is the empty one.
    fn default() -> (t: Table)
        ensures
            t.rows() == Seq::<Seq<Seq<char>>>::empty(),
            t.header_names() == Seq::<Seq<char>>::empty(),
            t.wf(),
    {
        Table::new()
    }
}

} // verus!
