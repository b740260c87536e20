//! Format detection and parsing: classifies raw text as a box-drawn ASCII
//! table, comma-separated values, or unknown, and parses the two recognized
//! dialects into the uniform table model.

use vstd::prelude::*;
use crate::table::{Table, TableError, views_of, row_views, construct_result_matches};
use crate::text::{
    is_ws, has_char, count_char, split_char, spec_lines, spec_trim, trim_all, split_string,
    split_lines, count_char_occurrences, contains_char, trim_str, lemma_split_len, is_alpha,
    is_upper, strip_cr, lemma_split_step, lemma_split_end,
};
use crate::numeric::{is_float_literal, is_float_str};

verus! {

/// The surface format of a piece of tabular text.
#[derive(Debug)]
pub enum TableType {
    AsciiTable,
    CsvTable,
    Unknown,
}

/// A border line of a box table: `+`-joined runs of one or more `-`, with
/// nothing else on the line — `+`, dashes, `+`, and so on, ending in `+`.
pub open spec fn is_border_line(l: Seq<char>) -> bool {
    &&& l.len() >= 3
    &&& l[0] == '+'
    &&& l.last() == '+'
    &&& forall|i: int| 1 <= i < l.len() - 1 ==> (l[i] == '-' || l[i] == '+')
    &&& forall|i: int| 0 <= i < l.len() - 1 ==> !(#[trigger] l[i] == '+' && l[i + 1] == '+')
}

/// A content line of a box table: a `|` at the start and a `|` at the end,
/// with arbitrary content between.
pub open spec fn is_content_line(l: Seq<char>) -> bool {
    l.len() >= 2 && l[0] == '|' && l.last() == '|'
}

/// The box-table layout: border lines at even positions — the first and the
/// last among them — and content lines at odd positions.
pub open spec fn ascii_shape(ls: Seq<Seq<char>>) -> bool {
    &&& ls.len() > 0
    &&& is_border_line(ls[0])
    &&& is_border_line(ls.last())
    &&& forall|i: int| 0 <= i < ls.len() && i % 2 == 0 ==> is_border_line(ls[i])
    &&& forall|i: int| 0 <= i < ls.len() && i % 2 == 1 ==> is_content_line(ls[i])
}

/// The comma-separated shape: a comma in every line, the same field count in
/// every line as in the first, and more than one field.
pub open spec fn csv_shape(ls: Seq<Seq<char>>) -> bool {
    &&& ls.len() > 0
    &&& forall|i: int| 0 <= i < ls.len() ==> has_char(ls[i], ',')
    &&& forall|i: int| 0 <= i < ls.len() ==> #[trigger] count_char(ls[i], ',') == count_char(ls[0], ',')
    &&& count_char(ls[0], ',') + 1 > 1
}

/// Only whitespace (or nothing at all) in `s`.
pub open spec fn all_ws(s: Seq<char>) -> bool {
    forall|i: int| 0 <= i < s.len() ==> is_ws(s[i])
}

/// What format detection decides for the text `s`: whitespace-only text is
/// unknown; fewer than three lines can only be comma-separated, decided by a
/// comma in the first line; otherwise the box-table test runs before the
/// comma-separated test.
pub open spec fn spec_detect(s: Seq<char>) -> TableType {
    if all_ws(s) {
        TableType::Unknown
    } else {
        let ls = spec_lines(s);
        if ls.len() < 3 {
            if ls.len() > 0 && has_char(ls[0], ',') {
                TableType::CsvTable
            } else {
                TableType::Unknown
            }
        } else if ascii_shape(ls) {
            TableType::AsciiTable
        } else if csv_shape(ls) {
            TableType::CsvTable
        } else {
            TableType::Unknown
        }
    }
}

/// Every string maps to exactly one of the three table types: detection is
/// total, and, being a function of the text alone, deterministic.
pub proof fn lemma_detection_total(s: Seq<char>)
    ensures
        spec_detect(s) matches TableType::AsciiTable || spec_detect(s) matches TableType::CsvTable
            || spec_detect(s) matches TableType::Unknown,
{
}

/// The detector's promise to the parsers: text detected as comma-separated
/// is non-empty, and text detected as a box table has at least the three
/// lines of a minimal box — so the header row asked of `parse_table` exists.
pub proof fn lemma_detected_text_has_lines(s: Seq<char>)
    ensures
        spec_detect(s) matches TableType::CsvTable ==> s.len() > 0,
        spec_detect(s) matches TableType::AsciiTable ==> spec_lines(s).len() >= 3,
{
    if s.len() == 0 {
        assert(all_ws(s));
    }
}

fn is_border_str(l: &String) -> (r: bool)
    ensures
        r == is_border_line(l@),
{
    let n = l.as_str().unicode_len();
    if n < 3 {
        return false;
    }
    if l.as_str().get_char(0) != '+' {
        return false;
    }
    if l.as_str().get_char(n - 1) != '+' {
        return false;
    }
    let mut i: usize = 1;
    while i < n - 1
        invariant
            3 <= n == l@.len(),
            1 <= i <= n - 1,
            forall|t: int| 1 <= t < i ==> (l@[t] == '-' || l@[t] == '+'),
        decreases n - i,
    {
        let c = l.as_str().get_char(i);
        if c != '-' && c != '+' {
            return false;
        }
        i += 1;
    }
    let mut k: usize = 0;
    while k < n - 1
        invariant
            3 <= n == l@.len(),
            k <= n - 1,
            forall|t: int| 1 <= t < n - 1 ==> (l@[t] == '-' || l@[t] == '+'),
            l@[0] == '+',
            l@.last() == '+',
            forall|t: int| 0 <= t < k ==> !(#[trigger] l@[t] == '+' && l@[t + 1] == '+'),
        decreases n - k,
    {
        if l.as_str().get_char(k) == '+' && l.as_str().get_char(k + 1) == '+' {
            return false;
        }
        k += 1;
    }
    true
}

fn is_content_str(l: &String) -> (r: bool)
    ensures
        r == is_content_line(l@),
{
    let n = l.as_str().unicode_len();
    n >= 2 && l.as_str().get_char(0) == '|' && l.as_str().get_char(n - 1) == '|'
}

fn ascii_shape_str(lines: &Vec<String>) -> (r: bool)
    requires
        lines@.len() >= 1,
    ensures
        r == ascii_shape(views_of(lines@)),
{
    let ghost ls = views_of(lines@);
    if !is_border_str(&lines[0]) {
        return false;
    }
    if !is_border_str(&lines[lines.len() - 1]) {
        return false;
    }
    let m = lines.len();
    let mut i: usize = 0;
    while i < m
        invariant
            m == lines@.len(),
            m >= 1,
            i <= m,
            ls == views_of(lines@),
            is_border_line(ls[0]),
            is_border_line(ls.last()),
            forall|t: int| 0 <= t < i && t % 2 == 0 ==> is_border_line(ls[t]),
            forall|t: int| 0 <= t < i && t % 2 == 1 ==> is_content_line(ls[t]),
        decreases m - i,
    {
        if i % 2 == 0 {
            if !is_border_str(&lines[i]) {
                proof {
                    assert(!is_border_line(ls[i as int]));
                }
                return false;
            }
        } else {
            if !is_content_str(&lines[i]) {
                proof {
                    assert(!is_content_line(ls[i as int]));
                }
                return false;
            }
        }
        i += 1;
    }
    true
}

proof fn lemma_count_pos(s: Seq<char>, c: char)
    ensures
        (count_char(s, c) > 0) <==> has_char(s, c),
    decreases s.len(),
{
    if s.len() == 0 {
        assert(!has_char(s, c));
    } else {
        lemma_count_pos(s.drop_first(), c);
        if s[0] == c {
            assert(has_char(s, c));
        } else {
            if has_char(s.drop_first(), c) {
                let i = choose|i: int|
                    0 <= i < s.drop_first().len() && s.drop_first()[i] == c;
                assert(s[i + 1] == c);
                assert(has_char(s, c));
            }
            if has_char(s, c) {
                let i = choose|i: int| 0 <= i < s.len() && s[i] == c;
                assert(i > 0);
                assert(s.drop_first()[i - 1] == c);
                assert(has_char(s.drop_first(), c));
            }
        }
    }
}

fn csv_shape_str(lines: &Vec<String>) -> (r: bool)
    requires
        lines@.len() >= 1,
    ensures
        r == csv_shape(views_of(lines@)),
{
    let ghost ls = views_of(lines@);
    let c0 = count_char_occurrences(lines[0].as_str(), ',');
    if c0 == 0 {
        return false;
    }
    let m = lines.len();
    let mut i: usize = 0;
    while i < m
        invariant
            m == lines@.len(),
            m >= 1,
            i <= m,
            ls == views_of(lines@),
            c0 == count_char(ls[0], ','),
            c0 >= 1,
            forall|t: int| 0 <= t < i ==> #[trigger] count_char(ls[t], ',') == count_char(ls[0], ','),
        decreases m - i,
    {
        let ci = count_char_occurrences(lines[i].as_str(), ',');
        if ci != c0 {
            proof {
                assert(count_char(ls[i as int], ',') != count_char(ls[0], ','));
            }
            return false;
        }
        i += 1;
    }
    proof {
        assert forall|t: int| 0 <= t < ls.len() implies has_char(ls[t], ',') by {
            lemma_count_pos(ls[t], ',');
        }
    }
    true
}

/// Determines the table type of the input text: box-drawn ASCII table,
/// comma-separated values, or unknown.
pub fn deduct_table_type(data: &str) -> (r: TableType)
    ensures
        r == spec_detect(data@),
{
    let n = data.unicode_len();
    let mut i: usize = 0;
    while i < n && data.get_char(i).is_whitespace()
        invariant
            i <= n == data@.len(),
            forall|m: int| 0 <= m < i ==> is_ws(data@[m]),
        decreases n - i,
    {
        i += 1;
    }
    if i == n {
        return TableType::Unknown;
    }
    proof {
        assert(!is_ws(data@[i as int]));
        assert(!all_ws(data@));
    }
    let lines = split_lines(data);
    let ghost ls = spec_lines(data@);
    if lines.len() < 3 {
        if lines.len() > 0 && contains_char(lines[0].as_str(), ',') {
            return TableType::CsvTable;
        }
        return TableType::Unknown;
    }
    if ascii_shape_str(&lines) {
        return TableType::AsciiTable;
    }
    if csv_shape_str(&lines) {
        return TableType::CsvTable;
    }
    TableType::Unknown
}

/// One comma-separated line as cells: the pieces between commas, trimmed.
pub open spec fn csv_row(l: Seq<char>) -> Seq<Seq<char>> {
    trim_all(split_char(l, ','))
}

/// The cell grid a comma-separated text parses to.
pub open spec fn csv_cells(s: Seq<char>) -> Seq<Seq<Seq<char>>> {
    spec_lines(s).map_values(|l: Seq<char>| csv_row(l))
}

/// The content lines of a box table: the lines at odd positions, between the
/// border lines at even positions.
pub open spec fn content_lines(ls: Seq<Seq<char>>) -> Seq<Seq<char>> {
    Seq::new((ls.len() / 2) as nat, |i: int| ls[2 * i + 1])
}

/// One box-table content line as cells: the pieces between `|` separators
/// without the two boundary pieces, trimmed. A line without two separators
/// has no cells.
pub open spec fn ascii_row(l: Seq<char>) -> Seq<Seq<char>> {
    let p = split_char(l, '|');
    if p.len() >= 2 {
        trim_all(p.subrange(1, p.len() - 1))
    } else {
        Seq::empty()
    }
}

/// The cell grid a box-table text parses to.
pub open spec fn ascii_cells(s: Seq<char>) -> Seq<Seq<Seq<char>>> {
    content_lines(spec_lines(s)).map_values(|l: Seq<char>| ascii_row(l))
}

/// The outcome of building a table from `cells` with the first row taken as
/// the header.
pub open spec fn headered_outcome(cells: Seq<Seq<Seq<char>>>, r: Result<Table, TableError>) -> bool {
    construct_result_matches(cells[0], cells.skip(1), r)
}

/// The outcome of building a header-less table from `cells`: always a table
/// holding the cells verbatim.
pub open spec fn headerless_outcome(
    cells: Seq<Seq<Seq<char>>>,
    r: Result<Table, TableError>,
) -> bool {
    r matches Ok(t) && t.rows() == cells && t.header_names() == Seq::<Seq<char>>::empty() && t.wf()
}

/// What parsing comma-separated text yields.
pub open spec fn csv_parse_outcome(s: Seq<char>, hdr: bool, r: Result<Table, TableError>) -> bool {
    if hdr {
        headered_outcome(csv_cells(s), r)
    } else {
        headerless_outcome(csv_cells(s), r)
    }
}

/// What parsing box-table text yields.
pub open spec fn ascii_parse_outcome(s: Seq<char>, hdr: bool, r: Result<Table, TableError>) -> bool {
    if hdr {
        headered_outcome(ascii_cells(s), r)
    } else {
        headerless_outcome(ascii_cells(s), r)
    }
}

/// Non-empty text has at least one line.
pub proof fn lemma_lines_nonempty(s: Seq<char>)
    requires
        s.len() > 0,
    ensures
        spec_lines(s).len() >= 1,
{
    let p = split_char(s, '\n');
    let j = crate::text::find_char(s, '\n');
    if 0 <= j < s.len() {
        lemma_split_len(s.skip(j + 1), '\n');
        assert(p.len() >= 2);
    } else {
        assert(p == seq![s]);
    }
}

fn parse_csv_table(data: &str, first_line_is_header: bool) -> (r: Result<Table, TableError>)
    requires
        first_line_is_header ==> data@.len() > 0,
    ensures
        csv_parse_outcome(data@, first_line_is_header, r),
{
    let lines = split_lines(data);
    let ghost ls = spec_lines(data@);
    let mut rows: Vec<Vec<String>> = Vec::new();
    let m = lines.len();
    let mut i: usize = 0;
    while i < m
        invariant
            m == lines@.len(),
            i <= m,
            views_of(lines@) == ls,
            rows@.len() == i,
            forall|t: int| 0 <= t < i ==> row_views(rows@)[t] == csv_row(ls[t]),
        decreases m - i,
    {
        let fields = split_string(lines[i].as_str(), ',');
        let fl = fields.len();
        let mut trimmed: Vec<String> = Vec::new();
        let mut j: usize = 0;
        while j < fl
            invariant
                fl == fields@.len(),
                j <= fl,
                views_of(fields@) == split_char(ls[i as int], ','),
                i < ls.len(),
                trimmed@.len() == j,
                forall|t: int| 0 <= t < j ==> views_of(trimmed@)[t] == spec_trim(
                    views_of(fields@)[t],
                ),
        decreases fl - j,
        {
            let ghost old_trimmed = trimmed@;
            let piece = trim_str(fields[j].as_str());
            trimmed.push(piece);
            proof {
                assert(views_of(trimmed@) =~= views_of(old_trimmed).push(trimmed@.last()@));
            }
            j += 1;
        }
        proof {
            assert(views_of(trimmed@) =~= csv_row(ls[i as int]));
        }
        let ghost old_rows = rows@;
        rows.push(trimmed);
        proof {
            assert(row_views(rows@) =~= row_views(old_rows).push(views_of(rows@.last()@)));
        }
        i += 1;
    }
    proof {
        assert(row_views(rows@) =~= csv_cells(data@));
    }
    if first_line_is_header {
        proof {
            lemma_lines_nonempty(data@);
        }
        let header = rows.remove(0);
        proof {
            assert(views_of(header@) == csv_cells(data@)[0]);
            assert(row_views(rows@) =~= csv_cells(data@).skip(1));
        }
        Table::with_header_and_data(header, rows)
    } else {
        Table::with_data(rows)
    }
}

fn parse_ascii_table(data: &str, first_line_is_header: bool) -> (r: Result<Table, TableError>)
    requires
        first_line_is_header ==> spec_lines(data@).len() >= 2,
    ensures
        ascii_parse_outcome(data@, first_line_is_header, r),
{
    let lines = split_lines(data);
    let ghost ls = spec_lines(data@);
    let m = lines.len();
    let half = m / 2;
    let mut rows: Vec<Vec<String>> = Vec::new();
    let mut k: usize = 0;
    while k < half
        invariant
            m == lines@.len(),
            half == m / 2,
            k <= half,
            views_of(lines@) == ls,
            rows@.len() == k,
            forall|t: int| 0 <= t < k ==> row_views(rows@)[t] == ascii_row(content_lines(ls)[t]),
        decreases half - k,
    {
        let idx = 2 * k + 1;
        proof {
            assert(idx < m);
            assert(content_lines(ls)[k as int] == ls[idx as int]);
        }
        let fields = split_string(lines[idx].as_str(), '|');
        let fl = fields.len();
        let mut trimmed: Vec<String> = Vec::new();
        if fl >= 2 {
            let mut j: usize = 1;
            while j < fl - 1
                invariant
                    2 <= fl == fields@.len(),
                    1 <= j <= fl - 1,
                    idx < lines@.len(),
                    views_of(lines@) == ls,
                    views_of(fields@) == split_char(ls[idx as int], '|'),
                    trimmed@.len() == j - 1,
                    forall|t: int| 0 <= t < j - 1 ==> views_of(trimmed@)[t] == spec_trim(
                        views_of(fields@)[t + 1],
                    ),
                decreases fl - j,
            {
                let ghost old_trimmed = trimmed@;
                let piece = trim_str(fields[j].as_str());
                trimmed.push(piece);
                proof {
                    assert(views_of(trimmed@) =~= views_of(old_trimmed).push(trimmed@.last()@));
                }
                j += 1;
            }
            proof {
                assert(views_of(trimmed@) =~= ascii_row(ls[idx as int]));
            }
        } else {
            proof {
                assert(views_of(trimmed@) =~= ascii_row(ls[idx as int]));
            }
        }
        let ghost old_rows = rows@;
        rows.push(trimmed);
        proof {
            assert(row_views(rows@) =~= row_views(old_rows).push(views_of(rows@.last()@)));
        }
        k += 1;
    }
    proof {
        assert(row_views(rows@) =~= ascii_cells(data@));
    }
    if first_line_is_header {
        let header = rows.remove(0);
        proof {
            assert(views_of(header@) == ascii_cells(data@)[0]);
            assert(row_views(rows@) =~= ascii_cells(data@).skip(1));
        }
        Table::with_header_and_data(header, rows)
    } else {
        Table::with_data(rows)
    }
}

/// Parses `data` as a table of the given type. The unknown type always fails
/// with `InvalidTableSize`. When the first line is taken as the header, the
/// text must yield at least that line: non-empty text for the
/// comma-separated dialect, at least two lines for the box dialect.
pub fn parse_table(table_type: TableType, data: &str, first_line_is_header: bool) -> (r: Result<
    Table,
    TableError,
>)
    requires
        (table_type matches TableType::CsvTable && first_line_is_header) ==> data@.len() > 0,
        (table_type matches TableType::AsciiTable && first_line_is_header) ==> spec_lines(data@).len() >= 2,
    ensures
        match table_type {
            TableType::AsciiTable => ascii_parse_outcome(data@, first_line_is_header, r),
            TableType::CsvTable => csv_parse_outcome(data@, first_line_is_header, r),
            TableType::Unknown => r matches Err(TableError::InvalidTableSize),
        },
{
    match table_type {
        TableType::AsciiTable => parse_ascii_table(data, first_line_is_header),
        TableType::CsvTable => parse_csv_table(data, first_line_is_header),
        TableType::Unknown => Err(TableError::InvalidTableSize),
    }
}

/// A cell that holds none of the three structural characters: comma,
/// newline, carriage return.
pub open spec fn cell_clean(c: Seq<char>) -> bool {
    forall|k: int| 0 <= k < c.len() ==> c[k] != ',' && c[k] != '\n' && c[k] != '\r'
}

pub open spec fn row_clean(row: Seq<Seq<char>>) -> bool {
    forall|j: int| 0 <= j < row.len() ==> cell_clean(row[j])
}

pub open spec fn rows_clean(rows: Seq<Seq<Seq<char>>>) -> bool {
    forall|i: int| 0 <= i < rows.len() ==> row_clean(rows[i])
}

/// A row's cells joined with commas.
pub open spec fn join_cells(row: Seq<Seq<char>>) -> Seq<char>
    decreases row.len(),
{
    if row.len() == 0 {
        Seq::empty()
    } else if row.len() == 1 {
        row[0]
    } else {
        row[0] + seq![','] + join_cells(row.drop_first())
    }
}

/// The joined rows, one line each, joined with newlines.
pub open spec fn join_rows(rows: Seq<Seq<Seq<char>>>) -> Seq<char>
    decreases rows.len(),
{
    if rows.len() == 0 {
        Seq::empty()
    } else if rows.len() == 1 {
        join_cells(rows[0])
    } else {
        join_cells(rows[0]) + seq!['\n'] + join_rows(rows.drop_first())
    }
}

/// Every cell of every row trimmed of leading and trailing whitespace.
pub open spec fn trim_grid(rows: Seq<Seq<Seq<char>>>) -> Seq<Seq<Seq<char>>> {
    rows.map_values(|row: Seq<Seq<char>>| trim_all(row))
}

proof fn lemma_join_cells_free(row: Seq<Seq<char>>, c: char)
    requires
        c == '\n' || c == '\r',
        row_clean(row),
    ensures
        forall|k: int| 0 <= k < join_cells(row).len() ==> join_cells(row)[k] != c,
    decreases row.len(),
{
    if row.len() <= 1 {
    } else {
        let rest = row.drop_first();
        assert(row_clean(rest)) by {
            assert(forall|j: int| 0 <= j < rest.len() ==> rest[j] == row[j + 1]);
        }
        lemma_join_cells_free(rest, c);
        let s = join_cells(row);
        assert forall|k: int| 0 <= k < s.len() implies s[k] != c by {
            let w = row[0].len() as int;
            if k < w {
                assert(s[k] == row[0][k]);
                assert(cell_clean(row[0]));
            } else if k == w {
                assert(s[k] == ',');
            } else {
                assert(s[k] == join_cells(rest)[k - w - 1]);
            }
        }
    }
}

proof fn lemma_split_join_cells(row: Seq<Seq<char>>)
    requires
        row.len() > 0,
        row_clean(row),
    ensures
        split_char(join_cells(row), ',') == row,
    decreases row.len(),
{
    let s = join_cells(row);
    if row.len() == 1 {
        assert(cell_clean(row[0]));
        assert(forall|t: int| 0 <= t < s.len() ==> s[t] != ',');
        lemma_split_end(s, ',', 0);
        assert(s.skip(0) =~= s);
        assert(s.subrange(0, s.len() as int) =~= s);
        assert(seq![s] =~= row);
    } else {
        let rest = row.drop_first();
        assert(row_clean(rest)) by {
            assert(forall|j: int| 0 <= j < rest.len() ==> rest[j] == row[j + 1]);
        }
        lemma_split_join_cells(rest);
        let w = row[0].len() as int;
        assert(s[w] == ',');
        assert(cell_clean(row[0]));
        assert(forall|t: int| 0 <= t < w ==> s[t] == row[0][t]);
        lemma_split_step(s, ',', 0, w);
        assert(s.skip(0) =~= s);
        assert(s.subrange(0, w) =~= row[0]);
        assert(s.skip(w + 1) =~= join_cells(rest));
        assert(split_char(s, ',') == seq![row[0]] + split_char(join_cells(rest), ','));
        assert(seq![row[0]] + rest =~= row);
    }
}

proof fn lemma_split_join_rows(rows: Seq<Seq<Seq<char>>>)
    requires
        rows.len() > 0,
        rows_clean(rows),
    ensures
        split_char(join_rows(rows), '\n') == rows.map_values(|r: Seq<Seq<char>>| join_cells(r)),
    decreases rows.len(),
{
    let s = join_rows(rows);
    let jm = rows.map_values(|r: Seq<Seq<char>>| join_cells(r));
    if rows.len() == 1 {
        lemma_join_cells_free(rows[0], '\n');
        assert(forall|t: int| 0 <= t < s.len() ==> s[t] != '\n');
        lemma_split_end(s, '\n', 0);
        assert(s.skip(0) =~= s);
        assert(s.subrange(0, s.len() as int) =~= s);
        assert(seq![s] =~= jm);
    } else {
        let rest = rows.drop_first();
        assert(rows_clean(rest)) by {
            assert(forall|i: int| 0 <= i < rest.len() ==> rest[i] == rows[i + 1]);
        }
        lemma_split_join_rows(rest);
        lemma_join_cells_free(rows[0], '\n');
        let w = join_cells(rows[0]).len() as int;
        assert(s[w] == '\n');
        assert(forall|t: int| 0 <= t < w ==> s[t] == join_cells(rows[0])[t]);
        lemma_split_step(s, '\n', 0, w);
        assert(s.skip(0) =~= s);
        assert(s.subrange(0, w) =~= join_cells(rows[0]));
        assert(s.skip(w + 1) =~= join_rows(rest));
        assert(split_char(s, '\n') == seq![join_cells(rows[0])] + split_char(join_rows(rest), '\n'));
        assert(seq![join_cells(rows[0])] + rest.map_values(|r: Seq<Seq<char>>| join_cells(r))
            =~= jm);
    }
}

/// The round trip: text made by joining rows with commas and newlines, when
/// the cells hold none of those separators, every row has a cell, and the
/// last row is not a single empty cell, parses back to the same grid of
/// cells, each trimmed of leading and trailing whitespace.
pub proof fn lemma_csv_round_trip(rows: Seq<Seq<Seq<char>>>)
    requires
        rows_clean(rows),
        forall|i: int| 0 <= i < rows.len() ==> rows[i].len() > 0,
        rows.len() > 0 ==> !(rows.last().len() == 1 && rows.last()[0].len() == 0),
    ensures
        csv_cells(join_rows(rows)) == trim_grid(rows),
{
    if rows.len() == 0 {
        let e = Seq::<char>::empty();
        assert(split_char(e, '\n') == seq![e]);
        assert(csv_cells(join_rows(rows)) =~= trim_grid(rows));
    } else {
        lemma_split_join_rows(rows);
        let s = join_rows(rows);
        let p = split_char(s, '\n');
        let jm = rows.map_values(|r: Seq<Seq<char>>| join_cells(r));
        assert(p.last() == join_cells(rows.last()));
        if rows.last().len() == 1 {
            assert(join_cells(rows.last()) == rows.last()[0]);
            assert(p.last().len() > 0);
        } else {
            assert(join_cells(rows.last()).len() > 0);
        }
        assert forall|i: int| 0 <= i < p.len() implies strip_cr(p[i]) == p[i] by {
            lemma_join_cells_free(rows[i], '\r');
            assert(p[i] == join_cells(rows[i]));
            if p[i].len() > 0 {
                assert(p[i].last() != '\r');
            }
        }
        assert(spec_lines(s) =~= jm);
        assert forall|i: int| 0 <= i < rows.len() implies csv_cells(s)[i] == trim_all(
            rows[i],
        ) by {
            lemma_split_join_cells(rows[i]);
            assert(csv_cells(s)[i] == csv_row(jm[i]));
            assert(jm[i] == join_cells(rows[i]));
        }
        assert(csv_cells(s) =~= trim_grid(rows));
    }
}

/// A numeric/non-numeric contrast between the first two rows at some shared
/// position.
pub open spec fn row0_contrast(a: Seq<Seq<char>>, b: Seq<Seq<char>>) -> bool {
    exists|i: int|
        0 <= i < a.len() && i < b.len() && (is_float_literal(a[i]) != is_float_literal(b[i]))
}

/// A cell that looks like a column name: all characters alphabetic,
/// whitespace or underscore — or all characters uppercase.
pub open spec fn headerish_cell(s: Seq<char>) -> bool {
    ||| forall|j: int| 0 <= j < s.len() ==> is_alpha(s[j]) || is_ws(s[j]) || s[j] == '_'
    ||| forall|j: int| 0 <= j < s.len() ==> is_upper(s[j])
}

/// The header guess for already-split rows: with fewer than two rows or
/// differing first-row and second-row widths, no; with a numeric contrast
/// between the first two rows, yes; otherwise yes exactly when every cell of
/// the first row looks like a column name.
pub open spec fn header_guess(rows: Seq<Seq<Seq<char>>>) -> bool {
    if rows.len() < 2 {
        false
    } else if rows[0].len() != rows[1].len() {
        false
    } else if row0_contrast(rows[0], rows[1]) {
        true
    } else {
        forall|i: int| 0 <= i < rows[0].len() ==> headerish_cell(rows[0][i])
    }
}

fn headerish_cell_str(s: &str) -> (r: bool)
    ensures
        r == headerish_cell(s@),
{
    let n = s.unicode_len();
    let mut all_namey = true;
    let mut i: usize = 0;
    while i < n && all_namey
        invariant
            i <= n == s@.len(),
            all_namey ==> forall|t: int| 0 <= t < i ==> is_alpha(s@[t]) || is_ws(s@[t]) || s@[t]
                == '_',
            !all_namey ==> !(forall|j: int|
                0 <= j < s@.len() ==> is_alpha(s@[j]) || is_ws(s@[j]) || s@[j] == '_'),
        decreases n - i,
    {
        let c = s.get_char(i);
        if !(c.is_alphabetic() || c.is_whitespace() || c == '_') {
            all_namey = false;
        }
        i += 1;
    }
    if all_namey && i == n {
        return true;
    }
    proof {
        assert(!(forall|j: int| 0 <= j < s@.len() ==> is_alpha(s@[j]) || is_ws(s@[j]) || s@[j]
            == '_'));
    }
    let mut k: usize = 0;
    while k < n
        invariant
            k <= n == s@.len(),
            forall|t: int| 0 <= t < k ==> is_upper(s@[t]),
            !(forall|j: int| 0 <= j < s@.len() ==> is_alpha(s@[j]) || is_ws(s@[j]) || s@[j] == '_'),
        decreases n - k,
    {
        if !s.get_char(k).is_uppercase() {
            return false;
        }
        k += 1;
    }
    true
}

/// Guesses whether the first of the already-split rows is a header rather
/// than a data row.
pub fn first_line_is_header(lines: &Vec<Vec<String>>) -> (r: bool)
    ensures
        r == header_guess(row_views(lines@)),
{
    let ghost rv = row_views(lines@);
    if lines.len() < 2 {
        return false;
    }
    let w = lines[0].len();
    if w != lines[1].len() {
        return false;
    }
    let mut i: usize = 0;
    while i < w
        invariant
            lines@.len() >= 2,
            rv == row_views(lines@),
            w == rv[0].len(),
            w == rv[1].len(),
            i <= w,
            forall|t: int| 0 <= t < i ==> is_float_literal(rv[0][t]) == is_float_literal(rv[1][t]),
        decreases w - i,
    {
        let a = is_float_str(lines[0][i].as_str());
        let b = is_float_str(lines[1][i].as_str());
        if a != b {
            proof {
                assert(is_float_literal(rv[0][i as int]) != is_float_literal(rv[1][i as int]));
                assert(row0_contrast(rv[0], rv[1]));
            }
            return true;
        }
        i += 1;
    }
    proof {
        assert(!row0_contrast(rv[0], rv[1]));
    }
    let mut k: usize = 0;
    while k < w
        invariant
            lines@.len() >= 2,
            rv == row_views(lines@),
            w == rv[0].len(),
            w == rv[1].len(),
            k <= w,
            !row0_contrast(rv[0], rv[1]),
            forall|t: int| 0 <= t < k ==> headerish_cell(rv[0][t]),
        decreases w - k,
    {
        if !headerish_cell_str(lines[0][k].as_str()) {
            proof {
                assert(!headerish_cell(rv[0][k as int]));
            }
            return false;
        }
        k += 1;
    }
    true
}

} // verus!
