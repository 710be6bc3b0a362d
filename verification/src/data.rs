//! Loading and joining: tabular population counts meet polygon geometry.
//!
//! The tabular source is parsed once into a table keyed by the join
//! column; for each configured dataset, every category's count is the sum
//! of its source columns (a missing column contributes nothing and an
//! unparsable value counts zero), clamped at the 32-bit limit, and the
//! not-stated column's value rides beside them. Rows with an empty join
//! key are skipped and a repeated key keeps the later row. Geometry
//! records are then joined by key: records without a tabular match are
//! dropped, as are tabular entries no geometry names.

use crate::config::{AppConfig, DatasetConfig, ProcessingConfig};
use crate::geom::{MultiPolygon, Pt};
use crate::types::{
    counts_view, pop_view, str_eq, CategoryCount, DatasetCounts, SmallArea,
};
use vstd::prelude::*;
use vstd::string::StrSliceExecFns;

verus! {

/// What loading the tabular source can fail with: the bytes are not a
/// well-formed table, or the configured join column is missing.
#[derive(Clone, Copy, PartialEq, Eq, Structural, Debug)]
pub enum CsvError {
    Malformed,
    MissingJoinColumn,
}

/// What the tabular parser yields for given bytes: the header row
/// followed by the data rows, every cell a string; `None` when the bytes
/// are not a well-formed table.
pub uninterp spec fn csv_rows_of(data: Seq<u8>) -> Option<Seq<Seq<Seq<char>>>>;

/// Relies on csv::Reader over in-memory bytes: the byte table's header
/// row and data rows, each cell decoded to a string; `None` on any
/// malformed record. The result depends on the bytes alone.
#[verifier::external_body]
fn parse_csv_bytes(data: &[u8]) -> (r: Option<Vec<Vec<String>>>)
    ensures
        r is Some <==> csv_rows_of(data@) is Some,
        r matches Some(rows) ==> csv_rows_of(data@) == Some(rows.deep_view()) && rows@.len() >= 1,
{
    let mut rdr = csv::ReaderBuilder::new().from_reader(data);
    let mut rows: Vec<Vec<String>> = Vec::new();
    match rdr.headers() {
        Ok(h) => rows.push(h.iter().map(|c| c.to_string()).collect()),
        Err(_) => return None,
    }
    for rec in rdr.records() {
        rows.push(rec.ok()?.iter().map(|c| c.to_string()).collect());
    }
    Some(rows)
}

/// Whether a character is a decimal digit.
pub open spec fn is_digit(c: char) -> bool {
    '0' <= c <= '9'
}

/// The numeric value of the digit string `s`, read left to right over its
/// first `k` characters.
pub open spec fn digits_val(s: Seq<char>, k: int) -> int
    decreases k,
{
    if k <= 0 {
        0
    } else {
        digits_val(s, k - 1) * 10 + (s[k - 1] as int - '0' as int)
    }
}

/// The string with one leading plus sign removed.
pub open spec fn strip_plus(s: Seq<char>) -> Seq<char> {
    if s.len() > 0 && s[0] == '+' {
        s.drop_first()
    } else {
        s
    }
}

/// Whether the string is made of decimal digits alone.
pub open spec fn all_digits(t: Seq<char>) -> bool {
    forall|i: int| 0 <= i < t.len() ==> is_digit(#[trigger] t[i])
}

/// How `u32::from_str` reads a string: an optional leading plus sign, then
/// one or more decimal digits, rejecting anything else and any value over
/// the 32-bit limit.
pub open spec fn parse_u32_spec(s: Seq<char>) -> Option<u32> {
    let t = strip_plus(s);
    if t.len() == 0 || !all_digits(t) || digits_val(t, t.len() as int) > u32::MAX {
        None
    } else {
        Some(digits_val(t, t.len() as int) as u32)
    }
}

/// The value a cell contributes: its parsed number, or zero when it does
/// not parse.
pub open spec fn parse_or_zero(s: Seq<char>) -> u32 {
    match parse_u32_spec(s) {
        Some(v) => v,
        None => 0,
    }
}

proof fn lemma_digits_val_mono(s: Seq<char>, k1: int, k2: int)
    requires
        0 <= k1 <= k2 <= s.len(),
        forall|i: int| 0 <= i < s.len() ==> is_digit(#[trigger] s[i]),
    ensures
        0 <= digits_val(s, k1) <= digits_val(s, k2),
    decreases k2,
{
    if k2 > 0 {
        if k1 == k2 {
            lemma_digits_val_mono(s, k1 - 1, k2 - 1);
        } else {
            lemma_digits_val_mono(s, k1, k2 - 1);
        }
    }
}

/// Reads a decimal number as `u32::from_str` does.
pub fn parse_u32(s: &str) -> (r: Option<u32>)
    ensures
        r == parse_u32_spec(s@),
{
    let n = s.unicode_len();
    let start: usize = if n > 0 && s.get_char(0) == '+' {
        1
    } else {
        0
    };
    let ghost t = strip_plus(s@);
    proof {
        assert(t.len() == n - start);
        assert(forall|i: int| 0 <= i < t.len() ==> t[i] == s@[i + start]);
    }
    if n == start {
        return None;
    }
    let mut acc: u64 = 0;
    let mut i: usize = start;
    while i < n
        invariant
            start <= i <= n,
            n == s@.len(),
            t.len() == n - start,
            forall|q: int| 0 <= q < t.len() ==> t[q] == s@[q + start],
            forall|q: int| 0 <= q < i - start ==> is_digit(#[trigger] t[q]),
            acc == digits_val(t, i - start),
            acc <= u32::MAX,
        decreases n - i,
    {
        let c = s.get_char(i);
        if c < '0' || c > '9' {
            proof {
                assert(!all_digits(t)) by {
                    assert(!is_digit(t[i - start]));
                }
            }
            return None;
        }
        let d: u64 = (c as u32 as u64) - 48;
        acc = acc * 10 + d;
        i = i + 1;
        if acc > 0xffff_ffff {
            proof {
                if all_digits(t) {
                    lemma_digits_val_mono(t, i - start, t.len() as int);
                }
            }
            return None;
        }
    }
    proof {
        assert(t.len() == i - start);
        assert(all_digits(t));
    }
    Some(acc as u32)
}

/// The first position of `name` among the headers, if any: where the join
/// column is looked up.
pub open spec fn first_idx(headers: Seq<Seq<char>>, name: Seq<char>) -> Option<int>
    decreases headers.len(),
{
    if headers.len() == 0 {
        None
    } else if headers[0] == name {
        Some(0)
    } else {
        match first_idx(headers.drop_first(), name) {
            Some(i) => Some(i + 1),
            None => None,
        }
    }
}

/// The string contents of a vector of strings.
pub open spec fn sv(v: Seq<String>) -> Seq<Seq<char>> {
    v.map_values(|s: String| s@)
}

/// The last position of `name` among the headers, if any: how a column
/// named more than once resolves, the later one winning.
pub open spec fn last_idx(headers: Seq<Seq<char>>, name: Seq<char>) -> Option<int>
    decreases headers.len(),
{
    if headers.len() == 0 {
        None
    } else if headers.last() == name {
        Some(headers.len() - 1)
    } else {
        last_idx(headers.drop_last(), name)
    }
}

/// What `first_idx` finds: the position of the first header equal to the
/// name, and nothing before it.
proof fn lemma_first_idx_char(headers: Seq<Seq<char>>, name: Seq<char>)
    ensures
        match first_idx(headers, name) {
            Some(j) => 0 <= j < headers.len() && headers[j] == name && (forall|q: int|
                0 <= q < j ==> (#[trigger] headers[q]) != name),
            None => forall|q: int| 0 <= q < headers.len() ==> (#[trigger] headers[q]) != name,
        },
    decreases headers.len(),
{
    if headers.len() > 0 && headers[0] != name {
        lemma_first_idx_char(headers.drop_first(), name);
        let rest = headers.drop_first();
        assert(forall|q: int|
            0 <= q < headers.len() - 1 ==> (#[trigger] rest[q]) == headers[q + 1]);
        match first_idx(rest, name) {
            Some(j2) => {
                assert(first_idx(headers, name) == Some(j2 + 1));
                assert(headers[j2 + 1] == name) by {
                    assert(rest[j2] == name);
                }
                assert forall|q: int| 0 <= q < j2 + 1 implies (#[trigger] headers[q]) != name by {
                    if q > 0 {
                        assert(rest[q - 1] != name);
                    }
                }
            },
            None => {
                assert forall|q: int|
                    0 <= q < headers.len() implies (#[trigger] headers[q]) != name by {
                    if q > 0 {
                        assert(rest[q - 1] != name);
                    }
                }
            },
        }
    }
}

/// Finds the first header equal to `name`.
fn find_first_idx(headers: &Vec<String>, name: &str) -> (r: Option<usize>)
    ensures
        r matches Some(i) ==> first_idx(sv(headers@), name@) == Some(i as int) && i
            < headers@.len(),
        r is None ==> first_idx(sv(headers@), name@) is None,
{
    let ghost h = sv(headers@);
    proof {
        lemma_first_idx_char(h, name@);
    }
    let n = headers.len();
    for i in 0..n
        invariant
            n == headers@.len(),
            h == sv(headers@),
            forall|q: int| 0 <= q < i ==> (#[trigger] h[q]) != name@,
            match first_idx(h, name@) {
                Some(j) => 0 <= j < h.len() && h[j] == name@ && (forall|q: int|
                    0 <= q < j ==> (#[trigger] h[q]) != name@),
                None => forall|q: int| 0 <= q < h.len() ==> (#[trigger] h[q]) != name@,
            },
    {
        if str_eq(&headers[i], name) {
            proof {
                assert(h[i as int] == name@);
                match first_idx(h, name@) {
                    Some(j) => {
                        if j < i as int {
                            assert(h[j] != name@);
                        }
                        if j > i as int {
                            assert(h[i as int] != name@);
                        }
                    },
                    None => {
                        assert(h[i as int] != name@);
                    },
                }
            }
            return Some(i);
        }
    }
    None
}

/// Finds the last header equal to `name`.
fn find_last_idx(headers: &Vec<String>, name: &str) -> (r: Option<usize>)
    ensures
        r matches Some(i) ==> last_idx(sv(headers@), name@) == Some(i as int) && i
            < headers@.len(),
        r is None ==> last_idx(sv(headers@), name@) is None,
{
    let ghost h = sv(headers@);
    let n = headers.len();
    let mut i: usize = n;
    proof {
        assert(h.take(n as int) =~= h);
    }
    while i > 0
        invariant
            i <= n,
            n == headers@.len(),
            h == sv(headers@),
            last_idx(h, name@) == last_idx(h.take(i as int), name@),
        decreases i,
    {
        proof {
            assert(h.take(i as int).last() == h[i - 1]);
            assert(h.take(i as int).drop_last() =~= h.take(i - 1));
        }
        if str_eq(&headers[i - 1], name) {
            proof {
                assert(h.take(i as int).last() == name@);
            }
            return Some(i - 1);
        }
        i = i - 1;
    }
    None
}

/// The value the row holds at column `idx`: a row too short to reach it
/// counts zero, as does a cell that does not parse.
pub open spec fn cell_value(row: Seq<Seq<char>>, idx: int) -> u32 {
    if 0 <= idx < row.len() {
        parse_or_zero(row[idx])
    } else {
        0
    }
}

/// Addition clamped at the 32-bit limit, used to sum a category's columns.
pub open spec fn sat_add_u32(a: u32, b: u32) -> u32 {
    if a + b > u32::MAX {
        u32::MAX
    } else {
        (a + b) as u32
    }
}

/// A category's count in one row: the clamped sum, over its first `k`
/// configured source columns, of the values at the columns found among
/// the headers (a column absent from the headers contributes nothing).
pub open spec fn category_total(
    headers: Seq<Seq<char>>,
    row: Seq<Seq<char>>,
    columns: Seq<String>,
    k: int,
) -> u32
    decreases k,
{
    if k <= 0 {
        0
    } else {
        let pre = category_total(headers, row, columns, k - 1);
        match last_idx(headers, columns[k - 1]@) {
            Some(idx) => sat_add_u32(pre, cell_value(row, idx)),
            None => pre,
        }
    }
}

/// Sums one category's source columns over a row.
fn category_total_exec(headers: &Vec<String>, row: &Vec<String>, columns: &Vec<String>) -> (r: u32)
    ensures
        r == category_total(
            sv(headers@),
            sv(row@),
            columns@,
            columns@.len() as int,
        ),
{
    let ghost rowv = sv(row@);
    let mut total: u32 = 0;
    let n = columns.len();
    for k in 0..n
        invariant
            n == columns@.len(),
            total == category_total(sv(headers@), rowv, columns@, k as int),
            rowv == sv(row@),
    {
        match find_last_idx(headers, columns[k].as_str()) {
            Some(idx) => {
                let v: u32 = if idx < row.len() {
                    match parse_u32(row[idx].as_str()) {
                        Some(v) => v,
                        None => 0,
                    }
                } else {
                    0
                };
                proof {
                    assert(v == cell_value(rowv, idx as int));
                }
                if total > u32::MAX - v {
                    total = u32::MAX;
                } else {
                    total = total + v;
                }
            },
            None => (),
        }
    }
    total
}

/// One dataset's counts for one row: each category under its clamped
/// column sum, and the not-stated value beside them when its column is
/// configured and found.
pub open spec fn row_dataset_view(
    headers: Seq<Seq<char>>,
    row: Seq<Seq<char>>,
    name: Seq<char>,
    cfg: DatasetConfig,
) -> (Seq<char>, Seq<(Seq<char>, u32)>, Option<u32>) {
    (
        name,
        cfg.categories@.map_values(
            |c: crate::config::CategoryConfig|
                (c.name@, category_total(headers, row, c.columns@, c.columns@.len() as int)),
        ),
        match cfg.not_stated {
            Some(ns) => match last_idx(headers, ns.column@) {
                Some(idx) => Some(cell_value(row, idx)),
                None => None,
            },
            None => None,
        },
    )
}

/// A whole row's population table: one entry per configured dataset, in
/// configuration order.
pub open spec fn row_pop_view(
    headers: Seq<Seq<char>>,
    row: Seq<Seq<char>>,
    processing: ProcessingConfig,
) -> Seq<(Seq<char>, Seq<(Seq<char>, u32)>, Option<u32>)> {
    processing.datasets@.map_values(
        |d: (String, DatasetConfig)| row_dataset_view(headers, row, d.0@, d.1),
    )
}

/// Builds one row's population table.
fn row_population(
    headers: &Vec<String>,
    row: &Vec<String>,
    processing: &ProcessingConfig,
) -> (r: Vec<DatasetCounts>)
    ensures
        pop_view(r@) == row_pop_view(sv(headers@), sv(row@), *processing),
{
    let ghost rowv = sv(row@);
    let mut out: Vec<DatasetCounts> = Vec::new();
    let nd = processing.datasets.len();
    for di in 0..nd
        invariant
            nd == processing.datasets@.len(),
            out@.len() == di,
            rowv == sv(row@),
            forall|t: int|
                0 <= t < di ==> pop_view(out@)[t] == row_pop_view(sv(headers@), rowv, *processing)[t],
    {
        let entry = &processing.datasets[di];
        let cfg = &entry.1;
        let mut counts: Vec<CategoryCount> = Vec::new();
        let nc = cfg.categories.len();
        for ci in 0..nc
            invariant
                nc == cfg.categories@.len(),
                counts@.len() == ci,
                rowv == sv(row@),
                forall|t: int|
                    0 <= t < ci ==> (#[trigger] counts@[t]).name@ == cfg.categories@[t].name@
                        && counts@[t].count == category_total(
                        sv(headers@),
                        rowv,
                        cfg.categories@[t].columns@,
                        cfg.categories@[t].columns@.len() as int,
                    ),
        {
            let cat = &cfg.categories[ci];
            let total = category_total_exec(headers, row, &cat.columns);
            counts.push(CategoryCount { name: cat.name.clone(), count: total });
        }
        let not_stated: Option<u32> = match &cfg.not_stated {
            Some(ns) => match find_last_idx(headers, ns.column.as_str()) {
                Some(idx) => {
                    let v: u32 = if idx < row.len() {
                        match parse_u32(row[idx].as_str()) {
                            Some(v) => v,
                            None => 0,
                        }
                    } else {
                        0
                    };
                    proof {
                        assert(v == cell_value(rowv, idx as int));
                    }
                    Some(v)
                },
                None => None,
            },
            None => None,
        };
        let ghost out_pre = out@;
        out.push(DatasetCounts { dataset: entry.0.clone(), counts, not_stated });
        proof {
            let t = di as int;
            assert(counts_view(out@[t].counts@) =~= row_dataset_view(
                sv(headers@),
                rowv,
                processing.datasets@[t].0@,
                processing.datasets@[t].1,
            ).1);
            assert(pop_view(out@)[t] == row_dataset_view(
                sv(headers@),
                rowv,
                processing.datasets@[t].0@,
                processing.datasets@[t].1,
            ));
            assert(forall|q: int| 0 <= q < t ==> out@[q] == out_pre[q]);
            assert(forall|q: int|
                0 <= q < t ==> #[trigger] pop_view(out@)[q] == pop_view(out_pre)[q]);
        }
    }
    proof {
        assert(pop_view(out@) =~= row_pop_view(sv(headers@), rowv, *processing));
    }
    out
}

/// The join key of a row: the cell in the join column, empty when the row
/// is too short to reach it.
pub open spec fn row_id(row: Seq<Seq<char>>, jix: int) -> Seq<char> {
    if 0 <= jix < row.len() {
        row[jix]
    } else {
        Seq::empty()
    }
}

/// Whether a table entry carries exactly the data of the last row, before
/// `upto`, bearing its key (and keys are never empty).
pub open spec fn entry_ok(
    rows: Seq<Seq<Seq<char>>>,
    jix: int,
    processing: ProcessingConfig,
    key: Seq<char>,
    pv: Seq<(Seq<char>, Seq<(Seq<char>, u32)>, Option<u32>)>,
    upto: int,
) -> bool {
    exists|ri: int|
        {
            &&& 1 <= ri < upto
            &&& #[trigger] row_id(rows[ri], jix) == key
            &&& key.len() > 0
            &&& pv == row_pop_view(rows[0], rows[ri], processing)
            &&& forall|rj: int| ri < rj < upto ==> row_id(#[trigger] rows[rj], jix) != key
        }
}

/// Whether the table has an entry under row `ri`'s join key.
pub open spec fn table_covers(
    m: Seq<(String, Vec<DatasetCounts>)>,
    rows: Seq<Seq<Seq<char>>>,
    jix: int,
    ri: int,
) -> bool {
    exists|e: int| 0 <= e < m.len() && (#[trigger] m[e]).0@ == row_id(rows[ri], jix)
}

/// Loads the tabular source: parses the bytes, finds the join column, and
/// aggregates every row into a table keyed by join key. Keys are unique;
/// each entry holds the data of the last row bearing its key; every row
/// with a non-empty key is represented; rows with an empty key are
/// skipped. Fails exactly when the bytes are malformed or the configured
/// join column is not among the headers.
#[verifier::rlimit(100)]
pub fn load_csv_data(data: &[u8], config: &AppConfig) -> (r: Result<
    Vec<(String, Vec<DatasetCounts>)>,
    CsvError,
>)
    ensures
        r == Result::<Vec<(String, Vec<DatasetCounts>)>, CsvError>::Err(CsvError::Malformed)
            <==> csv_rows_of(data@) is None,
        csv_rows_of(data@) matches Some(rows) ==> ((r == Result::<
            Vec<(String, Vec<DatasetCounts>)>,
            CsvError,
        >::Err(CsvError::MissingJoinColumn)) <==> first_idx(
            rows[0],
            config.input.join_column_csv@,
        ) is None),
        r matches Ok(m) ==> csv_rows_of(data@) matches Some(rows)
            && first_idx(rows[0], config.input.join_column_csv@) matches Some(jix) && {
            &&& forall|a: int, b: int|
                0 <= a < b < m@.len() ==> (#[trigger] m@[a]).0@ != (#[trigger] m@[b]).0@
            &&& forall|e: int|
                0 <= e < m@.len() ==> entry_ok(
                    rows,
                    jix,
                    config.processing,
                    (#[trigger] m@[e]).0@,
                    pop_view(m@[e].1@),
                    rows.len() as int,
                )
            &&& forall|ri: int|
                1 <= ri < rows.len() && row_id(#[trigger] rows[ri], jix).len() > 0
                    ==> table_covers(m@, rows, jix, ri)
        },
{
    let parsed = match parse_csv_bytes(data) {
        Some(p) => p,
        None => {
            return Err(CsvError::Malformed);
        },
    };
    let ghost rows = csv_rows_of(data@)->Some_0;
    proof {
        assert(rows == parsed.deep_view());
        assert(rows.len() == parsed@.len());
        assert forall|q: int|
            0 <= q < parsed@.len() implies #[trigger] rows[q] == sv(parsed@[q]@) by {
            assert(rows[q] =~~= sv(parsed@[q]@));
        }
    }
    let headers = &parsed[0];
    let jix = match find_first_idx(headers, config.input.join_column_csv.as_str()) {
        Some(i) => i,
        None => {
            return Err(CsvError::MissingJoinColumn);
        },
    };
    let mut table: Vec<(String, Vec<DatasetCounts>)> = Vec::new();
    let nrows = parsed.len();
    let mut ri: usize = 1;
    while ri < nrows
        invariant
            1 <= ri <= nrows,
            nrows == parsed@.len(),
            rows == parsed.deep_view(),
            rows.len() == parsed@.len(),
            forall|q: int| 0 <= q < parsed@.len() ==> #[trigger] rows[q] == sv(parsed@[q]@),
            headers == parsed@[0],
            rows[0] == sv(parsed@[0]@),
            first_idx(rows[0], config.input.join_column_csv@) == Some(jix as int),
            forall|a: int, b: int|
                0 <= a < b < table@.len() ==> (#[trigger] table@[a]).0@ != (
                #[trigger] table@[b]).0@,
            forall|e: int|
                0 <= e < table@.len() ==> entry_ok(
                    rows,
                    jix as int,
                    config.processing,
                    (#[trigger] table@[e]).0@,
                    pop_view(table@[e].1@),
                    ri as int,
                ),
            forall|rj: int|
                1 <= rj < ri && row_id(#[trigger] rows[rj], jix as int).len() > 0
                    ==> table_covers(table@, rows, jix as int, rj),
        decreases nrows - ri,
    {
        let row = &parsed[ri];
        let ghost rid = row_id(rows[ri as int], jix as int);
        if jix < row.len() && !row[jix].as_str().is_empty() {
            let id = row[jix].clone();
            proof {
                assert(rows[ri as int][jix as int] == row@[jix as int]@);
                assert(id@ == rid);
                assert(rid.len() > 0);
            }
            let pd = row_population(headers, row, &config.processing);
            proof {
                assert(pop_view(pd@) == row_pop_view(
                    rows[0],
                    rows[ri as int],
                    config.processing,
                ));
            }
            // Find an existing entry with this key.
            let mut found: Option<usize> = None;
            let nt = table.len();
            for e in 0..nt
                invariant
                    nt == table@.len(),
                    found is None ==> forall|q: int|
                        0 <= q < e ==> (#[trigger] table@[q]).0@ != id@,
                    found matches Some(f) ==> f < table@.len() && table@[f as int].0@ == id@,
                    id@ == rid,
            {
                if found.is_none() && str_eq(&table[e].0, id.as_str()) {
                    found = Some(e);
                }
            }
            let ghost table_pre = table@;
            match found {
                Some(f) => {
                    let slot = &mut table[f];
                    slot.1 = pd;
                    proof {
                        assert(table@[f as int].0@ == rid);
                        assert(forall|q: int|
                            0 <= q < table@.len() && q != f ==> #[trigger] table@[q]
                                == table_pre[q]);
                    }
                },
                None => {
                    table.push((id, pd));
                    proof {
                        assert(table@[table@.len() - 1].0@ == rid);
                        assert(forall|q: int|
                            0 <= q < table_pre.len() ==> #[trigger] table@[q] == table_pre[q]);
                    }
                },
            }
            proof {
                let upto = ri + 1 as int;
                assert forall|e: int| 0 <= e < table@.len() implies entry_ok(
                    rows,
                    jix as int,
                    config.processing,
                    (#[trigger] table@[e]).0@,
                    pop_view(table@[e].1@),
                    upto,
                ) by {
                    if table@[e].0@ == rid {
                        assert(row_id(rows[ri as int], jix as int) == table@[e].0@);
                        assert(pop_view(table@[e].1@) == row_pop_view(
                            rows[0],
                            rows[ri as int],
                            config.processing,
                        ));
                    } else {
                        assert(table@[e] == table_pre[e]);
                        assert(entry_ok(
                            rows,
                            jix as int,
                            config.processing,
                            table_pre[e].0@,
                            pop_view(table_pre[e].1@),
                            ri as int,
                        ));
                        let wi = choose|wi: int|
                            {
                                &&& 1 <= wi < ri as int
                                &&& #[trigger] row_id(rows[wi], jix as int) == table_pre[e].0@
                                &&& table_pre[e].0@.len() > 0
                                &&& pop_view(table_pre[e].1@) == row_pop_view(
                                    rows[0],
                                    rows[wi],
                                    config.processing,
                                )
                                &&& forall|rj: int|
                                    wi < rj < ri as int ==> row_id(
                                        #[trigger] rows[rj],
                                        jix as int,
                                    ) != table_pre[e].0@
                            };
                        assert(row_id(rows[wi], jix as int) == table@[e].0@);
                        assert(forall|rj: int|
                            wi < rj < upto ==> row_id(#[trigger] rows[rj], jix as int)
                                != table@[e].0@);
                    }
                }
                // Every earlier covered row is still covered, and this row
                // is covered by the entry just written.
                assert forall|rj: int|
                    1 <= rj < ri + 1 && row_id(#[trigger] rows[rj], jix as int).len()
                        > 0 implies table_covers(table@, rows, jix as int, rj) by {
                    if rj < ri as int {
                        let e0 = choose|e0: int|
                            0 <= e0 < table_pre.len() && (#[trigger] table_pre[e0]).0@ == row_id(
                                rows[rj],
                                jix as int,
                            );
                        assert(table@[e0].0@ == table_pre[e0].0@);
                    } else {
                        match found {
                            Some(f) => {
                                assert(table@[f as int].0@ == rid);
                            },
                            None => {
                                assert(table@[table@.len() - 1].0@ == rid);
                            },
                        }
                    }
                }
            }
        } else {
            proof {
                assert(rid.len() == 0);
                assert forall|e: int| 0 <= e < table@.len() implies entry_ok(
                    rows,
                    jix as int,
                    config.processing,
                    (#[trigger] table@[e]).0@,
                    pop_view(table@[e].1@),
                    ri + 1 as int,
                ) by {
                    assert(entry_ok(
                        rows,
                        jix as int,
                        config.processing,
                        table@[e].0@,
                        pop_view(table@[e].1@),
                        ri as int,
                    ));
                    let wi = choose|wi: int|
                        {
                            &&& 1 <= wi < ri as int
                            &&& #[trigger] row_id(rows[wi], jix as int) == table@[e].0@
                            &&& table@[e].0@.len() > 0
                            &&& pop_view(table@[e].1@) == row_pop_view(
                                rows[0],
                                rows[wi],
                                config.processing,
                            )
                            &&& forall|rj: int|
                                wi < rj < ri as int ==> row_id(#[trigger] rows[rj], jix as int)
                                    != table@[e].0@
                        };
                    assert(forall|rj: int|
                        wi < rj < ri + 1 ==> row_id(#[trigger] rows[rj], jix as int) != table@[
                        e].0@);
                }
            }
        }
        ri = ri + 1;
    }
    Ok(table)
}

/// Looks a key up in the loaded table, first match.
/// The population data stored under `key`, first match.
pub open spec fn table_entry(table: Seq<(String, Vec<DatasetCounts>)>, key: Seq<char>) -> Option<
    Vec<DatasetCounts>,
>
    decreases table.len(),
{
    if table.len() == 0 {
        None
    } else if table[0].0@ == key {
        Some(table[0].1)
    } else {
        table_entry(table.drop_first(), key)
    }
}

pub fn table_lookup<'a>(
    table: &'a Vec<(String, Vec<DatasetCounts>)>,
    key: &str,
) -> (r: Option<&'a Vec<DatasetCounts>>)
    ensures
        r matches Some(pd) ==> table_entry(table@, key@) == Some(*pd),
        r is None ==> table_entry(table@, key@) is None,
{
    let n = table.len();
    proof {
        assert(table@.skip(0) =~= table@);
    }
    for e in 0..n
        invariant
            n == table@.len(),
            table_entry(table@, key@) == table_entry(table@.skip(e as int), key@),
    {
        proof {
            assert(table@.skip(e as int)[0] == table@[e as int]);
            assert(table@.skip(e as int).drop_first() =~= table@.skip(e + 1));
        }
        if str_eq(&table[e].0, key) {
            return Some(&table[e].1);
        }
    }
    proof {
        assert(table@.skip(n as int).len() == 0);
    }
    None
}

/// Whether an area's identifier and population data come from some entry
/// of the loaded table.
/// The value content of one area: its key, its geometry, and its
/// population table.
pub open spec fn area_view(a: SmallArea) -> (
    Seq<char>,
    Seq<Seq<Seq<Pt>>>,
    Seq<(Seq<char>, Seq<(Seq<char>, u32)>, Option<u32>)>,
) {
    (a.id@, a.geometry@, pop_view(a.population_data@))
}

/// What joining the first `n` geometry records to the table yields: in
/// record order, one (key, geometry, population) triple per record whose
/// key has a tabular entry; records without a match yield nothing.
pub open spec fn join_view(
    geoms: Seq<(String, MultiPolygon)>,
    table: Seq<(String, Vec<DatasetCounts>)>,
    n: int,
) -> Seq<(Seq<char>, Seq<Seq<Seq<Pt>>>, Seq<(Seq<char>, Seq<(Seq<char>, u32)>, Option<u32>)>)>
    decreases n,
{
    if n <= 0 {
        Seq::empty()
    } else {
        let pre = join_view(geoms, table, n - 1);
        match table_entry(table, geoms[n - 1].0@) {
            Some(pd) => pre.push((geoms[n - 1].0@, geoms[n - 1].1@, pop_view(pd@))),
            None => pre,
        }
    }
}

/// Joins geometry records to the loaded table: the result is, in record
/// order, exactly one area per record whose key has a tabular entry,
/// carrying that record's geometry and the entry's population data;
/// records without a match produce nothing.
pub fn join_areas(
    geoms: Vec<(String, MultiPolygon)>,
    table: &Vec<(String, Vec<DatasetCounts>)>,
) -> (areas: Vec<SmallArea>)
    ensures
        areas@.map_values(|a: SmallArea| area_view(a)) == join_view(
            geoms@,
            table@,
            geoms@.len() as int,
        ),
{
    let ghost geoms0 = geoms@;
    let mut areas: Vec<SmallArea> = Vec::new();
    let mut pending = geoms;
    let n = pending.len();
    for g in 0..n
        invariant
            n == geoms0.len(),
            pending@ =~= geoms0.skip(g as int),
            areas@.map_values(|a: SmallArea| area_view(a)) =~= join_view(
                geoms0,
                table@,
                g as int,
            ),
    {
        let (id, geometry) = pending.remove(0);
        proof {
            assert(geoms0.skip(g as int)[0] == (id, geometry));
            assert(geoms0[g as int].0 == id && geoms0[g as int].1 == geometry);
            assert(pending@ =~= geoms0.skip(g + 1));
        }
        match table_lookup(table, id.as_str()) {
            Some(pd) => {
                let population_data = crate::server::clone_population(pd);
                let ghost pre = areas@;
                areas.push(SmallArea { id, geometry, population_data });
                proof {
                    let k = areas@.len() - 1;
                    assert(forall|q: int| 0 <= q < pre.len() ==> #[trigger] areas@[q] == pre[q]);
                    assert(table_entry(table@, geoms0[g as int].0@) == Some(*pd));
                    assert(area_view(areas@[k]) == (
                        geoms0[g as int].0@,
                        geoms0[g as int].1@,
                        pop_view(pd@),
                    ));
                    assert(areas@.map_values(|a: SmallArea| area_view(a)) =~= join_view(
                        geoms0,
                        table@,
                        g + 1,
                    ));
                }
            },
            None => {
                proof {
                    assert(table_entry(table@, geoms0[g as int].0@) is None);
                    assert(areas@.map_values(|a: SmallArea| area_view(a)) =~= join_view(
                        geoms0,
                        table@,
                        g + 1,
                    ));
                }
            },
        }
    }
    proof {
        assert(geoms0 == geoms@);
        assert(areas@.map_values(|a: SmallArea| area_view(a)) =~= join_view(
            geoms@,
            table@,
            geoms@.len() as int,
        ));
    }
    areas
}

/// A legacy record's join field, as the attribute table types it: a
/// string (possibly null), or a field of some other type.
#[derive(Clone, Debug)]
pub enum JoinField {
    Text(String),
    NullText,
    Other,
}

/// A geometry record's shape: one of the polygon family, already held in
/// the crate's model, or anything else.
#[derive(Clone, Debug)]
pub enum ShapeKind {
    PolygonFamily(MultiPolygon),
    Other,
}

/// What record filtering can fail with: a join field that is not a string
/// is fatal for the whole load.
#[derive(Clone, Copy, PartialEq, Eq, Structural, Debug)]
pub enum JoinError {
    NonTextJoinField,
}

/// What filtering the first `n` legacy records keeps: in record order, one
/// (key, geometry) pair per record with a string join field and a
/// polygon-family shape; null keys and other shapes yield nothing.
pub open spec fn legacy_view(records: Seq<(JoinField, ShapeKind)>, n: int) -> Seq<
    (Seq<char>, Seq<Seq<Seq<Pt>>>),
>
    decreases n,
{
    if n <= 0 {
        Seq::empty()
    } else {
        let pre = legacy_view(records, n - 1);
        match records[n - 1] {
            (JoinField::Text(s), ShapeKind::PolygonFamily(mp)) => pre.push((s@, mp@)),
            _ => pre,
        }
    }
}

/// Filters legacy geometry records: fails exactly when some record's join
/// field is not a string; otherwise keeps, in record order, each record
/// with a non-null key and a polygon-family shape, skipping null keys and
/// other shapes.
pub fn filter_legacy_records(records: Vec<(JoinField, ShapeKind)>) -> (r: Result<
    Vec<(String, MultiPolygon)>,
    JoinError,
>)
    ensures
        r is Err <==> exists|i: int|
            0 <= i < records@.len() && (#[trigger] records@[i]).0 is Other,
        r matches Ok(v) ==> v@.map_values(|e: (String, MultiPolygon)| (e.0@, e.1@)) == legacy_view(
            records@,
            records@.len() as int,
        ),
{
    let ghost records0 = records@;
    let mut out: Vec<(String, MultiPolygon)> = Vec::new();
    let mut pending = records;
    let n = pending.len();
    for i in 0..n
        invariant
            n == records0.len(),
            pending@ =~= records0.skip(i as int),
            forall|q: int| 0 <= q < i ==> !((#[trigger] records0[q]).0 is Other),
            out@.map_values(|e: (String, MultiPolygon)| (e.0@, e.1@)) =~= legacy_view(
                records0,
                i as int,
            ),
    {
        let (field, shape) = pending.remove(0);
        proof {
            assert(records0.skip(i as int)[0] == (field, shape));
            assert(records0[i as int] == (field, shape));
            assert(pending@ =~= records0.skip(i + 1));
        }
        match (field, shape) {
            (JoinField::Other, _) => {
                proof {
                    assert((records0[i as int]).0 is Other);
                }
                return Err(JoinError::NonTextJoinField);
            },
            (JoinField::Text(s), ShapeKind::PolygonFamily(mp)) => {
                let ghost pre = out@;
                out.push((s, mp));
                proof {
                    assert(forall|q: int| 0 <= q < pre.len() ==> #[trigger] out@[q] == pre[q]);
                    assert(out@.map_values(|e: (String, MultiPolygon)| (e.0@, e.1@))
                        =~= legacy_view(records0, i + 1));
                }
            },
            _ => {
                proof {
                    assert(legacy_view(records0, i + 1) == legacy_view(records0, i as int));
                }
            },
        }
    }
    proof {
        assert(records0 == records@);
    }
    Ok(out)
}

/// A feature's join property, after the caller coerces a string or
/// numeric value to text: text, or absent or of another type.
#[derive(Clone, Debug)]
pub enum FeatureKey {
    Text(String),
    Absent,
}

/// A feature's geometry: polygonal (a polygon or multi-polygon, held in
/// the crate's model), or anything else.
#[derive(Clone, Debug)]
pub enum FeatureGeometry {
    Polygonal(MultiPolygon),
    Other,
}

/// What filtering the first `n` features keeps: in feature order, one
/// (key, geometry) pair per feature with a text key and a polygonal
/// geometry; every other feature yields nothing.
pub open spec fn features_kept(features: Seq<(FeatureKey, FeatureGeometry)>, n: int) -> Seq<
    (Seq<char>, Seq<Seq<Seq<Pt>>>),
>
    decreases n,
{
    if n <= 0 {
        Seq::empty()
    } else {
        let pre = features_kept(features, n - 1);
        match features[n - 1] {
            (FeatureKey::Text(s), FeatureGeometry::Polygonal(mp)) => pre.push((s@, mp@)),
            _ => pre,
        }
    }
}

/// Filters feature-collection records: keeps, in feature order, each
/// feature with a text join property and a polygonal geometry, silently
/// skipping the rest; nothing is fatal here.
pub fn filter_feature_records(features: Vec<(FeatureKey, FeatureGeometry)>) -> (r: Vec<
    (String, MultiPolygon),
>)
    ensures
        r@.map_values(|e: (String, MultiPolygon)| (e.0@, e.1@)) == features_kept(
            features@,
            features@.len() as int,
        ),
{
    let ghost features0 = features@;
    let mut out: Vec<(String, MultiPolygon)> = Vec::new();
    let mut pending = features;
    let n = pending.len();
    for i in 0..n
        invariant
            n == features0.len(),
            pending@ =~= features0.skip(i as int),
            out@.map_values(|e: (String, MultiPolygon)| (e.0@, e.1@)) =~= features_kept(
                features0,
                i as int,
            ),
    {
        let (key, geom) = pending.remove(0);
        proof {
            assert(features0.skip(i as int)[0] == (key, geom));
            assert(features0[i as int] == (key, geom));
            assert(pending@ =~= features0.skip(i + 1));
        }
        match (key, geom) {
            (FeatureKey::Text(s), FeatureGeometry::Polygonal(mp)) => {
                let ghost pre = out@;
                out.push((s, mp));
                proof {
                    assert(forall|q: int| 0 <= q < pre.len() ==> #[trigger] out@[q] == pre[q]);
                    assert(out@.map_values(|e: (String, MultiPolygon)| (e.0@, e.1@))
                        =~= features_kept(features0, i + 1));
                }
            },
            _ => {
                proof {
                    assert(features_kept(features0, i + 1) == features_kept(features0, i as int));
                }
            },
        }
    }
    proof {
        assert(features0 == features@);
    }
    out
}

/// The geometry formats the loader understands, by file extension.
#[derive(Clone, Copy, PartialEq, Eq, Structural, Debug)]
pub enum GeometryFormat {
    LegacyShapes,
    FeatureCollection,
    Unsupported,
}

/// Which loader a (lower-cased) geometry file extension selects: `shp`
/// names the legacy shape format, `json` and `geojson` the feature
/// collection format, anything else is unsupported.
pub fn geometry_format_of(ext: &str) -> (r: GeometryFormat)
    ensures
        r == GeometryFormat::FeatureCollection <==> (ext@ == "json"@ || ext@ == "geojson"@),
        r == GeometryFormat::LegacyShapes <==> (ext@ == "shp"@ && ext@ != "json"@ && ext@
            != "geojson"@),
{
    let owned = ext.to_owned();
    let feature = str_eq(&owned, "json") || str_eq(&owned, "geojson");
    if feature {
        GeometryFormat::FeatureCollection
    } else if str_eq(&owned, "shp") {
        GeometryFormat::LegacyShapes
    } else {
        GeometryFormat::Unsupported
    }
}

} // verus!
