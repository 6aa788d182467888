//! Loading a delimited table into a schema and rows, and writing edited rows
//! back over the stored text.
use vstd::prelude::*;

use crate::assoc::{assoc_map, lemma_assoc_last};
use crate::delimited::{
    is_stem_of, csv_read, csv_record_bytes, file_stem, read_delimited, records_texts, write_delimited_record,
};
use crate::dyn_entity::{DynRow, RowMap, RowView};
use crate::schema::{dtype_of, infer_dtype, ColumnDef, TableSchema, SAMPLE_LIMIT};
use crate::text::{ascii_ci_eq, eq_ignore_ascii_case, lemma_texts_push, texts};

verus! {

/// Index `i` is the first header equal to `hint`.
pub open spec fn is_first_exact(h: Seq<Seq<char>>, hint: Seq<char>, i: int) -> bool {
    &&& 0 <= i < h.len()
    &&& h[i] == hint
    &&& forall|j: int| 0 <= j < i ==> h[j] != hint
}

/// Index `i` is the first header equal to `hint` up to ASCII case.
pub open spec fn is_first_ci(h: Seq<Seq<char>>, hint: Seq<char>, i: int) -> bool {
    &&& 0 <= i < h.len()
    &&& ascii_ci_eq(h[i], hint)
    &&& forall|j: int| 0 <= j < i ==> !ascii_ci_eq(h[j], hint)
}

/// The header chosen as key column for `hint`: the first exact match, else
/// the first match up to ASCII case, else the first header; `None` when there
/// are no headers.
pub open spec fn resolved_key_index(h: Seq<Seq<char>>, hint: Seq<char>) -> Option<int> {
    if exists|i: int| is_first_exact(h, hint, i) {
        Some(choose|i: int| is_first_exact(h, hint, i))
    } else if exists|i: int| is_first_ci(h, hint, i) {
        Some(choose|i: int| is_first_ci(h, hint, i))
    } else if h.len() > 0 {
        Some(0)
    } else {
        None
    }
}

/// The name used for the key column when a file has no headers.
pub open spec fn default_key_column() -> Seq<char> {
    seq!['i', 'd']
}

/// The text of the chosen key column.
pub open spec fn resolved_key_column(h: Seq<Seq<char>>, hint: Seq<char>) -> Seq<char> {
    match resolved_key_index(h, hint) {
        Some(i) => h[i],
        None => default_key_column(),
    }
}

/// Chooses the key column for `key_hint` among `headers`.
pub fn key_column_index(headers: &Vec<String>, key_hint: &str) -> (r: Option<usize>)
    ensures
        r matches Some(i) ==> resolved_key_index(texts(headers@), key_hint@) == Some(i as int),
        r is None ==> resolved_key_index(texts(headers@), key_hint@) is None,
{
    let ghost h = texts(headers@);
    let hint = key_hint.to_owned();
    let mut i: usize = 0;
    while i < headers.len()
        invariant
            i <= headers.len(),
            h == texts(headers@),
            hint@ == key_hint@,
            forall|j: int| 0 <= j < i ==> h[j] != key_hint@,
        decreases headers.len() - i,
    {
        if headers[i] == hint {
            assert(is_first_exact(h, key_hint@, i as int));
            assert forall|k: int| is_first_exact(h, key_hint@, k) implies k == i by {
                if k < i {
                    assert(h[k] != key_hint@);
                } else if k > i {
                    assert(h[i as int] == key_hint@);
                }
            }
            return Some(i);
        }
        i += 1;
    }
    assert(forall|k: int| !is_first_exact(h, key_hint@, k));
    i = 0;
    while i < headers.len()
        invariant
            i <= headers.len(),
            h == texts(headers@),
            forall|k: int| !is_first_exact(h, key_hint@, k),
            forall|j: int| 0 <= j < i ==> !ascii_ci_eq(h[j], key_hint@),
        decreases headers.len() - i,
    {
        if eq_ignore_ascii_case(headers[i].as_str(), key_hint) {
            assert(is_first_ci(h, key_hint@, i as int));
            assert forall|k: int| is_first_ci(h, key_hint@, k) implies k == i by {
                if k < i {
                    assert(!ascii_ci_eq(h[k], key_hint@));
                } else if k > i {
                    assert(ascii_ci_eq(h[i as int], key_hint@));
                }
            }
            return Some(i);
        }
        i += 1;
    }
    assert(forall|k: int| !is_first_ci(h, key_hint@, k));
    if headers.len() > 0 {
        Some(0)
    } else {
        None
    }
}

/// The header text of the key column chosen for `key_hint`: an exact match
/// wins over a match up to ASCII case, which wins over the first header.
pub fn resolve_key_column(headers: &Vec<String>, key_hint: &str) -> (r: String)
    ensures
        r@ == resolved_key_column(texts(headers@), key_hint@),
{
    match key_column_index(headers, key_hint) {
        Some(i) => headers[i].clone(),
        None => {
            let r = "id".to_owned();
            proof {
                reveal_strlit("id");
            }
            assert(r@ =~= default_key_column());
            r
        },
    }
}

/// Where some header equals `hint`, a first one does.
proof fn lemma_first_exact_exists(h: Seq<Seq<char>>, hint: Seq<char>, i: int)
    requires
        0 <= i < h.len(),
        h[i] == hint,
    ensures
        exists|k: int| is_first_exact(h, hint, k),
    decreases i,
{
    if exists|j: int| 0 <= j < i && h[j] == hint {
        let j = choose|j: int| 0 <= j < i && h[j] == hint;
        lemma_first_exact_exists(h, hint, j);
    } else {
        assert(is_first_exact(h, hint, i));
    }
}

/// How the key column is chosen: a header equal to the hint wins over one
/// equal to it up to ASCII case only, which wins over the first header.
pub proof fn lemma_key_column_precedence(h: Seq<Seq<char>>, hint: Seq<char>, j: int)
    ensures
        (exists|i: int| 0 <= i < h.len() && h[i] == hint) ==> resolved_key_column(h, hint) == hint,
        (forall|i: int| 0 <= i < h.len() ==> h[i] != hint) && is_first_ci(h, hint, j)
            ==> resolved_key_column(h, hint) == h[j],
        h.len() > 0 && (forall|i: int| 0 <= i < h.len() ==> !ascii_ci_eq(h[i], hint))
            ==> resolved_key_column(h, hint) == h[0],
{
    if exists|i: int| 0 <= i < h.len() && h[i] == hint {
        let i = choose|i: int| 0 <= i < h.len() && h[i] == hint;
        lemma_first_exact_exists(h, hint, i);
    }
    if (forall|i: int| 0 <= i < h.len() ==> h[i] != hint) && is_first_ci(h, hint, j) {
        let k = choose|k: int| is_first_ci(h, hint, k);
        if k < j {
            assert(!ascii_ci_eq(h[k], hint));
        } else if j < k {
            assert(!ascii_ci_eq(h[j], hint));
        }
    }
    if h.len() > 0 && (forall|i: int| 0 <= i < h.len() ==> !ascii_ci_eq(h[i], hint)) {
        assert forall|i: int| 0 <= i < h.len() implies h[i] != hint by {
            if h[i] == hint {
                assert(ascii_ci_eq(h[i], hint));
            }
        }
    }
}

/// Field `j` of a record, or the empty text where the record is shorter.
pub open spec fn field_at(rec: Seq<Seq<char>>, j: int) -> Seq<char> {
    if 0 <= j < rec.len() {
        rec[j]
    } else {
        Seq::empty()
    }
}

/// The cells of a loaded record: every header maps to the field under it; of
/// two equal headers the later one gives the cell.
pub open spec fn loaded_cells(h: Seq<Seq<char>>, rec: Seq<Seq<char>>) -> Map<Seq<char>, Seq<char>> {
    assoc_map(Seq::new(h.len(), |j: int| (h[j], field_at(rec, j))))
}

/// The index whose field gives a loaded record's key.
pub open spec fn load_key_index(h: Seq<Seq<char>>, hint: Seq<char>) -> int {
    match resolved_key_index(h, hint) {
        Some(i) => i,
        None => 0,
    }
}

/// The row a record loads as, keyed by its field at `k`.
pub open spec fn loaded_row(h: Seq<Seq<char>>, rec: Seq<Seq<char>>, k: int) -> RowView {
    RowView { key: field_at(rec, k), cells: loaded_cells(h, rec) }
}

/// The rows of a loaded table by key; of two records with one key, the later
/// one gives the row.
pub open spec fn loaded_rows(h: Seq<Seq<char>>, recs: Seq<Seq<Seq<char>>>, k: int) -> Map<
    Seq<char>,
    RowView,
> {
    assoc_map(Seq::new(recs.len(), |i: int| (field_at(recs[i], k), loaded_row(h, recs[i], k))))
}

/// The cells of column `j` that its type is inferred from: those of the
/// first records, at most `SAMPLE_LIMIT` of them.
pub open spec fn column_samples(recs: Seq<Seq<Seq<char>>>, j: int) -> Seq<Seq<char>> {
    let n = if recs.len() < SAMPLE_LIMIT {
        recs.len()
    } else {
        SAMPLE_LIMIT as nat
    };
    Seq::new(n, |i: int| field_at(recs[i], j))
}

/// `schema` and `rows` are what headers `h` and records `recs` load as for
/// `hint`, the schema's name aside.
pub open spec fn is_loaded_table(
    schema: TableSchema,
    rows: RowMap,
    h: Seq<Seq<char>>,
    recs: Seq<Seq<Seq<char>>>,
    hint: Seq<char>,
) -> bool {
    &&& schema.key_column@ == resolved_key_column(h, hint)
    &&& schema.columns.len() == h.len()
    &&& forall|j: int|
        0 <= j < h.len() ==> {
            &&& (#[trigger] schema.columns[j]).key@ == h[j]
            &&& schema.columns[j].label@ == h[j]
            &&& schema.columns[j].dtype == dtype_of(column_samples(recs, j))
        }
    &&& rows@ == loaded_rows(h, recs, load_key_index(h, hint))
}

/// Field `j` of `rec`, or an empty text.
fn field_or_empty(rec: &Vec<String>, j: usize) -> (r: String)
    ensures
        r@ == field_at(texts(rec@), j as int),
{
    if j < rec.len() {
        rec[j].clone()
    } else {
        String::new()
    }
}

/// The schema column for header `j`, its type inferred from the first records.
fn infer_column(headers: &Vec<String>, records: &Vec<Vec<String>>, j: usize) -> (r: ColumnDef)
    requires
        j < headers.len(),
    ensures
        r.key@ == texts(headers@)[j as int],
        r.label@ == texts(headers@)[j as int],
        r.dtype == dtype_of(column_samples(records_texts(records@), j as int)),
{
    let ghost recs = records_texts(records@);
    let n: usize = if records.len() < SAMPLE_LIMIT {
        records.len()
    } else {
        SAMPLE_LIMIT
    };
    let mut samples: Vec<String> = Vec::new();
    let mut i: usize = 0;
    while i < n
        invariant
            i <= n <= records.len(),
            recs == records_texts(records@),
            texts(samples@) == Seq::new(i as nat, |x: int| field_at(recs[x], j as int)),
        decreases n - i,
    {
        let v = field_or_empty(&records[i], j);
        assert(recs[i as int] == texts(records@[i as int]@));
        proof {
            lemma_texts_push(samples@, v);
        }
        samples.push(v);
        assert(texts(samples@) =~= Seq::new((i + 1) as nat, |x: int| field_at(recs[x], j as int)));
        i += 1;
    }
    assert(texts(samples@) =~= column_samples(recs, j as int));
    let dtype = infer_dtype(samples.as_slice());
    ColumnDef { key: headers[j].clone(), label: headers[j].clone(), dtype }
}

/// The row that record `rec` loads as, keyed by its field at `k`.
fn load_row(headers: &Vec<String>, rec: &Vec<String>, k: usize) -> (r: DynRow)
    ensures
        r@ == loaded_row(texts(headers@), texts(rec@), k as int),
{
    let ghost h = texts(headers@);
    let mut row = DynRow::new(field_or_empty(rec, k));
    let mut j: usize = 0;
    while j < headers.len()
        invariant
            j <= headers.len(),
            h == texts(headers@),
            row@.key == field_at(texts(rec@), k as int),
            row@.cells == assoc_map(
                Seq::new(j as nat, |x: int| (h[x], field_at(texts(rec@), x))),
            ),
        decreases headers.len() - j,
    {
        let v = field_or_empty(rec, j);
        row.set(headers[j].as_str(), v);
        let ghost s = Seq::new((j + 1) as nat, |x: int| (h[x], field_at(texts(rec@), x)));
        assert(s.drop_last() =~= Seq::new(j as nat, |x: int| (h[x], field_at(texts(rec@), x))));
        j += 1;
    }
    assert(Seq::new(j as nat, |x: int| (h[x], field_at(texts(rec@), x))) =~= Seq::new(
        h.len(),
        |x: int| (h[x], field_at(texts(rec@), x)),
    ));
    row
}

/// Builds the schema and rows of a table from its header and records, naming
/// it `name` and choosing its key column for `key_hint`.
pub fn table_from_records(
    name: String,
    headers: &Vec<String>,
    records: &Vec<Vec<String>>,
    key_hint: &str,
) -> (r: (TableSchema, RowMap))
    ensures
        r.0.name == name,
        is_loaded_table(r.0, r.1, texts(headers@), records_texts(records@), key_hint@),
{
    let ghost h = texts(headers@);
    let ghost recs = records_texts(records@);
    let key_column = resolve_key_column(headers, key_hint);
    let k: usize = match key_column_index(headers, key_hint) {
        Some(i) => i,
        None => 0,
    };
    let mut columns: Vec<ColumnDef> = Vec::new();
    let mut j: usize = 0;
    while j < headers.len()
        invariant
            j <= headers.len(),
            h == texts(headers@),
            recs == records_texts(records@),
            columns.len() == j,
            forall|x: int|
                0 <= x < j ==> {
                    &&& (#[trigger] columns@[x]).key@ == h[x]
                    &&& columns@[x].label@ == h[x]
                    &&& columns@[x].dtype == dtype_of(column_samples(recs, x))
                },
        decreases headers.len() - j,
    {
        let c = infer_column(headers, records, j);
        columns.push(c);
        j += 1;
    }
    let mut rows = RowMap::new();
    let mut i: usize = 0;
    while i < records.len()
        invariant
            i <= records.len(),
            h == texts(headers@),
            recs == records_texts(records@),
            rows@ == assoc_map(
                Seq::new(
                    i as nat,
                    |x: int| (field_at(recs[x], k as int), loaded_row(h, recs[x], k as int)),
                ),
            ),
        decreases records.len() - i,
    {
        let row = load_row(headers, &records[i], k);
        assert(texts(records@[i as int]@) == recs[i as int]);
        rows.insert(row);
        let ghost s = Seq::new(
            (i + 1) as nat,
            |x: int| (field_at(recs[x], k as int), loaded_row(h, recs[x], k as int)),
        );
        assert(s.drop_last() =~= Seq::new(
            i as nat,
            |x: int| (field_at(recs[x], k as int), loaded_row(h, recs[x], k as int)),
        ));
        i += 1;
    }
    assert(Seq::new(
        i as nat,
        |x: int| (field_at(recs[x], k as int), loaded_row(h, recs[x], k as int)),
    ) =~= Seq::new(
        recs.len(),
        |x: int| (field_at(recs[x], k as int), loaded_row(h, recs[x], k as int)),
    ));
    let schema = TableSchema { name, key_column, columns };
    (schema, rows)
}

/// The index of the key column when saving: the first header equal to
/// `key_col`, else the first column.
pub open spec fn save_key_index(h: Seq<Seq<char>>, key_col: Seq<char>) -> int {
    if exists|i: int| is_first_exact(h, key_col, i) {
        choose|i: int| is_first_exact(h, key_col, i)
    } else {
        0
    }
}

/// The key a record is saved under: its field at `k` where `k` indexes a
/// header, else the empty text.
pub open spec fn save_key(h: Seq<Seq<char>>, rec: Seq<Seq<char>>, k: int) -> Seq<char> {
    if 0 <= k < h.len() {
        field_at(rec, k)
    } else {
        Seq::empty()
    }
}

/// A record as it is saved. Where `updates` holds no row under its key it is
/// written as it was. Otherwise each field whose header that row has a cell
/// for is replaced by that cell, a record shorter than the header is padded
/// with empty fields, and fields past the header are kept.
pub open spec fn saved_record(
    h: Seq<Seq<char>>,
    rec: Seq<Seq<char>>,
    k: int,
    updates: Map<Seq<char>, RowView>,
) -> Seq<Seq<char>> {
    let key = save_key(h, rec, k);
    if updates.contains_key(key) {
        let n = if rec.len() < h.len() {
            h.len()
        } else {
            rec.len()
        };
        Seq::new(
            n,
            |j: int|
                if j < h.len() && updates[key].cells.contains_key(h[j]) {
                    updates[key].cells[h[j]]
                } else {
                    field_at(rec, j)
                },
        )
    } else {
        rec
    }
}

/// The records a table is saved as: the header as it was, then every record
/// in file order.
pub open spec fn saved_records(
    h: Seq<Seq<char>>,
    recs: Seq<Seq<Seq<char>>>,
    key_col: Seq<char>,
    updates: Map<Seq<char>, RowView>,
) -> Seq<Seq<Seq<char>>> {
    seq![h] + Seq::new(
        recs.len(),
        |i: int| saved_record(h, recs[i], save_key_index(h, key_col), updates),
    )
}

/// The first header equal to `key_col`, else the first column.
fn save_key_position(headers: &Vec<String>, key_col: &str) -> (r: usize)
    ensures
        r == save_key_index(texts(headers@), key_col@),
{
    let ghost h = texts(headers@);
    let kc = key_col.to_owned();
    let mut i: usize = 0;
    while i < headers.len()
        invariant
            i <= headers.len(),
            h == texts(headers@),
            kc@ == key_col@,
            forall|j: int| 0 <= j < i ==> h[j] != key_col@,
        decreases headers.len() - i,
    {
        if headers[i] == kc {
            assert(is_first_exact(h, key_col@, i as int));
            assert forall|x: int| is_first_exact(h, key_col@, x) implies x == i by {
                if x < i {
                    assert(h[x] != key_col@);
                } else if x > i {
                    assert(h[i as int] == key_col@);
                }
            }
            return i;
        }
        i += 1;
    }
    assert(forall|x: int| !is_first_exact(h, key_col@, x));
    0
}

/// A copy of `rec`.
fn copy_record(rec: &Vec<String>) -> (r: Vec<String>)
    ensures
        texts(r@) == texts(rec@),
{
    let mut out: Vec<String> = Vec::new();
    let mut j: usize = 0;
    while j < rec.len()
        invariant
            j <= rec.len(),
            texts(out@) == texts(rec@).take(j as int),
        decreases rec.len() - j,
    {
        let v = rec[j].clone();
        proof {
            lemma_texts_push(out@, v);
        }
        out.push(v);
        assert(texts(out@) =~= texts(rec@).take(j + 1));
        j += 1;
    }
    assert(texts(rec@).take(j as int) =~= texts(rec@));
    out
}

/// One record as it is saved.
fn save_record(headers: &Vec<String>, rec: &Vec<String>, k: usize, updates: &RowMap) -> (r: Vec<
    String,
>)
    ensures
        texts(r@) == saved_record(texts(headers@), texts(rec@), k as int, updates@),
{
    let ghost h = texts(headers@);
    let ghost t = texts(rec@);
    let key: String = if k < headers.len() {
        field_or_empty(rec, k)
    } else {
        String::new()
    };
    assert(key@ == save_key(h, t, k as int));
    match updates.get(key.as_str()) {
        None => copy_record(rec),
        Some(newrow) => {
            let ghost u = newrow@;
            let n: usize = if rec.len() < headers.len() {
                headers.len()
            } else {
                rec.len()
            };
            let mut out: Vec<String> = Vec::new();
            let mut j: usize = 0;
            while j < n
                invariant
                    j <= n,
                    n == (if rec.len() < headers.len() {
                        headers.len()
                    } else {
                        rec.len()
                    }),
                    h == texts(headers@),
                    t == texts(rec@),
                    u == newrow@,
                    texts(out@) == Seq::new(
                        j as nat,
                        |x: int|
                            if x < h.len() && u.cells.contains_key(h[x]) {
                                u.cells[h[x]]
                            } else {
                                field_at(t, x)
                            },
                    ),
                decreases n - j,
            {
                let v = if j < headers.len() {
                    match newrow.get(headers[j].as_str()) {
                        Some(c) => c.to_owned(),
                        None => field_or_empty(rec, j),
                    }
                } else {
                    field_or_empty(rec, j)
                };
                proof {
                    lemma_texts_push(out@, v);
                }
                out.push(v);
                assert(texts(out@) =~= Seq::new(
                    (j + 1) as nat,
                    |x: int|
                        if x < h.len() && u.cells.contains_key(h[x]) {
                            u.cells[h[x]]
                        } else {
                            field_at(t, x)
                        },
                ));
                j += 1;
            }
            out
        },
    }
}

/// The records that a table with header `headers` and records `records` is
/// saved as, with the rows of `updates` written over the records they key.
pub fn updated_records(
    headers: &Vec<String>,
    records: &Vec<Vec<String>>,
    key_col: &str,
    updates: &RowMap,
) -> (r: Vec<Vec<String>>)
    ensures
        records_texts(r@) == saved_records(
            texts(headers@),
            records_texts(records@),
            key_col@,
            updates@,
        ),
{
    let ghost h = texts(headers@);
    let ghost recs = records_texts(records@);
    let k = save_key_position(headers, key_col);
    let mut out: Vec<Vec<String>> = Vec::new();
    out.push(headers.clone());
    assert(records_texts(out@) =~= seq![h]);
    let mut i: usize = 0;
    while i < records.len()
        invariant
            i <= records.len(),
            h == texts(headers@),
            recs == records_texts(records@),
            k == save_key_index(h, key_col@),
            records_texts(out@) == seq![h] + Seq::new(
                i as nat,
                |x: int| saved_record(h, recs[x], k as int, updates@),
            ),
        decreases records.len() - i,
    {
        let rec = save_record(headers, &records[i], k, updates);
        assert(recs[i as int] == texts(records@[i as int]@));
        let ghost before = out@;
        out.push(rec);
        assert(records_texts(out@) =~= records_texts(before).push(texts(rec@)));
        assert(records_texts(out@) =~= seq![h] + Seq::new(
            (i + 1) as nat,
            |x: int| saved_record(h, recs[x], k as int, updates@),
        ));
        i += 1;
    }
    out
}

/// Why a table could not be loaded or saved.
#[derive(Debug, Clone)]
pub enum StoreError {
    /// The text of the file at `path` could not be read as delimited records.
    Parse { path: String, message: String },
}

/// `r` failed to read the file at `path`.
pub open spec fn is_parse_error_of<T>(r: Result<T, StoreError>, path: Seq<char>) -> bool {
    r matches Err(StoreError::Parse { path: p, .. }) && p@ == path
}

/// The bytes of records written one after another.
pub open spec fn encoded(recs: Seq<Seq<Seq<char>>>) -> Seq<u8>
    decreases recs.len(),
{
    if recs.len() == 0 {
        Seq::empty()
    } else {
        encoded(recs.drop_last()) + csv_record_bytes(recs.last())
    }
}

/// Loads a table from the text of the file at `path`: its header, its rows
/// by the key column chosen for `key_hint`, and each column's inferred type.
/// The schema is named after the path's file stem.
pub fn load_table(path: &str, content: &[u8], key_hint: &str) -> (r: Result<
    (TableSchema, RowMap),
    StoreError,
>)
    ensures
        r is Ok <==> csv_read(content@) is Some,
        r matches Ok((schema, rows)) ==> {
            let (h, recs) = csv_read(content@)->0;
            is_loaded_table(schema, rows, h, recs, key_hint@) && is_stem_of(path@, schema.name@)
        },
        r is Err ==> is_parse_error_of(r, path@),
{
    match read_delimited(content) {
        Ok((headers, records)) => {
            let name = file_stem(path);
            Ok(table_from_records(name, &headers, &records, key_hint))
        },
        Err(e) => Err(StoreError::Parse { path: path.to_owned(), message: e.to_string() }),
    }
}

/// Writes `records` one after another.
fn encode_records(records: &Vec<Vec<String>>) -> (r: Vec<u8>)
    ensures
        r@ == encoded(records_texts(records@)),
{
    let ghost recs = records_texts(records@);
    let mut out: Vec<u8> = Vec::new();
    let mut i: usize = 0;
    while i < records.len()
        invariant
            i <= records.len(),
            recs == records_texts(records@),
            out@ == encoded(recs.take(i as int)),
        decreases records.len() - i,
    {
        if let Ok(mut b) = write_delimited_record(&records[i]) {
            assert(recs.take(i + 1).drop_last() =~= recs.take(i as int));
            out.append(&mut b);
        }
        i += 1;
    }
    assert(recs.take(i as int) =~= recs);
    out
}

/// Saves `updates` over `stored`, the text that the file at `path` holds now,
/// of a table whose key column is `key_col`: the header, the column order and
/// the record order stay as they were, and only the cells that a row of
/// `updates` holds change. Returns the new text of the file.
pub fn save_table(path: &str, stored: &[u8], key_col: &str, updates: &RowMap) -> (r: Result<
    Vec<u8>,
    StoreError,
>)
    ensures
        r is Ok <==> csv_read(stored@) is Some,
        csv_read(stored@) is None ==> is_parse_error_of(r, path@),
        csv_read(stored@) matches Some((h, recs)) ==> r matches Ok(b) && b@ == encoded(
            saved_records(h, recs, key_col@, updates@),
        ),
{
    match read_delimited(stored) {
        Ok((headers, records)) => {
            let out = updated_records(&headers, &records, key_col, updates);
            Ok(encode_records(&out))
        },
        Err(e) => Err(StoreError::Parse { path: path.to_owned(), message: e.to_string() }),
    }
}

/// The column a table is saved by, when it is the one chosen at load time,
/// is found at the same index.
proof fn lemma_save_key_index_agrees(h: Seq<Seq<char>>, hint: Seq<char>)
    ensures
        save_key_index(h, resolved_key_column(h, hint)) == load_key_index(h, hint),
{
    let kc = resolved_key_column(h, hint);
    if exists|i: int| is_first_exact(h, hint, i) {
        let i = choose|i: int| is_first_exact(h, hint, i);
        assert(is_first_exact(h, kc, i));
        assert forall|x: int| is_first_exact(h, kc, x) implies x == i by {
            if x < i {
                assert(h[x] != hint);
            } else if x > i {
                assert(h[i] == kc);
            }
        }
    } else if exists|i: int| is_first_ci(h, hint, i) {
        let i = choose|i: int| is_first_ci(h, hint, i);
        assert forall|j: int| 0 <= j < i implies h[j] != kc by {
            assert(!ascii_ci_eq(h[j], hint));
        }
        assert(is_first_exact(h, kc, i));
        assert forall|x: int| is_first_exact(h, kc, x) implies x == i by {
            if x > i {
                assert(h[i] == kc);
            }
        }
    } else if h.len() > 0 {
        assert(is_first_exact(h, kc, 0));
        assert forall|x: int| is_first_exact(h, kc, x) implies x == 0 by {
            if x > 0 {
                assert(h[0] == kc);
            }
        }
    }
}

/// Headers are pairwise distinct.
pub open spec fn distinct_headers(h: Seq<Seq<char>>) -> bool {
    forall|i: int, j: int| 0 <= i < j < h.len() ==> h[i] != h[j]
}

/// No two records have the same field at `k`.
pub open spec fn distinct_keys(recs: Seq<Seq<Seq<char>>>, k: int) -> bool {
    forall|i: int, j: int| 0 <= i < j < recs.len() ==> field_at(recs[i], k) != field_at(recs[j], k)
}

/// Every record has a field under every header.
pub open spec fn full_width(h: Seq<Seq<char>>, recs: Seq<Seq<Seq<char>>>) -> bool {
    forall|i: int| 0 <= i < recs.len() ==> (#[trigger] recs[i]).len() >= h.len()
}

/// Saving the rows of a freshly loaded table over its own text, with no edit
/// in between, gives back its header and every record unchanged, in order.
/// This needs distinct headers, distinct keys, and no record shorter than
/// the header: otherwise one row stands for several records or several
/// columns, or a short record comes back padded with the empty cells it was
/// loaded with.
pub proof fn lemma_round_trip(content: Seq<u8>, key_hint: Seq<char>)
    requires
        csv_read(content) matches Some((h, recs)) && distinct_headers(h) && distinct_keys(
            recs,
            load_key_index(h, key_hint),
        ) && full_width(h, recs),
    ensures
        ({
            let (h, recs) = csv_read(content)->0;
            let rows = loaded_rows(h, recs, load_key_index(h, key_hint));
            saved_records(h, recs, resolved_key_column(h, key_hint), rows) == seq![h] + recs
        }),
{
    let (h, recs) = csv_read(content)->0;
    let k = load_key_index(h, key_hint);
    let kc = resolved_key_column(h, key_hint);
    let rows = loaded_rows(h, recs, k);
    lemma_save_key_index_agrees(h, key_hint);
    let entries = Seq::new(
        recs.len(),
        |i: int| (field_at(recs[i], k), loaded_row(h, recs[i], k)),
    );
    assert forall|i: int| 0 <= i < recs.len() implies saved_record(
        h,
        recs[i],
        k,
        rows,
    ) == #[trigger] recs[i] by {
        let r = recs[i];
        if h.len() == 0 {
            assert(saved_record(h, r, k, rows) =~= r);
        } else {
            assert(0 <= k < h.len()) by {
                if exists|x: int| is_first_exact(h, key_hint, x) {
                    let x = choose|x: int| is_first_exact(h, key_hint, x);
                } else if exists|x: int| is_first_ci(h, key_hint, x) {
                    let x = choose|x: int| is_first_ci(h, key_hint, x);
                }
            }
            assert(r.len() >= h.len());
            assert forall|j: int| i < j < entries.len() implies (#[trigger] entries[j]).0
                != entries[i].0 by {
                assert(field_at(recs[i], k) != field_at(recs[j], k));
            }
            lemma_assoc_last(entries, i);
            let cells = Seq::new(h.len(), |j: int| (h[j], field_at(r, j)));
            assert forall|j: int| 0 <= j < h.len() implies loaded_cells(h, r).contains_key(
                h[j],
            ) && loaded_cells(h, r)[h[j]] == #[trigger] r[j] by {
                assert forall|x: int| j < x < cells.len() implies (#[trigger] cells[x]).0
                    != cells[j].0 by {
                    assert(h[j] != h[x]);
                }
                lemma_assoc_last(cells, j);
            }
            assert(saved_record(h, r, k, rows) =~= r);
        }
    }
    assert(saved_records(h, recs, kc, rows) =~= seq![h] + recs);
}

/// Saving writes every record whose key has no row in `updates` exactly as
/// it was, whatever the other rows change.
pub proof fn lemma_untouched_record_kept(
    h: Seq<Seq<char>>,
    recs: Seq<Seq<Seq<char>>>,
    key_col: Seq<char>,
    updates: Map<Seq<char>, RowView>,
    i: int,
)
    requires
        0 <= i < recs.len(),
        !updates.contains_key(save_key(h, recs[i], save_key_index(h, key_col))),
    ensures
        saved_records(h, recs, key_col, updates)[i + 1] == recs[i],
{
}

/// A column that no row of `updates` has a cell for keeps its header and
/// every field as it was: columns unknown to the edits survive a save.
pub proof fn lemma_unknown_column_kept(
    h: Seq<Seq<char>>,
    recs: Seq<Seq<Seq<char>>>,
    key_col: Seq<char>,
    updates: Map<Seq<char>, RowView>,
    j: int,
)
    requires
        0 <= j < h.len(),
        forall|key: Seq<char>| #[trigger]
            updates.contains_key(key) ==> !updates[key].cells.contains_key(h[j]),
    ensures
        saved_records(h, recs, key_col, updates)[0][j] == h[j],
        forall|i: int|
            0 <= i < recs.len() ==> field_at(
                #[trigger] saved_records(h, recs, key_col, updates)[i + 1],
                j,
            ) == field_at(recs[i], j),
{
    assert forall|i: int| 0 <= i < recs.len() implies field_at(
        #[trigger] saved_records(h, recs, key_col, updates)[i + 1],
        j,
    ) == field_at(recs[i], j) by {
        assert(saved_records(h, recs, key_col, updates)[i + 1] == saved_record(
            h,
            recs[i],
            save_key_index(h, key_col),
            updates,
        ));
    }
}

/// No row of `updates` gives the key column a value other than the row's
/// own key.
pub open spec fn keeps_keys(h: Seq<Seq<char>>, key_col: Seq<char>, updates: Map<Seq<char>, RowView>) -> bool {
    let ki = save_key_index(h, key_col);
    forall|key: Seq<char>|
        #[trigger] updates.contains_key(key) && 0 <= ki < h.len() && updates[key].cells.contains_key(
            h[ki],
        ) ==> updates[key].cells[h[ki]] == key
}

/// Saving the same updates over what a save wrote changes no record again,
/// provided no row rewrites its own key.
pub proof fn lemma_save_idempotent(
    h: Seq<Seq<char>>,
    recs: Seq<Seq<Seq<char>>>,
    key_col: Seq<char>,
    updates: Map<Seq<char>, RowView>,
)
    requires
        keeps_keys(h, key_col, updates),
    ensures
        ({
            let once = saved_records(h, recs, key_col, updates);
            saved_records(h, once.drop_first(), key_col, updates) == once
        }),
{
    let ki = save_key_index(h, key_col);
    let once = saved_records(h, recs, key_col, updates);
    assert(0 <= ki) by {
        if exists|i: int| is_first_exact(h, key_col, i) {
            let i = choose|i: int| is_first_exact(h, key_col, i);
        }
    }
    assert(h.len() > 0 ==> ki < h.len()) by {
        if exists|i: int| is_first_exact(h, key_col, i) {
            let i = choose|i: int| is_first_exact(h, key_col, i);
        }
    }
    assert forall|i: int| 0 <= i < recs.len() implies saved_record(
        h,
        #[trigger] saved_record(h, recs[i], ki, updates),
        ki,
        updates,
    ) == saved_record(h, recs[i], ki, updates) by {
        let r = recs[i];
        let r1 = saved_record(h, r, ki, updates);
        let key = save_key(h, r, ki);
        if updates.contains_key(key) {
            if 0 <= ki < h.len() {
                assert(r1[ki] == key);
            }
            assert(save_key(h, r1, ki) == key);
            assert(saved_record(h, r1, ki, updates) =~= r1);
        }
    }
    assert(saved_records(h, once.drop_first(), key_col, updates) =~= once);
}

} // verus!
