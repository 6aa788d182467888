//! Table schemas and column type inference.
use vstd::prelude::*;

use crate::text::{ascii_ci_eq, eq_ignore_ascii_case, is_f64_str, is_f64_text, is_i64_str, is_i64_text, texts};

verus! {

/// The kind of value a column holds, as suggested by its cells.
#[derive(Debug, Clone, Copy, PartialEq, Eq, Structural)]
pub enum DataType {
    Int,
    Float,
    Text,
}

/// One column of a table: its canonical key, its display label and its
/// inferred type.
#[derive(Debug, Clone)]
pub struct ColumnDef {
    pub key: String,
    pub label: String,
    pub dtype: DataType,
}

/// The description of one loaded table.
#[derive(Debug, Clone)]
pub struct TableSchema {
    /// The table's name, taken from its file name.
    pub name: String,
    /// The header text of the column that identifies rows.
    pub key_column: String,
    /// One entry per header, in header order, the key column included.
    pub columns: Vec<ColumnDef>,
}

/// At most this many leading cells of a column are looked at to infer its type.
pub const SAMPLE_LIMIT: usize = 8;

/// The type suggested by a column's sampled cells: `Int` when every sample is
/// an `i64`, else `Float` when every sample is empty or an `f64`, else `Text`.
/// No samples give `Text`.
pub open spec fn dtype_of(samples: Seq<Seq<char>>) -> DataType {
    if samples.len() > 0 && forall|i: int| 0 <= i < samples.len() ==> is_i64_text(#[trigger] samples[i]) {
        DataType::Int
    } else if samples.len() > 0 && forall|i: int|
        0 <= i < samples.len() ==> (#[trigger] samples[i]).len() == 0 || is_f64_text(samples[i]) {
        DataType::Float
    } else {
        DataType::Text
    }
}

/// Infers a column's type from its sampled cells.
pub fn infer_dtype(samples: &[String]) -> (r: DataType)
    ensures
        r == dtype_of(texts(samples@)),
{
    let ghost t = texts(samples@);
    if samples.len() == 0 {
        return DataType::Text;
    }
    let mut all_int = true;
    let mut all_float = true;
    let mut i: usize = 0;
    while i < samples.len()
        invariant
            i <= samples.len(),
            t == texts(samples@),
            all_int == forall|j: int| 0 <= j < i ==> is_i64_text(#[trigger] t[j]),
            all_float == forall|j: int|
                0 <= j < i ==> (#[trigger] t[j]).len() == 0 || is_f64_text(t[j]),
        decreases samples.len() - i,
    {
        let s = samples[i].as_str();
        assert(s@ == t[i as int]);
        if all_int && !is_i64_str(s) {
            all_int = false;
        }
        if all_float && !(s.is_empty() || is_f64_str(s)) {
            all_float = false;
        }
        i += 1;
    }
    if all_int {
        DataType::Int
    } else if all_float {
        DataType::Float
    } else {
        DataType::Text
    }
}

impl TableSchema {
    /// The first column whose key matches `key` up to ASCII case.
    pub fn find(&self, key: &str) -> (r: Option<&ColumnDef>)
        ensures
            match r {
                Some(c) => exists|i: int|
                    0 <= i < self.columns.len() && *c == self.columns[i] && ascii_ci_eq(
                        self.columns[i].key@,
                        key@,
                    ) && forall|j: int|
                        0 <= j < i ==> !ascii_ci_eq(#[trigger] self.columns[j].key@, key@),
                None => forall|j: int|
                    0 <= j < self.columns.len() ==> !ascii_ci_eq(
                        #[trigger] self.columns[j].key@,
                        key@,
                    ),
            },
    {
        let mut i: usize = 0;
        while i < self.columns.len()
            invariant
                i <= self.columns.len(),
                forall|j: int| 0 <= j < i ==> !ascii_ci_eq(#[trigger] self.columns[j].key@, key@),
            decreases self.columns.len() - i,
        {
            if eq_ignore_ascii_case(self.columns[i].key.as_str(), key) {
                return Some(&self.columns[i]);
            }
            i += 1;
        }
        None
    }
}

} // verus!
