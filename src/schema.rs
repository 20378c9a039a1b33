//! Schema inference: a table's column names come from its header record,
//! and each column's type is the most general type among its values.

use vstd::prelude::*;

use crate::numbers::{float_syntax, i64_value, is_float_text, parse_i64};
use crate::text::views;

verus! {

/// The type of a column, ordered from strictest to most general.
#[derive(Clone, Copy, Debug, PartialEq, Eq, Structural)]
pub enum ColumnType {
    Int,
    Float,
    String,
}

/// A column type's place in the order `Int < Float < String`.
pub open spec fn rank(t: ColumnType) -> int {
    match t {
        ColumnType::Int => 0,
        ColumnType::Float => 1,
        ColumnType::String => 2,
    }
}

/// The more general of two column types.
pub open spec fn wider(a: ColumnType, b: ColumnType) -> ColumnType {
    if rank(a) >= rank(b) {
        a
    } else {
        b
    }
}

/// The strictest type that can represent a value.
pub open spec fn cell_type(s: Seq<char>) -> ColumnType {
    if i64_value(s).is_some() {
        ColumnType::Int
    } else if float_syntax(s) {
        ColumnType::Float
    } else {
        ColumnType::String
    }
}

/// The position-wise wider type of two lists, as long as the shorter one.
pub open spec fn merged(a: Seq<ColumnType>, b: Seq<ColumnType>) -> Seq<ColumnType> {
    let n = if a.len() <= b.len() {
        a.len()
    } else {
        b.len()
    };
    Seq::new(n, |i: int| wider(a[i], b[i]))
}

/// The type of each value of a record.
pub open spec fn record_types(rec: Seq<Seq<char>>) -> Seq<ColumnType> {
    Seq::new(rec.len(), |i: int| cell_type(rec[i]))
}

/// The column types of data records with `ncols` columns: every column
/// starts as `Int` and widens to fit each record in turn.
pub open spec fn column_types(records: Seq<Seq<Seq<char>>>, ncols: nat) -> Seq<ColumnType>
    decreases records.len(),
{
    if records.len() == 0 {
        Seq::new(ncols, |i: int| ColumnType::Int)
    } else {
        merged(column_types(records.drop_last(), ncols), record_types(records.last()))
    }
}

/// The views of a list of records.
pub open spec fn records_view(rows: Seq<Vec<String>>) -> Seq<Seq<Seq<char>>> {
    rows.map_values(|r: Vec<String>| views(r@))
}

/// The header of parsed CSV rows: the first record, if any.
pub open spec fn header_of(rows: Seq<Seq<Seq<char>>>) -> Seq<Seq<char>> {
    if rows.len() > 0 {
        rows[0]
    } else {
        Seq::<Seq<char>>::empty()
    }
}

/// The data records of parsed CSV rows: all but the header.
pub open spec fn data_of(rows: Seq<Seq<Seq<char>>>) -> Seq<Seq<Seq<char>>> {
    if rows.len() > 0 {
        rows.skip(1)
    } else {
        rows
    }
}

/// The inferred types of the columns of parsed CSV rows.
pub open spec fn inferred_types(rows: Seq<Seq<Seq<char>>>) -> Seq<ColumnType> {
    column_types(data_of(rows), header_of(rows).len())
}

/// The inferred (name, type) columns of parsed CSV rows.
pub open spec fn inferred_columns(rows: Seq<Seq<Seq<char>>>) -> Seq<(Seq<char>, ColumnType)> {
    let h = header_of(rows);
    let t = inferred_types(rows);
    let n = if h.len() <= t.len() {
        h.len()
    } else {
        t.len()
    };
    Seq::new(n, |i: int| (h[i], t[i]))
}

/// A table's schema: its identifier and its (name, type) columns.
#[derive(Debug, Clone)]
pub struct Schema {
    pub table_name: String,
    pub columns: Vec<(String, ColumnType)>,
}

impl Schema {
    /// The columns as (name, type) pairs of views.
    pub open spec fn columns_view(&self) -> Seq<(Seq<char>, ColumnType)> {
        self.columns@.map_values(|c: (String, ColumnType)| (c.0@, c.1))
    }
}

/// The strictest column type that can represent a value.
pub fn min_column_type(value: &str) -> (r: ColumnType)
    ensures
        r == cell_type(value@),
{
    if parse_i64(value).is_some() {
        ColumnType::Int
    } else if is_float_text(value) {
        ColumnType::Float
    } else {
        ColumnType::String
    }
}

fn wider_exec(a: ColumnType, b: ColumnType) -> (r: ColumnType)
    ensures
        r == wider(a, b),
{
    match (a, b) {
        (ColumnType::String, _) => a,
        (_, ColumnType::String) => b,
        (ColumnType::Float, _) => a,
        (_, ColumnType::Float) => b,
        _ => a,
    }
}

/// Given two lists of column types, the more general type in each position.
pub fn merge_column_types(first: &Vec<ColumnType>, second: &Vec<ColumnType>) -> (r: Vec<
    ColumnType,
>)
    ensures
        r@ == merged(first@, second@),
{
    let n = if first.len() <= second.len() {
        first.len()
    } else {
        second.len()
    };
    let mut r: Vec<ColumnType> = Vec::new();
    let mut i: usize = 0;
    while i < n
        invariant
            i <= n,
            n <= first.len(),
            n <= second.len(),
            r@.len() == i,
            forall|j: int| 0 <= j < i ==> r@[j] == wider(first@[j], second@[j]),
        decreases n - i,
    {
        r.push(wider_exec(first[i], second[i]));
        i = i + 1;
    }
    assert(r@ == merged(first@, second@));
    r
}

/// The type of each value of a record.
pub fn column_types_from_record(record: &Vec<String>) -> (r: Vec<ColumnType>)
    ensures
        r@ == record_types(views(record@)),
{
    let mut r: Vec<ColumnType> = Vec::new();
    let mut i: usize = 0;
    while i < record.len()
        invariant
            i <= record.len(),
            r@.len() == i,
            forall|j: int| 0 <= j < i ==> r@[j] == cell_type(record@[j]@),
        decreases record.len() - i,
    {
        r.push(min_column_type(record[i].as_str()));
        i = i + 1;
    }
    assert(r@ == record_types(views(record@)));
    r
}

/// The column types of data records with `ncols` columns, by reading
/// every value.
pub fn determine_column_types(records: &Vec<Vec<String>>, from: usize, ncols: usize) -> (r: Vec<
    ColumnType,
>)
    requires
        from <= records.len(),
    ensures
        r@ == column_types(records_view(records@).skip(from as int), ncols as nat),
{
    let mut types: Vec<ColumnType> = Vec::new();
    let mut c: usize = 0;
    while c < ncols
        invariant
            c <= ncols,
            types@.len() == c,
            forall|j: int| 0 <= j < c ==> types@[j] == ColumnType::Int,
        decreases ncols - c,
    {
        types.push(ColumnType::Int);
        c = c + 1;
    }
    let ghost all = records_view(records@).skip(from as int);
    assert(all.take(0) == Seq::<Seq<Seq<char>>>::empty());
    assert(types@ == column_types(all.take(0), ncols as nat));
    let mut i: usize = from;
    while i < records.len()
        invariant
            from <= i <= records.len(),
            all == records_view(records@).skip(from as int),
            types@ == column_types(all.take(i - from), ncols as nat),
        decreases records.len() - i,
    {
        let rec_types = column_types_from_record(&records[i]);
        types = merge_column_types(&types, &rec_types);
        assert(all.take(i - from + 1).drop_last() == all.take(i - from));
        assert(all.take(i - from + 1).last() == views(records@[i as int]@));
        i = i + 1;
    }
    assert(all.take(records.len() - from) == all);
    types
}

/// The schema of a table from its parsed CSV rows: the header record names
/// the columns, and the remaining records decide their types.
pub fn schema_from_records(table_name: String, rows: &Vec<Vec<String>>) -> (r: Schema)
    ensures
        r.table_name@ == table_name@,
        r.columns_view() == inferred_columns(records_view(rows@)),
{
    let ghost rv = records_view(rows@);
    let (ncols, from): (usize, usize) = if rows.len() > 0 {
        (rows[0].len(), 1)
    } else {
        (0, 0)
    };
    proof {
        if rows.len() > 0 {
            assert(header_of(rv) == views(rows@[0]@));
            assert(data_of(rv) == rv.skip(1));
        } else {
            assert(data_of(rv) == rv.skip(0));
        }
    }
    let types = determine_column_types(rows, from, ncols);
    let mut columns: Vec<(String, ColumnType)> = Vec::new();
    let n = if ncols <= types.len() {
        ncols
    } else {
        types.len()
    };
    let mut i: usize = 0;
    while i < n
        invariant
            i <= n,
            n <= ncols,
            n <= types@.len(),
            rows@.len() > 0 ==> ncols == rows@[0]@.len(),
            rows@.len() == 0 ==> ncols == 0,
            columns@.len() == i,
            forall|j: int|
                0 <= j < i ==> (#[trigger] columns@[j]).0@ == rows@[0]@[j]@ && columns@[j].1
                    == types@[j],
        decreases n - i,
    {
        columns.push((rows[0][i].clone(), types[i]));
        i = i + 1;
    }
    let r = Schema { table_name, columns };
    assert(r.columns_view() == inferred_columns(rv));
    r
}

/// Widening values never narrows a column: where every value of `b` is at
/// least as general as the value in the same place of `a`, every inferred
/// column type of `b` is at least as general as that of `a`.
pub proof fn lemma_inference_monotonic(
    a: Seq<Seq<Seq<char>>>,
    b: Seq<Seq<Seq<char>>>,
    ncols: nat,
)
    requires
        a.len() == b.len(),
        forall|i: int| 0 <= i < a.len() ==> (#[trigger] a[i]).len() == b[i].len(),
        forall|i: int, j: int|
            0 <= i < a.len() && 0 <= j < a[i].len() ==> rank(cell_type(#[trigger] a[i][j])) <= rank(
                cell_type(b[i][j]),
            ),
    ensures
        column_types(a, ncols).len() == column_types(b, ncols).len(),
        forall|c: int|
            0 <= c < column_types(a, ncols).len() ==> rank(#[trigger] column_types(a, ncols)[c])
                <= rank(column_types(b, ncols)[c]),
    decreases a.len(),
{
    if a.len() > 0 {
        let a0 = a.drop_last();
        let b0 = b.drop_last();
        assert forall|i: int| 0 <= i < a0.len() implies (#[trigger] a0[i]).len() == b0[i].len() by {
            assert(a0[i] == a[i] && b0[i] == b[i]);
        }
        assert forall|i: int, j: int|
            0 <= i < a0.len() && 0 <= j < a0[i].len() implies rank(cell_type(#[trigger] a0[i][j]))
            <= rank(cell_type(b0[i][j])) by {
            assert(a0[i] == a[i] && b0[i] == b[i]);
        }
        lemma_inference_monotonic(a0, b0, ncols);
        let la = a.last();
        let lb = b.last();
        assert(la == a[a.len() - 1] && lb == b[b.len() - 1]);
        assert forall|j: int| 0 <= j < la.len() implies rank(record_types(la)[j]) <= rank(
            record_types(lb)[j],
        ) by {
            assert(rank(cell_type(a[a.len() - 1][j])) <= rank(cell_type(b[b.len() - 1][j])));
        }
    }
}

} // verus!
