//! Rows: the values of a table row under the names of its columns.

use crate::page::{CellModel, Page, PageValue};
use crate::sql::{ColumnDef, ColumnModel, WhereClause, WhereModel};
use crate::text::same_text;
use crate::value::{Data, Value};
use vstd::prelude::*;
use vstd::string::StringExecFns;

verus! {

/// A row: values under column names. A name that is entered again takes the
/// new value.
#[derive(Debug, Clone, PartialEq)]
pub struct Row {
    pub entries: Vec<(String, Data)>,
}

/// What a row is: a map from column names to values.
pub type RowModel = Map<Seq<char>, Value>;

/// The names and values of a list of entries.
pub open spec fn pairs(entries: Seq<(String, Data)>) -> Seq<(Seq<char>, Value)> {
    Seq::new(entries.len(), |i: int| (entries[i].0@, entries[i].1@))
}

/// The map that a list of entries makes: each name with the value entered
/// last under it.
pub open spec fn entries_map(entries: Seq<(Seq<char>, Value)>) -> RowModel
    decreases entries.len(),
{
    if entries.len() == 0 {
        Map::empty()
    } else {
        entries_map(entries.drop_last()).insert(entries.last().0, entries.last().1)
    }
}

impl View for Row {
    type V = RowModel;

    open spec fn view(&self) -> RowModel {
        entries_map(pairs(self.entries@))
    }
}

impl DeepView for Row {
    type V = RowModel;

    open spec fn deep_view(&self) -> RowModel {
        self.view()
    }
}

/// A name stands in the map with the value of its last entry.
pub proof fn lemma_entries_map_found(entries: Seq<(Seq<char>, Value)>, i: int, name: Seq<char>)
    requires
        0 <= i < entries.len(),
        entries[i].0 == name,
        forall|j: int| i < j < entries.len() ==> entries[j].0 != name,
    ensures
        entries_map(entries).contains_key(name),
        entries_map(entries)[name] == entries[i].1,
    decreases entries.len(),
{
    if i < entries.len() - 1 {
        lemma_entries_map_found(entries.drop_last(), i, name);
    }
}

/// A name without an entry does not stand in the map.
pub proof fn lemma_entries_map_absent(entries: Seq<(Seq<char>, Value)>, name: Seq<char>)
    requires
        forall|j: int| 0 <= j < entries.len() ==> entries[j].0 != name,
    ensures
        !entries_map(entries).contains_key(name),
    decreases entries.len(),
{
    if entries.len() > 0 {
        lemma_entries_map_absent(entries.drop_last(), name);
    }
}

impl Row {
    /// The row without entries.
    pub fn new() -> (r: Row)
        ensures
            r@ == Map::<Seq<char>, Value>::empty(),
    {
        let r = Row { entries: Vec::new() };
        assert(pairs(r.entries@) =~= Seq::empty());
        r
    }

    /// Enters `value` under `name`.
    pub fn insert(&mut self, name: String, value: Data)
        ensures
            final(self)@ == old(self)@.insert(name@, value@),
    {
        let ghost before = pairs(self.entries@);
        self.entries.push((name, value));
        assert(pairs(self.entries@).drop_last() =~= before);
    }

    /// The value under `name`.
    pub fn get(&self, name: &str) -> (r: Option<&Data>)
        ensures
            match r {
                Some(value) => self@.contains_key(name@) && self@[name@] == value@,
                None => !self@.contains_key(name@),
            },
    {
        let mut i = self.entries.len();
        while i > 0
            invariant
                i <= self.entries.len(),
                forall|j: int| i <= j < self.entries.len() ==> pairs(self.entries@)[j].0 != name@,
            decreases i,
        {
            i -= 1;
            if same_text(self.entries[i].0.as_str(), name) {
                proof {
                    lemma_entries_map_found(pairs(self.entries@), i as int, name@);
                }
                return Some(&self.entries[i].1);
            }
        }
        proof {
            lemma_entries_map_absent(pairs(self.entries@), name@);
        }
        None
    }
}

/// The value of column `i` of a row: the row id where the column is the
/// integer primary key, else the value that the record holds at `i`, or
/// null where the record is shorter.
pub open spec fn column_value(column: ColumnModel, payload: Seq<Value>, i: int, rowid: i64)
    -> Value {
    if column.ipk {
        Value::Integer(rowid)
    } else if 0 <= i < payload.len() {
        payload[i]
    } else {
        Value::Null
    }
}

/// The row of a record under the first `n` of the columns: the row id under
/// `rowid`, then each column's value under the column's name.
pub open spec fn spec_row_upto(columns: Seq<ColumnModel>, payload: Seq<Value>, rowid: i64, n: nat)
    -> RowModel
    decreases n,
{
    if n == 0 {
        Map::empty().insert("rowid"@, Value::Integer(rowid))
    } else {
        spec_row_upto(columns, payload, rowid, (n - 1) as nat).insert(
            columns[n - 1].name,
            column_value(columns[n - 1], payload, n - 1, rowid),
        )
    }
}

/// The row of a record with row id `rowid` under the columns of its table.
pub open spec fn spec_row(columns: Seq<ColumnModel>, payload: Seq<Value>, rowid: i64) -> RowModel {
    spec_row_upto(columns, payload, rowid, columns.len())
}

/// Makes the row of a record: the row id under the name `rowid`, and under
/// each column's name the column's value, which is the row id for the
/// integer primary key and null for a column that the record is too short
/// for.
pub fn materialize(payload: &Vec<Data>, rowid: i64, columns: &[ColumnDef]) -> (r: Row)
    ensures
        r@ == spec_row(columns.deep_view(), payload.deep_view(), rowid),
{
    let mut row = Row::new();
    row.insert(String::from_str("rowid"), Data::Integer(rowid));
    let mut i: usize = 0;
    while i < columns.len()
        invariant
            i <= columns.len(),
            columns.deep_view().len() == columns.len(),
            row@ == spec_row_upto(columns.deep_view(), payload.deep_view(), rowid, i as nat),
        decreases columns.len() - i,
    {
        assert(columns.deep_view()[i as int] == columns[i as int]@);
        let value = if columns[i].ipk {
            Data::Integer(rowid)
        } else if i < payload.len() {
            assert(payload.deep_view()[i as int] == payload[i as int]@);
            payload[i].duplicate()
        } else {
            Data::Null
        };
        row.insert(columns[i].name.clone(), value);
        i += 1;
    }
    row
}

/// Whether a row passes a filter: there is none, or the row holds the
/// filter's text under the filter's column.
pub open spec fn passes(row: RowModel, filter: Option<WhereModel>) -> bool {
    match filter {
        None => true,
        Some(clause) => row.contains_key(clause.column) && row[clause.column] == Value::Text(
            clause.value,
        ),
    }
}

/// The view of a filter.
pub open spec fn filter_model(filter: Option<WhereClause>) -> Option<WhereModel> {
    match filter {
        Some(clause) => Some(clause@),
        None => None,
    }
}

/// Whether the row passes the filter.
pub fn row_passes(row: &Row, filter: &Option<WhereClause>) -> (r: bool)
    ensures
        r == passes(row@, filter_model(*filter)),
{
    match filter {
        None => true,
        Some(clause) => match row.get(clause.column.as_str()) {
            Some(value) => value.is_text(clause.value.as_str()),
            None => false,
        },
    }
}

/// The rows of the first `n` cells that pass the filter, in cell order. Only
/// leaf table cells make rows.
pub open spec fn spec_rows(
    cells: Seq<CellModel>,
    columns: Seq<ColumnModel>,
    filter: Option<WhereModel>,
    n: nat,
) -> Seq<RowModel>
    decreases n,
{
    if n == 0 {
        Seq::empty()
    } else {
        let before = spec_rows(cells, columns, filter, (n - 1) as nat);
        match cells[n - 1] {
            CellModel::TableLeaf { row_id, payload } => {
                let row = spec_row(columns, payload, row_id);
                if passes(row, filter) {
                    before.push(row)
                } else {
                    before
                }
            },
            _ => before,
        }
    }
}

/// The rows of a list of cells under the columns of their table, in cell
/// order: those that hold the filter's text under the filter's column, where
/// there is a filter. Only leaf table cells make rows. The comparison is
/// equality, whatever operator the filter names.
pub fn rows_of(values: &[PageValue], columns: &[ColumnDef], filter: &Option<WhereClause>) -> (r:
    Vec<Row>)
    ensures
        r.deep_view() == spec_rows(
            values.deep_view(),
            columns.deep_view(),
            filter_model(*filter),
            values.deep_view().len(),
        ),
{
    let mut rows: Vec<Row> = Vec::new();
    let mut i: usize = 0;
    assert(rows.deep_view() =~= Seq::empty());
    while i < values.len()
        invariant
            i <= values.len(),
            values.deep_view().len() == values.len(),
            rows.deep_view() == spec_rows(
                values.deep_view(),
                columns.deep_view(),
                filter_model(*filter),
                i as nat,
            ),
        decreases values.len() - i,
    {
        assert(values.deep_view()[i as int] == values[i as int]@);
        match &values[i] {
            PageValue::LeafTable { payload, rowid } => {
                let row = materialize(payload, *rowid, columns);
                if row_passes(&row, filter) {
                    let ghost before = rows.deep_view();
                    rows.push(row);
                    assert(rows.deep_view() =~= before.push(row@));
                }
            },
            _ => {},
        }
        i += 1;
    }
    rows
}

/// The rows of a leaf table page under the columns of its table, in cell
/// order: those that hold the filter's text under the filter's column, where
/// there is a filter. The comparison is equality, whatever operator the
/// filter names.
pub fn get_rows(page: &Page, columns: &[ColumnDef], where_: Option<WhereClause>) -> (r: Vec<Row>)
    ensures
        r.deep_view() == spec_rows(
            page@.cells,
            columns.deep_view(),
            filter_model(where_),
            page@.cells.len(),
        ),
{
    rows_of(page.values.as_slice(), columns, &where_)
}

/// A column's value stays in the row as long as no later column has the
/// column's name.
pub proof fn lemma_row_keeps_column(
    columns: Seq<ColumnModel>,
    payload: Seq<Value>,
    rowid: i64,
    i: int,
    n: nat,
)
    requires
        0 <= i < n <= columns.len(),
        forall|j: int| i < j < columns.len() ==> columns[j].name != columns[i].name,
    ensures
        spec_row_upto(columns, payload, rowid, n).contains_key(columns[i].name),
        spec_row_upto(columns, payload, rowid, n)[columns[i].name] == column_value(
            columns[i],
            payload,
            i,
            rowid,
        ),
    decreases n,
{
    if n > i + 1 {
        lemma_row_keeps_column(columns, payload, rowid, i, (n - 1) as nat);
    }
}

/// The integer primary key of a row is its row id: a row holds the row id
/// under the name of a column that is the integer primary key, unless a
/// later column of the table has the same name.
pub proof fn lemma_primary_key_is_rowid(
    columns: Seq<ColumnModel>,
    payload: Seq<Value>,
    rowid: i64,
    i: int,
)
    requires
        0 <= i < columns.len(),
        columns[i].ipk,
        forall|j: int| i < j < columns.len() ==> columns[j].name != columns[i].name,
    ensures
        spec_row(columns, payload, rowid).contains_key(columns[i].name),
        spec_row(columns, payload, rowid)[columns[i].name] == Value::Integer(rowid),
{
    lemma_row_keeps_column(columns, payload, rowid, i, columns.len());
}

} // verus!
