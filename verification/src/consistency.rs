//! An index and its table: what the search of the index finds is what the
//! lookups in the table confirm.

use crate::btree::{index_key, index_rowid, spec_find, spec_leaves, spec_lookup, table_rowid};
use crate::database::DatabaseModel;
use crate::index_tree::{
    has_match,
    index_entries,
    index_tree_ordered,
    is_match,
    lemma_search_finds_entries,
    lemma_search_finds_only_entries,
    search_reaches,
};
use crate::order::Order;
use crate::page::CellModel;
use crate::table_tree::{
    cell_rowids,
    leaf_cells,
    lemma_lookup_finds_row,
    lemma_rowid_among,
    lemma_rowids_ascend,
    table_tree_ordered,
};
use crate::value::{value_order, Value};
use vstd::prelude::*;

verus! {

/// The value of column `column` of a row: what its record holds there, or
/// null where the record is shorter.
pub open spec fn row_column(cell: CellModel, column: int) -> Value {
    match cell {
        CellModel::TableLeaf { payload, .. } => if 0 <= column < payload.len() {
            payload[column]
        } else {
            Value::Null
        },
        _ => Value::Null,
    }
}

/// Whether the entries `entries` are an index on column `column` of the rows
/// `rows`: each entry with a row id has the key and the row id of a row, and
/// each row has an entry.
pub open spec fn indexes(entries: Seq<CellModel>, rows: Seq<CellModel>, column: int) -> bool {
    &&& forall|i: int|
        0 <= i < entries.len() && index_rowid(#[trigger] entries[i]) is Some ==> exists|j: int|
            0 <= j < rows.len() && table_rowid(#[trigger] rows[j]) == index_rowid(entries[i])
                && row_column(rows[j], column) == index_key(entries[i])
    &&& forall|j: int|
        0 <= j < rows.len() && table_rowid(#[trigger] rows[j]) is Some ==> exists|i: int|
            0 <= i < entries.len() && index_rowid(#[trigger] entries[i]) == table_rowid(rows[j])
                && index_key(entries[i]) == row_column(rows[j], column)
}

/// Whether the lookup of `rowid` in the table finds a row that holds `key`
/// in column `column`.
pub open spec fn row_has_key(
    db: DatabaseModel,
    table_root: usize,
    column: int,
    key: Value,
    rowid: i64,
) -> bool {
    match spec_lookup(db, table_root as u64, rowid, db.page_count()) {
        Ok(Some(cell)) => value_order(row_column(cell, column), key) == Order::Equal,
        _ => false,
    }
}

/// Among cells whose row ids ascend, two cells with the same row id are the
/// same cell.
pub proof fn lemma_one_row_per_rowid(cells: Seq<CellModel>, a: CellModel, b: CellModel, rowid: i64)
    requires
        forall|i: int, j: int| 0 <= i < j < cells.len() ==> cell_rowids(cells)[i] < cell_rowids(
            cells,
        )[j],
        cells.contains(a),
        cells.contains(b),
        table_rowid(a) == Some(rowid),
        table_rowid(b) == Some(rowid),
    ensures
        a == b,
{
    let i = choose|i: int| 0 <= i < cells.len() && cells[i] == a;
    let j = choose|j: int| 0 <= j < cells.len() && cells[j] == b;
    assert(cell_rowids(cells)[i] == rowid);
    assert(cell_rowids(cells)[j] == rowid);
}

/// The index finds the row ids of the rows that hold the key, for one row
/// id.
pub proof fn lemma_index_agrees_for(
    db: DatabaseModel,
    index_root: usize,
    table_root: usize,
    column: int,
    key: Value,
    rowid: i64,
)
    requires
        table_tree_ordered(db, table_root, i64::MIN - 1, i64::MAX as int, db.page_count()),
        index_tree_ordered(db, index_root, None, None, db.page_count()),
        indexes(
            index_entries(db, index_root, db.page_count()),
            leaf_cells(db, spec_leaves(db, table_root, db.page_count()).unwrap()),
            column,
        ),
        search_reaches(db, index_root, key, db.page_count()),
    ensures
        spec_find(db, index_root, key, db.page_count()) is Ok,
        spec_find(db, index_root, key, db.page_count()).unwrap().contains(rowid) <==> row_has_key(
            db,
            table_root,
            column,
            key,
            rowid,
        ),
{
    let fuel = db.page_count();
    let lo = i64::MIN - 1;
    let hi = i64::MAX as int;
    let entries = index_entries(db, index_root, fuel);
    lemma_search_finds_entries(db, index_root, None, None, fuel, key, rowid);
    lemma_rowids_ascend(db, table_root, lo, hi, fuel);
    lemma_lookup_finds_row(db, table_root, lo, hi, fuel, rowid);
    let leaves = spec_leaves(db, table_root, fuel).unwrap();
    let rows = leaf_cells(db, leaves);
    let found = spec_lookup(db, table_root as u64, rowid, fuel);
    if has_match(entries, key, rowid) {
        let i = choose|i: int| 0 <= i < entries.len() && is_match(#[trigger] entries[i], key, rowid);
        let j = choose|j: int|
            0 <= j < rows.len() && table_rowid(#[trigger] rows[j]) == index_rowid(entries[i])
                && row_column(rows[j], column) == index_key(entries[i]);
        assert(rows.contains(rows[j]));
        lemma_rowid_among(rows, rows[j], rowid);
        lemma_one_row_per_rowid(rows, rows[j], found.unwrap().unwrap(), rowid);
    }
    if row_has_key(db, table_root, column, key, rowid) {
        let cell = found.unwrap().unwrap();
        let j = choose|j: int| 0 <= j < rows.len() && rows[j] == cell;
        let i = choose|i: int|
            0 <= i < entries.len() && index_rowid(#[trigger] entries[i]) == table_rowid(rows[j])
                && index_key(entries[i]) == row_column(rows[j], column);
        assert(is_match(entries[i], key, rowid));
    }
}

/// An index agrees with its table: where the table and the index are
/// B-trees in order, the index holds an entry for each row of the table and
/// no other, and the search for `key` passes by no entry of the key, the
/// row ids that the search of the index yields are those whose lookup in
/// the table finds a row that holds `key` in the indexed column.
pub proof fn lemma_index_agrees_with_table(
    db: DatabaseModel,
    index_root: usize,
    table_root: usize,
    column: int,
    key: Value,
)
    requires
        table_tree_ordered(db, table_root, i64::MIN - 1, i64::MAX as int, db.page_count()),
        index_tree_ordered(db, index_root, None, None, db.page_count()),
        indexes(
            index_entries(db, index_root, db.page_count()),
            leaf_cells(db, spec_leaves(db, table_root, db.page_count()).unwrap()),
            column,
        ),
        search_reaches(db, index_root, key, db.page_count()),
    ensures
        spec_find(db, index_root, key, db.page_count()) is Ok,
        spec_find(db, index_root, key, db.page_count()).unwrap().to_set() == Set::new(
            |rowid: i64| row_has_key(db, table_root, column, key, rowid),
        ),
{
    let found = spec_find(db, index_root, key, db.page_count());
    lemma_index_agrees_for(db, index_root, table_root, column, key, 0);
    assert forall|rowid: i64|
        found.unwrap().to_set().contains(rowid) <==> row_has_key(
            db,
            table_root,
            column,
            key,
            rowid,
        ) by {
        lemma_index_agrees_for(db, index_root, table_root, column, key, rowid);
    }
    assert(found.unwrap().to_set() =~= Set::new(
        |rowid: i64| row_has_key(db, table_root, column, key, rowid),
    ));
}

/// What an index yields is in the table: where the table and the index are
/// B-trees in order and the index holds an entry for each row of the table
/// and no other, each row id that the search for `key` yields is the row id
/// of a row that holds `key` in the indexed column, whether or not the
/// search reaches every entry of the key.
pub proof fn lemma_index_yields_rows_with_key(
    db: DatabaseModel,
    index_root: usize,
    table_root: usize,
    column: int,
    key: Value,
    rowid: i64,
)
    requires
        table_tree_ordered(db, table_root, i64::MIN - 1, i64::MAX as int, db.page_count()),
        index_tree_ordered(db, index_root, None, None, db.page_count()),
        indexes(
            index_entries(db, index_root, db.page_count()),
            leaf_cells(db, spec_leaves(db, table_root, db.page_count()).unwrap()),
            column,
        ),
    ensures
        spec_find(db, index_root, key, db.page_count()) is Ok,
        spec_find(db, index_root, key, db.page_count()).unwrap().contains(rowid) ==> row_has_key(
            db,
            table_root,
            column,
            key,
            rowid,
        ),
{
    let fuel = db.page_count();
    let lo = i64::MIN - 1;
    let hi = i64::MAX as int;
    let entries = index_entries(db, index_root, fuel);
    lemma_search_finds_only_entries(db, index_root, None, None, fuel, key, rowid);
    lemma_rowids_ascend(db, table_root, lo, hi, fuel);
    lemma_lookup_finds_row(db, table_root, lo, hi, fuel, rowid);
    let leaves = spec_leaves(db, table_root, fuel).unwrap();
    let rows = leaf_cells(db, leaves);
    let found = spec_lookup(db, table_root as u64, rowid, fuel);
    if has_match(entries, key, rowid) {
        let i = choose|i: int| 0 <= i < entries.len() && is_match(#[trigger] entries[i], key, rowid);
        let j = choose|j: int|
            0 <= j < rows.len() && table_rowid(#[trigger] rows[j]) == index_rowid(entries[i])
                && row_column(rows[j], column) == index_key(entries[i]);
        assert(rows.contains(rows[j]));
        lemma_rowid_among(rows, rows[j], rowid);
        lemma_one_row_per_rowid(rows, rows[j], found.unwrap().unwrap(), rowid);
    }
}

} // verus!
