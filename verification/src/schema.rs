//! The schema table: one row for each table and index of the database, with
//! the columns `type`, `name`, `tbl_name`, `rootpage` and `sql`.

use crate::page::{CellModel, PageValue};
use crate::pattern::{regex_escape, regex_escaped, regex_is_match, regex_search};
use crate::value::{Data, Value};
use vstd::prelude::*;
use vstd::string::StringExecFns;

verus! {

/// The column of a schema row that holds the name of the table.
pub const TABLE_NAME_INDEX: usize = 2;

/// The column of a schema row that holds the root page.
pub const ROOT_PAGE_INDEX: usize = 3;

/// The column of a schema row that holds the statement that created the
/// object.
pub const CREATE_TABLE_INDEX: usize = 4;

/// The record of a schema row: the payload of a leaf table cell.
pub open spec fn schema_record(cell: CellModel) -> Option<Seq<Value>> {
    match cell {
        CellModel::TableLeaf { payload, .. } => Some(payload),
        _ => None,
    }
}

/// Whether the cell is the schema row of the table `name`: its `type` is
/// `table` and its `tbl_name` is `name`.
pub open spec fn is_table_row(cell: CellModel, name: Seq<char>) -> bool {
    match schema_record(cell) {
        Some(record) => record.len() > 2 && record[0] == Value::Text("table"@) && record[2]
            == Value::Text(name),
        None => false,
    }
}

/// Column `column` of the first row from index `i` on that is the schema row
/// of the table `name`; `None` where there is no such row, or that row has no
/// such column.
pub open spec fn spec_schema_value(schema: Seq<CellModel>, name: Seq<char>, column: nat, i: nat)
    -> Option<Value>
    decreases schema.len() - i,
{
    if i >= schema.len() {
        None
    } else if is_table_row(schema[i as int], name) {
        let record = schema_record(schema[i as int]).unwrap();
        if column < record.len() {
            Some(record[column as int])
        } else {
            None
        }
    } else {
        spec_schema_value(schema, name, column, i + 1)
    }
}

/// Whether the cell is the schema row of the table `table_name`.
fn describes_table(cell: &PageValue, table_name: &str) -> (r: bool)
    ensures
        r == is_table_row(cell@, table_name@),
{
    match cell {
        PageValue::LeafTable { payload, .. } => {
            if payload.len() > 2 {
                assert(payload.deep_view()[0] == payload[0]@);
                assert(payload.deep_view()[2] == payload[2]@);
                payload[0].is_text("table") && payload[2].is_text(table_name)
            } else {
                false
            }
        },
        _ => false,
    }
}

/// Column `i` of the schema row of the table `table_name`: of the first row
/// of `schema`, in scan order, whose `type` is `table` and whose `tbl_name`
/// is `table_name`. `None` where there is no such row, or it has no column
/// `i`.
pub fn get_schema_value_by_index(table_name: &str, schema: &[PageValue], i: usize) -> (r: Option<
    Data,
>)
    ensures
        match spec_schema_value(schema.deep_view(), table_name@, i as nat, 0) {
            Some(value) => r matches Some(d) && d@ == value,
            None => r.is_none(),
        },
{
    let mut k: usize = 0;
    while k < schema.len()
        invariant
            k <= schema.len(),
            schema.deep_view().len() == schema.len(),
            spec_schema_value(schema.deep_view(), table_name@, i as nat, 0) == spec_schema_value(
                schema.deep_view(),
                table_name@,
                i as nat,
                k as nat,
            ),
        decreases schema.len() - k,
    {
        assert(schema.deep_view()[k as int] == schema[k as int]@);
        if describes_table(&schema[k], table_name) {
            match &schema[k] {
                PageValue::LeafTable { payload, .. } => {
                    if i < payload.len() {
                        assert(payload.deep_view()[i as int] == payload[i as int]@);
                        return Some(payload[i].duplicate());
                    }
                    return None;
                },
                _ => {
                    return None;
                },
            }
        }
        k += 1;
    }
    None
}

/// The root page of the table `table_name`, as the schema row holds it.
pub fn get_root_page(table_name: &str, schema: &[PageValue]) -> (r: Option<Data>)
    ensures
        match spec_schema_value(schema.deep_view(), table_name@, ROOT_PAGE_INDEX as nat, 0) {
            Some(value) => r matches Some(d) && d@ == value,
            None => r.is_none(),
        },
{
    get_schema_value_by_index(table_name, schema, ROOT_PAGE_INDEX)
}

/// The statement that created the table `table_name`, as the schema row
/// holds it.
pub fn get_create_table(table_name: &str, schema: &[PageValue]) -> (r: Option<Data>)
    ensures
        match spec_schema_value(schema.deep_view(), table_name@, CREATE_TABLE_INDEX as nat, 0) {
            Some(value) => r matches Some(d) && d@ == value,
            None => r.is_none(),
        },
{
    get_schema_value_by_index(table_name, schema, CREATE_TABLE_INDEX)
}

/// The regular expression that the statement of an index on `column` of
/// `table` matches: `on`, a space, the table, then the column in
/// parentheses, with any white space around the parentheses, in any case.
pub open spec fn index_pattern(table: Seq<char>, column: Seq<char>) -> Seq<char> {
    "(?i)on "@ + regex_escaped(table) + "\\s*\\(\\s*"@ + regex_escaped(column) + "\\s*\\)"@
}

/// The regular expression that the statement of an index on `column` of
/// `table` matches.
pub fn index_pattern_for(table: &str, column: &str) -> (r: String)
    ensures
        r@ == index_pattern(table@, column@),
{
    let mut pattern = String::from_str("(?i)on ");
    let escaped_table = regex_escape(table);
    pattern.append(escaped_table.as_str());
    pattern.append("\\s*\\(\\s*");
    let escaped_column = regex_escape(column);
    pattern.append(escaped_column.as_str());
    pattern.append("\\s*\\)");
    pattern
}

/// The statement of the index that a schema row describes: the `sql` column
/// of a row whose `type` is `index`.
pub open spec fn index_statement(cell: CellModel) -> Option<Seq<char>> {
    match schema_record(cell) {
        Some(record) => {
            if record.len() > 4 && record[0] == Value::Text("index"@) {
                match record[4] {
                    Value::Text(sql) => Some(sql),
                    _ => None,
                }
            } else {
                None
            }
        },
        None => None,
    }
}

/// The root page that a schema row names: its `rootpage` column, where that
/// is an integer that can be a page number.
pub open spec fn row_root_page(cell: CellModel) -> Option<usize> {
    match schema_record(cell) {
        Some(record) => {
            if record.len() > 3 {
                match record[3] {
                    Value::Integer(n) => if 0 <= n <= usize::MAX {
                        Some(n as usize)
                    } else {
                        None
                    },
                    _ => None,
                }
            } else {
                None
            }
        },
        None => None,
    }
}

/// The root page of the first index from row `i` on whose statement the
/// regular expression `pattern` matches.
pub open spec fn spec_find_index(schema: Seq<CellModel>, pattern: Seq<char>, i: nat) -> Option<
    usize,
>
    decreases schema.len() - i,
{
    if i >= schema.len() {
        None
    } else {
        match index_statement(schema[i as int]) {
            Some(sql) => {
                if regex_search(pattern, sql) == Some(true) {
                    row_root_page(schema[i as int])
                } else {
                    spec_find_index(schema, pattern, i + 1)
                }
            },
            None => spec_find_index(schema, pattern, i + 1),
        }
    }
}

/// The statement of the index that a schema row describes.
pub fn statement_of_index(cell: &PageValue) -> (r: Option<&String>)
    ensures
        match index_statement(cell@) {
            Some(sql) => r matches Some(s) && s@ == sql,
            None => r.is_none(),
        },
{
    match cell {
        PageValue::LeafTable { payload, .. } => {
            if payload.len() > 4 {
                assert(payload.deep_view()[0] == payload[0]@);
                assert(payload.deep_view()[4] == payload[4]@);
                if payload[0].is_text("index") {
                    match &payload[4] {
                        Data::Text(sql) => Some(sql),
                        _ => None,
                    }
                } else {
                    None
                }
            } else {
                None
            }
        },
        _ => None,
    }
}

/// What the search for an index makes of a schema row, given the outcome of
/// matching the row's statement: `Some` of the row's root page where the
/// statement matched, which ends the search, and `None` where it did not.
pub fn root_if_matched(cell: &PageValue, matched: Option<bool>) -> (r: Option<Option<usize>>)
    ensures
        r == if matched == Some(true) {
            Some(row_root_page(cell@))
        } else {
            None
        },
{
    match matched {
        Some(true) => {},
        _ => {
            return None;
        },
    }
    match cell {
        PageValue::LeafTable { payload, .. } => {
            if payload.len() > 3 {
                assert(payload.deep_view()[3] == payload[3]@);
                match &payload[3] {
                    Data::Integer(n) => {
                        if *n >= 0 && *n as u64 <= usize::MAX as u64 {
                            Some(Some(*n as usize))
                        } else {
                            Some(None)
                        }
                    },
                    _ => Some(None),
                }
            } else {
                Some(None)
            }
        },
        _ => Some(None),
    }
}

/// The root page of the index on `column` of `table`: of the first row of
/// `schema`, in scan order, whose `type` is `index` and whose statement the
/// pattern of the table and column matches. `None` where there is no such
/// row, or its root page is no page number.
pub fn find_index(schema: &[PageValue], table: &str, column: &str) -> (r: Option<usize>)
    ensures
        r == spec_find_index(schema.deep_view(), index_pattern(table@, column@), 0),
{
    let pattern = index_pattern_for(table, column);
    let mut k: usize = 0;
    while k < schema.len()
        invariant
            k <= schema.len(),
            schema.deep_view().len() == schema.len(),
            pattern@ == index_pattern(table@, column@),
            spec_find_index(schema.deep_view(), pattern@, 0) == spec_find_index(
                schema.deep_view(),
                pattern@,
                k as nat,
            ),
        decreases schema.len() - k,
    {
        assert(schema.deep_view()[k as int] == schema[k as int]@);
        match statement_of_index(&schema[k]) {
            Some(sql) => {
                let matched = regex_is_match(pattern.as_str(), sql.as_str());
                match root_if_matched(&schema[k], matched) {
                    Some(root) => {
                        return root;
                    },
                    None => {},
                }
            },
            None => {},
        }
        k += 1;
    }
    None
}

} // verus!
