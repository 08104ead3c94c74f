//! Queries: counting and scanning the rows of a table, and running a
//! `SELECT` statement against a database.

use crate::btree::{get_pages, is_leaf_table, lemma_leaves_are_leaf_pages, spec_leaves};
use crate::database::{lemma_page_cells_kind, Database, DatabaseModel};
use crate::error::Error;
use crate::page::{CellModel, PageType, PageValue};
use crate::row::{filter_model, rows_of, spec_rows, Row, RowModel};
use crate::sql::{
    has_keyword,
    parse_select,
    spaces_end,
    spec_select,
    texts,
    ColumnDef,
    ColumnModel,
    WhereClause,
    WhereModel,
    COUNT_ALL,
};
use crate::value::{Data, Value};
use vstd::prelude::*;
use vstd::string::StringSliceAdditionalSpecFns;
use vstd::utf8::encode_utf8;

verus! {

/// The number of cells of the first `n` of the pages `leaves`, where it is
/// at most `usize::MAX`.
pub open spec fn spec_count_cells(db: DatabaseModel, leaves: Seq<usize>, n: nat) -> Result<
    nat,
    Error,
>
    decreases n,
{
    if n == 0 {
        Ok(0)
    } else {
        match spec_count_cells(db, leaves, (n - 1) as nat) {
            Err(e) => Err(e),
            Ok(count) => match db.page(leaves[n - 1] as nat) {
                Err(e) => Err(e),
                Ok(page) => if count + page.cells.len() > usize::MAX {
                    Err(Error::TooManyRows)
                } else {
                    Ok(count + page.cells.len())
                },
            },
        }
    }
}

/// The number of rows of the table rooted at `root`: the number of cells of
/// its leaves.
pub open spec fn spec_count(db: DatabaseModel, root: usize) -> Result<nat, Error> {
    match spec_leaves(db, root, db.page_count()) {
        Err(e) => Err(e),
        Ok(leaves) => spec_count_cells(db, leaves, leaves.len()),
    }
}

/// The rows of the first `n` of the pages `leaves` that pass the filter, in
/// page order and cell order.
pub open spec fn spec_scan_leaves(
    db: DatabaseModel,
    leaves: Seq<usize>,
    columns: Seq<ColumnModel>,
    filter: Option<WhereModel>,
    n: nat,
) -> Result<Seq<RowModel>, Error>
    decreases n,
{
    if n == 0 {
        Ok(Seq::empty())
    } else {
        match spec_scan_leaves(db, leaves, columns, filter, (n - 1) as nat) {
            Err(e) => Err(e),
            Ok(rows) => match db.page(leaves[n - 1] as nat) {
                Err(e) => Err(e),
                Ok(page) => Ok(rows + spec_rows(page.cells, columns, filter, page.cells.len())),
            },
        }
    }
}

/// The rows of the table rooted at `root` that pass the filter, in tree
/// order.
pub open spec fn spec_scan(
    db: DatabaseModel,
    root: usize,
    columns: Seq<ColumnModel>,
    filter: Option<WhereModel>,
) -> Result<Seq<RowModel>, Error> {
    match spec_leaves(db, root, db.page_count()) {
        Err(e) => Err(e),
        Ok(leaves) => spec_scan_leaves(db, leaves, columns, filter, leaves.len()),
    }
}

/// Counts the rows of the table B-tree rooted at `root`: the cells of its
/// leaves.
///
/// Fails as the walk of the tree and the decoding of its leaves do, and
/// with `TooManyRows` where the count passes `usize::MAX`.
pub fn count_rows(db: &Database, root: usize) -> (r: Result<usize, Error>)
    ensures
        match spec_count(db@, root) {
            Ok(count) => r matches Ok(n) && n == count,
            Err(e) => r matches Err(f) && f == e,
        },
{
    let leaves = match get_pages(root, db) {
        Ok(leaves) => leaves,
        Err(e) => {
            return Err(e);
        },
    };
    let mut count: usize = 0;
    let mut i: usize = 0;
    while i < leaves.len()
        invariant
            i <= leaves.len(),
            spec_count_cells(db@, leaves@, i as nat) == Ok::<nat, Error>(count as nat),
            spec_count(db@, root) == spec_count_cells(db@, leaves@, leaves@.len()),
        decreases leaves.len() - i,
    {
        let page = match db.page_at(leaves[i] as u64) {
            Ok(page) => page,
            Err(e) => {
                proof {
                    lemma_count_cells_fails(db@, leaves@, (i + 1) as nat, leaves@.len());
                }
                return Err(e);
            },
        };
        assert(page@.cells.len() == page.values.len());
        if page.values.len() > usize::MAX - count {
            proof {
                lemma_count_cells_fails(db@, leaves@, (i + 1) as nat, leaves@.len());
            }
            return Err(Error::TooManyRows);
        }
        count = count + page.values.len();
        i += 1;
    }
    Ok(count)
}

/// A count that fails over some of the pages fails alike over more of them.
pub proof fn lemma_count_cells_fails(db: DatabaseModel, leaves: Seq<usize>, n: nat, m: nat)
    requires
        n <= m,
        spec_count_cells(db, leaves, n) is Err,
    ensures
        spec_count_cells(db, leaves, m) == spec_count_cells(db, leaves, n),
    decreases m,
{
    if n < m {
        lemma_count_cells_fails(db, leaves, n, (m - 1) as nat);
    }
}

/// A scan that fails over some of the pages fails alike over more of them.
pub proof fn lemma_scan_leaves_fails(
    db: DatabaseModel,
    leaves: Seq<usize>,
    columns: Seq<ColumnModel>,
    filter: Option<WhereModel>,
    n: nat,
    m: nat,
)
    requires
        n <= m,
        spec_scan_leaves(db, leaves, columns, filter, n) is Err,
    ensures
        spec_scan_leaves(db, leaves, columns, filter, m) == spec_scan_leaves(
            db,
            leaves,
            columns,
            filter,
            n,
        ),
    decreases m,
{
    if n < m {
        lemma_scan_leaves_fails(db, leaves, columns, filter, n, (m - 1) as nat);
    }
}

/// Scans the table B-tree rooted at `root`: the rows of its leaves under
/// the columns of the table, in tree order, that pass the filter.
///
/// Fails as the walk of the tree and the decoding of its leaves do.
pub fn scan_table(
    db: &Database,
    root: usize,
    columns: &[ColumnDef],
    filter: &Option<WhereClause>,
) -> (r: Result<Vec<Row>, Error>)
    ensures
        match spec_scan(db@, root, columns.deep_view(), filter_model(*filter)) {
            Ok(rows) => r matches Ok(found) && found.deep_view() == rows,
            Err(e) => r matches Err(f) && f == e,
        },
{
    let leaves = match get_pages(root, db) {
        Ok(leaves) => leaves,
        Err(e) => {
            return Err(e);
        },
    };
    let mut rows: Vec<Row> = Vec::new();
    let mut i: usize = 0;
    assert(rows.deep_view() =~= Seq::empty());
    while i < leaves.len()
        invariant
            i <= leaves.len(),
            spec_scan_leaves(db@, leaves@, columns.deep_view(), filter_model(*filter), i as nat)
                == Ok::<Seq<RowModel>, Error>(rows.deep_view()),
            spec_scan(db@, root, columns.deep_view(), filter_model(*filter)) == spec_scan_leaves(
                db@,
                leaves@,
                columns.deep_view(),
                filter_model(*filter),
                leaves@.len(),
            ),
        decreases leaves.len() - i,
    {
        let page = match db.page_at(leaves[i] as u64) {
            Ok(page) => page,
            Err(e) => {
                proof {
                    lemma_scan_leaves_fails(
                        db@,
                        leaves@,
                        columns.deep_view(),
                        filter_model(*filter),
                        (i + 1) as nat,
                        leaves@.len(),
                    );
                }
                return Err(e);
            },
        };
        let mut found = rows_of(page.values.as_slice(), columns, filter);
        let ghost before = rows.deep_view();
        let ghost added = found.deep_view();
        rows.append(&mut found);
        assert(rows.deep_view() =~= before + added);
        i += 1;
    }
    Ok(rows)
}

/// The values that a row holds under the first `n` of the names, in the
/// order of the names. A name that the row does not hold yields no value.
pub open spec fn spec_project(row: RowModel, names: Seq<Seq<char>>, n: nat) -> Seq<Value>
    decreases n,
{
    if n == 0 {
        Seq::empty()
    } else {
        let before = spec_project(row, names, (n - 1) as nat);
        if row.contains_key(names[n - 1]) {
            before.push(row[names[n - 1]])
        } else {
            before
        }
    }
}

/// The projections of a list of rows.
pub open spec fn spec_project_all(rows: Seq<RowModel>, names: Seq<Seq<char>>) -> Seq<Seq<Value>> {
    Seq::new(rows.len(), |i: int| spec_project(rows[i], names, names.len()))
}

/// The values that the row holds under the names, in the order of the
/// names. A name that the row does not hold yields no value.
pub fn project(row: &Row, names: &Vec<&str>) -> (r: Vec<Data>)
    ensures
        r.deep_view() == spec_project(row@, texts(names@), names@.len()),
{
    let mut out: Vec<Data> = Vec::new();
    let mut i: usize = 0;
    assert(out.deep_view() =~= Seq::empty());
    while i < names.len()
        invariant
            i <= names.len(),
            out.deep_view() == spec_project(row@, texts(names@), i as nat),
        decreases names.len() - i,
    {
        assert(texts(names@)[i as int] == names@[i as int]@);
        match row.get(names[i]) {
            Some(value) => {
                let ghost before = out.deep_view();
                let copy = value.duplicate();
                out.push(copy);
                assert(out.deep_view() =~= before.push(copy@));
            },
            None => {},
        }
        i += 1;
    }
    out
}

/// The projections of the rows, in order.
pub fn project_all(rows: &Vec<Row>, names: &Vec<&str>) -> (r: Vec<Vec<Data>>)
    ensures
        r.deep_view() == spec_project_all(rows.deep_view(), texts(names@)),
{
    let mut out: Vec<Vec<Data>> = Vec::new();
    let mut i: usize = 0;
    while i < rows.len()
        invariant
            i <= rows.len(),
            out.len() == i,
            forall|j: int|
                0 <= j < i ==> (#[trigger] out[j]).deep_view() == spec_project(
                    rows[j]@,
                    texts(names@),
                    names@.len(),
                ),
        decreases rows.len() - i,
    {
        out.push(project(&rows[i], names));
        i += 1;
    }
    assert(out.deep_view() =~= spec_project_all(rows.deep_view(), texts(names@)));
    out
}

/// What a query yields: a count, or rows of values.
#[derive(Debug, Clone, PartialEq)]
pub enum QueryResult {
    Count(usize),
    Rows(Vec<Vec<Data>>),
}

/// What a query yields, over mathematical sequences.
pub enum QueryModel {
    Count(nat),
    Rows(Seq<Seq<Value>>),
}

impl View for QueryResult {
    type V = QueryModel;

    open spec fn view(&self) -> QueryModel {
        match self {
            QueryResult::Count(n) => QueryModel::Count(*n as nat),
            QueryResult::Rows(rows) => QueryModel::Rows(rows.deep_view()),
        }
    }
}

/// Whether the names are the one projection `count(*)`, in any case.
pub open spec fn is_count(names: Seq<Seq<char>>) -> bool {
    names.len() == 1 && encode_utf8(names[0]).len() == 8 && has_keyword(
        encode_utf8(names[0]),
        0,
        COUNT_ALL@,
    )
}

/// What the selection of the columns `names` from `table` yields, with an
/// optional filter.
///
/// The projection `count(*)` yields the number of rows of the table. A
/// filter on a column that has an index is answered from the index: the
/// rows that the index holds for the filter's text, in the order of the
/// index, those kept that pass the filter. Any other selection scans the
/// table. A table without a statement in the schema yields no rows.
pub open spec fn spec_run(
    db: DatabaseModel,
    names: Seq<Seq<char>>,
    table: Seq<char>,
    filter: Option<WhereModel>,
) -> Result<QueryModel, Error> {
    match db.table_root(table) {
        None => Err(Error::TableNotFound),
        Some(root) => {
            if root > usize::MAX {
                Err(Error::PageOutOfRange { page: root })
            } else if is_count(names) {
                match spec_count(db, root as usize) {
                    Err(e) => Err(e),
                    Ok(count) => Ok(QueryModel::Count(count)),
                }
            } else if filter is Some && db.index_root(table, filter.unwrap().column) is Some {
                match db.rows_by_index(
                    table,
                    filter.unwrap().column,
                    Value::Text(filter.unwrap().value),
                ) {
                    Err(e) => Err(e),
                    Ok(cells) => match db.table_columns(table) {
                        None => Ok(QueryModel::Rows(Seq::empty())),
                        Some(Err(e)) => Err(e),
                        Some(Ok(columns)) => Ok(
                            QueryModel::Rows(
                                spec_project_all(
                                    spec_rows(cells, columns, filter, cells.len()),
                                    names,
                                ),
                            ),
                        ),
                    },
                }
            } else {
                match db.table_columns(table) {
                    None => Ok(QueryModel::Rows(Seq::empty())),
                    Some(Err(e)) => Err(e),
                    Some(Ok(columns)) => match spec_scan(db, root as usize, columns, filter) {
                        Err(e) => Err(e),
                        Ok(rows) => Ok(QueryModel::Rows(spec_project_all(rows, names))),
                    },
                }
            }
        },
    }
}

/// Whether the names are the one projection `count(*)`.
fn names_count(names: &Vec<&str>) -> (r: bool)
    ensures
        r == is_count(texts(names@)),
{
    if names.len() != 1 {
        return false;
    }
    assert(texts(names@)[0] == names@[0]@);
    let bytes = names[0].as_bytes();
    if bytes.len() != 8 {
        return false;
    }
    let mut i: usize = 0;
    while i < 8
        invariant
            i <= 8,
            bytes@.len() == 8,
            names@.len() == 1,
            bytes@ == encode_utf8(texts(names@)[0]),
            COUNT_ALL@.len() == 8,
            forall|j: int|
                0 <= j < i ==> crate::sql::lower(#[trigger] bytes@[0 + j]) == COUNT_ALL@[j],
        decreases 8 - i,
    {
        let b = bytes[i];
        let folded = if 0x41 <= b && b <= 0x5a {
            b + 0x20
        } else {
            b
        };
        if folded != COUNT_ALL[i] {
            assert(crate::sql::lower(bytes@[0 + i]) != COUNT_ALL@[i as int]);
            return false;
        }
        i += 1;
    }
    true
}

/// Selects the columns `names` from `table`, with an optional filter.
///
/// Fails with `TableNotFound` where the schema names no root page for the
/// table, with `Syntax` where the statement of the table is not of the
/// accepted form, and as counting, scanning and the search by index do.
pub fn select(db: &Database, names: &Vec<&str>, table: &str, filter: Option<WhereClause>) -> (r:
    Result<QueryResult, Error>)
    ensures
        match spec_run(db@, texts(names@), table@, filter_model(filter)) {
            Ok(model) => r matches Ok(result) && result@ == model,
            Err(e) => r matches Err(f) && f == e,
        },
{
    let root = match db.table_root(table) {
        Some(root) => root,
        None => {
            return Err(Error::TableNotFound);
        },
    };
    if root > usize::MAX as u64 {
        return Err(Error::PageOutOfRange { page: root });
    }
    let root = root as usize;
    if names_count(names) {
        return match count_rows(db, root) {
            Ok(count) => Ok(QueryResult::Count(count)),
            Err(e) => Err(e),
        };
    }
    let indexed = match &filter {
        Some(clause) => db.find_index_root(clause.column.as_str(), table).is_some(),
        None => false,
    };
    if indexed {
        let clause = match &filter {
            Some(clause) => clause,
            None => {
                return Err(Error::IndexNotFound);
            },
        };
        let cells = match db.find_by_index(
            clause.column.as_str(),
            table,
            Data::Text(clause.value.clone()),
        ) {
            Ok(cells) => cells,
            Err(e) => {
                return Err(e);
            },
        };
        match db.table_columns(table) {
            None => {
                let rows: Vec<Vec<Data>> = Vec::new();
                assert(rows.deep_view() =~= Seq::empty());
                Ok(QueryResult::Rows(rows))
            },
            Some(Err(e)) => Err(e),
            Some(Ok(columns)) => {
                let rows = rows_of(cells.as_slice(), columns.as_slice(), &filter);
                Ok(QueryResult::Rows(project_all(&rows, names)))
            },
        }
    } else {
        match db.table_columns(table) {
            None => {
                let rows: Vec<Vec<Data>> = Vec::new();
                assert(rows.deep_view() =~= Seq::empty());
                Ok(QueryResult::Rows(rows))
            },
            Some(Err(e)) => Err(e),
            Some(Ok(columns)) => match scan_table(db, root, columns.as_slice(), &filter) {
                Ok(rows) => Ok(QueryResult::Rows(project_all(&rows, names))),
                Err(e) => Err(e),
            },
        }
    }
}

/// Whether the bytes are white space throughout.
pub open spec fn is_blank(bytes: Seq<u8>) -> bool {
    spaces_end(bytes, 0) == bytes.len()
}

/// What the statement in `sql` yields: `sql` must hold one `SELECT`
/// statement and nothing but white space after it.
pub open spec fn spec_execute(db: DatabaseModel, sql: Seq<u8>) -> Result<QueryModel, Error> {
    match spec_select(sql) {
        None => Err(Error::Syntax),
        Some(statement) => {
            if is_blank(sql.subrange(statement.next, sql.len() as int)) {
                spec_run(db, statement.columns, statement.table, statement.filter)
            } else {
                Err(Error::Syntax)
            }
        },
    }
}

/// Runs the `SELECT` statement in `sql` against the database.
///
/// Fails with `Syntax` where `sql` is no statement of the accepted form, or
/// goes on after the statement with more than white space, and as the
/// selection does.
pub fn execute(db: &Database, sql: &str) -> (r: Result<QueryResult, Error>)
    ensures
        match spec_execute(db@, sql.spec_bytes()) {
            Ok(model) => r matches Ok(result) && result@ == model,
            Err(e) => r matches Err(f) && f == e,
        },
{
    let (rest, (names, table, filter)) = match parse_select(sql) {
        Ok(parsed) => parsed,
        Err(_) => {
            return Err(Error::Syntax);
        },
    };
    let tail = rest.as_bytes();
    let mut i: usize = 0;
    while i < tail.len() && (tail[i] == 0x20 || tail[i] == 0x09 || tail[i] == 0x0a || tail[i]
        == 0x0d)
        invariant
            i <= tail@.len(),
            spaces_end(tail@, 0) == spaces_end(tail@, i as int),
        decreases tail@.len() - i,
    {
        i += 1;
    }
    if i < tail.len() {
        return Err(Error::Syntax);
    }
    select(db, &names, table, filter)
}

/// The names of the tables among the first `n` schema rows: the `tbl_name`
/// of each row whose `type` is `table`, in scan order.
pub open spec fn spec_table_names(schema: Seq<crate::page::CellModel>, n: nat) -> Seq<Seq<char>>
    decreases n,
{
    if n == 0 {
        Seq::empty()
    } else {
        let before = spec_table_names(schema, (n - 1) as nat);
        match crate::schema::schema_record(schema[n - 1]) {
            Some(record) => {
                if record.len() > 2 && record[0] == Value::Text("table"@) {
                    match record[2] {
                        Value::Text(name) => before.push(name),
                        _ => before,
                    }
                } else {
                    before
                }
            },
            None => before,
        }
    }
}

/// The texts of a list of strings.
pub open spec fn string_texts(list: Seq<String>) -> Seq<Seq<char>> {
    Seq::new(list.len(), |i: int| list[i]@)
}

/// The names of the tables of the schema: the `tbl_name` of each row whose
/// `type` is `table`, in scan order.
pub fn table_names(schema: &[PageValue]) -> (r: Vec<String>)
    ensures
        string_texts(r@) == spec_table_names(schema.deep_view(), schema.deep_view().len()),
{
    let mut names: Vec<String> = Vec::new();
    let mut i: usize = 0;
    assert(string_texts(names@) =~= Seq::empty());
    while i < schema.len()
        invariant
            i <= schema.len(),
            schema.deep_view().len() == schema.len(),
            string_texts(names@) == spec_table_names(schema.deep_view(), i as nat),
        decreases schema.len() - i,
    {
        assert(schema.deep_view()[i as int] == schema[i as int]@);
        match &schema[i] {
            PageValue::LeafTable { payload, .. } => {
                if payload.len() > 2 {
                    assert(payload.deep_view()[0] == payload[0]@);
                    assert(payload.deep_view()[2] == payload[2]@);
                    if payload[0].is_text("table") {
                        match &payload[2] {
                            Data::Text(name) => {
                                let ghost before = string_texts(names@);
                                let copy = name.clone();
                                names.push(copy);
                                assert(string_texts(names@) =~= before.push(copy@));
                            },
                            _ => {},
                        }
                    }
                }
            },
            _ => {},
        }
        i += 1;
    }
    names
}

/// Without a filter, each leaf table cell makes one row.
pub proof fn lemma_rows_of_leaf_cells(cells: Seq<CellModel>, columns: Seq<ColumnModel>, n: nat)
    requires
        n <= cells.len(),
        forall|i: int| 0 <= i < n ==> (#[trigger] cells[i]).page_type() == PageType::LeafTable,
    ensures
        spec_rows(cells, columns, None, n).len() == n,
    decreases n,
{
    if n > 0 {
        lemma_rows_of_leaf_cells(cells, columns, (n - 1) as nat);
        assert(cells[n - 1].page_type() == PageType::LeafTable);
    }
}

/// Over leaf pages of a table, a scan without a filter yields as many rows
/// as the pages have cells.
pub proof fn lemma_count_is_scan_length_over(
    db: DatabaseModel,
    leaves: Seq<usize>,
    columns: Seq<ColumnModel>,
    n: nat,
)
    requires
        n <= leaves.len(),
        forall|k: int| 0 <= k < leaves.len() ==> is_leaf_table(db, #[trigger] leaves[k]),
    ensures
        spec_scan_leaves(db, leaves, columns, None, n) is Ok,
        match spec_count_cells(db, leaves, n) {
            Ok(count) => spec_scan_leaves(db, leaves, columns, None, n).unwrap().len() == count,
            Err(e) => e == Error::TooManyRows && spec_scan_leaves(
                db,
                leaves,
                columns,
                None,
                n,
            ).unwrap().len() > usize::MAX,
        },
    decreases n,
{
    if n > 0 {
        lemma_count_is_scan_length_over(db, leaves, columns, (n - 1) as nat);
        assert(is_leaf_table(db, leaves[n - 1]));
        let page = db.page(leaves[n - 1] as nat).unwrap();
        lemma_page_cells_kind(db, leaves[n - 1] as nat);
        lemma_rows_of_leaf_cells(page.cells, columns, page.cells.len());
    }
}

/// `count(*)` is the length of the scan: where the count of a table
/// succeeds, the scan of the table without a filter succeeds under any
/// columns and yields as many rows as were counted. The two fail alike,
/// but that the count alone fails, with `TooManyRows`, on a table of more
/// than `usize::MAX` rows.
pub proof fn lemma_count_is_scan_length(db: DatabaseModel, root: usize, columns: Seq<ColumnModel>)
    ensures
        match (spec_count(db, root), spec_scan(db, root, columns, None)) {
            (Ok(count), Ok(rows)) => rows.len() == count,
            (Ok(_), Err(_)) => false,
            (Err(e), Ok(rows)) => e == Error::TooManyRows && rows.len() > usize::MAX,
            (Err(e), Err(f)) => e == f,
        },
{
    lemma_leaves_are_leaf_pages(db, root, db.page_count());
    if let Ok(leaves) = spec_leaves(db, root, db.page_count()) {
        lemma_count_is_scan_length_over(db, leaves, columns, leaves.len());
    }
}

} // verus!
