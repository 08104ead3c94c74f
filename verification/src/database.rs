//! A database file held in memory, presented as numbered pages.

use crate::btree::{search_by_rowid, search_index, spec_find, spec_lookup};
use crate::error::Error;
use crate::header::{
    field,
    header_failure,
    page_size_in_bytes,
    parse_header,
    HEADER_SIZE,
};
use crate::page::{
    lemma_page_cells_in_bounds,
    parse_cell_pointers,
    parse_page,
    parse_page_header,
    spec_cell_pointers,
    spec_parse_page_header,
    spec_parse_page,
    CellModel,
    Page,
    PageModel,
    PageValue,
};
use crate::row::{materialize, spec_row, Row, RowModel};
use crate::schema::{
    find_index,
    get_create_table,
    get_root_page,
    index_pattern,
    spec_find_index,
    spec_schema_value,
    CREATE_TABLE_INDEX,
    ROOT_PAGE_INDEX,
};
use crate::sql::{parse_create_table, spec_create_table};
use crate::value::{Data, Value};
use vstd::prelude::*;
use vstd::slice::{slice_subrange, slice_to_vec};
use vstd::utf8::encode_utf8;

verus! {

/// What a database is: the bytes of its file and its page size.
pub struct DatabaseModel {
    pub bytes: Seq<u8>,
    pub page_size: nat,
}

impl DatabaseModel {
    /// The number of whole pages in the file.
    pub open spec fn page_count(self) -> nat {
        self.bytes.len() / self.page_size
    }

    /// The bytes of page `n`, pages being numbered from 1.
    pub open spec fn page_bytes(self, n: nat) -> Result<Seq<u8>, Error> {
        if 1 <= n <= self.page_count() {
            Ok(self.bytes.subrange((n - 1) * self.page_size, (n * self.page_size) as int))
        } else {
            Err(Error::PageOutOfRange { page: n as u64 })
        }
    }

    /// Page `n`, decoded. On page 1 the page header follows the file header.
    pub open spec fn page(self, n: nat) -> Result<PageModel, Error> {
        match self.page_bytes(n) {
            Err(e) => Err(e),
            Ok(bytes) => match spec_parse_page(bytes, n == 1) {
                Err(e) => Err(e),
                Ok((page, _)) => Ok(page),
            },
        }
    }

    /// The cells of the schema page, which is page 1.
    pub open spec fn schema(self) -> Seq<CellModel> {
        match self.page(1) {
            Ok(page) => page.cells,
            Err(_) => Seq::empty(),
        }
    }
}

/// The database that a file of these bytes holds.
///
/// The file must begin with a valid header, be in UTF-8 (text encoding 1, or
/// 0 in a file that holds no text yet), and hold a first page that decodes.
pub open spec fn spec_open(bytes: Seq<u8>) -> Result<DatabaseModel, Error> {
    match header_failure(bytes) {
        Some(e) => Err(e),
        None => {
            let db = DatabaseModel {
                bytes,
                page_size: page_size_in_bytes(field(bytes, 16, 2) as u16),
            };
            if field(bytes, 56, 4) > 1 {
                Err(Error::UnsupportedEncoding)
            } else {
                match db.page(1) {
                    Err(e) => Err(e),
                    Ok(_) => Ok(db),
                }
            }
        },
    }
}

/// A database file, read whole into memory, with its schema page decoded.
pub struct Database {
    bytes: Vec<u8>,
    page_size: usize,
    schema_page: Vec<PageValue>,
}

impl View for Database {
    type V = DatabaseModel;

    closed spec fn view(&self) -> DatabaseModel {
        DatabaseModel { bytes: self.bytes@, page_size: self.page_size as nat }
    }
}

impl Database {
    #[verifier::type_invariant]
    spec fn inv(&self) -> bool {
        // The page size is one of the format, and the schema page is the
        // first page, decoded.
        &&& 512 <= self.page_size <= 65536
        &&& self@.page(1) is Ok
        &&& self.schema_page.deep_view() == self@.schema()
    }

    /// Opens the database held in the bytes of a file.
    ///
    /// Fails as the file header decoder does, with `UnsupportedEncoding`
    /// where the text encoding field is neither 0 nor 1, with
    /// `PageOutOfRange` where the file is shorter than one page, and as the
    /// page decoder does on the first page.
    pub fn new(bytes: Vec<u8>) -> (r: Result<Database, Error>)
        ensures
            match spec_open(bytes@) {
                Ok(model) => r matches Ok(db) && db@ == model,
                Err(e) => r matches Err(f) && f == e,
            },
    {
        let page_size = match parse_header(bytes.as_slice()) {
            Ok((_, header)) => {
                if header.text_encoding > 1 {
                    return Err(Error::UnsupportedEncoding);
                }
                header.page_size_bytes() as usize
            },
            Err(e) => {
                return Err(e);
            },
        };
        if bytes.len() < page_size {
            assert(bytes@.len() / page_size as nat == 0) by (nonlinear_arith)
                requires
                    bytes@.len() < page_size,
            ;
            return Err(Error::PageOutOfRange { page: 1 });
        }
        let ghost model = DatabaseModel { bytes: bytes@, page_size: page_size as nat };
        assert(model.page_count() >= 1) by (nonlinear_arith)
            requires
                model.page_count() == bytes@.len() / page_size as nat,
                bytes@.len() >= page_size >= 512,
        ;
        let first = slice_subrange(bytes.as_slice(), 0, page_size);
        let schema_page = match parse_page(first, true) {
            Ok((_, page)) => page.values,
            Err(e) => {
                return Err(e);
            },
        };
        Ok(Database { bytes, page_size, schema_page })
    }

    /// The page size of the file in bytes.
    pub fn page_size(&self) -> (r: usize)
        ensures
            r == self@.page_size,
            512 <= r <= 65536,
    {
        proof {
            use_type_invariant(self);
        }
        self.page_size
    }

    /// The number of whole pages in the file.
    pub fn page_count(&self) -> (r: usize)
        ensures
            r == self@.page_count(),
    {
        proof {
            use_type_invariant(self);
        }
        self.bytes.len() / self.page_size
    }

    /// The cells of the schema page.
    pub fn schema(&self) -> (r: &Vec<PageValue>)
        ensures
            r.deep_view() == self@.schema(),
    {
        proof {
            use_type_invariant(self);
        }
        &self.schema_page
    }

    /// The bytes of page `page_number`, borrowed from the file.
    pub fn page_slice(&self, page_number: u64) -> (r: Result<&[u8], Error>)
        ensures
            match self@.page_bytes(page_number as nat) {
                Ok(bytes) => r matches Ok(page) && page@ == bytes && bytes.len()
                    == self@.page_size,
                Err(e) => r matches Err(f) && f == e,
            },
    {
        proof {
            use_type_invariant(self);
        }
        let count = self.bytes.len() / self.page_size;
        if page_number < 1 || page_number > count as u64 {
            return Err(Error::PageOutOfRange { page: page_number });
        }
        let n = page_number as usize;
        assert((n - 1) * self.page_size + self.page_size == n * self.page_size && n
            * self.page_size <= self.bytes.len()) by (nonlinear_arith)
            requires
                1 <= n <= self.bytes.len() / self.page_size,
                self.page_size > 0,
        ;
        let start = (n - 1) * self.page_size;
        Ok(slice_subrange(self.bytes.as_slice(), start, start + self.page_size))
    }

    /// A copy of the bytes of page `page_number`, pages being numbered from
    /// 1. Fails with `PageOutOfRange` on page 0 and on a page that does not
    /// lie whole within the file.
    pub fn read_page_at(&self, page_number: u64) -> (r: Result<Vec<u8>, Error>)
        ensures
            match self@.page_bytes(page_number as nat) {
                Ok(bytes) => r matches Ok(page) && page@ == bytes,
                Err(e) => r matches Err(f) && f == e,
            },
    {
        match self.page_slice(page_number) {
            Ok(page) => Ok(slice_to_vec(page)),
            Err(e) => Err(e),
        }
    }

    /// Copies of the pages of these numbers, in order; the first failure
    /// ends the reading.
    pub fn read_pages(&self, page_numbers: &[u64]) -> (r: Result<Vec<Vec<u8>>, Error>)
        ensures
            match r {
                Ok(pages) => pages.len() == page_numbers@.len() && forall|i: int|
                    0 <= i < pages.len() ==> self@.page_bytes(page_numbers@[i] as nat) == Ok::<
                        Seq<u8>,
                        Error,
                    >(#[trigger] pages[i]@),
                Err(e) => exists|i: int|
                    0 <= i < page_numbers@.len() && self@.page_bytes(
                        #[trigger] page_numbers@[i] as nat,
                    ) == Err::<Seq<u8>, Error>(e) && forall|j: int|
                        0 <= j < i ==> (#[trigger] self@.page_bytes(page_numbers@[j] as nat))
                            is Ok,
            },
    {
        let mut pages: Vec<Vec<u8>> = Vec::new();
        let mut i: usize = 0;
        while i < page_numbers.len()
            invariant
                i <= page_numbers@.len(),
                pages.len() == i,
                forall|k: int|
                    0 <= k < i ==> self@.page_bytes(page_numbers@[k] as nat) == Ok::<
                        Seq<u8>,
                        Error,
                    >(#[trigger] pages[k]@),
            decreases page_numbers@.len() - i,
        {
            match self.read_page_at(page_numbers[i]) {
                Ok(page) => {
                    pages.push(page);
                },
                Err(e) => {
                    assert(self@.page_bytes(page_numbers@[i as int] as nat) == Err::<
                        Seq<u8>,
                        Error,
                    >(e));
                    assert forall|j: int| 0 <= j < i implies (#[trigger] self@.page_bytes(
                        page_numbers@[j] as nat,
                    )) is Ok by {
                        assert(self@.page_bytes(page_numbers@[j] as nat) == Ok::<Seq<u8>, Error>(
                            pages[j]@,
                        ));
                    }
                    return Err(e);
                },
            }
            i += 1;
        }
        Ok(pages)
    }

    /// Page `page_number`, decoded.
    pub fn page_at(&self, page_number: u64) -> (r: Result<Page, Error>)
        ensures
            match self@.page(page_number as nat) {
                Ok(page) => r matches Ok(p) && p@ == page,
                Err(e) => r matches Err(f) && f == e,
            },
    {
        let bytes = match self.page_slice(page_number) {
            Ok(bytes) => bytes,
            Err(e) => {
                return Err(e);
            },
        };
        match parse_page(bytes, page_number == 1) {
            Ok((_, page)) => Ok(page),
            Err(e) => Err(e),
        }
    }
}

impl DatabaseModel {
    /// The root page of the table `table`: the `rootpage` of its schema row,
    /// where that is an integer that is not negative.
    pub open spec fn table_root(self, table: Seq<char>) -> Option<u64> {
        match spec_schema_value(self.schema(), table, ROOT_PAGE_INDEX as nat, 0) {
            Some(Value::Integer(n)) => if n >= 0 {
                Some(n as u64)
            } else {
                None
            },
            _ => None,
        }
    }

    /// The root page of the index on `column` of `table`.
    pub open spec fn index_root(self, table: Seq<char>, column: Seq<char>) -> Option<usize> {
        spec_find_index(self.schema(), index_pattern(table, column), 0)
    }

    /// The rows with the row ids from index `i` on, looked up in the table
    /// rooted at `root`, after those in `acc`. A row id without a row is an
    /// error.
    pub open spec fn rows_by_rowid(self, root: u64, rowids: Seq<i64>, i: nat, acc: Seq<CellModel>)
        -> Result<Seq<CellModel>, Error>
        decreases rowids.len() - i,
    {
        if i >= rowids.len() {
            Ok(acc)
        } else {
            match spec_lookup(self, root, rowids[i as int], self.page_count()) {
                Err(e) => Err(e),
                Ok(None) => Err(Error::RowNotFound { rowid: rowids[i as int] }),
                Ok(Some(cell)) => self.rows_by_rowid(root, rowids, i + 1, acc.push(cell)),
            }
        }
    }

    /// The rows of `table` that its index on `column` holds for `value`, in
    /// the order in which the index yields their row ids.
    pub open spec fn rows_by_index(self, table: Seq<char>, column: Seq<char>, value: Value)
        -> Result<Seq<CellModel>, Error> {
        match self.index_root(table, column) {
            None => Err(Error::IndexNotFound),
            Some(index_root) => match spec_find(self, index_root, value, self.page_count()) {
                Err(e) => Err(e),
                Ok(rowids) => match self.table_root(table) {
                    None => Err(Error::TableNotFound),
                    Some(root) => self.rows_by_rowid(root, rowids, 0, Seq::empty()),
                },
            },
        }
    }

    /// The columns of `table`, as the statement in its schema row defines
    /// them; `None` where the schema holds no statement for the table.
    pub open spec fn table_columns(self, table: Seq<char>) -> Option<
        Result<Seq<crate::sql::ColumnModel>, Error>,
    > {
        match spec_schema_value(self.schema(), table, CREATE_TABLE_INDEX as nat, 0) {
            Some(Value::Text(sql)) => Some(
                match spec_create_table(encode_utf8(sql)) {
                    Some((columns, _)) => Ok(columns),
                    None => Err(Error::Syntax),
                },
            ),
            _ => None,
        }
    }

    /// The row that the cell `row` of `table` makes under the names of the
    /// table's columns. The row is empty where the schema holds no
    /// statement for the table, and where the cell is no leaf table cell.
    pub open spec fn named_row(self, row: CellModel, table: Seq<char>) -> Result<RowModel, Error> {
        match self.table_columns(table) {
            None => Ok(Map::empty()),
            Some(Err(e)) => Err(e),
            Some(Ok(columns)) => match row {
                CellModel::TableLeaf { row_id, payload } => Ok(spec_row(columns, payload, row_id)),
                _ => Ok(Map::empty()),
            },
        }
    }
}

impl Database {
    /// The `rootpage` of the schema row of the table `table_name`: of the
    /// first row whose `type` is `table` and whose `tbl_name` is
    /// `table_name`.
    pub fn get_root_page(&self, table_name: &str) -> (r: Option<Data>)
        ensures
            match spec_schema_value(self@.schema(), table_name@, ROOT_PAGE_INDEX as nat, 0) {
                Some(value) => r matches Some(d) && d@ == value,
                None => r.is_none(),
            },
    {
        get_root_page(table_name, self.schema().as_slice())
    }

    /// The `sql` of the schema row of the table `table_name`.
    pub fn get_create_table(&self, table_name: &str) -> (r: Option<Data>)
        ensures
            match spec_schema_value(self@.schema(), table_name@, CREATE_TABLE_INDEX as nat, 0) {
                Some(value) => r matches Some(d) && d@ == value,
                None => r.is_none(),
            },
    {
        get_create_table(table_name, self.schema().as_slice())
    }

    /// The root page of the index on `column` of `table`: the `rootpage` of
    /// the first schema row whose `type` is `index` and whose statement the
    /// pattern of the table and column matches.
    pub fn find_index_root(&self, column: &str, table: &str) -> (r: Option<usize>)
        ensures
            r == self@.index_root(table@, column@),
    {
        find_index(self.schema().as_slice(), table, column)
    }

    /// The root page of the table `table`.
    pub fn table_root(&self, table: &str) -> (r: Option<u64>)
        ensures
            r == self@.table_root(table@),
    {
        match self.get_root_page(table) {
            Some(Data::Integer(n)) => {
                if n >= 0 {
                    Some(n as u64)
                } else {
                    None
                }
            },
            _ => None,
        }
    }

    /// The rows of `table` whose `column` the index on it holds for
    /// `value`: the row ids that the index yields, each looked up in the
    /// table, in that order.
    ///
    /// Fails with `IndexNotFound` where the schema names no index on the
    /// column, with `TableNotFound` where it names no root page for the
    /// table, with `RowNotFound` where the table has no row for a row id of
    /// the index, and as the walks of the two B-trees do.
    pub fn find_by_index(&self, column: &str, table: &str, value: Data) -> (r: Result<
        Vec<PageValue>,
        Error,
    >)
        ensures
            match self@.rows_by_index(table@, column@, value@) {
                Ok(cells) => r matches Ok(rows) && rows.deep_view() == cells,
                Err(e) => r matches Err(f) && f == e,
            },
    {
        let index_root = match self.find_index_root(column, table) {
            Some(root) => root,
            None => {
                return Err(Error::IndexNotFound);
            },
        };
        let rowids = match search_index(index_root, value, self) {
            Ok(rowids) => rowids,
            Err(e) => {
                return Err(e);
            },
        };
        let root = match self.table_root(table) {
            Some(root) => root,
            None => {
                return Err(Error::TableNotFound);
            },
        };
        let mut rows: Vec<PageValue> = Vec::new();
        let mut i: usize = 0;
        assert(rows.deep_view() =~= Seq::empty());
        while i < rowids.len()
            invariant
                i <= rowids.len(),
                self@.rows_by_index(table@, column@, value@) == self@.rows_by_rowid(
                    root,
                    rowids@,
                    i as nat,
                    rows.deep_view(),
                ),
            decreases rowids.len() - i,
        {
            match search_by_rowid(self, root, rowids[i]) {
                Ok(Some(row)) => {
                    let ghost before = rows.deep_view();
                    rows.push(row);
                    assert(rows.deep_view() =~= before.push(row@));
                },
                Ok(None) => {
                    return Err(Error::RowNotFound { rowid: rowids[i] });
                },
                Err(e) => {
                    return Err(e);
                },
            }
            i += 1;
        }
        Ok(rows)
    }

    /// The columns of `table`, read from the statement in its schema row;
    /// `None` where the schema holds no statement for the table. Fails with
    /// `Syntax` where the statement is not of the accepted form.
    pub fn table_columns(&self, table: &str) -> (r: Option<Result<Vec<crate::sql::ColumnDef>, Error>>)
        ensures
            match self@.table_columns(table@) {
                None => r.is_none(),
                Some(Err(e)) => r matches Some(Err(f)) && f == e,
                Some(Ok(columns)) => r matches Some(Ok(c)) && c.deep_view() == columns,
            },
    {
        match self.get_create_table(table) {
            Some(Data::Text(sql)) => Some(
                match parse_create_table(sql.as_str()) {
                    Ok((_, columns)) => Ok(columns),
                    Err(_) => Err(Error::Syntax),
                },
            ),
            _ => None,
        }
    }

    /// The row that the cell `row` of the table `table_name` makes under the
    /// names of the table's columns, with the row id under `rowid` and
    /// under the name of the integer primary key. The row is empty where
    /// the schema holds no statement for the table, and where the cell is
    /// no leaf table cell.
    ///
    /// Fails with `Syntax` where the statement of the table is not of the
    /// accepted form.
    pub fn match_row_with_column_names(&self, row: &PageValue, table_name: &str) -> (r: Result<
        Row,
        Error,
    >)
        ensures
            match self@.named_row(row@, table_name@) {
                Ok(model) => r matches Ok(named) && named@ == model,
                Err(e) => r matches Err(f) && f == e,
            },
    {
        let columns = match self.table_columns(table_name) {
            None => {
                return Ok(Row::new());
            },
            Some(Err(e)) => {
                return Err(e);
            },
            Some(Ok(columns)) => columns,
        };
        match row {
            PageValue::LeafTable { payload, rowid } => Ok(
                materialize(payload, *rowid, columns.as_slice()),
            ),
            _ => Ok(Row::new()),
        }
    }
}

/// The cells of a page of a database have the shape of the page's kind.
pub proof fn lemma_page_cells_kind(db: DatabaseModel, n: nat)
    ensures
        db.page(n) matches Ok(page) ==> forall|i: int|
            0 <= i < page.cells.len() ==> (#[trigger] page.cells[i]).page_type()
                == page.header.page_type,
{
    if let Ok(bytes) = db.page_bytes(n) {
        if spec_parse_page(bytes, n == 1) is Ok {
            lemma_page_cells_in_bounds(bytes, n == 1);
            let (page, _) = spec_parse_page(bytes, n == 1).unwrap();
            assert forall|i: int| 0 <= i < page.cells.len() implies (#[trigger] page.cells[i]).page_type()
                == page.header.page_type by {
                let p = crate::page::cell_pointer(bytes, n == 1, i);
            }
        }
    }
}

/// What a database file says of itself: its page size in bytes, and the
/// number of cells of its schema page.
#[derive(Debug, Clone, Copy, PartialEq, Eq, Structural)]
pub struct DatabaseInfo {
    pub page_size: u32,
    pub number_of_tables: u16,
}

/// The page size and the number of schema rows of the file in `bytes`: the
/// file header, then the page header of the first page and its cell pointer
/// array, which are read but not followed.
pub open spec fn spec_database_info(bytes: Seq<u8>) -> Result<DatabaseInfo, Error> {
    match header_failure(bytes) {
        Some(e) => Err(e),
        None => match spec_parse_page_header(bytes.skip(HEADER_SIZE as int)) {
            Err(e) => Err(e.shifted(HEADER_SIZE as int)),
            Ok((header, header_len)) => match spec_cell_pointers(
                bytes.skip(HEADER_SIZE + header_len),
                header.number_of_cells,
            ) {
                Err(e) => Err(e.shifted(HEADER_SIZE + header_len)),
                Ok(_) => Ok(
                    DatabaseInfo {
                        page_size: page_size_in_bytes(field(bytes, 16, 2) as u16) as u32,
                        number_of_tables: header.number_of_cells,
                    },
                ),
            },
        },
    }
}

/// Reads the page size and the number of schema rows from the start of a
/// database file.
///
/// Fails as the file header decoder, the page header decoder and the
/// decoder of the cell pointer array do, with offsets that count from the
/// start of the file.
pub fn database_info(bytes: &[u8]) -> (r: Result<DatabaseInfo, Error>)
    ensures
        match spec_database_info(bytes@) {
            Ok(info) => r matches Ok(i) && i == info,
            Err(e) => r matches Err(f) && f == e,
        },
{
    let (rest, header) = match parse_header(bytes) {
        Ok(found) => found,
        Err(e) => {
            return Err(e);
        },
    };
    let (after_header, page_header) = match parse_page_header(rest) {
        Ok(found) => found,
        Err(e) => {
            return Err(e.at(HEADER_SIZE));
        },
    };
    let header_end = bytes.len() - after_header.len();
    assert(after_header@ =~= bytes@.skip(header_end as int));
    match parse_cell_pointers(after_header, page_header.number_of_cells) {
        Ok(_) => Ok(
            DatabaseInfo {
                page_size: header.page_size_bytes(),
                number_of_tables: page_header.number_of_cells,
            },
        ),
        Err(e) => Err(e.at(header_end)),
    }
}

} // verus!
