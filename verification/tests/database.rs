use sqlite_reader::btree::{get_pages, search_by_rowid, search_index};
use sqlite_reader::database::{database_info, Database, DatabaseInfo};
use sqlite_reader::encode::encode_record;
use sqlite_reader::error::Error;
use sqlite_reader::page::{PageType, PageValue};
use sqlite_reader::query::{
    count_rows, execute, project, scan_table, select, table_names, QueryResult,
};
use sqlite_reader::row::{get_rows, materialize, Row};
use sqlite_reader::schema::{
    find_index, get_create_table, get_root_page, get_schema_value_by_index, index_pattern_for,
    root_if_matched, statement_of_index,
};
use sqlite_reader::sql::{ColumnDef, Comparator, WhereClause};
use sqlite_reader::value::Data;
use sqlite_reader::varint::encode_varint;

const PAGE: usize = 512;

fn text(s: &str) -> Data {
    Data::Text(s.to_string())
}

fn table_leaf_cell(rowid: i64, values: &Vec<Data>) -> Vec<u8> {
    let payload = encode_record(values).unwrap();
    let mut cell = encode_varint(payload.len() as i64);
    cell.extend(encode_varint(rowid));
    cell.extend(payload);
    cell
}

fn table_interior_cell(left: u32, rowid: i64) -> Vec<u8> {
    let mut cell = left.to_be_bytes().to_vec();
    cell.extend(encode_varint(rowid));
    cell
}

fn index_leaf_cell(values: &Vec<Data>) -> Vec<u8> {
    let payload = encode_record(values).unwrap();
    let mut cell = encode_varint(payload.len() as i64);
    cell.extend(payload);
    cell
}

fn index_interior_cell(left: u32, values: &Vec<Data>) -> Vec<u8> {
    let mut cell = left.to_be_bytes().to_vec();
    cell.extend(index_leaf_cell(values));
    cell
}

// A page of `PAGE` bytes: the header at `base`, the pointers after it, and
// the cells from the end of the page down.
fn page(kind: u8, cells: &[Vec<u8>], right_most: Option<u32>, base: usize) -> Vec<u8> {
    let mut page = vec![0u8; PAGE];
    page[base] = kind;
    page[base + 3..base + 5].copy_from_slice(&(cells.len() as u16).to_be_bytes());
    let header = match right_most {
        Some(p) => {
            page[base + 8..base + 12].copy_from_slice(&p.to_be_bytes());
            12
        }
        None => 8,
    };
    let mut end = PAGE;
    for (i, cell) in cells.iter().enumerate() {
        end -= cell.len();
        page[end..end + cell.len()].copy_from_slice(cell);
        let at = base + header + 2 * i;
        page[at..at + 2].copy_from_slice(&(end as u16).to_be_bytes());
    }
    assert!(end >= base + header + 2 * cells.len());
    page[base + 5..base + 7].copy_from_slice(&(end as u16).to_be_bytes());
    page
}

fn first_page(cells: &[Vec<u8>]) -> Vec<u8> {
    let mut p = page(13, cells, None, 100);
    p[..16].copy_from_slice(b"SQLite format 3\0");
    p[16..18].copy_from_slice(&(PAGE as u16).to_be_bytes());
    p[56..60].copy_from_slice(&1u32.to_be_bytes());
    p
}

fn schema_row(kind: &str, name: &str, table: &str, root: i64, sql: &str) -> Vec<Data> {
    vec![text(kind), text(name), text(table), Data::Integer(root), text(sql)]
}

fn hero(name: &str, eye_color: &str) -> Vec<Data> {
    vec![Data::Null, text(name), text(eye_color)]
}

fn entry(key: &str, rowid: i64) -> Vec<Data> {
    vec![text(key), Data::Integer(rowid)]
}

const HEROES_SQL: &str = "CREATE TABLE heroes (id integer primary key, name text, eye_color text)";
const INDEX_SQL: &str = "CREATE INDEX idx_eye ON heroes (eye_color)";
const FRUIT_SQL: &str = "CREATE TABLE fruit\n(\n\tname text,\n\tcolor text\n)";

// Page 1: the schema. Pages 2 to 5: the table `heroes`, an interior root
// with three leaves. Pages 6 to 8: the index on `eye_color`, an interior
// root with two leaves. Page 9: the table `fruit`, one leaf. Page 10: an
// index page that points to itself.
fn sample() -> Vec<u8> {
    let mut file = first_page(&[
        table_leaf_cell(1, &schema_row("table", "heroes", "heroes", 2, HEROES_SQL)),
        table_leaf_cell(2, &schema_row("index", "idx_eye", "heroes", 6, INDEX_SQL)),
        table_leaf_cell(3, &schema_row("table", "fruit", "fruit", 9, FRUIT_SQL)),
    ]);
    file.extend(page(
        5,
        &[table_interior_cell(3, 2), table_interior_cell(4, 4)],
        Some(5),
        0,
    ));
    file.extend(page(
        13,
        &[table_leaf_cell(1, &hero("Ada", "blue")), table_leaf_cell(2, &hero("Bob", "amber"))],
        None,
        0,
    ));
    file.extend(page(
        13,
        &[table_leaf_cell(3, &hero("Cy", "pink")), table_leaf_cell(4, &hero("Di", "blue"))],
        None,
        0,
    ));
    file.extend(page(
        13,
        &[table_leaf_cell(5, &hero("Ed", "pink")), table_leaf_cell(6, &hero("Flo", "green"))],
        None,
        0,
    ));
    file.extend(page(2, &[index_interior_cell(7, &entry("blue", 4))], Some(8), 0));
    file.extend(page(
        10,
        &[index_leaf_cell(&entry("amber", 2)), index_leaf_cell(&entry("blue", 1))],
        None,
        0,
    ));
    file.extend(page(
        10,
        &[
            index_leaf_cell(&entry("green", 6)),
            index_leaf_cell(&entry("pink", 3)),
            index_leaf_cell(&entry("pink", 5)),
        ],
        None,
        0,
    ));
    file.extend(page(
        13,
        &[
            table_leaf_cell(10, &vec![text("apple"), text("red")]),
            table_leaf_cell(20, &vec![text("plum"), text("blue")]),
            table_leaf_cell(30, &vec![text("lime")]),
        ],
        None,
        0,
    ));
    file.extend(page(2, &[index_interior_cell(10, &entry("k", 1))], Some(10), 0));
    file
}

fn open() -> Database {
    Database::new(sample()).unwrap()
}

fn rows(lines: &[&[Data]]) -> QueryResult {
    QueryResult::Rows(lines.iter().map(|l| l.to_vec()).collect())
}

#[test]
fn dbinfo_of_the_sample() {
    assert_eq!(
        database_info(&sample()),
        Ok(DatabaseInfo { page_size: 512, number_of_tables: 3 })
    );
    assert_eq!(database_info(&sample()[..100]).err(), Some(Error::Truncated { offset: 100 }));
    assert_eq!(database_info(&sample()[..113]).err(), Some(Error::Truncated { offset: 108 }));
    assert_eq!(database_info(b"not a database").err(), Some(Error::BadMagic));
}

#[test]
fn tables_of_the_sample() {
    let db = open();
    assert_eq!(table_names(db.schema()), vec!["heroes".to_string(), "fruit".to_string()]);
}

#[test]
fn open_reads_the_page_size_and_the_schema() {
    let db = open();
    assert_eq!(db.page_size(), 512);
    assert_eq!(db.page_count(), 10);
    assert_eq!(db.schema().len(), 3);
    assert_eq!(
        db.schema()[0],
        PageValue::LeafTable { payload: schema_row("table", "heroes", "heroes", 2, HEROES_SQL), rowid: 1 }
    );
}

#[test]
fn open_failures() {
    assert_eq!(Database::new(vec![]).err(), Some(Error::BadMagic));
    let mut file = sample();
    file[56..60].copy_from_slice(&2u32.to_be_bytes());
    assert_eq!(Database::new(file).err(), Some(Error::UnsupportedEncoding));
    let mut file = sample();
    file[56..60].copy_from_slice(&0u32.to_be_bytes());
    assert!(Database::new(file).is_ok());
    let mut file = sample();
    file.truncate(511);
    assert_eq!(Database::new(file).err(), Some(Error::PageOutOfRange { page: 1 }));
    let mut file = sample();
    file[100] = 0;
    assert_eq!(Database::new(file).err(), Some(Error::UnknownPageType { offset: 100 }));
    let mut file = sample();
    file[17] = 1;
    assert_eq!(Database::new(file).err(), Some(Error::InvalidPageSize));
}

#[test]
fn pages_are_numbered_from_one() {
    let db = open();
    let file = sample();
    assert_eq!(db.read_page_at(1), Ok(file[..512].to_vec()));
    assert_eq!(db.read_page_at(3), Ok(file[1024..1536].to_vec()));
    assert_eq!(db.read_page_at(10), Ok(file[9 * 512..].to_vec()));
    assert_eq!(db.read_page_at(0), Err(Error::PageOutOfRange { page: 0 }));
    assert_eq!(db.read_page_at(11), Err(Error::PageOutOfRange { page: 11 }));
    assert_eq!(db.read_page_at(u64::MAX), Err(Error::PageOutOfRange { page: u64::MAX }));
    assert_eq!(db.page_slice(2), Ok(&file[512..1024]));
    assert_eq!(db.page_at(2).unwrap().header.page_type, PageType::InteriorTable);
    assert_eq!(db.page_at(1).unwrap().values, *db.schema());
}

#[test]
fn a_file_that_ends_within_a_page() {
    let mut file = sample();
    file.truncate(10 * 512 - 1);
    let db = Database::new(file).unwrap();
    assert_eq!(db.page_count(), 9);
    assert_eq!(db.read_page_at(10), Err(Error::PageOutOfRange { page: 10 }));
    assert!(db.read_page_at(9).is_ok());
}

#[test]
fn schema_values() {
    let db = open();
    assert_eq!(db.get_root_page("heroes"), Some(Data::Integer(2)));
    assert_eq!(db.get_root_page("fruit"), Some(Data::Integer(9)));
    assert_eq!(db.get_root_page("idx_eye"), None);
    assert_eq!(db.get_root_page("Heroes"), None);
    assert_eq!(db.get_create_table("heroes"), Some(text(HEROES_SQL)));
    assert_eq!(db.get_create_table("nothing"), None);
    assert_eq!(db.table_root("heroes"), Some(2));
    assert_eq!(db.table_root("nothing"), None);
    assert_eq!(get_root_page("fruit", db.schema()), Some(Data::Integer(9)));
    assert_eq!(get_create_table("fruit", db.schema()), Some(text(FRUIT_SQL)));
    assert_eq!(get_schema_value_by_index("fruit", db.schema(), 1), Some(text("fruit")));
    assert_eq!(get_schema_value_by_index("fruit", db.schema(), 5), None);
}

#[test]
fn schema_row_of_a_table_has_type_table() {
    // The row of an index on a table comes before the row of the table.
    let schema = vec![
        PageValue::LeafTable { payload: schema_row("index", "i", "t", 7, "x"), rowid: 1 },
        PageValue::InteriorTable { left_child_page: 3, rowid: 2 },
        PageValue::LeafTable { payload: vec![text("table"), text("t")], rowid: 3 },
        PageValue::LeafTable { payload: schema_row("table", "t", "t", 5, "y"), rowid: 4 },
        PageValue::LeafTable { payload: schema_row("table", "t", "t", 6, "z"), rowid: 5 },
    ];
    assert_eq!(get_root_page("t", &schema), Some(Data::Integer(5)));
    assert_eq!(get_create_table("t", &schema), Some(text("y")));
}

#[test]
fn index_of_a_column() {
    let db = open();
    assert_eq!(db.find_index_root("eye_color", "heroes"), Some(6));
    assert_eq!(db.find_index_root("EYE_COLOR", "Heroes"), Some(6));
    assert_eq!(db.find_index_root("name", "heroes"), None);
    assert_eq!(db.find_index_root("eye_color", "fruit"), None);
    assert_eq!(db.find_index_root("eye", "heroes"), None);
    assert_eq!(find_index(db.schema(), "heroes", "eye_color"), Some(6));
}

#[test]
fn index_statement_with_white_space_in_the_parentheses() {
    let row = |sql: &str, root: i64| PageValue::LeafTable {
        payload: schema_row("index", "i", "t", root, sql),
        rowid: 1,
    };
    assert_eq!(find_index(&[row("create index i on t(c)", 4)], "t", "c"), Some(4));
    assert_eq!(find_index(&[row("create index i on t ( c )", 4)], "t", "c"), Some(4));
    assert_eq!(find_index(&[row("create index i on t\n(\tc\n)", 4)], "t", "c"), Some(4));
    assert_eq!(find_index(&[row("create index i on  t (c)", 4)], "t", "c"), None);
    assert_eq!(find_index(&[row("create index i on t (c, d)", 4)], "t", "c"), None);
    assert_eq!(find_index(&[row("create index i on t (cc)", 4)], "t", "c"), None);
    // The first row that matches decides.
    let schema = [row("create index i on t (d)", 4), row("create index j on t (c)", 5), row("create index k on t (c)", 6)];
    assert_eq!(find_index(&schema, "t", "c"), Some(5));
    // A root page that is no page number.
    assert_eq!(find_index(&[row("create index i on t (c)", -1), row("create index j on t (c)", 5)], "t", "c"), None);
}

#[test]
fn index_names_are_matched_literally() {
    let row = |sql: &str| PageValue::LeafTable {
        payload: schema_row("index", "i", "a.b", 4, sql),
        rowid: 1,
    };
    assert_eq!(index_pattern_for("a.b", "c+"), "(?i)on a\\.b\\s*\\(\\s*c\\+\\s*\\)");
    assert_eq!(index_pattern_for("heroes", "eye_color"), "(?i)on heroes\\s*\\(\\s*eye_color\\s*\\)");
    assert_eq!(find_index(&[row("create index i on a.b (c)")], "a.b", "c"), Some(4));
    assert_eq!(find_index(&[row("create index i on axb (c)")], "a.b", "c"), None);
    assert_eq!(find_index(&[row("create index i on t (c)")], "t", "(c"), None);
}

#[test]
fn index_rows_are_rows_of_type_index() {
    let index = PageValue::LeafTable { payload: schema_row("index", "i", "t", 4, "sql"), rowid: 1 };
    let table = PageValue::LeafTable { payload: schema_row("table", "t", "t", 4, "sql"), rowid: 1 };
    let short = PageValue::LeafTable { payload: vec![text("index"), text("i"), text("t"), Data::Integer(4)], rowid: 1 };
    let no_sql = PageValue::LeafTable {
        payload: vec![text("index"), text("i"), text("t"), Data::Integer(4), Data::Null],
        rowid: 1,
    };
    let other = PageValue::LeafIndex { payload: schema_row("index", "i", "t", 4, "sql") };
    assert_eq!(statement_of_index(&index), Some(&"sql".to_string()));
    assert_eq!(statement_of_index(&table), None);
    assert_eq!(statement_of_index(&short), None);
    assert_eq!(statement_of_index(&no_sql), None);
    assert_eq!(statement_of_index(&other), None);
}

#[test]
fn root_of_a_matched_row() {
    let index = PageValue::LeafTable { payload: schema_row("index", "i", "t", 4, "sql"), rowid: 1 };
    assert_eq!(root_if_matched(&index, Some(true)), Some(Some(4)));
    assert_eq!(root_if_matched(&index, Some(false)), None);
    assert_eq!(root_if_matched(&index, None), None);
    let negative = PageValue::LeafTable { payload: schema_row("index", "i", "t", -4, "sql"), rowid: 1 };
    assert_eq!(root_if_matched(&negative, Some(true)), Some(None));
    let no_number = PageValue::LeafTable {
        payload: vec![text("index"), text("i"), text("t"), text("4"), text("sql")],
        rowid: 1,
    };
    assert_eq!(root_if_matched(&no_number, Some(true)), Some(None));
    let short = PageValue::LeafTable { payload: vec![text("index")], rowid: 1 };
    assert_eq!(root_if_matched(&short, Some(true)), Some(None));
    assert_eq!(root_if_matched(&PageValue::InteriorTable { left_child_page: 1, rowid: 1 }, Some(true)), Some(None));
}

#[test]
fn leaves_in_tree_order() {
    let db = open();
    assert_eq!(get_pages(2, &db), Ok(vec![3, 4, 5]));
    assert_eq!(get_pages(9, &db), Ok(vec![9]));
    assert_eq!(get_pages(4, &db), Ok(vec![4]));
    assert_eq!(get_pages(1, &db), Ok(vec![1]));
}

#[test]
fn leaves_failures() {
    let db = open();
    assert_eq!(get_pages(6, &db), Err(Error::NotATablePage { page: 6 }));
    assert_eq!(get_pages(7, &db), Err(Error::NotATablePage { page: 7 }));
    assert_eq!(get_pages(0, &db), Err(Error::PageOutOfRange { page: 0 }));
    assert_eq!(get_pages(11, &db), Err(Error::PageOutOfRange { page: 11 }));
    // A child that is no page of the file.
    let mut file = sample();
    file[512 + 8..512 + 12].copy_from_slice(&99u32.to_be_bytes());
    let db = Database::new(file).unwrap();
    assert_eq!(get_pages(2, &db), Err(Error::PageOutOfRange { page: 99 }));
    // A child that is an index page.
    let mut file = sample();
    file[512 + 8..512 + 12].copy_from_slice(&7u32.to_be_bytes());
    let db = Database::new(file).unwrap();
    assert_eq!(get_pages(2, &db), Err(Error::NotATablePage { page: 7 }));
}

#[test]
fn pages_that_form_no_tree() {
    // The right-most child of the root of `heroes` is the root itself.
    let mut file = sample();
    file[512 + 8..512 + 12].copy_from_slice(&2u32.to_be_bytes());
    let db = Database::new(file).unwrap();
    assert_eq!(get_pages(2, &db), Err(Error::TooDeep));
    assert_eq!(search_by_rowid(&db, 2, 6), Err(Error::TooDeep));
    assert_eq!(count_rows(&db, 2), Err(Error::TooDeep));
    assert_eq!(search_index(10, text("k"), &open()), Err(Error::TooDeep));
}

#[test]
fn row_by_rowid() {
    let db = open();
    for (rowid, name, color) in [(1, "Ada", "blue"), (2, "Bob", "amber"), (3, "Cy", "pink"), (4, "Di", "blue"), (5, "Ed", "pink"), (6, "Flo", "green")] {
        assert_eq!(
            search_by_rowid(&db, 2, rowid),
            Ok(Some(PageValue::LeafTable { payload: hero(name, color), rowid }))
        );
    }
    assert_eq!(search_by_rowid(&db, 2, 0), Ok(None));
    assert_eq!(search_by_rowid(&db, 2, 7), Ok(None));
    assert_eq!(search_by_rowid(&db, 2, i64::MIN), Ok(None));
    assert_eq!(search_by_rowid(&db, 2, i64::MAX), Ok(None));
    assert_eq!(search_by_rowid(&db, 9, 20), Ok(Some(PageValue::LeafTable { payload: vec![text("plum"), text("blue")], rowid: 20 })));
    assert_eq!(search_by_rowid(&db, 9, 15), Ok(None));
    assert_eq!(search_by_rowid(&db, 9, 31), Ok(None));
}

#[test]
fn row_by_rowid_failures() {
    let db = open();
    assert_eq!(search_by_rowid(&db, 6, 1), Err(Error::NotATablePage { page: 6 }));
    assert_eq!(search_by_rowid(&db, 8, 1), Err(Error::NotATablePage { page: 8 }));
    assert_eq!(search_by_rowid(&db, 0, 1), Err(Error::PageOutOfRange { page: 0 }));
    assert_eq!(search_by_rowid(&db, 77, 1), Err(Error::PageOutOfRange { page: 77 }));
}

#[test]
fn rowids_of_a_key() {
    let db = open();
    // The entry of the interior page, then what its left child holds.
    assert_eq!(search_index(6, text("blue"), &db), Ok(vec![4, 1]));
    // Past the last entry of the interior page: the right-most child.
    assert_eq!(search_index(6, text("pink"), &db), Ok(vec![3, 5]));
    assert_eq!(search_index(6, text("green"), &db), Ok(vec![6]));
    assert_eq!(search_index(6, text("red"), &db), Ok(vec![]));
    assert_eq!(search_index(6, text("zebra"), &db), Ok(vec![]));
    assert_eq!(search_index(6, Data::Null, &db), Ok(vec![]));
    assert_eq!(search_index(6, Data::Blob(vec![]), &db), Ok(vec![]));
    // A leaf alone.
    assert_eq!(search_index(7, text("amber"), &db), Ok(vec![2]));
    assert_eq!(search_index(8, text("pink"), &db), Ok(vec![3, 5]));
}

#[test]
fn index_walk_visits_no_child_left_of_a_greater_key() {
    // `amber` is less than the one key of the interior page: the walk
    // visits no cell of the page, nor the right-most child.
    let db = open();
    assert_eq!(search_index(6, text("amber"), &db), Ok(vec![]));
}

#[test]
fn rowids_of_a_key_failures() {
    let db = open();
    assert_eq!(search_index(2, text("blue"), &db), Err(Error::NotAnIndexPage { page: 2 }));
    assert_eq!(search_index(3, text("blue"), &db), Err(Error::NotAnIndexPage { page: 3 }));
    assert_eq!(search_index(0, text("blue"), &db), Err(Error::PageOutOfRange { page: 0 }));
    // The left child of the entry is a table page.
    let mut file = sample();
    let at = 5 * 512;
    let pointer = u16::from_be_bytes([file[at + 12], file[at + 13]]) as usize;
    file[at + pointer..at + pointer + 4].copy_from_slice(&3u32.to_be_bytes());
    let db = Database::new(file).unwrap();
    assert_eq!(search_index(6, text("blue"), &db), Err(Error::NotAnIndexPage { page: 3 }));
}

#[test]
fn rows_by_index() {
    let db = open();
    assert_eq!(
        db.find_by_index("eye_color", "heroes", text("pink")),
        Ok(vec![
            PageValue::LeafTable { payload: hero("Cy", "pink"), rowid: 3 },
            PageValue::LeafTable { payload: hero("Ed", "pink"), rowid: 5 },
        ])
    );
    assert_eq!(db.find_by_index("eye_color", "heroes", text("none")), Ok(vec![]));
    assert_eq!(db.find_by_index("name", "heroes", text("Ada")), Err(Error::IndexNotFound));
}

#[test]
fn rows_by_index_failures() {
    // The index names a row id that the table does not hold.
    let mut file = sample();
    let at = 7 * 512;
    let pointer = u16::from_be_bytes([file[at + 10], file[at + 11]]) as usize;
    let cell = index_leaf_cell(&entry("pink", 9));
    file[at + pointer..at + pointer + cell.len()].copy_from_slice(&cell);
    let db = Database::new(file).unwrap();
    assert_eq!(db.find_by_index("eye_color", "heroes", text("pink")), Err(Error::RowNotFound { rowid: 9 }));
    // An index on a table that the schema does not name.
    let mut file = first_page(&[table_leaf_cell(1, &schema_row("index", "i", "t", 2, "create index i on t (c)"))]);
    file.extend(page(10, &[index_leaf_cell(&entry("k", 1))], None, 0));
    let db = Database::new(file).unwrap();
    assert_eq!(db.find_by_index("c", "t", text("k")), Err(Error::TableNotFound));
}

#[test]
fn row_under_column_names() {
    let db = open();
    let cell = PageValue::LeafTable { payload: hero("Cy", "pink"), rowid: 3 };
    let row = db.match_row_with_column_names(&cell, "heroes").unwrap();
    assert_eq!(row.get("rowid"), Some(&Data::Integer(3)));
    assert_eq!(row.get("id"), Some(&Data::Integer(3)));
    assert_eq!(row.get("name"), Some(&text("Cy")));
    assert_eq!(row.get("eye_color"), Some(&text("pink")));
    assert_eq!(row.get("other"), None);
    assert_eq!(db.match_row_with_column_names(&cell, "nothing"), Ok(Row::new()));
    let interior = PageValue::InteriorTable { left_child_page: 1, rowid: 3 };
    assert_eq!(db.match_row_with_column_names(&interior, "heroes"), Ok(Row::new()));
}

#[test]
fn integer_primary_key_is_the_rowid() {
    let columns = vec![
        ColumnDef { name: "id".to_string(), modifiers: "integer primary key".to_string(), ipk: true },
        ColumnDef { name: "name".to_string(), modifiers: "text".to_string(), ipk: false },
        ColumnDef { name: "more".to_string(), modifiers: "text".to_string(), ipk: false },
    ];
    let row = materialize(&vec![Data::Null, text("n")], 41, &columns);
    assert_eq!(row.get("id"), Some(&Data::Integer(41)));
    assert_eq!(row.get("rowid"), Some(&Data::Integer(41)));
    assert_eq!(row.get("name"), Some(&text("n")));
    // The record is shorter than the table has columns.
    assert_eq!(row.get("more"), Some(&Data::Null));
    // A later column of the same name takes the name.
    let columns = vec![
        ColumnDef { name: "id".to_string(), modifiers: "integer primary key".to_string(), ipk: true },
        ColumnDef { name: "id".to_string(), modifiers: "text".to_string(), ipk: false },
        ColumnDef { name: "rowid".to_string(), modifiers: "text".to_string(), ipk: false },
    ];
    let row = materialize(&vec![Data::Null, text("second"), text("third")], 41, &columns);
    assert_eq!(row.get("id"), Some(&text("second")));
    assert_eq!(row.get("rowid"), Some(&text("third")));
}

#[test]
fn row_entries() {
    let mut row = Row::new();
    assert_eq!(row.get("a"), None);
    row.insert("a".to_string(), Data::Integer(1));
    row.insert("b".to_string(), Data::Integer(2));
    row.insert("a".to_string(), Data::Integer(3));
    assert_eq!(row.get("a"), Some(&Data::Integer(3)));
    assert_eq!(row.get("b"), Some(&Data::Integer(2)));
    assert_eq!(row.get("A"), None);
    let names = vec!["b", "missing", "a", "b"];
    assert_eq!(project(&row, &names), vec![Data::Integer(2), Data::Integer(3), Data::Integer(2)]);
}

#[test]
fn rows_of_a_page() {
    let db = open();
    let columns = db.table_columns("fruit").unwrap().unwrap();
    let page = db.page_at(9).unwrap();
    let all = get_rows(&page, &columns, None);
    assert_eq!(all.len(), 3);
    assert_eq!(all[0].get("name"), Some(&text("apple")));
    assert_eq!(all[2].get("color"), Some(&Data::Null));
    let filter = WhereClause { column: "color".to_string(), operator: Comparator::Eq, value: "blue".to_string() };
    let blue = get_rows(&page, &columns, Some(filter));
    assert_eq!(blue.len(), 1);
    assert_eq!(blue[0].get("name"), Some(&text("plum")));
    assert_eq!(blue[0].get("rowid"), Some(&Data::Integer(20)));
    let filter = WhereClause { column: "shape".to_string(), operator: Comparator::Eq, value: "blue".to_string() };
    assert_eq!(get_rows(&page, &columns, Some(filter)).len(), 0);
    // An interior page has no rows.
    assert_eq!(get_rows(&db.page_at(2).unwrap(), &columns, None).len(), 0);
}

#[test]
fn count_is_the_number_of_leaf_cells() {
    let db = open();
    assert_eq!(count_rows(&db, 2), Ok(6));
    assert_eq!(count_rows(&db, 9), Ok(3));
    assert_eq!(count_rows(&db, 1), Ok(3));
    assert_eq!(count_rows(&db, 6), Err(Error::NotATablePage { page: 6 }));
}

#[test]
fn count_equals_scan_length() {
    let db = open();
    for (table, root) in [("heroes", 2usize), ("fruit", 9)] {
        let columns = db.table_columns(table).unwrap().unwrap();
        let scanned = scan_table(&db, root, &columns, &None).unwrap();
        assert_eq!(count_rows(&db, root), Ok(scanned.len()));
    }
    assert_eq!(scan_table(&db, 6, &[], &None).err(), Some(Error::NotATablePage { page: 6 }));
}

#[test]
fn scan_yields_ascending_rowids() {
    let db = open();
    let columns = db.table_columns("heroes").unwrap().unwrap();
    let scanned = scan_table(&db, 2, &columns, &None).unwrap();
    let rowids: Vec<Data> = scanned.iter().map(|r| r.get("rowid").unwrap().clone()).collect();
    assert_eq!(rowids, (1..=6).map(Data::Integer).collect::<Vec<_>>());
}

#[test]
fn select_count_of_rows() {
    let db = open();
    assert_eq!(execute(&db, "SELECT count(*) FROM heroes"), Ok(QueryResult::Count(6)));
    assert_eq!(execute(&db, "select COUNT(*) from fruit"), Ok(QueryResult::Count(3)));
    assert_eq!(execute(&db, "select count(*) from fruit where color = 'blue'"), Ok(QueryResult::Count(3)));
}

#[test]
fn select_by_scan() {
    let db = open();
    assert_eq!(
        execute(&db, "SELECT id, name FROM heroes WHERE name = 'Di'"),
        Ok(rows(&[&[Data::Integer(4), text("Di")]]))
    );
    assert_eq!(
        execute(&db, "select name, color from fruit"),
        Ok(rows(&[
            &[text("apple"), text("red")],
            &[text("plum"), text("blue")],
            &[text("lime"), Data::Null],
        ]))
    );
    assert_eq!(
        execute(&db, "select color, rowid, shape from fruit where name = 'plum'  "),
        Ok(rows(&[&[text("blue"), Data::Integer(20)]]))
    );
    assert_eq!(execute(&db, "select name from fruit where color = 'none'"), Ok(rows(&[])));
}

#[test]
fn select_by_index() {
    let db = open();
    assert_eq!(
        execute(&db, "SELECT id, name FROM heroes WHERE eye_color = 'pink'"),
        Ok(rows(&[&[Data::Integer(3), text("Cy")], &[Data::Integer(5), text("Ed")]]))
    );
    // In the order in which the index yields the row ids.
    assert_eq!(
        execute(&db, "SELECT name, id FROM heroes WHERE eye_color = 'blue'"),
        Ok(rows(&[&[text("Di"), Data::Integer(4)], &[text("Ada"), Data::Integer(1)]]))
    );
    let filter = WhereClause { column: "eye_color".to_string(), operator: Comparator::Eq, value: "green".to_string() };
    assert_eq!(select(&db, &vec!["name"], "heroes", Some(filter)), Ok(rows(&[&[text("Flo")]])));
}

#[test]
fn select_by_index_and_by_scan_agree() {
    let with_index = open();
    // The same file without the row of the index in the schema.
    let mut file = sample();
    file[..512].copy_from_slice(&first_page(&[
        table_leaf_cell(1, &schema_row("table", "heroes", "heroes", 2, HEROES_SQL)),
        table_leaf_cell(3, &schema_row("table", "fruit", "fruit", 9, FRUIT_SQL)),
    ]));
    let without_index = Database::new(file).unwrap();
    assert_eq!(without_index.find_index_root("eye_color", "heroes"), None);
    for color in ["pink", "blue", "green", "red"] {
        let sql = format!("SELECT id, name FROM heroes WHERE eye_color = '{}'", color);
        let mut by_index = match execute(&with_index, &sql).unwrap() {
            QueryResult::Rows(r) => r,
            QueryResult::Count(_) => unreachable!(),
        };
        let by_scan = match execute(&without_index, &sql).unwrap() {
            QueryResult::Rows(r) => r,
            QueryResult::Count(_) => unreachable!(),
        };
        by_index.sort_by_key(|r| match r[0] {
            Data::Integer(n) => n,
            _ => unreachable!(),
        });
        assert_eq!(by_index, by_scan);
    }
}

#[test]
fn select_failures() {
    let db = open();
    assert_eq!(execute(&db, "select a from nothing"), Err(Error::TableNotFound));
    assert_eq!(execute(&db, "select a from idx_eye"), Err(Error::TableNotFound));
    assert_eq!(execute(&db, "select a from fruit where a != 'x'"), Err(Error::Syntax));
    assert_eq!(execute(&db, "select a from fruit;"), Err(Error::Syntax));
    assert_eq!(execute(&db, "delete from fruit"), Err(Error::Syntax));
    assert_eq!(execute(&db, ""), Err(Error::Syntax));
    // A statement of the table that is outside the grammar.
    let mut file = first_page(&[table_leaf_cell(
        1,
        &schema_row("table", "t", "t", 2, "CREATE TABLE t (a varchar(10))"),
    )]);
    file.extend(page(13, &[table_leaf_cell(1, &vec![text("x")])], None, 0));
    let db = Database::new(file).unwrap();
    assert_eq!(execute(&db, "select a from t"), Err(Error::Syntax));
    assert_eq!(execute(&db, "select count(*) from t"), Ok(QueryResult::Count(1)));
    // A table without a statement.
    let mut file = first_page(&[table_leaf_cell(
        1,
        &vec![text("table"), text("t"), text("t"), Data::Integer(2), Data::Null],
    )]);
    file.extend(page(13, &[table_leaf_cell(1, &vec![text("x")])], None, 0));
    let db = Database::new(file).unwrap();
    assert_eq!(execute(&db, "select a from t"), Ok(rows(&[])));
}


#[test]
fn index_rowids_are_the_rows_with_the_key() {
    let db = open();
    // Keys that the walk of the index reaches: none of them stands under
    // the left child of a greater key.
    for key in ["blue", "pink", "green", "red", ""] {
        let mut from_index = search_index(6, text(key), &db).unwrap();
        from_index.sort();
        let mut from_table = Vec::new();
        for rowid in -1..=8 {
            if let Some(PageValue::LeafTable { payload, .. }) = search_by_rowid(&db, 2, rowid).unwrap() {
                if payload[2] == text(key) {
                    from_table.push(rowid);
                }
            }
        }
        assert_eq!(from_index, from_table, "{}", key);
    }
}

#[test]
fn pages_by_number() {
    let db = open();
    let file = sample();
    assert_eq!(
        db.read_pages(&[2, 1, 2]),
        Ok(vec![file[512..1024].to_vec(), file[..512].to_vec(), file[512..1024].to_vec()])
    );
    assert_eq!(db.read_pages(&[]), Ok(vec![]));
    assert_eq!(db.read_pages(&[1, 11, 0]), Err(Error::PageOutOfRange { page: 11 }));
}
