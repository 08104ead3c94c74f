//! Walks of the B-trees of a database: the leaves of a table, a row by its
//! row id, and the row ids that an index holds for a key.
//!
//! A walk takes a budget of levels, which is the number of pages of the
//! file: no tree in the file is deeper, so a walk that runs out of budget
//! has met pages that do not form a tree.

use crate::database::{Database, DatabaseModel};
use crate::error::Error;
use crate::order::Order;
use crate::page::{CellModel, Page, PageModel, PageType, PageValue};
use crate::value::{value_order, Data, Value};
use vstd::prelude::*;

verus! {

/// The leaves under the table page `root`, in tree order, in a walk of at
/// most `fuel` levels.
pub open spec fn spec_leaves(db: DatabaseModel, root: usize, fuel: nat) -> Result<
    Seq<usize>,
    Error,
>
    decreases fuel, 0nat,
{
    if fuel == 0 {
        Err(Error::TooDeep)
    } else {
        match db.page(root as nat) {
            Err(e) => Err(e),
            Ok(page) => match page.header.page_type {
                PageType::LeafTable => Ok(seq![root]),
                PageType::InteriorTable => spec_child_leaves(
                    db,
                    page,
                    0,
                    (fuel - 1) as nat,
                    Seq::empty(),
                ),
                _ => Err(Error::NotATablePage { page: root as u64 }),
            },
        }
    }
}

/// The leaves under the children of the interior table page `page` from
/// child `i` on, the right-most child last, after the leaves in `acc`.
pub open spec fn spec_child_leaves(
    db: DatabaseModel,
    page: PageModel,
    i: nat,
    fuel: nat,
    acc: Seq<usize>,
) -> Result<Seq<usize>, Error>
    decreases fuel, 1 + (page.cells.len() - i) as nat,
{
    if i < page.cells.len() {
        match page.cells[i as int] {
            CellModel::TableInterior { left_child_page, .. } => match spec_leaves(
                db,
                left_child_page as usize,
                fuel,
            ) {
                Err(e) => Err(e),
                Ok(leaves) => spec_child_leaves(db, page, i + 1, fuel, acc + leaves),
            },
            _ => spec_child_leaves(db, page, i + 1, fuel, acc),
        }
    } else {
        match page.header.right_most_pointer {
            None => Ok(acc),
            Some(p) => match spec_leaves(db, p as usize, fuel) {
                Err(e) => Err(e),
                Ok(leaves) => Ok(acc + leaves),
            },
        }
    }
}

/// The leaves under `root` in a walk of at most `fuel` levels.
fn leaves_within(db: &Database, root: usize, fuel: usize) -> (r: Result<Vec<usize>, Error>)
    ensures
        match spec_leaves(db@, root, fuel as nat) {
            Ok(leaves) => r matches Ok(v) && v@ == leaves,
            Err(e) => r matches Err(f) && f == e,
        },
    decreases fuel,
{
    if fuel == 0 {
        return Err(Error::TooDeep);
    }
    let page = match db.page_at(root as u64) {
        Ok(page) => page,
        Err(e) => {
            return Err(e);
        },
    };
    match page.header.page_type {
        PageType::LeafTable => {
            let mut out: Vec<usize> = Vec::new();
            out.push(root);
            assert(out@ =~= seq![root]);
            Ok(out)
        },
        PageType::InteriorTable => {
            let mut out: Vec<usize> = Vec::new();
            let mut i: usize = 0;
            while i < page.values.len()
                invariant
                    i <= page.values.len(),
                    fuel > 0,
                    page@.cells.len() == page.values.len(),
                    spec_leaves(db@, root, fuel as nat) == spec_child_leaves(
                        db@,
                        page@,
                        i as nat,
                        (fuel - 1) as nat,
                        out@,
                    ),
                decreases page.values.len() - i,
            {
                assert(page@.cells[i as int] == page.values[i as int]@);
                match &page.values[i] {
                    PageValue::InteriorTable { left_child_page, .. } => {
                        match leaves_within(db, *left_child_page as usize, fuel - 1) {
                            Ok(leaves) => {
                                let mut leaves = leaves;
                                out.append(&mut leaves);
                            },
                            Err(e) => {
                                return Err(e);
                            },
                        }
                    },
                    _ => {},
                }
                i += 1;
            }
            match page.header.right_most_pointer {
                None => Ok(out),
                Some(p) => match leaves_within(db, p as usize, fuel - 1) {
                    Ok(leaves) => {
                        let mut leaves = leaves;
                        out.append(&mut leaves);
                        Ok(out)
                    },
                    Err(e) => Err(e),
                },
            }
        },
        _ => Err(Error::NotATablePage { page: root as u64 }),
    }
}

/// The page numbers of the leaves of the table B-tree rooted at
/// `root_index`, in tree order: the root itself where it is a leaf, else the
/// leaves under each cell's left child in cell order, then those under the
/// right-most child.
///
/// Fails as reading and decoding a page does, with `NotATablePage` on a page
/// that is no table page, and with `TooDeep` where the walk goes deeper than
/// the file has pages.
pub fn get_pages(root_index: usize, db: &Database) -> (r: Result<Vec<usize>, Error>)
    ensures
        match spec_leaves(db@, root_index, db@.page_count()) {
            Ok(leaves) => r matches Ok(v) && v@ == leaves,
            Err(e) => r matches Err(f) && f == e,
        },
{
    leaves_within(db, root_index, db.page_count())
}

/// The row id of a cell of a table page.
pub open spec fn table_rowid(cell: CellModel) -> Option<i64> {
    match cell {
        CellModel::TableLeaf { row_id, .. } => Some(row_id),
        CellModel::TableInterior { row_id, .. } => Some(row_id),
        _ => None,
    }
}

/// Whether the cell is a table cell with a row id below `rowid`.
pub open spec fn rowid_below(cell: CellModel, rowid: i64) -> bool {
    match table_rowid(cell) {
        Some(r) => r < rowid,
        None => false,
    }
}

/// The number of cells among the first `n` with a row id below `rowid`.
pub open spec fn count_rowids_below(cells: Seq<CellModel>, rowid: i64, n: nat) -> nat
    decreases n,
{
    if n == 0 {
        0
    } else {
        count_rowids_below(cells, rowid, (n - 1) as nat) + if rowid_below(cells[n - 1], rowid) {
            1nat
        } else {
            0nat
        }
    }
}

/// The row with row id `rowid` under the table page `root`, in a descent of
/// at most `fuel` levels.
///
/// On each page the descent takes the position that is the number of cells
/// with a smaller row id: where the cells are in ascending order, that is
/// where `rowid` is or would be inserted. A leaf holds the row at that
/// position or not at all. In an interior page the row is under that cell's
/// left child, or under the right-most child where the position is past the
/// last cell.
pub open spec fn spec_lookup(db: DatabaseModel, root: u64, rowid: i64, fuel: nat) -> Result<
    Option<CellModel>,
    Error,
>
    decreases fuel,
{
    if fuel == 0 {
        Err(Error::TooDeep)
    } else {
        match db.page(root as nat) {
            Err(e) => Err(e),
            Ok(page) => {
                let at = count_rowids_below(page.cells, rowid, page.cells.len()) as int;
                match page.header.page_type {
                    PageType::LeafTable => {
                        if at < page.cells.len() && table_rowid(page.cells[at]) == Some(rowid) {
                            Ok(Some(page.cells[at]))
                        } else {
                            Ok(None)
                        }
                    },
                    PageType::InteriorTable => {
                        if at < page.cells.len() {
                            match page.cells[at] {
                                CellModel::TableInterior { left_child_page, .. } => spec_lookup(
                                    db,
                                    left_child_page as u64,
                                    rowid,
                                    (fuel - 1) as nat,
                                ),
                                _ => Err(Error::NotATablePage { page: root }),
                            }
                        } else {
                            match page.header.right_most_pointer {
                                None => Ok(None),
                                Some(p) => spec_lookup(db, p as u64, rowid, (fuel - 1) as nat),
                            }
                        }
                    },
                    _ => Err(Error::NotATablePage { page: root }),
                }
            },
        }
    }
}

/// The number of cells of the page with a row id below `rowid`.
fn position_of_rowid(page: &Page, rowid: i64) -> (r: usize)
    ensures
        r == count_rowids_below(page@.cells, rowid, page@.cells.len()),
        r <= page.values.len(),
        page.values.len() == page@.cells.len(),
{
    let mut count: usize = 0;
    let mut i: usize = 0;
    while i < page.values.len()
        invariant
            i <= page.values.len(),
            page@.cells.len() == page.values.len(),
            count == count_rowids_below(page@.cells, rowid, i as nat),
            count <= i,
        decreases page.values.len() - i,
    {
        assert(page@.cells[i as int] == page.values[i as int]@);
        let below = match &page.values[i] {
            PageValue::LeafTable { rowid: r, .. } => *r < rowid,
            PageValue::InteriorTable { rowid: r, .. } => *r < rowid,
            _ => false,
        };
        if below {
            count += 1;
        }
        i += 1;
    }
    count
}

/// The row with row id `rowid` under `root` in a descent of at most `fuel`
/// levels.
fn lookup_within(db: &Database, root: u64, rowid: i64, fuel: usize) -> (r: Result<
    Option<PageValue>,
    Error,
>)
    ensures
        match spec_lookup(db@, root, rowid, fuel as nat) {
            Ok(Some(cell)) => r matches Ok(Some(row)) && row@ == cell,
            Ok(None) => r matches Ok(None),
            Err(e) => r matches Err(f) && f == e,
        },
    decreases fuel,
{
    if fuel == 0 {
        return Err(Error::TooDeep);
    }
    let page = match db.page_at(root) {
        Ok(page) => page,
        Err(e) => {
            return Err(e);
        },
    };
    let at = position_of_rowid(&page, rowid);
    match page.header.page_type {
        PageType::LeafTable => {
            if at < page.values.len() {
                assert(page@.cells[at as int] == page.values[at as int]@);
                match &page.values[at] {
                    PageValue::LeafTable { rowid: r, .. } => {
                        if *r == rowid {
                            return Ok(Some(page.values[at].duplicate()));
                        }
                    },
                    PageValue::InteriorTable { rowid: r, .. } => {
                        if *r == rowid {
                            return Ok(Some(page.values[at].duplicate()));
                        }
                    },
                    _ => {},
                }
            }
            Ok(None)
        },
        PageType::InteriorTable => {
            if at < page.values.len() {
                assert(page@.cells[at as int] == page.values[at as int]@);
                match &page.values[at] {
                    PageValue::InteriorTable { left_child_page, .. } => lookup_within(
                        db,
                        *left_child_page as u64,
                        rowid,
                        fuel - 1,
                    ),
                    _ => Err(Error::NotATablePage { page: root }),
                }
            } else {
                match page.header.right_most_pointer {
                    None => Ok(None),
                    Some(p) => lookup_within(db, p as u64, rowid, fuel - 1),
                }
            }
        },
        _ => Err(Error::NotATablePage { page: root }),
    }
}

/// Looks up the row with row id `rowid_to_find` in the table B-tree rooted
/// at `root_page_number`: the leaf cell of the row, or `None` where the tree
/// holds no such row.
///
/// Fails as reading and decoding a page does, with `NotATablePage` on a page
/// that is no table page, and with `TooDeep` where the descent goes deeper
/// than the file has pages.
pub fn search_by_rowid(db: &Database, root_page_number: u64, rowid_to_find: i64) -> (r: Result<
    Option<PageValue>,
    Error,
>)
    ensures
        match spec_lookup(db@, root_page_number, rowid_to_find, db@.page_count()) {
            Ok(Some(cell)) => r matches Ok(Some(row)) && row@ == cell,
            Ok(None) => r matches Ok(None),
            Err(e) => r matches Err(f) && f == e,
        },
{
    lookup_within(db, root_page_number, rowid_to_find, db.page_count())
}

/// The key of an index cell: the first column of its record. A record
/// without columns has a null key.
pub open spec fn index_key(cell: CellModel) -> Value {
    match cell.payload() {
        Some(record) => if record.len() > 0 {
            record[0]
        } else {
            Value::Null
        },
        None => Value::Null,
    }
}

/// The row id of an index cell: the last column of its record, where that is
/// an integer.
pub open spec fn index_rowid(cell: CellModel) -> Option<i64> {
    match cell.payload() {
        Some(record) => if record.len() > 0 {
            match record.last() {
                Value::Integer(rowid) => Some(rowid),
                _ => None,
            }
        } else {
            None
        },
        None => None,
    }
}

/// The number of cells among the first `n` with a key less than `key`.
pub open spec fn count_keys_below(cells: Seq<CellModel>, key: Value, n: nat) -> nat
    decreases n,
{
    if n == 0 {
        0
    } else {
        count_keys_below(cells, key, (n - 1) as nat) + if value_order(index_key(cells[n - 1]), key)
            == Order::Less {
            1nat
        } else {
            0nat
        }
    }
}

/// The number of cells among the first `n` with a key not greater than
/// `key`.
pub open spec fn count_keys_up_to(cells: Seq<CellModel>, key: Value, n: nat) -> nat
    decreases n,
{
    if n == 0 {
        0
    } else {
        count_keys_up_to(cells, key, (n - 1) as nat) + if value_order(index_key(cells[n - 1]), key)
            != Order::Greater {
            1nat
        } else {
            0nat
        }
    }
}

/// The row ids that the index page `root` and the pages under it hold for
/// `key`, in order of discovery, in a walk of at most `fuel` levels.
///
/// On each page, with `lo` the number of cells with a key less than `key`
/// and `hi` the number with a key not greater, the walk visits the cells
/// from `lo` up to `hi`, and the right-most child of an interior page where
/// `hi` is the number of cells.
pub open spec fn spec_find(db: DatabaseModel, root: usize, key: Value, fuel: nat) -> Result<
    Seq<i64>,
    Error,
>
    decreases fuel, 0nat,
{
    if fuel == 0 {
        Err(Error::TooDeep)
    } else {
        match db.page(root as nat) {
            Err(e) => Err(e),
            Ok(page) => {
                if page.header.page_type.is_table() {
                    Err(Error::NotAnIndexPage { page: root as u64 })
                } else {
                    spec_find_cells(
                        db,
                        page,
                        key,
                        count_keys_below(page.cells, key, page.cells.len()),
                        count_keys_up_to(page.cells, key, page.cells.len()),
                        (fuel - 1) as nat,
                        Seq::empty(),
                    )
                }
            },
        }
    }
}

/// The row ids found from cell `i` of the index page `page` on, after those
/// in `acc`: for each cell before `hi` its own row id, then what the walk
/// finds under its left child; and at last, where `hi` is the number of
/// cells of an interior page, what the walk finds under the right-most
/// child.
pub open spec fn spec_find_cells(
    db: DatabaseModel,
    page: PageModel,
    key: Value,
    i: nat,
    hi: nat,
    fuel: nat,
    acc: Seq<i64>,
) -> Result<Seq<i64>, Error>
    decreases fuel, 1 + (hi - i) as nat,
{
    if i < hi && i < page.cells.len() {
        let cell = page.cells[i as int];
        let with_own = match index_rowid(cell) {
            Some(rowid) => acc.push(rowid),
            None => acc,
        };
        match cell {
            CellModel::IndexInterior { left_child_page, .. } => match spec_find(
                db,
                left_child_page as usize,
                key,
                fuel,
            ) {
                Err(e) => Err(e),
                Ok(found) => spec_find_cells(
                    db,
                    page,
                    key,
                    i + 1,
                    hi,
                    fuel,
                    with_own + found,
                ),
            },
            _ => spec_find_cells(db, page, key, i + 1, hi, fuel, with_own),
        }
    } else if hi == page.cells.len() && page.header.page_type == PageType::InteriorIndex {
        match page.header.right_most_pointer {
            None => Ok(acc),
            Some(p) => match spec_find(db, p as usize, key, fuel) {
                Err(e) => Err(e),
                Ok(found) => Ok(acc + found),
            },
        }
    } else {
        Ok(acc)
    }
}

/// The key of an index cell, where its record has a first column.
fn key_of(value: &PageValue) -> (r: Option<&Data>)
    ensures
        match r {
            Some(key) => key@ == index_key(value@),
            None => index_key(value@) == Value::Null,
        },
{
    match value.get_payload() {
        Some(record) => {
            if record.len() > 0 {
                assert(record.deep_view()[0] == record[0]@);
                Some(&record[0])
            } else {
                None
            }
        },
        None => None,
    }
}

/// The row id of an index cell.
fn rowid_of(value: &PageValue) -> (r: Option<i64>)
    ensures
        r == index_rowid(value@),
{
    match value.get_payload() {
        Some(record) => {
            if record.len() > 0 {
                assert(record.deep_view().last() == record[record.len() - 1]@);
                match &record[record.len() - 1] {
                    Data::Integer(rowid) => Some(*rowid),
                    _ => None,
                }
            } else {
                None
            }
        },
        None => None,
    }
}

/// The numbers of cells of the page with a key less than `key`, and with a
/// key not greater than `key`.
fn bounds_of_key(page: &Page, key: &Data) -> (r: (usize, usize))
    ensures
        r.0 == count_keys_below(page@.cells, key@, page@.cells.len()),
        r.1 == count_keys_up_to(page@.cells, key@, page@.cells.len()),
        r.0 <= r.1 <= page.values.len(),
        page.values.len() == page@.cells.len(),
{
    let null = Data::Null;
    let mut lo: usize = 0;
    let mut hi: usize = 0;
    let mut i: usize = 0;
    while i < page.values.len()
        invariant
            i <= page.values.len(),
            page@.cells.len() == page.values.len(),
            null@ == Value::Null,
            lo == count_keys_below(page@.cells, key@, i as nat),
            hi == count_keys_up_to(page@.cells, key@, i as nat),
            lo <= hi <= i,
        decreases page.values.len() - i,
    {
        assert(page@.cells[i as int] == page.values[i as int]@);
        let order = match key_of(&page.values[i]) {
            Some(k) => k.compare(key),
            None => null.compare(key),
        };
        match order {
            Order::Less => {
                lo += 1;
                hi += 1;
            },
            Order::Equal => {
                hi += 1;
            },
            Order::Greater => {},
        }
        i += 1;
    }
    (lo, hi)
}

/// The row ids found under `root` in a walk of at most `fuel` levels.
fn find_within(db: &Database, root: usize, key: &Data, fuel: usize) -> (r: Result<Vec<i64>, Error>)
    ensures
        match spec_find(db@, root, key@, fuel as nat) {
            Ok(found) => r matches Ok(v) && v@ == found,
            Err(e) => r matches Err(f) && f == e,
        },
    decreases fuel,
{
    if fuel == 0 {
        return Err(Error::TooDeep);
    }
    let page = match db.page_at(root as u64) {
        Ok(page) => page,
        Err(e) => {
            return Err(e);
        },
    };
    let interior = match page.header.page_type {
        PageType::InteriorIndex => true,
        PageType::LeafIndex => false,
        _ => {
            return Err(Error::NotAnIndexPage { page: root as u64 });
        },
    };
    let (lo, hi) = bounds_of_key(&page, key);
    let mut out: Vec<i64> = Vec::new();
    let mut i: usize = lo;
    while i < hi
        invariant
            lo <= i <= hi <= page.values.len(),
            fuel > 0,
            page@.cells.len() == page.values.len(),
            spec_find(db@, root, key@, fuel as nat) == spec_find_cells(
                db@,
                page@,
                key@,
                i as nat,
                hi as nat,
                (fuel - 1) as nat,
                out@,
            ),
        decreases hi - i,
    {
        assert(page@.cells[i as int] == page.values[i as int]@);
        match rowid_of(&page.values[i]) {
            Some(rowid) => {
                out.push(rowid);
            },
            None => {},
        }
        match &page.values[i] {
            PageValue::InteriorIndex { left_child_page, .. } => {
                match find_within(db, *left_child_page as usize, key, fuel - 1) {
                    Ok(found) => {
                        let mut found = found;
                        out.append(&mut found);
                    },
                    Err(e) => {
                        return Err(e);
                    },
                }
            },
            _ => {},
        }
        i += 1;
    }
    if hi == page.values.len() && interior {
        match page.header.right_most_pointer {
            None => Ok(out),
            Some(p) => match find_within(db, p as usize, key, fuel - 1) {
                Ok(found) => {
                    let mut found = found;
                    out.append(&mut found);
                    Ok(out)
                },
                Err(e) => Err(e),
            },
        }
    } else {
        Ok(out)
    }
}

/// The row ids that the index B-tree rooted at `root_index` holds for the
/// key `value`, in order of discovery.
///
/// Fails as reading and decoding a page does, with `NotAnIndexPage` on a
/// page that is no index page, and with `TooDeep` where the walk goes deeper
/// than the file has pages.
pub fn search_index(root_index: usize, value: Data, db: &Database) -> (r: Result<Vec<i64>, Error>)
    ensures
        match spec_find(db@, root_index, value@, db@.page_count()) {
            Ok(found) => r matches Ok(v) && v@ == found,
            Err(e) => r matches Err(f) && f == e,
        },
{
    find_within(db, root_index, &value, db.page_count())
}

/// Whether page `p` of the database decodes to a leaf page of a table.
pub open spec fn is_leaf_table(db: DatabaseModel, p: usize) -> bool {
    match db.page(p as nat) {
        Ok(page) => page.header.page_type == PageType::LeafTable,
        Err(_) => false,
    }
}

/// The pages that the walk of a table yields are leaf pages of a table.
pub proof fn lemma_leaves_are_leaf_pages(db: DatabaseModel, root: usize, fuel: nat)
    ensures
        spec_leaves(db, root, fuel) matches Ok(leaves) ==> forall|k: int|
            0 <= k < leaves.len() ==> is_leaf_table(db, #[trigger] leaves[k]),
    decreases fuel, 0nat,
{
    if fuel > 0 {
        if let Ok(page) = db.page(root as nat) {
            if page.header.page_type == PageType::InteriorTable {
                lemma_child_leaves_are_leaf_pages(
                    db,
                    page,
                    0,
                    (fuel - 1) as nat,
                    Seq::empty(),
                );
            }
        }
    }
}

/// The pages that the walk of the children of a page yields are leaf pages
/// of a table, where those gathered before are.
pub proof fn lemma_child_leaves_are_leaf_pages(
    db: DatabaseModel,
    page: PageModel,
    i: nat,
    fuel: nat,
    acc: Seq<usize>,
)
    requires
        forall|k: int| 0 <= k < acc.len() ==> is_leaf_table(db, #[trigger] acc[k]),
    ensures
        spec_child_leaves(db, page, i, fuel, acc) matches Ok(leaves) ==> forall|k: int|
            0 <= k < leaves.len() ==> is_leaf_table(db, #[trigger] leaves[k]),
    decreases fuel, 1 + (page.cells.len() - i) as nat,
{
    if i < page.cells.len() {
        match page.cells[i as int] {
            CellModel::TableInterior { left_child_page, .. } => {
                lemma_leaves_are_leaf_pages(db, left_child_page as usize, fuel);
                if let Ok(leaves) = spec_leaves(db, left_child_page as usize, fuel) {
                    lemma_child_leaves_are_leaf_pages(db, page, i + 1, fuel, acc + leaves);
                }
            },
            _ => {
                lemma_child_leaves_are_leaf_pages(db, page, i + 1, fuel, acc);
            },
        }
    } else {
        if let Some(p) = page.header.right_most_pointer {
            lemma_leaves_are_leaf_pages(db, p as usize, fuel);
        }
    }
}

} // verus!
