//! The order of a table B-tree, and what follows from it.
//!
//! In a table B-tree the row ids of a page ascend; the row ids under the
//! left child of a cell are at most the cell's row id and greater than the
//! row id of the cell before; and the row ids under the right-most child
//! are greater than every row id of the page.

use crate::btree::{
    count_rowids_below,
    rowid_below,
    spec_child_leaves,
    spec_leaves,
    spec_lookup,
    table_rowid,
};
use crate::database::{lemma_page_cells_kind, DatabaseModel};
use crate::error::Error;
use crate::page::{CellModel, PageModel, PageType};
use vstd::prelude::*;

verus! {

/// Whether the numbers ascend strictly and lie above `lo` and at most at
/// `hi`.
pub open spec fn ascending_within(s: Seq<i64>, lo: int, hi: int) -> bool {
    &&& forall|i: int, j: int| 0 <= i < j < s.len() ==> s[i] < s[j]
    &&& forall|i: int| 0 <= i < s.len() ==> lo < #[trigger] s[i] <= hi
}

/// The row ids of the cells of a page, in cell order.
pub open spec fn cell_rowids(cells: Seq<CellModel>) -> Seq<i64> {
    Seq::new(
        cells.len(),
        |i: int|
            match table_rowid(cells[i]) {
                Some(rowid) => rowid,
                None => 0,
            },
    )
}

/// The cells of the pages `leaves`, in page order and cell order.
pub open spec fn leaf_cells(db: DatabaseModel, leaves: Seq<usize>) -> Seq<CellModel>
    decreases leaves.len(),
{
    if leaves.len() == 0 {
        Seq::empty()
    } else {
        leaf_cells(db, leaves.drop_last()) + match db.page(leaves.last() as nat) {
            Ok(page) => page.cells,
            Err(_) => Seq::empty(),
        }
    }
}

/// The row ids of the cells of the pages `leaves`, in page order and cell
/// order.
pub open spec fn leaf_rowids(db: DatabaseModel, leaves: Seq<usize>) -> Seq<i64> {
    cell_rowids(leaf_cells(db, leaves))
}

/// Whether the pages under `root`, at most `fuel` levels deep, form a table
/// B-tree in order, with row ids above `lo` and at most at `hi`.
pub open spec fn table_tree_ordered(db: DatabaseModel, root: usize, lo: int, hi: int, fuel: nat)
    -> bool
    decreases fuel, 0nat,
{
    fuel > 0 && match db.page(root as nat) {
        Err(_) => false,
        Ok(page) => match page.header.page_type {
            PageType::LeafTable => ascending_within(cell_rowids(page.cells), lo, hi),
            PageType::InteriorTable => children_ordered(db, page, 0, lo, hi, (fuel - 1) as nat),
            _ => false,
        },
    }
}

/// Whether the children of an interior table page from child `i` on are in
/// order, with row ids above `lo` and at most at `hi`: each cell's row id
/// bounds the row ids under its left child from above and those that follow
/// from below.
pub open spec fn children_ordered(
    db: DatabaseModel,
    page: PageModel,
    i: nat,
    lo: int,
    hi: int,
    fuel: nat,
) -> bool
    decreases fuel, 1 + (page.cells.len() - i) as nat,
{
    if i < page.cells.len() {
        match page.cells[i as int] {
            CellModel::TableInterior { left_child_page, row_id } => {
                &&& lo < row_id <= hi
                &&& table_tree_ordered(db, left_child_page as usize, lo, row_id as int, fuel)
                &&& children_ordered(db, page, i + 1, row_id as int, hi, fuel)
            },
            _ => false,
        }
    } else {
        match page.header.right_most_pointer {
            Some(p) => table_tree_ordered(db, p as usize, lo, hi, fuel),
            None => false,
        }
    }
}

/// The cells of two lists of pages, one after the other.
pub proof fn lemma_leaf_cells_concat(db: DatabaseModel, a: Seq<usize>, b: Seq<usize>)
    ensures
        leaf_cells(db, a + b) == leaf_cells(db, a) + leaf_cells(db, b),
    decreases b.len(),
{
    if b.len() == 0 {
        assert(a + b =~= a);
        assert(leaf_cells(db, a) + leaf_cells(db, b) =~= leaf_cells(db, a));
    } else {
        assert((a + b).drop_last() =~= a + b.drop_last());
        assert((a + b).last() == b.last());
        lemma_leaf_cells_concat(db, a, b.drop_last());
        let last = match db.page(b.last() as nat) {
            Ok(page) => page.cells,
            Err(_) => Seq::empty(),
        };
        assert((leaf_cells(db, a) + leaf_cells(db, b.drop_last())) + last =~= leaf_cells(db, a) + (
        leaf_cells(db, b.drop_last()) + last));
    }
}

/// The row ids of two lists of pages, one after the other.
pub proof fn lemma_leaf_rowids_concat(db: DatabaseModel, a: Seq<usize>, b: Seq<usize>)
    ensures
        leaf_rowids(db, a + b) == leaf_rowids(db, a) + leaf_rowids(db, b),
{
    lemma_leaf_cells_concat(db, a, b);
    assert(cell_rowids(leaf_cells(db, a) + leaf_cells(db, b)) =~= cell_rowids(leaf_cells(db, a))
        + cell_rowids(leaf_cells(db, b)));
}

/// The cells of one page.
pub proof fn lemma_leaf_cells_of_one(db: DatabaseModel, p: usize)
    ensures
        leaf_cells(db, seq![p]) == match db.page(p as nat) {
            Ok(page) => page.cells,
            Err(_) => Seq::empty(),
        },
{
    let leaves = seq![p];
    assert(leaves.drop_last() =~= Seq::<usize>::empty());
    let cells = match db.page(p as nat) {
        Ok(page) => page.cells,
        Err(_) => Seq::empty(),
    };
    assert(leaf_cells(db, leaves.drop_last()) + cells =~= cells);
}

/// Ascending numbers up to `mid`, then ascending numbers above `mid`,
/// ascend.
pub proof fn lemma_ascending_concat(a: Seq<i64>, b: Seq<i64>, lo: int, mid: int, hi: int)
    requires
        ascending_within(a, lo, mid),
        ascending_within(b, mid, hi),
        lo <= mid <= hi,
    ensures
        ascending_within(a + b, lo, hi),
{
    let s = a + b;
    assert forall|i: int, j: int| 0 <= i < j < s.len() implies s[i] < s[j] by {
        if j < a.len() {
            assert(s[i] == a[i] && s[j] == a[j]);
        } else if i >= a.len() {
            assert(s[i] == b[i - a.len()] && s[j] == b[j - a.len()]);
        } else {
            assert(s[i] == a[i] && s[j] == b[j - a.len()]);
        }
    }
    assert forall|i: int| 0 <= i < s.len() implies lo < #[trigger] s[i] <= hi by {
        if i < a.len() {
            assert(s[i] == a[i]);
        } else {
            assert(s[i] == b[i - a.len()]);
        }
    }
}

/// What the walk of the children yields after `acc` is `acc`, then what it
/// yields after nothing.
pub proof fn lemma_child_leaves_after(
    db: DatabaseModel,
    page: PageModel,
    i: nat,
    fuel: nat,
    acc: Seq<usize>,
)
    ensures
        spec_child_leaves(db, page, i, fuel, acc) == match spec_child_leaves(
            db,
            page,
            i,
            fuel,
            Seq::empty(),
        ) {
            Ok(leaves) => Ok::<Seq<usize>, Error>(acc + leaves),
            Err(e) => Err(e),
        },
    decreases 1 + (page.cells.len() - i) as nat,
{
    let none = Seq::<usize>::empty();
    if i < page.cells.len() {
        match page.cells[i as int] {
            CellModel::TableInterior { left_child_page, .. } => {
                if let Ok(leaves) = spec_leaves(db, left_child_page as usize, fuel) {
                    lemma_child_leaves_after(db, page, i + 1, fuel, acc + leaves);
                    lemma_child_leaves_after(db, page, i + 1, fuel, none + leaves);
                    if let Ok(rest) = spec_child_leaves(db, page, i + 1, fuel, none) {
                        assert((acc + leaves) + rest =~= acc + ((none + leaves) + rest));
                    }
                }
            },
            _ => {
                lemma_child_leaves_after(db, page, i + 1, fuel, acc);
            },
        }
    } else {
        if let Some(p) = page.header.right_most_pointer {
            if let Ok(leaves) = spec_leaves(db, p as usize, fuel) {
                assert(acc + leaves =~= acc + (none + leaves));
            }
        }
    }
}

/// Row ids ascend: the walk of a table B-tree in order succeeds, and the
/// row ids of the cells of its leaves, in tree order, ascend strictly,
/// within the bounds of the tree.
pub proof fn lemma_rowids_ascend(db: DatabaseModel, root: usize, lo: int, hi: int, fuel: nat)
    requires
        table_tree_ordered(db, root, lo, hi, fuel),
        lo <= hi,
    ensures
        spec_leaves(db, root, fuel) is Ok,
        ascending_within(leaf_rowids(db, spec_leaves(db, root, fuel).unwrap()), lo, hi),
    decreases fuel, 0nat,
{
    let page = db.page(root as nat).unwrap();
    if page.header.page_type == PageType::LeafTable {
        lemma_leaf_cells_of_one(db, root);
    } else {
        lemma_children_rowids_ascend(db, page, 0, lo, hi, (fuel - 1) as nat);
    }
}

/// The walk of the children of an interior page in order succeeds, and the
/// row ids that it yields ascend.
pub proof fn lemma_children_rowids_ascend(
    db: DatabaseModel,
    page: PageModel,
    i: nat,
    lo: int,
    hi: int,
    fuel: nat,
)
    requires
        children_ordered(db, page, i, lo, hi, fuel),
        lo <= hi,
    ensures
        spec_child_leaves(db, page, i, fuel, Seq::empty()) is Ok,
        ascending_within(
            leaf_rowids(
                db,
                spec_child_leaves(db, page, i, fuel, Seq::empty()).unwrap(),
            ),
            lo,
            hi,
        ),
    decreases fuel, 1 + (page.cells.len() - i) as nat,
{
    let none = Seq::<usize>::empty();
    if i < page.cells.len() {
        match page.cells[i as int] {
            CellModel::TableInterior { left_child_page, row_id } => {
                lemma_rowids_ascend(db, left_child_page as usize, lo, row_id as int, fuel);
                lemma_children_rowids_ascend(db, page, i + 1, row_id as int, hi, fuel);
                let left = spec_leaves(db, left_child_page as usize, fuel).unwrap();
                let rest = spec_child_leaves(db, page, i + 1, fuel, none).unwrap();
                lemma_child_leaves_after(db, page, i + 1, fuel, none + left);
                assert(none + left =~= left);
                lemma_leaf_rowids_concat(db, left, rest);
                lemma_ascending_concat(
                    leaf_rowids(db, left),
                    leaf_rowids(db, rest),
                    lo,
                    row_id as int,
                    hi,
                );
            },
            _ => {},
        }
    } else {
        let p = page.header.right_most_pointer.unwrap();
        lemma_rowids_ascend(db, p as usize, lo, hi, fuel);
        let leaves = spec_leaves(db, p as usize, fuel).unwrap();
        assert(none + leaves =~= leaves);
    }
}

/// A value is in two sequences, one after the other, where it is in one of
/// them.
pub proof fn lemma_contains_concat<T>(a: Seq<T>, b: Seq<T>, x: T)
    ensures
        (a + b).contains(x) <==> a.contains(x) || b.contains(x),
{
    let s = a + b;
    if a.contains(x) {
        let i = choose|i: int| 0 <= i < a.len() && a[i] == x;
        assert(s[i] == x);
    }
    if b.contains(x) {
        let i = choose|i: int| 0 <= i < b.len() && b[i] == x;
        assert(s[a.len() + i] == x);
    }
    if s.contains(x) {
        let i = choose|i: int| 0 <= i < s.len() && s[i] == x;
        if i < a.len() {
            assert(a[i] == x);
        } else {
            assert(b[i - a.len()] == x);
        }
    }
}

/// The index of the first cell from `i` on whose row id is not below
/// `rowid`, or the number of cells where there is none.
pub open spec fn first_at_least(cells: Seq<CellModel>, rowid: i64, i: int) -> int
    decreases cells.len() - i,
{
    if 0 <= i < cells.len() && rowid_below(cells[i], rowid) {
        first_at_least(cells, rowid, i + 1)
    } else {
        i
    }
}

/// The cells from `i` up to the first whose row id is not below `rowid` have
/// row ids below it.
pub proof fn lemma_first_at_least(cells: Seq<CellModel>, rowid: i64, i: int)
    requires
        0 <= i <= cells.len(),
    ensures
        i <= first_at_least(cells, rowid, i) <= cells.len(),
        forall|j: int| i <= j < first_at_least(cells, rowid, i) ==> rowid_below(cells[j], rowid),
        first_at_least(cells, rowid, i) < cells.len() ==> !rowid_below(
            cells[first_at_least(cells, rowid, i)],
            rowid,
        ),
    decreases cells.len() - i,
{
    if i < cells.len() && rowid_below(cells[i], rowid) {
        lemma_first_at_least(cells, rowid, i + 1);
    }
}

/// Where the cells with a row id below `rowid` are those before index `f`,
/// their number among the first `n` cells is `n` or `f`, whichever is less.
pub proof fn lemma_count_rowids_split(cells: Seq<CellModel>, rowid: i64, f: int, n: nat)
    requires
        0 <= f <= cells.len(),
        n <= cells.len(),
        forall|j: int| 0 <= j < f ==> rowid_below(cells[j], rowid),
        forall|j: int| f <= j < cells.len() ==> !rowid_below(cells[j], rowid),
    ensures
        count_rowids_below(cells, rowid, n) == if n <= f {
            n as int
        } else {
            f
        },
    decreases n,
{
    if n > 0 {
        lemma_count_rowids_split(cells, rowid, f, (n - 1) as nat);
    }
}

/// In a page whose row ids ascend, the number of cells with a row id below
/// `rowid` is the index of the first cell whose row id is not below it.
pub proof fn lemma_position_in_ascending(cells: Seq<CellModel>, rowid: i64)
    requires
        forall|j: int| 0 <= j < cells.len() ==> table_rowid(#[trigger] cells[j]) is Some,
        forall|i: int, j: int|
            0 <= i < j < cells.len() ==> table_rowid(cells[i]).unwrap() < table_rowid(
                cells[j],
            ).unwrap(),
    ensures
        count_rowids_below(cells, rowid, cells.len()) == first_at_least(cells, rowid, 0),
{
    let f = first_at_least(cells, rowid, 0);
    lemma_first_at_least(cells, rowid, 0);
    assert forall|j: int| f <= j < cells.len() implies !rowid_below(cells[j], rowid) by {
        assert(table_rowid(cells[f]) is Some);
        assert(table_rowid(cells[j]) is Some);
    }
    lemma_count_rowids_split(cells, rowid, f, cells.len());
}

/// The child of an interior table page at position `j`: the left child of
/// cell `j`, or the right-most child where `j` is the number of cells.
pub open spec fn child_at(page: PageModel, j: int) -> Option<u64> {
    if 0 <= j < page.cells.len() {
        match page.cells[j] {
            CellModel::TableInterior { left_child_page, .. } => Some(left_child_page as u64),
            _ => None,
        }
    } else {
        match page.header.right_most_pointer {
            Some(p) => Some(p as u64),
            None => None,
        }
    }
}

/// Whether a lookup found the row with row id `rowid` among the cells of
/// the pages `leaves`, or found none because there is none.
pub open spec fn lookup_agrees(
    db: DatabaseModel,
    leaves: Seq<usize>,
    rowid: i64,
    found: Result<Option<CellModel>, Error>,
) -> bool {
    match found {
        Ok(Some(cell)) => leaf_cells(db, leaves).contains(cell) && table_rowid(cell) == Some(rowid),
        Ok(None) => !leaf_rowids(db, leaves).contains(rowid),
        Err(_) => false,
    }
}

/// The cells of the children from `i` on are table interior cells whose row
/// ids ascend, above `lo` and at most at `hi`.
pub proof fn lemma_separators(
    db: DatabaseModel,
    page: PageModel,
    i: nat,
    lo: int,
    hi: int,
    fuel: nat,
)
    requires
        children_ordered(db, page, i, lo, hi, fuel),
    ensures
        forall|j: int| i <= j < page.cells.len() ==> (#[trigger] page.cells[j]) is TableInterior,
        forall|j: int|
            i <= j < page.cells.len() ==> lo < table_rowid(#[trigger] page.cells[j]).unwrap()
                <= hi,
        forall|j: int, k: int|
            i <= j < k < page.cells.len() ==> table_rowid(page.cells[j]).unwrap() < table_rowid(
                page.cells[k],
            ).unwrap(),
        child_at(page, page.cells.len() as int) is Some,
    decreases page.cells.len() - i,
{
    if i < page.cells.len() {
        let row_id = table_rowid(page.cells[i as int]).unwrap();
        lemma_separators(db, page, i + 1, row_id as int, hi, fuel);
    }
}

/// A row id is among the row ids of some cells where one of the cells has
/// it.
pub proof fn lemma_rowid_among(cells: Seq<CellModel>, cell: CellModel, rowid: i64)
    requires
        cells.contains(cell),
        table_rowid(cell) == Some(rowid),
    ensures
        cell_rowids(cells).contains(rowid),
{
    let i = choose|i: int| 0 <= i < cells.len() && cells[i] == cell;
    assert(cell_rowids(cells)[i] == rowid);
}

/// A lookup finds what the walk yields: in a table B-tree in order, the
/// lookup of a row id succeeds; it finds a cell of the leaves of the tree
/// with that row id where there is one, and nothing where there is none.
pub proof fn lemma_lookup_finds_row(
    db: DatabaseModel,
    root: usize,
    lo: int,
    hi: int,
    fuel: nat,
    rowid: i64,
)
    requires
        table_tree_ordered(db, root, lo, hi, fuel),
        lo <= hi,
    ensures
        spec_leaves(db, root, fuel) is Ok,
        lookup_agrees(
            db,
            spec_leaves(db, root, fuel).unwrap(),
            rowid,
            spec_lookup(db, root as u64, rowid, fuel),
        ),
    decreases fuel, 0nat,
{
    lemma_rowids_ascend(db, root, lo, hi, fuel);
    let page = db.page(root as nat).unwrap();
    lemma_page_cells_kind(db, root as nat);
    let cells = page.cells;
    let at = count_rowids_below(cells, rowid, cells.len()) as int;
    if page.header.page_type == PageType::LeafTable {
        lemma_leaf_cells_of_one(db, root);
        let ids = cell_rowids(cells);
        assert forall|j: int| 0 <= j < cells.len() implies table_rowid(#[trigger] cells[j])
            is Some by {
            assert(cells[j].page_type() == PageType::LeafTable);
        }
        assert forall|i: int, j: int| 0 <= i < j < cells.len() implies table_rowid(
            cells[i],
        ).unwrap() < table_rowid(cells[j]).unwrap() by {
            assert(ids[i] < ids[j]);
        }
        lemma_position_in_ascending(cells, rowid);
        lemma_first_at_least(cells, rowid, 0);
        if at < cells.len() && table_rowid(cells[at]) == Some(rowid) {
            assert(cells.contains(cells[at]));
        } else {
            if ids.contains(rowid) {
                let j = choose|j: int| 0 <= j < ids.len() && ids[j] == rowid;
                assert(table_rowid(cells[j]) == Some(rowid));
                if j < at {
                    assert(rowid_below(cells[j], rowid));
                } else if j > at {
                    assert(ids[at] < ids[j]);
                    assert(!rowid_below(cells[at], rowid));
                }
                assert(false);
            }
        }
    } else {
        lemma_separators(db, page, 0, lo, hi, (fuel - 1) as nat);
        lemma_position_in_ascending(cells, rowid);
        lemma_children_lookup(db, page, 0, lo, hi, (fuel - 1) as nat, rowid);
        lemma_first_at_least(cells, rowid, 0);
    }
}

/// The lookup under the children of an interior page from child `i` on
/// finds what the walk of those children yields.
pub proof fn lemma_children_lookup(
    db: DatabaseModel,
    page: PageModel,
    i: nat,
    lo: int,
    hi: int,
    fuel: nat,
    rowid: i64,
)
    requires
        children_ordered(db, page, i, lo, hi, fuel),
        lo <= hi,
        i <= page.cells.len(),
    ensures
        spec_child_leaves(db, page, i, fuel, Seq::empty()) is Ok,
        child_at(page, first_at_least(page.cells, rowid, i as int)) is Some,
        lookup_agrees(
            db,
            spec_child_leaves(db, page, i, fuel, Seq::empty()).unwrap(),
            rowid,
            spec_lookup(
                db,
                child_at(page, first_at_least(page.cells, rowid, i as int)).unwrap(),
                rowid,
                fuel,
            ),
        ),
    decreases fuel, 1 + (page.cells.len() - i) as nat,
{
    let none = Seq::<usize>::empty();
    lemma_children_rowids_ascend(db, page, i, lo, hi, fuel);
    lemma_separators(db, page, i, lo, hi, fuel);
    if i < page.cells.len() {
        match page.cells[i as int] {
            CellModel::TableInterior { left_child_page, row_id } => {
                lemma_rowids_ascend(db, left_child_page as usize, lo, row_id as int, fuel);
                let left = spec_leaves(db, left_child_page as usize, fuel).unwrap();
                lemma_children_rowids_ascend(db, page, i + 1, row_id as int, hi, fuel);
                let rest = spec_child_leaves(db, page, i + 1, fuel, none).unwrap();
                lemma_child_leaves_after(db, page, i + 1, fuel, none + left);
                assert(none + left =~= left);
                lemma_leaf_cells_concat(db, left, rest);
                lemma_leaf_rowids_concat(db, left, rest);
                let all = left + rest;
                if row_id >= rowid {
                    // The row is under this child, and under no later one.
                    lemma_lookup_finds_row(
                        db,
                        left_child_page as usize,
                        lo,
                        row_id as int,
                        fuel,
                        rowid,
                    );
                    let found = spec_lookup(db, left_child_page as u64, rowid, fuel);
                    match found {
                        Ok(Some(cell)) => {
                            lemma_contains_concat(leaf_cells(db, left), leaf_cells(db, rest), cell);
                        },
                        Ok(None) => {
                            lemma_contains_concat(
                                leaf_rowids(db, left),
                                leaf_rowids(db, rest),
                                rowid,
                            );
                            if leaf_rowids(db, rest).contains(rowid) {
                                let j = choose|j: int|
                                    0 <= j < leaf_rowids(db, rest).len() && leaf_rowids(
                                        db,
                                        rest,
                                    )[j] == rowid;
                                assert(row_id < leaf_rowids(db, rest)[j]);
                            }
                        },
                        Err(_) => {},
                    }
                } else {
                    // The row is under a later child: not under this one.
                    lemma_children_lookup(
                        db,
                        page,
                        i + 1,
                        row_id as int,
                        hi,
                        fuel,
                        rowid,
                    );
                    let next = first_at_least(page.cells, rowid, (i + 1) as int);
                    let found = spec_lookup(db, child_at(page, next).unwrap(), rowid, fuel);
                    match found {
                        Ok(Some(cell)) => {
                            lemma_contains_concat(leaf_cells(db, left), leaf_cells(db, rest), cell);
                        },
                        Ok(None) => {
                            lemma_contains_concat(
                                leaf_rowids(db, left),
                                leaf_rowids(db, rest),
                                rowid,
                            );
                            if leaf_rowids(db, left).contains(rowid) {
                                let j = choose|j: int|
                                    0 <= j < leaf_rowids(db, left).len() && leaf_rowids(
                                        db,
                                        left,
                                    )[j] == rowid;
                                assert(leaf_rowids(db, left)[j] <= row_id);
                            }
                        },
                        Err(_) => {},
                    }
                }
            },
            _ => {},
        }
    } else {
        let p = page.header.right_most_pointer.unwrap();
        lemma_lookup_finds_row(db, p as usize, lo, hi, fuel, rowid);
        let leaves = spec_leaves(db, p as usize, fuel).unwrap();
        assert(none + leaves =~= leaves);
    }
}

} // verus!
