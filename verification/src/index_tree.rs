//! The order of an index B-tree, and what the search of an index finds.
//!
//! In an index B-tree the keys of a page ascend; the keys under the left
//! child of a cell are at most the cell's key and at least the key of the
//! cell before; and the keys under the right-most child are at least every
//! key of the page. Equal keys may stand on both sides of a cell.

use crate::btree::{
    count_keys_below,
    count_keys_up_to,
    index_key,
    index_rowid,
    spec_find,
    spec_find_cells,
};
use crate::database::{lemma_page_cells_kind, DatabaseModel};
use crate::error::Error;
use crate::order::Order;
use crate::page::{CellModel, PageModel, PageType};
use crate::value::{
    lemma_value_order_reversed,
    lemma_value_order_transitive,
    value_order,
    Value,
};
use vstd::prelude::*;

verus! {

/// Whether a key lies between two bounds, each of which may be absent.
pub open spec fn key_within(key: Value, lo: Option<Value>, hi: Option<Value>) -> bool {
    &&& lo matches Some(l) ==> value_order(l, key) != Order::Greater
    &&& hi matches Some(h) ==> value_order(key, h) != Order::Greater
}

/// Whether the keys of the cells lie between two bounds.
pub open spec fn keys_within(cells: Seq<CellModel>, lo: Option<Value>, hi: Option<Value>) -> bool {
    forall|j: int| 0 <= j < cells.len() ==> key_within(index_key(#[trigger] cells[j]), lo, hi)
}

/// Whether the keys of the cells ascend; equal keys may follow each other.
pub open spec fn keys_ascend(cells: Seq<CellModel>) -> bool {
    forall|i: int, j: int|
        0 <= i < j < cells.len() ==> value_order(index_key(cells[i]), index_key(cells[j]))
            != Order::Greater
}

/// The lower bound of the keys under child `i` of a page: the key of the
/// cell before, or the lower bound of the page for the first child.
pub open spec fn lower_bound_at(page: PageModel, i: int, lo: Option<Value>) -> Option<Value> {
    if 0 < i <= page.cells.len() {
        Some(index_key(page.cells[i - 1]))
    } else {
        lo
    }
}

/// Whether the pages under `root`, at most `fuel` levels deep, form an
/// index B-tree in order, with keys between `lo` and `hi`.
pub open spec fn index_tree_ordered(
    db: DatabaseModel,
    root: usize,
    lo: Option<Value>,
    hi: Option<Value>,
    fuel: nat,
) -> bool
    decreases fuel, 0nat,
{
    fuel > 0 && match db.page(root as nat) {
        Err(_) => false,
        Ok(page) => {
            &&& !page.header.page_type.is_table()
            &&& keys_ascend(page.cells)
            &&& keys_within(page.cells, lo, hi)
            &&& page.header.page_type == PageType::InteriorIndex ==> index_children_ordered(
                db,
                page,
                0,
                lo,
                hi,
                (fuel - 1) as nat,
            )
        },
    }
}

/// Whether the children of an interior index page from child `i` on are in
/// order: the keys under each lie between the keys of the cells around it.
pub open spec fn index_children_ordered(
    db: DatabaseModel,
    page: PageModel,
    i: nat,
    lo: Option<Value>,
    hi: Option<Value>,
    fuel: nat,
) -> bool
    decreases fuel, 1 + (page.cells.len() - i) as nat,
{
    if i < page.cells.len() {
        match page.cells[i as int] {
            CellModel::IndexInterior { left_child_page, .. } => {
                &&& index_tree_ordered(
                    db,
                    left_child_page as usize,
                    lower_bound_at(page, i as int, lo),
                    Some(index_key(page.cells[i as int])),
                    fuel,
                )
                &&& index_children_ordered(db, page, i + 1, lo, hi, fuel)
            },
            _ => false,
        }
    } else {
        match page.header.right_most_pointer {
            Some(p) => index_tree_ordered(
                db,
                p as usize,
                lower_bound_at(page, page.cells.len() as int, lo),
                hi,
                fuel,
            ),
            None => false,
        }
    }
}

/// The entries of the index under `root`, in key order: the cells of its
/// leaves, and between them the cells of its interior pages.
pub open spec fn index_entries(db: DatabaseModel, root: usize, fuel: nat) -> Seq<CellModel>
    decreases fuel, 0nat,
{
    if fuel == 0 {
        Seq::empty()
    } else {
        match db.page(root as nat) {
            Err(_) => Seq::empty(),
            Ok(page) => if page.header.page_type == PageType::InteriorIndex {
                child_entries(db, page, 0, (fuel - 1) as nat)
            } else {
                page.cells
            },
        }
    }
}

/// The entries of an interior index page from child `i` on: for each cell
/// the entries under its left child, then the cell; and at last the entries
/// under the right-most child.
pub open spec fn child_entries(db: DatabaseModel, page: PageModel, i: nat, fuel: nat) -> Seq<
    CellModel,
>
    decreases fuel, 1 + (page.cells.len() - i) as nat,
{
    if i < page.cells.len() {
        match page.cells[i as int] {
            CellModel::IndexInterior { left_child_page, .. } => index_entries(
                db,
                left_child_page as usize,
                fuel,
            ) + seq![page.cells[i as int]] + child_entries(db, page, i + 1, fuel),
            _ => child_entries(db, page, i + 1, fuel),
        }
    } else {
        match page.header.right_most_pointer {
            Some(p) => index_entries(db, p as usize, fuel),
            None => Seq::empty(),
        }
    }
}

/// Whether the cell is an entry of `key` for the row `rowid`.
pub open spec fn is_match(cell: CellModel, key: Value, rowid: i64) -> bool {
    index_rowid(cell) == Some(rowid) && value_order(index_key(cell), key) == Order::Equal
}

/// Whether the cells hold an entry of `key` for the row `rowid`.
pub open spec fn has_match(cells: Seq<CellModel>, key: Value, rowid: i64) -> bool {
    exists|j: int| 0 <= j < cells.len() && is_match(#[trigger] cells[j], key, rowid)
}

/// Whether the cells hold an entry of `key` for any row.
pub open spec fn holds_key(cells: Seq<CellModel>, key: Value) -> bool {
    exists|rowid: i64| #[trigger] has_match(cells, key, rowid)
}

/// Whether the search for `key` under `root` passes by no entry of the key.
///
/// On an interior page the search visits the left children of the cells
/// with the key, and the right-most child where no cell has a greater key.
/// It does not visit the left child of the first cell with a greater key:
/// the search reaches every entry where that child, on each page that the
/// search visits, holds no entry of the key.
pub open spec fn search_reaches(db: DatabaseModel, root: usize, key: Value, fuel: nat) -> bool
    decreases fuel, 0nat,
{
    fuel > 0 && match db.page(root as nat) {
        Err(_) => false,
        Ok(page) => page.header.page_type == PageType::InteriorIndex ==> {
            let first = count_keys_below(page.cells, key, page.cells.len());
            let after = count_keys_up_to(page.cells, key, page.cells.len());
            &&& after < page.cells.len() ==> (match page.cells[after as int] {
                CellModel::IndexInterior { left_child_page, .. } => !holds_key(
                    index_entries(db, left_child_page as usize, (fuel - 1) as nat),
                    key,
                ),
                _ => true,
            })
            &&& children_reached(db, page, key, first, after, (fuel - 1) as nat)
        },
    }
}

/// Whether the search for `key` passes by no entry under the children that
/// it visits from cell `i` on.
pub open spec fn children_reached(
    db: DatabaseModel,
    page: PageModel,
    key: Value,
    i: nat,
    after: nat,
    fuel: nat,
) -> bool
    decreases fuel, 1 + (after - i) as nat,
{
    if i < after && i < page.cells.len() {
        &&& match page.cells[i as int] {
            CellModel::IndexInterior { left_child_page, .. } => search_reaches(
                db,
                left_child_page as usize,
                key,
                fuel,
            ),
            _ => true,
        }
        &&& children_reached(db, page, key, i + 1, after, fuel)
    } else if after == page.cells.len() {
        match page.header.right_most_pointer {
            Some(p) => search_reaches(db, p as usize, key, fuel),
            None => true,
        }
    } else {
        true
    }
}

/// An entry is in two lists of cells, one after the other, where it is in
/// one of them.
pub proof fn lemma_has_match_concat(a: Seq<CellModel>, b: Seq<CellModel>, key: Value, rowid: i64)
    ensures
        has_match(a + b, key, rowid) <==> has_match(a, key, rowid) || has_match(b, key, rowid),
{
    let s = a + b;
    if has_match(a, key, rowid) {
        let j = choose|j: int| 0 <= j < a.len() && is_match(#[trigger] a[j], key, rowid);
        assert(s[j] == a[j]);
    }
    if has_match(b, key, rowid) {
        let j = choose|j: int| 0 <= j < b.len() && is_match(#[trigger] b[j], key, rowid);
        assert(s[a.len() + j] == b[j]);
    }
    if has_match(s, key, rowid) {
        let j = choose|j: int| 0 <= j < s.len() && is_match(#[trigger] s[j], key, rowid);
        if j < a.len() {
            assert(a[j] == s[j]);
        } else {
            assert(b[j - a.len()] == s[j]);
        }
    }
}

/// Cells whose keys are at most a key less than `key` hold no entry of
/// `key`.
pub proof fn lemma_no_match_below(
    cells: Seq<CellModel>,
    lo: Option<Value>,
    top: Value,
    key: Value,
    rowid: i64,
)
    requires
        keys_within(cells, lo, Some(top)),
        value_order(top, key) == Order::Less,
    ensures
        !has_match(cells, key, rowid),
{
    if has_match(cells, key, rowid) {
        let j = choose|j: int| 0 <= j < cells.len() && is_match(#[trigger] cells[j], key, rowid);
        lemma_value_order_transitive(index_key(cells[j]), top, key);
    }
}

/// Cells whose keys are at least a key greater than `key` hold no entry of
/// `key`.
pub proof fn lemma_no_match_above(
    cells: Seq<CellModel>,
    bottom: Value,
    hi: Option<Value>,
    key: Value,
    rowid: i64,
)
    requires
        keys_within(cells, Some(bottom), hi),
        value_order(bottom, key) == Order::Greater,
    ensures
        !has_match(cells, key, rowid),
{
    if has_match(cells, key, rowid) {
        let j = choose|j: int| 0 <= j < cells.len() && is_match(#[trigger] cells[j], key, rowid);
        lemma_value_order_reversed(bottom, key);
        lemma_value_order_transitive(key, bottom, index_key(cells[j]));
        lemma_value_order_reversed(key, index_key(cells[j]));
    }
}

/// In a page whose keys ascend, the cells with a key less than `key` are
/// those before the index that is their number.
pub proof fn lemma_keys_below_first(cells: Seq<CellModel>, key: Value, n: nat)
    requires
        keys_ascend(cells),
        n <= cells.len(),
    ensures
        count_keys_below(cells, key, n) <= n,
        forall|j: int|
            0 <= j < count_keys_below(cells, key, n) ==> value_order(
                index_key(#[trigger] cells[j]),
                key,
            ) == Order::Less,
        forall|j: int|
            count_keys_below(cells, key, n) <= j < n ==> value_order(
                index_key(#[trigger] cells[j]),
                key,
            ) != Order::Less,
    decreases n,
{
    if n > 0 {
        lemma_keys_below_first(cells, key, (n - 1) as nat);
        let before = count_keys_below(cells, key, (n - 1) as nat) as int;
        if value_order(index_key(cells[n - 1]), key) == Order::Less {
            if before < n - 1 {
                lemma_value_order_transitive(index_key(cells[before]), index_key(cells[n - 1]), key);
                assert(false);
            }
        }
    }
}

/// In a page whose keys ascend, the cells with a key not greater than `key`
/// are those before the index that is their number.
pub proof fn lemma_keys_up_to_first(cells: Seq<CellModel>, key: Value, n: nat)
    requires
        keys_ascend(cells),
        n <= cells.len(),
    ensures
        count_keys_up_to(cells, key, n) <= n,
        forall|j: int|
            0 <= j < count_keys_up_to(cells, key, n) ==> value_order(
                index_key(#[trigger] cells[j]),
                key,
            ) != Order::Greater,
        forall|j: int|
            count_keys_up_to(cells, key, n) <= j < n ==> value_order(
                index_key(#[trigger] cells[j]),
                key,
            ) == Order::Greater,
    decreases n,
{
    if n > 0 {
        lemma_keys_up_to_first(cells, key, (n - 1) as nat);
        let before = count_keys_up_to(cells, key, (n - 1) as nat) as int;
        if value_order(index_key(cells[n - 1]), key) != Order::Greater {
            if before < n - 1 {
                lemma_value_order_reversed(index_key(cells[before]), key);
                lemma_value_order_reversed(index_key(cells[n - 1]), key);
                lemma_value_order_transitive(index_key(cells[before]), index_key(cells[n - 1]), key);
                assert(false);
            }
        }
    }
}

/// No more cells have a key less than `key` than have a key not greater.
pub proof fn lemma_counts_in_order(cells: Seq<CellModel>, key: Value, n: nat)
    requires
        n <= cells.len(),
    ensures
        count_keys_below(cells, key, n) <= count_keys_up_to(cells, key, n) <= n,
    decreases n,
{
    if n > 0 {
        lemma_counts_in_order(cells, key, (n - 1) as nat);
    }
}

/// What the search of the cells yields after `acc` is `acc`, then what it
/// yields after nothing.
pub proof fn lemma_find_cells_after(
    db: DatabaseModel,
    page: PageModel,
    key: Value,
    i: nat,
    after: nat,
    fuel: nat,
    acc: Seq<i64>,
)
    ensures
        spec_find_cells(db, page, key, i, after, fuel, acc) == match spec_find_cells(
            db,
            page,
            key,
            i,
            after,
            fuel,
            Seq::empty(),
        ) {
            Ok(found) => Ok::<Seq<i64>, Error>(acc + found),
            Err(e) => Err(e),
        },
    decreases 1 + (after - i) as nat,
{
    let none = Seq::<i64>::empty();
    if i < after && i < page.cells.len() {
        let cell = page.cells[i as int];
        let own = match index_rowid(cell) {
            Some(rowid) => none.push(rowid),
            None => none,
        };
        let with_own = match index_rowid(cell) {
            Some(rowid) => acc.push(rowid),
            None => acc,
        };
        assert(with_own =~= acc + own);
        match cell {
            CellModel::IndexInterior { left_child_page, .. } => {
                if let Ok(found) = spec_find(db, left_child_page as usize, key, fuel) {
                    lemma_find_cells_after(db, page, key, i + 1, after, fuel, with_own + found);
                    lemma_find_cells_after(db, page, key, i + 1, after, fuel, own + found);
                    if let Ok(rest) = spec_find_cells(
                        db,
                        page,
                        key,
                        i + 1,
                        after,
                        fuel,
                        none,
                    ) {
                        assert((with_own + found) + rest =~= acc + ((own + found) + rest));
                    }
                }
            },
            _ => {
                lemma_find_cells_after(db, page, key, i + 1, after, fuel, with_own);
                lemma_find_cells_after(db, page, key, i + 1, after, fuel, own);
                if let Ok(rest) = spec_find_cells(db, page, key, i + 1, after, fuel, none) {
                    assert(with_own + rest =~= acc + (own + rest));
                }
            },
        }
    } else if after == page.cells.len() && page.header.page_type == PageType::InteriorIndex {
        if let Some(p) = page.header.right_most_pointer {
            if let Ok(found) = spec_find(db, p as usize, key, fuel) {
                assert(acc + found =~= acc + (none + found));
            }
        }
    } else {
        assert(acc + none =~= acc);
    }
}

/// The keys of two lists of cells lie within bounds where those of each do.
pub proof fn lemma_keys_within_concat(
    a: Seq<CellModel>,
    b: Seq<CellModel>,
    lo: Option<Value>,
    hi: Option<Value>,
)
    requires
        keys_within(a, lo, hi),
        keys_within(b, lo, hi),
    ensures
        keys_within(a + b, lo, hi),
{
    let s = a + b;
    assert forall|j: int| 0 <= j < s.len() implies key_within(index_key(#[trigger] s[j]), lo, hi) by {
        if j < a.len() {
            assert(s[j] == a[j]);
        } else {
            assert(s[j] == b[j - a.len()]);
        }
    }
}

/// Keys that are at most `mid` are at most any bound of `mid` from above.
pub proof fn lemma_widen_upper(
    cells: Seq<CellModel>,
    lo: Option<Value>,
    mid: Value,
    hi: Option<Value>,
)
    requires
        keys_within(cells, lo, Some(mid)),
        key_within(mid, None, hi),
    ensures
        keys_within(cells, lo, hi),
{
    assert forall|j: int| 0 <= j < cells.len() implies key_within(
        index_key(#[trigger] cells[j]),
        lo,
        hi,
    ) by {
        if let Some(h) = hi {
            lemma_value_order_transitive(index_key(cells[j]), mid, h);
        }
    }
}

/// Keys that are at least `mid` are at least any bound of `mid` from below.
pub proof fn lemma_widen_lower(
    cells: Seq<CellModel>,
    lo: Option<Value>,
    mid: Value,
    hi: Option<Value>,
)
    requires
        keys_within(cells, Some(mid), hi),
        key_within(mid, lo, None),
    ensures
        keys_within(cells, lo, hi),
{
    assert forall|j: int| 0 <= j < cells.len() implies key_within(
        index_key(#[trigger] cells[j]),
        lo,
        hi,
    ) by {
        if let Some(l) = lo {
            lemma_value_order_transitive(l, mid, index_key(cells[j]));
        }
    }
}

/// The children from a later child on are in order where those from an
/// earlier one on are.
pub proof fn lemma_children_ordered_from(
    db: DatabaseModel,
    page: PageModel,
    i: nat,
    k: nat,
    lo: Option<Value>,
    hi: Option<Value>,
    fuel: nat,
)
    requires
        index_children_ordered(db, page, i, lo, hi, fuel),
        i <= k <= page.cells.len(),
    ensures
        index_children_ordered(db, page, k, lo, hi, fuel),
        forall|j: int| i <= j < page.cells.len() ==> (#[trigger] page.cells[j]) is IndexInterior,
    decreases page.cells.len() - i,
{
    if i < page.cells.len() {
        if i < k {
            lemma_children_ordered_from(db, page, i + 1, k, lo, hi, fuel);
        } else {
            lemma_children_ordered_from(db, page, i + 1, i + 1, lo, hi, fuel);
        }
    }
}

/// The key of cell `i` of a page in order lies between the lower bound of
/// child `i` and the upper bound of the page.
pub proof fn lemma_cell_key_within(page: PageModel, i: int, lo: Option<Value>, hi: Option<Value>)
    requires
        keys_ascend(page.cells),
        keys_within(page.cells, lo, hi),
        0 <= i < page.cells.len(),
    ensures
        key_within(index_key(page.cells[i]), lower_bound_at(page, i, lo), hi),
{
}

/// The entries of an index B-tree in order have keys within the bounds of
/// the tree.
pub proof fn lemma_entries_within(
    db: DatabaseModel,
    root: usize,
    lo: Option<Value>,
    hi: Option<Value>,
    fuel: nat,
)
    requires
        index_tree_ordered(db, root, lo, hi, fuel),
    ensures
        keys_within(index_entries(db, root, fuel), lo, hi),
    decreases fuel, 0nat,
{
    let page = db.page(root as nat).unwrap();
    if page.header.page_type == PageType::InteriorIndex {
        lemma_child_entries_within(db, page, 0, lo, hi, (fuel - 1) as nat);
    }
}

/// The entries of the children from `i` on have keys between the lower
/// bound of child `i` and the upper bound of the page.
pub proof fn lemma_child_entries_within(
    db: DatabaseModel,
    page: PageModel,
    i: nat,
    lo: Option<Value>,
    hi: Option<Value>,
    fuel: nat,
)
    requires
        index_children_ordered(db, page, i, lo, hi, fuel),
        keys_ascend(page.cells),
        keys_within(page.cells, lo, hi),
        i <= page.cells.len(),
    ensures
        keys_within(child_entries(db, page, i, fuel), lower_bound_at(page, i as int, lo), hi),
    decreases fuel, 1 + (page.cells.len() - i) as nat,
{
    let bound = lower_bound_at(page, i as int, lo);
    if i < page.cells.len() {
        match page.cells[i as int] {
            CellModel::IndexInterior { left_child_page, .. } => {
                let cell = page.cells[i as int];
                let key = index_key(cell);
                let left = index_entries(db, left_child_page as usize, fuel);
                let rest = child_entries(db, page, i + 1, fuel);
                lemma_cell_key_within(page, i as int, lo, hi);
                lemma_entries_within(db, left_child_page as usize, bound, Some(key), fuel);
                lemma_widen_upper(left, bound, key, hi);
                lemma_child_entries_within(db, page, i + 1, lo, hi, fuel);
                assert(lower_bound_at(page, (i + 1) as int, lo) == Some(key));
                lemma_widen_lower(rest, bound, key, hi);
                assert(keys_within(seq![cell], bound, hi));
                lemma_keys_within_concat(left, seq![cell], bound, hi);
                lemma_keys_within_concat(left + seq![cell], rest, bound, hi);
            },
            _ => {},
        }
    } else {
        let p = page.header.right_most_pointer.unwrap();
        lemma_entries_within(db, p as usize, bound, hi, fuel);
    }
}

/// Whether the keys of a page stand to `key` as its two counts say: the
/// cells before `first` have a lesser key, those from `first` up to `after`
/// an equal one, and those from `after` on a greater one.
pub open spec fn keys_split(page: PageModel, key: Value, first: nat, after: nat) -> bool {
    &&& first <= after <= page.cells.len()
    &&& forall|j: int|
        0 <= j < first ==> value_order(index_key(#[trigger] page.cells[j]), key) == Order::Less
    &&& forall|j: int|
        first <= j < after ==> value_order(index_key(#[trigger] page.cells[j]), key)
            == Order::Equal
    &&& forall|j: int|
        after <= j < page.cells.len() ==> value_order(index_key(#[trigger] page.cells[j]), key)
            == Order::Greater
}

/// The two counts of a page in order split its keys.
pub proof fn lemma_keys_split(page: PageModel, key: Value)
    requires
        keys_ascend(page.cells),
    ensures
        keys_split(
            page,
            key,
            count_keys_below(page.cells, key, page.cells.len()),
            count_keys_up_to(page.cells, key, page.cells.len()),
        ),
{
    lemma_keys_below_first(page.cells, key, page.cells.len());
    lemma_keys_up_to_first(page.cells, key, page.cells.len());
    lemma_counts_in_order(page.cells, key, page.cells.len());
}

/// The children before the first cell with the key hold no entry of the
/// key.
pub proof fn lemma_skip_lesser(
    db: DatabaseModel,
    page: PageModel,
    lo: Option<Value>,
    hi: Option<Value>,
    key: Value,
    rowid: i64,
    i: nat,
    first: nat,
    after: nat,
    fuel: nat,
)
    requires
        index_children_ordered(db, page, i, lo, hi, fuel),
        keys_split(page, key, first, after),
        i <= first,
    ensures
        has_match(child_entries(db, page, i, fuel), key, rowid) <==> has_match(
            child_entries(db, page, first, fuel),
            key,
            rowid,
        ),
    decreases first - i,
{
    if i < first {
        match page.cells[i as int] {
            CellModel::IndexInterior { left_child_page, .. } => {
                let cell = page.cells[i as int];
                let left = index_entries(db, left_child_page as usize, fuel);
                let rest = child_entries(db, page, i + 1, fuel);
                lemma_entries_within(
                    db,
                    left_child_page as usize,
                    lower_bound_at(page, i as int, lo),
                    Some(index_key(cell)),
                    fuel,
                );
                lemma_no_match_below(
                    left,
                    lower_bound_at(page, i as int, lo),
                    index_key(cell),
                    key,
                    rowid,
                );
                lemma_has_match_concat(left, seq![cell], key, rowid);
                lemma_has_match_concat(left + seq![cell], rest, key, rowid);
                if has_match(seq![cell], key, rowid) {
                    let j = choose|j: int|
                        0 <= j < seq![cell].len() && is_match(#[trigger] seq![cell][j], key, rowid);
                    assert(seq![cell][j] == cell);
                }
                lemma_skip_lesser(db, page, lo, hi, key, rowid, i + 1, first, after, fuel);
            },
            _ => {},
        }
    }
}

/// The search of a leaf yields the row ids of the cells that it visits.
pub proof fn lemma_leaf_walk(
    db: DatabaseModel,
    page: PageModel,
    key: Value,
    rowid: i64,
    i: nat,
    after: nat,
    fuel: nat,
)
    requires
        page.header.page_type == PageType::LeafIndex,
        forall|j: int| 0 <= j < page.cells.len() ==> !((#[trigger] page.cells[j]) is IndexInterior),
        i <= after <= page.cells.len(),
    ensures
        spec_find_cells(db, page, key, i, after, fuel, Seq::empty()) is Ok,
        spec_find_cells(db, page, key, i, after, fuel, Seq::empty()).unwrap().contains(
            rowid,
        ) <==> exists|j: int| i <= j < after && index_rowid(#[trigger] page.cells[j]) == Some(rowid),
    decreases after - i,
{
    let none = Seq::<i64>::empty();
    if i < after {
        let cell = page.cells[i as int];
        assert(!(cell is IndexInterior));
        let own = match index_rowid(cell) {
            Some(r) => none.push(r),
            None => none,
        };
        lemma_leaf_walk(db, page, key, rowid, i + 1, after, fuel);
        lemma_find_cells_after(db, page, key, i + 1, after, fuel, own);
        let rest = spec_find_cells(db, page, key, i + 1, after, fuel, none).unwrap();
        crate::table_tree::lemma_contains_concat(own, rest, rowid);
        if own.contains(rowid) {
            assert(index_rowid(page.cells[i as int]) == Some(rowid));
        }
        if index_rowid(cell) == Some(rowid) {
            assert(own[0] == rowid);
        }
        if exists|j: int| i <= j < after && index_rowid(#[trigger] page.cells[j]) == Some(rowid) {
            let j = choose|j: int|
                i <= j < after && index_rowid(#[trigger] page.cells[j]) == Some(rowid);
            if j > i {
                assert(i + 1 <= j < after && index_rowid(page.cells[j]) == Some(rowid));
            }
        }
    }
}

/// The search finds the entries of the key: in an index B-tree in order,
/// where the search for a key passes by no entry of the key, the search
/// succeeds and yields the row ids of exactly the entries of the key.
pub proof fn lemma_search_finds_entries(
    db: DatabaseModel,
    root: usize,
    lo: Option<Value>,
    hi: Option<Value>,
    fuel: nat,
    key: Value,
    rowid: i64,
)
    requires
        index_tree_ordered(db, root, lo, hi, fuel),
        search_reaches(db, root, key, fuel),
    ensures
        spec_find(db, root, key, fuel) is Ok,
        spec_find(db, root, key, fuel).unwrap().contains(rowid) <==> has_match(
            index_entries(db, root, fuel),
            key,
            rowid,
        ),
    decreases fuel, 0nat,
{
    let page = db.page(root as nat).unwrap();
    let cells = page.cells;
    let first = count_keys_below(cells, key, cells.len());
    let after = count_keys_up_to(cells, key, cells.len());
    lemma_page_cells_kind(db, root as nat);
    lemma_keys_split(page, key);
    if page.header.page_type == PageType::InteriorIndex {
        lemma_children_ordered_from(db, page, 0, first, lo, hi, (fuel - 1) as nat);
        lemma_skip_lesser(db, page, lo, hi, key, rowid, 0, first, after, (fuel - 1) as nat);
        lemma_children_walk(db, page, lo, hi, key, rowid, first, first, after, (fuel - 1) as nat);
    } else {
        assert(page.header.page_type == PageType::LeafIndex);
        assert forall|j: int| 0 <= j < cells.len() implies !((#[trigger] cells[j])
            is IndexInterior) by {
            assert(cells[j].page_type() == PageType::LeafIndex);
        }
        lemma_leaf_walk(db, page, key, rowid, first, after, (fuel - 1) as nat);
        let found = spec_find(db, root, key, fuel).unwrap();
        if found.contains(rowid) {
            let j = choose|j: int|
                first <= j < after && index_rowid(#[trigger] cells[j]) == Some(rowid);
            assert(is_match(cells[j], key, rowid));
        }
        if has_match(cells, key, rowid) {
            let j = choose|j: int| 0 <= j < cells.len() && is_match(#[trigger] cells[j], key, rowid);
            assert(first <= j < after);
        }
    }
}

/// The search of the children that it visits yields the row ids of exactly
/// the entries of the key from the first such child on.
pub proof fn lemma_children_walk(
    db: DatabaseModel,
    page: PageModel,
    lo: Option<Value>,
    hi: Option<Value>,
    key: Value,
    rowid: i64,
    i: nat,
    first: nat,
    after: nat,
    fuel: nat,
)
    requires
        page.header.page_type == PageType::InteriorIndex,
        keys_ascend(page.cells),
        keys_within(page.cells, lo, hi),
        index_children_ordered(db, page, i, lo, hi, fuel),
        keys_split(page, key, first, after),
        first <= i <= after,
        children_reached(db, page, key, i, after, fuel),
        after < page.cells.len() ==> (match page.cells[after as int] {
            CellModel::IndexInterior { left_child_page, .. } => !holds_key(
                index_entries(db, left_child_page as usize, fuel),
                key,
            ),
            _ => true,
        }),
    ensures
        spec_find_cells(db, page, key, i, after, fuel, Seq::empty()) is Ok,
        spec_find_cells(db, page, key, i, after, fuel, Seq::empty()).unwrap().contains(
            rowid,
        ) <==> has_match(child_entries(db, page, i, fuel), key, rowid),
    decreases fuel, 1 + (after - i) as nat,
{
    let none = Seq::<i64>::empty();
    if i < after {
        match page.cells[i as int] {
            CellModel::IndexInterior { left_child_page, .. } => {
                let cell = page.cells[i as int];
                let left = index_entries(db, left_child_page as usize, fuel);
                let rest = child_entries(db, page, i + 1, fuel);
                let own = match index_rowid(cell) {
                    Some(r) => none.push(r),
                    None => none,
                };
                lemma_search_finds_entries(
                    db,
                    left_child_page as usize,
                    lower_bound_at(page, i as int, lo),
                    Some(index_key(cell)),
                    fuel,
                    key,
                    rowid,
                );
                let found = spec_find(db, left_child_page as usize, key, fuel).unwrap();
                lemma_children_walk(db, page, lo, hi, key, rowid, i + 1, first, after, fuel);
                lemma_find_cells_after(db, page, key, i + 1, after, fuel, own + found);
                let more = spec_find_cells(db, page, key, i + 1, after, fuel, none).unwrap();
                crate::table_tree::lemma_contains_concat(own, found, rowid);
                crate::table_tree::lemma_contains_concat(own + found, more, rowid);
                lemma_has_match_concat(left, seq![cell], key, rowid);
                lemma_has_match_concat(left + seq![cell], rest, key, rowid);
                if own.contains(rowid) {
                    assert(index_rowid(cell) == Some(rowid));
                    assert(seq![cell][0] == cell);
                    assert(is_match(seq![cell][0], key, rowid));
                }
                if has_match(seq![cell], key, rowid) {
                    let j = choose|j: int|
                        0 <= j < seq![cell].len() && is_match(#[trigger] seq![cell][j], key, rowid);
                    assert(seq![cell][j] == cell);
                    assert(own[0] == rowid);
                }
            },
            _ => {},
        }
    } else if after == page.cells.len() {
        let p = page.header.right_most_pointer.unwrap();
        lemma_search_finds_entries(
            db,
            p as usize,
            lower_bound_at(page, page.cells.len() as int, lo),
            hi,
            fuel,
            key,
            rowid,
        );
        let found = spec_find(db, p as usize, key, fuel).unwrap();
        assert(none + found =~= found);
    } else {
        // The walk ends before a cell with a greater key: nothing of the
        // key stands under its left child, and nothing after it.
        match page.cells[after as int] {
            CellModel::IndexInterior { left_child_page, .. } => {
                let cell = page.cells[after as int];
                let left = index_entries(db, left_child_page as usize, fuel);
                let rest = child_entries(db, page, after + 1, fuel);
                lemma_children_ordered_from(db, page, i, after + 1, lo, hi, fuel);
                lemma_child_entries_within(db, page, after + 1, lo, hi, fuel);
                assert(lower_bound_at(page, (after + 1) as int, lo) == Some(index_key(cell)));
                lemma_no_match_above(rest, index_key(cell), hi, key, rowid);
                lemma_has_match_concat(left, seq![cell], key, rowid);
                lemma_has_match_concat(left + seq![cell], rest, key, rowid);
                if has_match(seq![cell], key, rowid) {
                    let j = choose|j: int|
                        0 <= j < seq![cell].len() && is_match(#[trigger] seq![cell][j], key, rowid);
                    assert(seq![cell][j] == cell);
                }
                assert(!has_match(left, key, rowid));
            },
            _ => {},
        }
    }
}

/// The search finds only entries of the key: in an index B-tree in order
/// the search succeeds, and each row id that it yields is the row id of an
/// entry of the key.
pub proof fn lemma_search_finds_only_entries(
    db: DatabaseModel,
    root: usize,
    lo: Option<Value>,
    hi: Option<Value>,
    fuel: nat,
    key: Value,
    rowid: i64,
)
    requires
        index_tree_ordered(db, root, lo, hi, fuel),
    ensures
        spec_find(db, root, key, fuel) is Ok,
        spec_find(db, root, key, fuel).unwrap().contains(rowid) ==> has_match(
            index_entries(db, root, fuel),
            key,
            rowid,
        ),
    decreases fuel, 0nat,
{
    let page = db.page(root as nat).unwrap();
    let cells = page.cells;
    let first = count_keys_below(cells, key, cells.len());
    let after = count_keys_up_to(cells, key, cells.len());
    lemma_page_cells_kind(db, root as nat);
    lemma_keys_split(page, key);
    if page.header.page_type == PageType::InteriorIndex {
        lemma_children_ordered_from(db, page, 0, first, lo, hi, (fuel - 1) as nat);
        lemma_skip_lesser(db, page, lo, hi, key, rowid, 0, first, after, (fuel - 1) as nat);
        lemma_children_walk_only(
            db,
            page,
            lo,
            hi,
            key,
            rowid,
            first,
            first,
            after,
            (fuel - 1) as nat,
        );
    } else {
        assert(page.header.page_type == PageType::LeafIndex);
        assert forall|j: int| 0 <= j < cells.len() implies !((#[trigger] cells[j])
            is IndexInterior) by {
            assert(cells[j].page_type() == PageType::LeafIndex);
        }
        lemma_leaf_walk(db, page, key, rowid, first, after, (fuel - 1) as nat);
        let found = spec_find(db, root, key, fuel).unwrap();
        if found.contains(rowid) {
            let j = choose|j: int|
                first <= j < after && index_rowid(#[trigger] cells[j]) == Some(rowid);
            assert(is_match(cells[j], key, rowid));
        }
    }
}

/// The search of the children that it visits yields only row ids of entries
/// of the key.
pub proof fn lemma_children_walk_only(
    db: DatabaseModel,
    page: PageModel,
    lo: Option<Value>,
    hi: Option<Value>,
    key: Value,
    rowid: i64,
    i: nat,
    first: nat,
    after: nat,
    fuel: nat,
)
    requires
        page.header.page_type == PageType::InteriorIndex,
        index_children_ordered(db, page, i, lo, hi, fuel),
        keys_split(page, key, first, after),
        first <= i <= after,
    ensures
        spec_find_cells(db, page, key, i, after, fuel, Seq::empty()) is Ok,
        spec_find_cells(db, page, key, i, after, fuel, Seq::empty()).unwrap().contains(
            rowid,
        ) ==> has_match(child_entries(db, page, i, fuel), key, rowid),
    decreases fuel, 1 + (after - i) as nat,
{
    let none = Seq::<i64>::empty();
    if i < after {
        match page.cells[i as int] {
            CellModel::IndexInterior { left_child_page, .. } => {
                let cell = page.cells[i as int];
                let left = index_entries(db, left_child_page as usize, fuel);
                let rest = child_entries(db, page, i + 1, fuel);
                let own = match index_rowid(cell) {
                    Some(r) => none.push(r),
                    None => none,
                };
                lemma_search_finds_only_entries(
                    db,
                    left_child_page as usize,
                    lower_bound_at(page, i as int, lo),
                    Some(index_key(cell)),
                    fuel,
                    key,
                    rowid,
                );
                let found = spec_find(db, left_child_page as usize, key, fuel).unwrap();
                lemma_children_walk_only(
                    db,
                    page,
                    lo,
                    hi,
                    key,
                    rowid,
                    i + 1,
                    first,
                    after,
                    fuel,
                );
                lemma_find_cells_after(db, page, key, i + 1, after, fuel, own + found);
                let more = spec_find_cells(db, page, key, i + 1, after, fuel, none).unwrap();
                crate::table_tree::lemma_contains_concat(own, found, rowid);
                crate::table_tree::lemma_contains_concat(own + found, more, rowid);
                lemma_has_match_concat(left, seq![cell], key, rowid);
                lemma_has_match_concat(left + seq![cell], rest, key, rowid);
                if own.contains(rowid) {
                    assert(index_rowid(cell) == Some(rowid));
                    assert(seq![cell][0] == cell);
                    assert(is_match(seq![cell][0], key, rowid));
                }
            },
            _ => {},
        }
    } else if after == page.cells.len() {
        let p = page.header.right_most_pointer.unwrap();
        lemma_search_finds_only_entries(
            db,
            p as usize,
            lower_bound_at(page, page.cells.len() as int, lo),
            hi,
            fuel,
            key,
            rowid,
        );
        let found = spec_find(db, p as usize, key, fuel).unwrap();
        assert(none + found =~= found);
    }
}

} // verus!
