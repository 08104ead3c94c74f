//! B-tree pages: the page header, the cell pointer array, and the cells.

use crate::error::Error;
use crate::header::{field, read_u16, read_u32, HEADER_SIZE};
use crate::record::{parse_record, spec_parse_record};
use crate::value::{Data, Value};
use crate::varint::{lemma_varint_len_range, spec_varint, varint_at};
use vstd::prelude::*;
use vstd::slice::slice_subrange;

verus! {

/// The four kinds of B-tree page.
#[derive(Debug, Clone, Copy, PartialEq, Eq, Structural)]
pub enum PageType {
    InteriorIndex,
    InteriorTable,
    LeafIndex,
    LeafTable,
}

impl PageType {
    /// Whether pages of this kind hold child pointers.
    pub open spec fn is_interior(self) -> bool {
        self == PageType::InteriorIndex || self == PageType::InteriorTable
    }

    /// Whether pages of this kind belong to a table B-tree.
    pub open spec fn is_table(self) -> bool {
        self == PageType::InteriorTable || self == PageType::LeafTable
    }

    /// The length in bytes of the header of a page of this kind.
    pub open spec fn header_len(self) -> nat {
        if self.is_interior() {
            12
        } else {
            8
        }
    }
}

/// The page type that a type byte stands for.
pub open spec fn spec_page_type(byte: u8) -> Option<PageType> {
    if byte == 2 {
        Some(PageType::InteriorIndex)
    } else if byte == 5 {
        Some(PageType::InteriorTable)
    } else if byte == 10 {
        Some(PageType::LeafIndex)
    } else if byte == 13 {
        Some(PageType::LeafTable)
    } else {
        None
    }
}

/// The header of a B-tree page. Only interior pages have a right-most
/// pointer.
#[derive(Debug, Clone, Copy, PartialEq, Eq, Structural)]
pub struct PageHeader {
    pub page_type: PageType,
    pub first_freeblock_offset: u16,
    pub number_of_cells: u16,
    pub cell_content_area_offset: u16,
    pub fragmented_free_bytes: u8,
    pub right_most_pointer: Option<u32>,
}

/// The page header that starts `bytes`, and its length.
pub open spec fn spec_parse_page_header(bytes: Seq<u8>) -> Result<(PageHeader, nat), Error> {
    if bytes.len() < 1 {
        Err(Error::Truncated { offset: 0 })
    } else {
        match spec_page_type(bytes[0]) {
            None => Err(Error::UnknownPageType { offset: 0 }),
            Some(page_type) => {
                if bytes.len() < page_type.header_len() {
                    Err(Error::Truncated { offset: 0 })
                } else {
                    Ok(
                        (
                            PageHeader {
                                page_type,
                                first_freeblock_offset: field(bytes, 1, 2) as u16,
                                number_of_cells: field(bytes, 3, 2) as u16,
                                cell_content_area_offset: field(bytes, 5, 2) as u16,
                                fragmented_free_bytes: bytes[7],
                                right_most_pointer: if page_type.is_interior() {
                                    Some(field(bytes, 8, 4) as u32)
                                } else {
                                    None
                                },
                            },
                            page_type.header_len(),
                        ),
                    )
                }
            },
        }
    }
}

/// Decodes the type byte at the start of `input`.
pub fn parse_page_type(input: &[u8]) -> (r: Result<(&[u8], PageType), Error>)
    ensures
        input@.len() == 0 ==> r == Err::<(&[u8], PageType), Error>(Error::Truncated { offset: 0 }),
        input@.len() > 0 ==> match spec_page_type(input@[0]) {
            Some(t) => r matches Ok((rest, page_type)) && page_type == t && rest@ == input@.skip(1),
            None => r == Err::<(&[u8], PageType), Error>(Error::UnknownPageType { offset: 0 }),
        },
{
    if input.len() < 1 {
        return Err(Error::Truncated { offset: 0 });
    }
    let byte = input[0];
    let page_type = if byte == 2 {
        PageType::InteriorIndex
    } else if byte == 5 {
        PageType::InteriorTable
    } else if byte == 10 {
        PageType::LeafIndex
    } else if byte == 13 {
        PageType::LeafTable
    } else {
        return Err(Error::UnknownPageType { offset: 0 });
    };
    Ok((slice_subrange(input, 1, input.len()), page_type))
}

/// Decodes the page header at the start of `input`: the header, and the input
/// after its 8 or 12 bytes.
///
/// Fails with `UnknownPageType` where the first byte is none of 2, 5, 10 and
/// 13, and with `Truncated` where the input is shorter than the header.
pub fn parse_page_header(input: &[u8]) -> (r: Result<(&[u8], PageHeader), Error>)
    ensures
        match spec_parse_page_header(input@) {
            Ok((header, n)) => r matches Ok((rest, h)) && h == header && n <= input@.len() && rest@
                == input@.skip(n as int),
            Err(e) => r matches Err(f) && f == e && e.within(input@.len()),
        },
{
    let page_type = match parse_page_type(input) {
        Ok((_, t)) => t,
        Err(e) => {
            return Err(e);
        },
    };
    let interior = match page_type {
        PageType::InteriorIndex | PageType::InteriorTable => true,
        _ => false,
    };
    let size: usize = if interior {
        12
    } else {
        8
    };
    if input.len() < size {
        return Err(Error::Truncated { offset: 0 });
    }
    let header = PageHeader {
        page_type,
        first_freeblock_offset: read_u16(input, 1),
        number_of_cells: read_u16(input, 3),
        cell_content_area_offset: read_u16(input, 5),
        fragmented_free_bytes: input[7],
        right_most_pointer: if interior {
            Some(read_u32(input, 8))
        } else {
            None
        },
    };
    Ok((slice_subrange(input, size, input.len()), header))
}

/// The `count` cell pointers that start `bytes`, and their length in bytes.
pub open spec fn spec_cell_pointers(bytes: Seq<u8>, count: u16) -> Result<(Seq<u16>, nat), Error> {
    if bytes.len() < 2 * count {
        Err(Error::Truncated { offset: 0 })
    } else {
        Ok((Seq::new(count as nat, |i: int| field(bytes, 2 * i, 2) as u16), (2 * count) as nat))
    }
}

/// Decodes the array of `number_of_cells` cell pointers at the start of
/// `input`: the pointers in order, and the input after the array.
pub fn parse_cell_pointers(input: &[u8], number_of_cells: u16) -> (r: Result<
    (&[u8], Vec<u16>),
    Error,
>)
    ensures
        match spec_cell_pointers(input@, number_of_cells) {
            Ok((pointers, n)) => r matches Ok((rest, p)) && p@ == pointers && n <= input@.len()
                && rest@ == input@.skip(n as int),
            Err(e) => r matches Err(f) && f == e && e.within(input@.len()),
        },
{
    let count = number_of_cells as usize;
    if input.len() < 2 * count {
        return Err(Error::Truncated { offset: 0 });
    }
    let mut pointers: Vec<u16> = Vec::new();
    let mut i: usize = 0;
    while i < count
        invariant
            i <= count,
            count == number_of_cells,
            2 * count <= input@.len(),
            pointers@.len() == i,
            forall|j: int| 0 <= j < i ==> pointers@[j] == field(input@, 2 * j, 2) as u16,
        decreases count - i,
    {
        pointers.push(read_u16(input, 2 * i));
        i += 1;
    }
    assert(pointers@ =~= Seq::new(number_of_cells as nat, |i: int| field(input@, 2 * i, 2) as u16));
    Ok((slice_subrange(input, 2 * count, input.len()), pointers))
}

/// A row of a table: a leaf cell of a table B-tree.
#[derive(Debug, Clone, PartialEq)]
pub struct TableLeafCell {
    pub row_id: i64,
    pub payload: Vec<Data>,
    pub overflow_page: Option<u32>,
}

/// A child pointer of a table B-tree with the largest row id of that child.
#[derive(Debug, Clone, Copy, PartialEq, Eq, Structural)]
pub struct TableInteriorCell {
    pub left_child_page: u32,
    pub row_id: i64,
}

/// An entry of an index: a leaf cell of an index B-tree.
#[derive(Debug, Clone, PartialEq)]
pub struct IndexLeafCell {
    pub payload: Vec<Data>,
    pub overflow_page: Option<u32>,
}

/// An entry of an index that also points to the child with the smaller keys.
#[derive(Debug, Clone, PartialEq)]
pub struct IndexInteriorCell {
    pub left_child_page: u32,
    pub payload: Vec<Data>,
    pub overflow_page: Option<u32>,
}

/// A decoded cell, tagged by the kind of page it came from.
#[derive(Debug, Clone, PartialEq)]
pub enum Cell {
    TableLeaf(TableLeafCell),
    TableInterior(TableInteriorCell),
    IndexLeaf(IndexLeafCell),
    IndexInterior(IndexInteriorCell),
}

/// What a cell holds, over mathematical sequences.
pub enum CellModel {
    TableLeaf { row_id: i64, payload: Seq<Value> },
    TableInterior { left_child_page: u32, row_id: i64 },
    IndexLeaf { payload: Seq<Value> },
    IndexInterior { left_child_page: u32, payload: Seq<Value> },
}

impl CellModel {
    /// The kind of page that holds cells of this shape.
    pub open spec fn page_type(self) -> PageType {
        match self {
            CellModel::TableLeaf { .. } => PageType::LeafTable,
            CellModel::TableInterior { .. } => PageType::InteriorTable,
            CellModel::IndexLeaf { .. } => PageType::LeafIndex,
            CellModel::IndexInterior { .. } => PageType::InteriorIndex,
        }
    }
}

impl View for Cell {
    type V = CellModel;

    open spec fn view(&self) -> CellModel {
        match self {
            Cell::TableLeaf(c) => CellModel::TableLeaf {
                row_id: c.row_id,
                payload: c.payload.deep_view(),
            },
            Cell::TableInterior(c) => CellModel::TableInterior {
                left_child_page: c.left_child_page,
                row_id: c.row_id,
            },
            Cell::IndexLeaf(c) => CellModel::IndexLeaf { payload: c.payload.deep_view() },
            Cell::IndexInterior(c) => CellModel::IndexInterior {
                left_child_page: c.left_child_page,
                payload: c.payload.deep_view(),
            },
        }
    }
}

impl Cell {
    /// The first overflow page of the cell's payload, if the payload
    /// overflows.
    pub open spec fn spec_overflow_page(&self) -> Option<u32> {
        match self {
            Cell::TableLeaf(c) => c.overflow_page,
            Cell::TableInterior(_) => None,
            Cell::IndexLeaf(c) => c.overflow_page,
            Cell::IndexInterior(c) => c.overflow_page,
        }
    }
}

/// Whether a payload spills onto overflow pages, given the usable bytes of
/// the page and the size of the payload. Payloads are taken to be embedded
/// whole, so none does.
pub fn does_overflow(_u: usize, _p: usize) -> (r: bool)
    ensures
        !r,
{
    false
}

/// The record in the `size` bytes of `bytes` from `pos` on, and the position
/// after them.
pub open spec fn spec_payload(bytes: Seq<u8>, pos: nat, size: i64) -> Result<
    (Seq<Value>, nat),
    Error,
> {
    if size < 0 || pos + size > bytes.len() {
        Err(Error::Truncated { offset: pos as usize })
    } else {
        match spec_parse_record(bytes.subrange(pos as int, pos + size)) {
            Err(e) => Err(e.shifted(pos as int)),
            Ok((values, _)) => Ok((values, (pos + size) as nat)),
        }
    }
}

/// The cell of a page of kind `page_type` that starts `bytes`, and its length
/// in bytes.
#[verifier::opaque]
pub open spec fn spec_parse_cell(bytes: Seq<u8>, page_type: PageType) -> Result<
    (CellModel, nat),
    Error,
> {
    match page_type {
        PageType::LeafTable => match spec_varint(bytes) {
            None => Err(Error::Truncated { offset: 0 }),
            Some((size, n1)) => match spec_varint(bytes.skip(n1 as int)) {
                None => Err(Error::Truncated { offset: n1 as usize }),
                Some((row_id, n2)) => match spec_payload(bytes, n1 + n2, size) {
                    Err(e) => Err(e),
                    Ok((payload, end)) => Ok((CellModel::TableLeaf { row_id, payload }, end)),
                },
            },
        },
        PageType::InteriorTable => {
            if bytes.len() < 4 {
                Err(Error::Truncated { offset: 0 })
            } else {
                match spec_varint(bytes.skip(4)) {
                    None => Err(Error::Truncated { offset: 4 }),
                    Some((row_id, n)) => Ok(
                        (
                            CellModel::TableInterior {
                                left_child_page: field(bytes, 0, 4) as u32,
                                row_id,
                            },
                            4 + n,
                        ),
                    ),
                }
            }
        },
        PageType::LeafIndex => match spec_varint(bytes) {
            None => Err(Error::Truncated { offset: 0 }),
            Some((size, n)) => match spec_payload(bytes, n, size) {
                Err(e) => Err(e),
                Ok((payload, end)) => Ok((CellModel::IndexLeaf { payload }, end)),
            },
        },
        PageType::InteriorIndex => {
            if bytes.len() < 4 {
                Err(Error::Truncated { offset: 0 })
            } else {
                match spec_varint(bytes.skip(4)) {
                    None => Err(Error::Truncated { offset: 4 }),
                    Some((size, n)) => match spec_payload(bytes, 4 + n, size) {
                        Err(e) => Err(e),
                        Ok((payload, end)) => Ok(
                            (
                                CellModel::IndexInterior {
                                    left_child_page: field(bytes, 0, 4) as u32,
                                    payload,
                                },
                                end,
                            ),
                        ),
                    },
                }
            }
        },
    }
}

/// Decodes the record in the `size` bytes of `input` from `pos` on.
fn parse_payload(input: &[u8], pos: usize, size: i64) -> (r: Result<(Vec<Data>, usize), Error>)
    requires
        pos <= input@.len(),
    ensures
        match spec_payload(input@, pos as nat, size) {
            Ok((values, end)) => r matches Ok((data, e)) && data.deep_view() == values && e == end
                && pos <= end <= input@.len(),
            Err(e) => r matches Err(f) && f == e && e.within(input@.len()),
        },
{
    if size < 0 || size as u64 > (input.len() - pos) as u64 {
        return Err(Error::Truncated { offset: pos });
    }
    let end = pos + size as usize;
    let payload = slice_subrange(input, pos, end);
    match parse_record(payload) {
        Ok((_, values)) => Ok((values, end)),
        Err(e) => Err(e.at(pos)),
    }
}

/// The overflow page of a payload that ends at `end`, and where the cell
/// ends: the four bytes after the payload name the page where the payload
/// overflows. No payload does, so the cell ends with its payload.
fn overflow_pointer(input: &[u8], end: usize) -> (r: (Option<u32>, usize))
    requires
        end <= input@.len(),
    ensures
        r == (None::<u32>, end),
{
    if does_overflow(0, 0) {
        (Some(read_u32(input, end)), end + 4)
    } else {
        (None, end)
    }
}

/// Decodes the cell of a page of kind `page_type` at the start of `input`:
/// the cell, and the input that follows it.
///
/// A leaf table cell is a payload size, a row id and a record; an interior
/// table cell is a child page and a row id; a leaf index cell is a payload
/// size and a record; an interior index cell is a child page, a payload size
/// and a record. Fails with `Truncated` where the input ends inside the cell
/// or the payload size is negative, and as the record decoder does. No cell
/// is given an overflow page.
pub fn parse_cell(input: &[u8], page_type: PageType) -> (r: Result<(&[u8], Cell), Error>)
    ensures
        match spec_parse_cell(input@, page_type) {
            Ok((cell, n)) => r matches Ok((rest, c)) && c@ == cell && c.spec_overflow_page()
                is None && 1 <= n <= input@.len() && rest@ == input@.skip(n as int),
            Err(e) => r matches Err(f) && f == e && e.within(input@.len()),
        },
{
    reveal(spec_parse_cell);
    let len = input.len();
    assert(input@.skip(0) =~= input@);
    match page_type {
        PageType::LeafTable => {
            let (size, after_size) = match varint_at(input, 0) {
                Ok(found) => found,
                Err(e) => {
                    return Err(e);
                },
            };
            let (row_id, after_row_id) = match varint_at(input, after_size) {
                Ok(found) => found,
                Err(e) => {
                    return Err(e);
                },
            };
            let (payload, end) = match parse_payload(input, after_row_id, size) {
                Ok(found) => found,
                Err(e) => {
                    return Err(e);
                },
            };
            let (overflow_page, end) = overflow_pointer(input, end);
            let cell = Cell::TableLeaf(TableLeafCell { row_id, payload, overflow_page });
            Ok((slice_subrange(input, end, len), cell))
        },
        PageType::InteriorTable => {
            if len < 4 {
                return Err(Error::Truncated { offset: 0 });
            }
            let left_child_page = read_u32(input, 0);
            let (row_id, end) = match varint_at(input, 4) {
                Ok(found) => found,
                Err(e) => {
                    return Err(e);
                },
            };
            let cell = Cell::TableInterior(TableInteriorCell { left_child_page, row_id });
            Ok((slice_subrange(input, end, len), cell))
        },
        PageType::LeafIndex => {
            let (size, after_size) = match varint_at(input, 0) {
                Ok(found) => found,
                Err(e) => {
                    return Err(e);
                },
            };
            let (payload, end) = match parse_payload(input, after_size, size) {
                Ok(found) => found,
                Err(e) => {
                    return Err(e);
                },
            };
            let (overflow_page, end) = overflow_pointer(input, end);
            let cell = Cell::IndexLeaf(IndexLeafCell { payload, overflow_page });
            Ok((slice_subrange(input, end, len), cell))
        },
        PageType::InteriorIndex => {
            if len < 4 {
                return Err(Error::Truncated { offset: 0 });
            }
            let left_child_page = read_u32(input, 0);
            let (size, after_size) = match varint_at(input, 4) {
                Ok(found) => found,
                Err(e) => {
                    return Err(e);
                },
            };
            let (payload, end) = match parse_payload(input, after_size, size) {
                Ok(found) => found,
                Err(e) => {
                    return Err(e);
                },
            };
            let (overflow_page, end) = overflow_pointer(input, end);
            let cell = Cell::IndexInterior(
                IndexInteriorCell { left_child_page, payload, overflow_page },
            );
            Ok((slice_subrange(input, end, len), cell))
        },
    }
}

/// A cell as a page presents it: the cell without its overflow page.
#[derive(Debug, Clone, PartialEq)]
pub enum PageValue {
    LeafTable { payload: Vec<Data>, rowid: i64 },
    InteriorTable { left_child_page: u32, rowid: i64 },
    InteriorIndex { left_child_page: u32, payload: Vec<Data> },
    LeafIndex { payload: Vec<Data> },
}

impl View for PageValue {
    type V = CellModel;

    open spec fn view(&self) -> CellModel {
        match self {
            PageValue::LeafTable { payload, rowid } => CellModel::TableLeaf {
                row_id: *rowid,
                payload: payload.deep_view(),
            },
            PageValue::InteriorTable { left_child_page, rowid } => CellModel::TableInterior {
                left_child_page: *left_child_page,
                row_id: *rowid,
            },
            PageValue::InteriorIndex { left_child_page, payload } => CellModel::IndexInterior {
                left_child_page: *left_child_page,
                payload: payload.deep_view(),
            },
            PageValue::LeafIndex { payload } => CellModel::IndexLeaf {
                payload: payload.deep_view(),
            },
        }
    }
}

impl DeepView for PageValue {
    type V = CellModel;

    open spec fn deep_view(&self) -> CellModel {
        self.view()
    }
}

impl CellModel {
    /// The record of the cell, if cells of its shape have one.
    pub open spec fn payload(self) -> Option<Seq<Value>> {
        match self {
            CellModel::TableLeaf { payload, .. } => Some(payload),
            CellModel::TableInterior { .. } => None,
            CellModel::IndexLeaf { payload } => Some(payload),
            CellModel::IndexInterior { payload, .. } => Some(payload),
        }
    }
}

impl PageValue {
    /// The record of the cell; an interior table cell has none.
    pub fn get_payload(&self) -> (r: Option<&Vec<Data>>)
        ensures
            match self@.payload() {
                Some(values) => r matches Some(p) && p.deep_view() == values,
                None => r.is_none(),
            },
    {
        match self {
            PageValue::LeafTable { payload, .. } => Some(payload),
            PageValue::InteriorTable { .. } => None,
            PageValue::InteriorIndex { payload, .. } => Some(payload),
            PageValue::LeafIndex { payload } => Some(payload),
        }
    }

    /// A copy of the cell.
    pub fn duplicate(&self) -> (r: PageValue)
        ensures
            r@ == self@,
    {
        match self {
            PageValue::LeafTable { payload, rowid } => PageValue::LeafTable {
                payload: crate::value::duplicate_all(payload),
                rowid: *rowid,
            },
            PageValue::InteriorTable { left_child_page, rowid } => PageValue::InteriorTable {
                left_child_page: *left_child_page,
                rowid: *rowid,
            },
            PageValue::InteriorIndex { left_child_page, payload } => PageValue::InteriorIndex {
                left_child_page: *left_child_page,
                payload: crate::value::duplicate_all(payload),
            },
            PageValue::LeafIndex { payload } => PageValue::LeafIndex {
                payload: crate::value::duplicate_all(payload),
            },
        }
    }
}

impl Cell {
    /// The cell as a page presents it.
    pub fn into_value(self) -> (r: PageValue)
        ensures
            r@ == self@,
    {
        match self {
            Cell::TableLeaf(c) => PageValue::LeafTable { payload: c.payload, rowid: c.row_id },
            Cell::TableInterior(c) => PageValue::InteriorTable {
                left_child_page: c.left_child_page,
                rowid: c.row_id,
            },
            Cell::IndexLeaf(c) => PageValue::LeafIndex { payload: c.payload },
            Cell::IndexInterior(c) => PageValue::InteriorIndex {
                left_child_page: c.left_child_page,
                payload: c.payload,
            },
        }
    }
}

/// A decoded page: its header, and its cells in cell pointer order.
#[derive(Debug)]
pub struct Page {
    pub header: PageHeader,
    pub values: Vec<PageValue>,
}

/// What a page holds, over mathematical sequences.
pub struct PageModel {
    pub header: PageHeader,
    pub cells: Seq<CellModel>,
}

impl View for Page {
    type V = PageModel;

    open spec fn view(&self) -> PageModel {
        PageModel { header: self.header, cells: self.values.deep_view() }
    }
}

/// The cells that the pointers from index `i` on point to, after those in
/// `acc`. Pointers count from the start of the page; one below `floor`, the
/// end of the pointer array, or past the last byte is misplaced.
pub open spec fn spec_page_cells(
    bytes: Seq<u8>,
    pointers: Seq<u16>,
    page_type: PageType,
    floor: nat,
    i: nat,
    acc: Seq<CellModel>,
) -> Result<Seq<CellModel>, Error>
    decreases pointers.len() - i,
{
    if i >= pointers.len() {
        Ok(acc)
    } else {
        let p = pointers[i as int];
        if p < floor || p >= bytes.len() {
            Err(Error::MisplacedCell { offset: (floor - 2 * (pointers.len() - i)) as usize })
        } else {
            match spec_parse_cell(bytes.skip(p as int), page_type) {
                Err(e) => Err(e.shifted(p as int)),
                Ok((cell, _)) => spec_page_cells(
                    bytes,
                    pointers,
                    page_type,
                    floor,
                    i + 1,
                    acc.push(cell),
                ),
            }
        }
    }
}

/// The number of bytes that come before the page header in a page buffer:
/// the file header on the first page, nothing elsewhere.
pub open spec fn page_header_offset(is_first_page: bool) -> nat {
    if is_first_page {
        HEADER_SIZE as nat
    } else {
        0
    }
}

/// A page of the given header and cells, where the cells decoded.
pub open spec fn page_of(header: PageHeader, floor: nat, cells: Result<Seq<CellModel>, Error>)
    -> Result<(PageModel, nat), Error> {
    match cells {
        Err(e) => Err(e),
        Ok(cells) => Ok((PageModel { header, cells }, floor)),
    }
}

/// The page that `bytes` holds, and the position where its cell pointer
/// array ends.
pub open spec fn spec_parse_page(bytes: Seq<u8>, is_first_page: bool) -> Result<
    (PageModel, nat),
    Error,
> {
    let base = page_header_offset(is_first_page);
    if bytes.len() < base {
        Err(Error::Truncated { offset: 0 })
    } else {
        match spec_parse_page_header(bytes.skip(base as int)) {
            Err(e) => Err(e.shifted(base as int)),
            Ok((header, header_len)) => match spec_cell_pointers(
                bytes.skip((base + header_len) as int),
                header.number_of_cells,
            ) {
                Err(e) => Err(e.shifted((base + header_len) as int)),
                Ok((pointers, pointers_len)) => page_of(
                    header,
                    base + header_len + pointers_len,
                    spec_page_cells(
                        bytes,
                        pointers,
                        header.page_type,
                        base + header_len + pointers_len,
                        0,
                        Seq::empty(),
                    ),
                ),
            },
        }
    }
}

/// Decodes the page in `input`: the page, and the input after its cell
/// pointer array. On the first page of a file the page header follows the
/// 100 bytes of the file header.
///
/// Cell pointers count from the start of `input`, and the cells come in cell
/// pointer order. Fails as the page header and cell decoders do, with
/// `Truncated` where the input ends inside the headers or the pointer array,
/// and with `MisplacedCell` on a cell pointer that points before the end of
/// the pointer array or past the end of `input`; every offset counts from
/// the start of `input`.
pub fn parse_page(input: &[u8], is_first_page: bool) -> (r: Result<(&[u8], Page), Error>)
    ensures
        match spec_parse_page(input@, is_first_page) {
            Ok((page, n)) => r matches Ok((rest, p)) && p@ == page && n <= input@.len() && rest@
                == input@.skip(n as int),
            Err(e) => r matches Err(f) && f == e && e.within(input@.len()),
        },
{
    let len = input.len();
    let base: usize = if is_first_page {
        HEADER_SIZE
    } else {
        0
    };
    if len < base {
        return Err(Error::Truncated { offset: 0 });
    }
    let after_base = slice_subrange(input, base, len);
    assert(after_base@ =~= input@.skip(base as int));
    let (after_header, header) = match parse_page_header(after_base) {
        Ok(found) => found,
        Err(e) => {
            return Err(e.at(base));
        },
    };
    let header_end = len - after_header.len();
    assert(after_header@ =~= input@.skip(header_end as int));
    let (after_pointers, pointers) = match parse_cell_pointers(
        after_header,
        header.number_of_cells,
    ) {
        Ok(found) => found,
        Err(e) => {
            return Err(e.at(header_end));
        },
    };
    let floor = len - after_pointers.len();
    assert(after_pointers@ =~= input@.skip(floor as int));
    let mut values: Vec<PageValue> = Vec::new();
    let mut i: usize = 0;
    assert(values.deep_view() =~= Seq::empty());
    while i < pointers.len()
        invariant
            len == input@.len(),
            i <= pointers.len(),
            pointers.len() == header.number_of_cells,
            2 * pointers.len() <= floor <= len,
            spec_parse_page(input@, is_first_page) == page_of(
                header,
                floor as nat,
                spec_page_cells(
                    input@,
                    pointers@,
                    header.page_type,
                    floor as nat,
                    i as nat,
                    values.deep_view(),
                ),
            ),
        decreases pointers.len() - i,
    {
        let p = pointers[i] as usize;
        if p < floor || p >= len {
            return Err(Error::MisplacedCell { offset: floor - 2 * (pointers.len() - i) });
        }
        let at_pointer = slice_subrange(input, p, len);
        assert(at_pointer@ =~= input@.skip(p as int));
        let ghost before = values.deep_view();
        match parse_cell(at_pointer, header.page_type) {
            Ok((_, cell)) => {
                let value = cell.into_value();
                values.push(value);
                assert(values.deep_view() =~= before.push(value@));
            },
            Err(e) => {
                return Err(e.at(p));
            },
        }
        i += 1;
    }
    Ok((after_pointers, Page { header, values }))
}

/// A cell that decodes has the shape of its page's kind, at least one byte,
/// and lies within the input.
pub proof fn lemma_cell_within(bytes: Seq<u8>, page_type: PageType)
    ensures
        spec_parse_cell(bytes, page_type) matches Ok((cell, n)) ==> cell.page_type() == page_type
            && 1 <= n <= bytes.len(),
{
    reveal(spec_parse_cell);
    lemma_varint_len_range(bytes);
    if let Some((_, n)) = spec_varint(bytes) {
        lemma_varint_len_range(bytes.skip(n as int));
    }
    if bytes.len() >= 4 {
        lemma_varint_len_range(bytes.skip(4));
    }
}

/// The cell pointer of index `i` of the page in `bytes`: the 16-bit number
/// at its place in the array that follows the page header.
pub open spec fn cell_pointer(bytes: Seq<u8>, is_first_page: bool, i: int) -> int {
    let base = page_header_offset(is_first_page);
    match spec_parse_page_header(bytes.skip(base as int)) {
        Ok((_, header_len)) => field(bytes, base + header_len + 2 * i, 2) as int,
        Err(_) => 0,
    }
}

/// Where the cells decode from index `i` on, each of the pointers from `i`
/// on lies between `floor` and the end of the page, and points to the cell
/// that stands at its place in the result, which ends within the page.
pub proof fn lemma_page_cells(
    bytes: Seq<u8>,
    pointers: Seq<u16>,
    page_type: PageType,
    floor: nat,
    i: nat,
    acc: Seq<CellModel>,
)
    requires
        i <= pointers.len(),
        spec_page_cells(bytes, pointers, page_type, floor, i, acc) is Ok,
    ensures
        ({
            let cells = spec_page_cells(bytes, pointers, page_type, floor, i, acc).unwrap();
            &&& cells.len() == acc.len() + pointers.len() - i
            &&& forall|k: int| 0 <= k < acc.len() ==> cells[k] == acc[k]
            &&& forall|j: int|
                i <= j < pointers.len() ==> floor <= #[trigger] pointers[j] < bytes.len() && (
                match spec_parse_cell(bytes.skip(pointers[j] as int), page_type) {
                    Ok((cell, used)) => cell == cells[acc.len() + j - i] && pointers[j] + used
                        <= bytes.len() && cell.page_type() == page_type,
                    Err(_) => false,
                })
        }),
    decreases pointers.len() - i,
{
    if i < pointers.len() {
        let p = pointers[i as int];
        lemma_cell_within(bytes.skip(p as int), page_type);
        let cell = spec_parse_cell(bytes.skip(p as int), page_type).unwrap().0;
        lemma_page_cells(bytes, pointers, page_type, floor, i + 1, acc.push(cell));
        let cells = spec_page_cells(bytes, pointers, page_type, floor, i, acc).unwrap();
        assert(cells[acc.len() as int] == acc.push(cell)[acc.len() as int]);
        assert forall|k: int| 0 <= k < acc.len() implies cells[k] == acc[k] by {
            assert(cells[k] == acc.push(cell)[k]);
        }
    }
}

/// The cells of a decoded page stand where its cell pointers say: the page
/// has as many cells as its header counts; each cell pointer lies at or
/// after the end of the cell pointer array and before the end of the page;
/// and the cell at each pointer decodes to the cell of that index, has the
/// shape of the page's kind, and ends within the page.
pub proof fn lemma_page_cells_in_bounds(bytes: Seq<u8>, is_first_page: bool)
    requires
        spec_parse_page(bytes, is_first_page) is Ok,
    ensures
        ({
            let (page, floor) = spec_parse_page(bytes, is_first_page).unwrap();
            &&& page.cells.len() == page.header.number_of_cells
            &&& floor == page_header_offset(is_first_page) + page.header.page_type.header_len() + 2
                * page.header.number_of_cells
            &&& floor <= bytes.len()
            &&& forall|i: int|
                0 <= i < page.cells.len() ==> {
                    let p = #[trigger] cell_pointer(bytes, is_first_page, i);
                    &&& floor <= p < bytes.len()
                    &&& match spec_parse_cell(bytes.skip(p), page.header.page_type) {
                        Ok((cell, used)) => cell == page.cells[i] && p + used <= bytes.len()
                            && cell.page_type() == page.header.page_type,
                        Err(_) => false,
                    }
                }
        }),
{
    let base = page_header_offset(is_first_page);
    let (header, header_len) = spec_parse_page_header(bytes.skip(base as int)).unwrap();
    let after_header = bytes.skip((base + header_len) as int);
    let (pointers, pointers_len) = spec_cell_pointers(after_header, header.number_of_cells).unwrap();
    let floor = base + header_len + pointers_len;
    lemma_page_cells(bytes, pointers, header.page_type, floor, 0, Seq::empty());
    let (page, _) = spec_parse_page(bytes, is_first_page).unwrap();
    assert forall|i: int| 0 <= i < page.cells.len() implies {
        let p = #[trigger] cell_pointer(bytes, is_first_page, i);
        &&& floor <= p < bytes.len()
        &&& match spec_parse_cell(bytes.skip(p), page.header.page_type) {
            Ok((cell, used)) => cell == page.cells[i] && p + used <= bytes.len()
                && cell.page_type() == page.header.page_type,
            Err(_) => false,
        }
    } by {
        assert(after_header.subrange(2 * i, 2 * i + 2) =~= bytes.subrange(
            base + header_len + 2 * i,
            base + header_len + 2 * i + 2,
        ));
        crate::bytes::lemma_be_unsigned_bound(after_header.subrange(2 * i, 2 * i + 2));
        crate::bytes::lemma_pow256_values();
        assert(pointers[i] == cell_pointer(bytes, is_first_page, i));
    }
}

} // verus!
