use sqlite_reader::encode::encode_record;
use sqlite_reader::error::Error;
use sqlite_reader::header::parse_header;
use sqlite_reader::page::{
    does_overflow, parse_cell, parse_cell_pointers, parse_page, parse_page_header,
    parse_page_type, Cell, IndexInteriorCell, IndexLeafCell, PageHeader, PageType, PageValue,
    TableInteriorCell, TableLeafCell,
};
use sqlite_reader::value::Data;
use sqlite_reader::varint::encode_varint;

fn file_header(page_size: u16) -> Vec<u8> {
    let mut h = vec![0u8; 100];
    h[..16].copy_from_slice(b"SQLite format 3\0");
    h[16..18].copy_from_slice(&page_size.to_be_bytes());
    h[18] = 1;
    h[19] = 2;
    h[20] = 3;
    h[21] = 64;
    h[22] = 32;
    h[23] = 32;
    for (k, at) in [24usize, 28, 32, 36, 40, 44, 48, 52, 56, 60, 64, 68].iter().enumerate() {
        h[*at..*at + 4].copy_from_slice(&(1000 + k as u32).to_be_bytes());
    }
    h[92..96].copy_from_slice(&77u32.to_be_bytes());
    h[96..100].copy_from_slice(&3_045_000u32.to_be_bytes());
    h
}

fn leaf_table_cell(rowid: i64, values: &Vec<Data>) -> Vec<u8> {
    let payload = encode_record(values).unwrap();
    let mut cell = encode_varint(payload.len() as i64);
    cell.extend(encode_varint(rowid));
    cell.extend(payload);
    cell
}

#[test]
fn header_fields() {
    let mut input = file_header(4096);
    input.extend_from_slice(&[0xab, 0xcd]);
    let (rest, header) = parse_header(&input).unwrap();
    assert_eq!(rest, &[0xab, 0xcd]);
    assert_eq!(header.magic, "SQLite format 3");
    assert_eq!(header.page_size, 4096);
    assert_eq!(header.page_size_bytes(), 4096);
    assert_eq!(header.file_format_write_version, 1);
    assert_eq!(header.file_format_read_version, 2);
    assert_eq!(header.bytes_reserved_at_end_of_each_page, 3);
    assert_eq!(header.max_embedded_payload_fraction, 64);
    assert_eq!(header.min_embedded_payload_fraction, 32);
    assert_eq!(header.leaf_payload_fraction, 32);
    assert_eq!(header.file_change_counter, 1000);
    assert_eq!(header.database_size_in_pages, 1001);
    assert_eq!(header.first_freelist_page, 1002);
    assert_eq!(header.number_of_freelist_pages, 1003);
    assert_eq!(header.schema_cookie, 1004);
    assert_eq!(header.schema_format_number, 1005);
    assert_eq!(header.default_page_cache_size, 1006);
    assert_eq!(header.largest_root_btree_page_number, 1007);
    assert_eq!(header.text_encoding, 1008);
    assert_eq!(header.user_version, 1009);
    assert_eq!(header.incremental_vacuum_mode, 1010);
    assert_eq!(header.application_id, 1011);
    assert_eq!(header.version_valid_for, 77);
    assert_eq!(header.sqlite_version_number, 3_045_000);
}

#[test]
fn header_page_size_one_is_65536() {
    let (_, header) = parse_header(&file_header(1)).unwrap();
    assert_eq!(header.page_size, 1);
    assert_eq!(header.page_size_bytes(), 65536);
    for size in [512u16, 1024, 2048, 4096, 8192, 16384, 32768] {
        let (_, header) = parse_header(&file_header(size)).unwrap();
        assert_eq!(header.page_size_bytes(), size as u32);
    }
}

#[test]
fn header_failures() {
    assert_eq!(parse_header(&[]).err(), Some(Error::BadMagic));
    assert_eq!(parse_header(b"SQLite format 3").err(), Some(Error::BadMagic));
    let mut bad = file_header(4096);
    bad[5] = b'E';
    assert_eq!(parse_header(&bad).err(), Some(Error::BadMagic));
    let short = &file_header(4096)[..99];
    assert_eq!(parse_header(short).err(), Some(Error::Truncated { offset: 16 }));
    assert_eq!(parse_header(b"SQLite format 3\0").err(), Some(Error::Truncated { offset: 16 }));
    for size in [0u16, 2, 256, 511, 513, 1000, 4097, 65535] {
        assert_eq!(parse_header(&file_header(size)).err(), Some(Error::InvalidPageSize));
    }
}

#[test]
fn page_type_bytes() {
    assert_eq!(parse_page_type(&[2, 9]), Ok((&[9][..], PageType::InteriorIndex)));
    assert_eq!(parse_page_type(&[5]), Ok((&[][..], PageType::InteriorTable)));
    assert_eq!(parse_page_type(&[10]), Ok((&[][..], PageType::LeafIndex)));
    assert_eq!(parse_page_type(&[13]), Ok((&[][..], PageType::LeafTable)));
    assert_eq!(parse_page_type(&[0]), Err(Error::UnknownPageType { offset: 0 }));
    assert_eq!(parse_page_type(&[0x53]), Err(Error::UnknownPageType { offset: 0 }));
    assert_eq!(parse_page_type(&[]), Err(Error::Truncated { offset: 0 }));
}

#[test]
fn page_header_of_a_leaf() {
    let input = [13, 0x00, 0x10, 0x00, 0x03, 0x0f, 0x20, 7, 0xee];
    assert_eq!(
        parse_page_header(&input),
        Ok((
            &[0xee][..],
            PageHeader {
                page_type: PageType::LeafTable,
                first_freeblock_offset: 16,
                number_of_cells: 3,
                cell_content_area_offset: 0x0f20,
                fragmented_free_bytes: 7,
                right_most_pointer: None,
            }
        ))
    );
}

#[test]
fn page_header_of_an_interior_page() {
    let input = [2, 0, 0, 0x01, 0x00, 0, 9, 0, 0x00, 0x00, 0x01, 0x02, 0xee];
    assert_eq!(
        parse_page_header(&input),
        Ok((
            &[0xee][..],
            PageHeader {
                page_type: PageType::InteriorIndex,
                first_freeblock_offset: 0,
                number_of_cells: 256,
                cell_content_area_offset: 9,
                fragmented_free_bytes: 0,
                right_most_pointer: Some(258),
            }
        ))
    );
}

#[test]
fn page_header_failures() {
    assert_eq!(parse_page_header(&[]).err(), Some(Error::Truncated { offset: 0 }));
    assert_eq!(parse_page_header(&[1, 0, 0, 0, 0, 0, 0, 0]).err(), Some(Error::UnknownPageType { offset: 0 }));
    assert_eq!(parse_page_header(&[13, 0, 0, 0, 0, 0, 0]).err(), Some(Error::Truncated { offset: 0 }));
    assert_eq!(parse_page_header(&[5, 0, 0, 0, 0, 0, 0, 0, 0, 0, 0]).err(), Some(Error::Truncated { offset: 0 }));
}

#[test]
fn cell_pointers() {
    let input = [0x01, 0x00, 0x00, 0xff, 0xaa];
    assert_eq!(parse_cell_pointers(&input, 2), Ok((&[0xaa][..], vec![256, 255])));
    assert_eq!(parse_cell_pointers(&input, 0), Ok((&input[..], vec![])));
    assert_eq!(parse_cell_pointers(&input, 3), Err(Error::Truncated { offset: 0 }));
}

#[test]
fn overflow_never() {
    assert!(!does_overflow(0, 0));
    assert!(!does_overflow(4096, 100_000));
}

#[test]
fn cell_of_each_kind() {
    let values = vec![Data::Text("x".to_string()), Data::Integer(9)];
    let record = encode_record(&values).unwrap();

    let mut input = leaf_table_cell(300, &values);
    input.push(0xee);
    assert_eq!(
        parse_cell(&input, PageType::LeafTable),
        Ok((
            &[0xee][..],
            Cell::TableLeaf(TableLeafCell { row_id: 300, payload: values.clone(), overflow_page: None })
        ))
    );

    let input = [0, 0, 0, 7, 0x81, 0x00, 0xee];
    assert_eq!(
        parse_cell(&input, PageType::InteriorTable),
        Ok((&[0xee][..], Cell::TableInterior(TableInteriorCell { left_child_page: 7, row_id: 128 })))
    );

    let mut input = vec![record.len() as u8];
    input.extend(record.clone());
    input.push(0xee);
    assert_eq!(
        parse_cell(&input, PageType::LeafIndex),
        Ok((&[0xee][..], Cell::IndexLeaf(IndexLeafCell { payload: values.clone(), overflow_page: None })))
    );

    let mut input = vec![0, 0, 1, 0, record.len() as u8];
    input.extend(record.clone());
    input.push(0xee);
    assert_eq!(
        parse_cell(&input, PageType::InteriorIndex),
        Ok((
            &[0xee][..],
            Cell::IndexInterior(IndexInteriorCell {
                left_child_page: 256,
                payload: values.clone(),
                overflow_page: None
            })
        ))
    );
}

#[test]
fn cell_failures() {
    assert_eq!(parse_cell(&[], PageType::LeafTable).err(), Some(Error::Truncated { offset: 0 }));
    assert_eq!(parse_cell(&[5], PageType::LeafTable).err(), Some(Error::Truncated { offset: 1 }));
    // The payload is longer than what is left.
    assert_eq!(parse_cell(&[5, 1, 2, 1], PageType::LeafTable).err(), Some(Error::Truncated { offset: 2 }));
    // A payload size of nine bytes is negative.
    let mut negative = vec![0xff; 9];
    negative.push(1);
    assert_eq!(parse_cell(&negative, PageType::LeafTable).err(), Some(Error::Truncated { offset: 10 }));
    // Errors of the record count from the start of the cell.
    assert_eq!(parse_cell(&[2, 1, 2, 10], PageType::LeafTable).err(), Some(Error::ReservedSerialType { offset: 2 }));
    assert_eq!(parse_cell(&[3, 1, 2, 15, 0xff], PageType::LeafTable).err(), Some(Error::InvalidUtf8 { offset: 4 }));
    assert_eq!(parse_cell(&[0, 0, 0], PageType::InteriorTable).err(), Some(Error::Truncated { offset: 0 }));
    assert_eq!(parse_cell(&[0, 0, 0, 1], PageType::InteriorTable).err(), Some(Error::Truncated { offset: 4 }));
    assert_eq!(parse_cell(&[0, 0, 0, 1, 0x80], PageType::InteriorIndex).err(), Some(Error::Truncated { offset: 4 }));
    assert_eq!(parse_cell(&[0, 0, 0, 1, 3, 1], PageType::InteriorIndex).err(), Some(Error::Truncated { offset: 5 }));
    assert_eq!(parse_cell(&[4, 1], PageType::LeafIndex).err(), Some(Error::Truncated { offset: 1 }));
}

fn leaf_page(cells: &[Vec<u8>], size: usize, base: usize) -> Vec<u8> {
    let mut page = vec![0u8; size];
    page[base] = 13;
    page[base + 3..base + 5].copy_from_slice(&(cells.len() as u16).to_be_bytes());
    let mut end = size;
    for (i, cell) in cells.iter().enumerate() {
        end -= cell.len();
        page[end..end + cell.len()].copy_from_slice(cell);
        let at = base + 8 + 2 * i;
        page[at..at + 2].copy_from_slice(&(end as u16).to_be_bytes());
    }
    page[base + 5..base + 7].copy_from_slice(&(end as u16).to_be_bytes());
    page
}

#[test]
fn page_cells_in_pointer_order() {
    let a = vec![Data::Text("a".to_string())];
    let b = vec![Data::Text("b".to_string()), Data::Null];
    let cells = vec![leaf_table_cell(1, &a), leaf_table_cell(2, &b)];
    let mut input = leaf_page(&cells, 512, 0);
    // Exchange the two pointers: the cells come in pointer order.
    let first = [input[8], input[9]];
    input[8] = input[10];
    input[9] = input[11];
    input[10] = first[0];
    input[11] = first[1];
    let (rest, page) = parse_page(&input, false).unwrap();
    assert_eq!(rest.len(), 512 - 12);
    assert_eq!(page.header.page_type, PageType::LeafTable);
    assert_eq!(page.header.number_of_cells, 2);
    assert_eq!(
        page.values,
        vec![
            PageValue::LeafTable { payload: b.clone(), rowid: 2 },
            PageValue::LeafTable { payload: a.clone(), rowid: 1 },
        ]
    );
    assert_eq!(page.values[0].get_payload(), Some(&b));
    assert_eq!(page.values[0].duplicate(), page.values[0]);
}

#[test]
fn first_page_header_follows_the_file_header() {
    let a = vec![Data::Integer(5)];
    let cells = vec![leaf_table_cell(1, &a)];
    let mut input = leaf_page(&cells, 512, 100);
    input[..100].copy_from_slice(&file_header(512));
    let (_, page) = parse_page(&input, true).unwrap();
    assert_eq!(page.values, vec![PageValue::LeafTable { payload: a, rowid: 1 }]);
    // Read as any other page, the file header is no page header.
    assert_eq!(parse_page(&input, false).err(), Some(Error::UnknownPageType { offset: 0 }));
    assert_eq!(parse_page(&input[..99], true).err(), Some(Error::Truncated { offset: 0 }));
    assert_eq!(parse_page(&input[..100], true).err(), Some(Error::Truncated { offset: 100 }));
    assert_eq!(parse_page(&input[..109], true).err(), Some(Error::Truncated { offset: 108 }));
}

#[test]
fn page_failures_count_from_the_start_of_the_page() {
    let a = vec![Data::Text("abc".to_string())];
    let cells = vec![leaf_table_cell(1, &a), leaf_table_cell(2, &a)];
    let good = leaf_page(&cells, 512, 0);
    let second = u16::from_be_bytes([good[10], good[11]]) as usize;

    let mut input = good.clone();
    input[0] = 4;
    assert_eq!(parse_page(&input, false).err(), Some(Error::UnknownPageType { offset: 0 }));

    // A pointer into the pointer array, and one past the end.
    let mut input = good.clone();
    input[10..12].copy_from_slice(&11u16.to_be_bytes());
    assert_eq!(parse_page(&input, false).err(), Some(Error::MisplacedCell { offset: 10 }));
    let mut input = good.clone();
    input[8..10].copy_from_slice(&512u16.to_be_bytes());
    assert_eq!(parse_page(&input, false).err(), Some(Error::MisplacedCell { offset: 8 }));
    // The first cell place that is allowed, where nothing decodes.
    let mut input = good.clone();
    input[8..10].copy_from_slice(&12u16.to_be_bytes());
    input[12] = 0x87;
    input[13] = 0x68;
    input[14] = 1;
    assert_eq!(parse_page(&input, false).err(), Some(Error::Truncated { offset: 15 }));

    // The text of the second cell is no UTF-8: payload size, row id, header
    // size and serial type come before it.
    let mut input = good.clone();
    input[second + 4] = 0xff;
    assert_eq!(parse_page(&input, false).err(), Some(Error::InvalidUtf8 { offset: second + 4 }));
    let mut input = good.clone();
    input[second + 3] = 11;
    assert_eq!(parse_page(&input, false).err(), Some(Error::ReservedSerialType { offset: second + 2 }));

    // More pointers than fit.
    let mut input = vec![13u8, 0, 0, 0, 3, 0, 0, 0, 0, 20, 0, 20, 0];
    input.resize(13, 0);
    assert_eq!(parse_page(&input, false).err(), Some(Error::Truncated { offset: 8 }));
}

#[test]
fn page_without_cells() {
    let input = leaf_page(&[], 512, 0);
    let (_, page) = parse_page(&input, false).unwrap();
    assert_eq!(page.values, vec![]);
}

#[test]
fn cell_pointers_lie_within_the_page() {
    let cells = vec![
        leaf_table_cell(1, &vec![Data::Text("first".to_string())]),
        leaf_table_cell(2, &vec![Data::Null, Data::Integer(70000)]),
        leaf_table_cell(3, &vec![Data::Blob(vec![1, 2, 3])]),
    ];
    for (base, first) in [(0usize, false), (100, true)] {
        let mut input = leaf_page(&cells, 512, base);
        input[..base].copy_from_slice(&file_header(512)[..base]);
        let (_, page) = parse_page(&input, first).unwrap();
        let (after_header, header) = parse_page_header(&input[base..]).unwrap();
        let (_, pointers) = parse_cell_pointers(after_header, header.number_of_cells).unwrap();
        assert_eq!(pointers.len(), 3);
        assert_eq!(page.values.len(), 3);
        let floor = base + 8 + 2 * pointers.len();
        for (i, p) in pointers.iter().enumerate() {
            let p = *p as usize;
            assert!(floor <= p && p < input.len());
            let (rest, cell) = parse_cell(&input[p..], header.page_type).unwrap();
            let used = input.len() - p - rest.len();
            assert_eq!(used, cells[i].len());
            assert!(p + used <= input.len());
            assert_eq!(cell.into_value(), page.values[i]);
        }
    }
}
