//! Tests of the storage engine: slotted pages, row encoding, page bookkeeping
//! and the system catalog.

use basalt_db::storage::catalog::{
    append_page_rows, find_table, first_placement, next_placement, page_rows,
    place_row_in_new_page, place_row_in_page, plan_create_table, read_tables, tables_from_rows,
    Placement,
};
use basalt_db::storage::slotted_page::HEADER_SIZE;
use basalt_db::storage::{
    deserialize, serialize, ColumnDef, ColumnType, Page, PageAllocator, PageId, SlottedPage,
    Value, PAGE_SIZE,
};
use basalt_db::Error;

fn new_page() -> SlottedPage {
    SlottedPage::new(Page::new(PageId(0)))
}

fn columns() -> Vec<ColumnDef> {
    vec![
        ColumnDef::new("a", ColumnType::Integer, false),
        ColumnDef::new("b", ColumnType::Varchar, true),
    ]
}

// ---------------------------------------------------------------------------
// Slotted pages
// ---------------------------------------------------------------------------

#[test]
fn empty_page_starts_with_zero_slots_and_full_free_space() {
    let sp = new_page();
    assert_eq!(sp.num_slots(), 0);
    assert_eq!(sp.free_space(), PAGE_SIZE - HEADER_SIZE);
}

#[test]
fn inserting_reclaims_free_space_exactly() {
    let mut sp = new_page();
    let free_before = sp.free_space();
    sp.insert_record(b"four").unwrap();
    // 4 data bytes + 2 prefix + 2 slot.
    assert_eq!(sp.free_space(), free_before - 8);
}

#[test]
fn records_do_not_overlap() {
    let mut sp = new_page();
    let a = sp.insert_record(b"aaaa").unwrap();
    let b = sp.insert_record(b"bbbbbb").unwrap();
    assert_eq!(sp.get_record(a).unwrap(), b"aaaa");
    assert_eq!(sp.get_record(b).unwrap(), b"bbbbbb");
}

#[test]
fn deleted_slot_does_not_affect_others() {
    let mut sp = new_page();
    let a = sp.insert_record(b"keep").unwrap();
    let b = sp.insert_record(b"drop").unwrap();
    sp.delete_record(b).unwrap();
    assert!(sp.is_deleted(b));
    assert!(!sp.is_deleted(a));
    assert_eq!(sp.get_record(a).unwrap(), b"keep");
}

#[test]
fn corrupted_magic_is_detected() {
    let mut page = Page::new(PageId(0));
    page.as_bytes_mut().fill(0xAB);
    assert!(SlottedPage::from_page(page).is_err());
}

#[test]
fn round_trip_through_page_bytes() {
    let mut sp = new_page();
    sp.insert_record(b"first").unwrap();
    sp.insert_record(b"second record").unwrap();

    let page = sp.into_page();
    let reloaded = SlottedPage::from_page(page).unwrap();
    assert_eq!(reloaded.num_slots(), 2);
    assert_eq!(reloaded.get_record(1).unwrap(), b"second record");
}

#[test]
fn new_page_header_is_exact() {
    let sp = SlottedPage::new(Page::new(PageId(7)));
    let page = sp.into_page();
    let b = page.as_bytes();
    assert_eq!(&b[0..4], &[0xBA, 0x5A, 0x5D, 0x70]);
    assert_eq!(&b[4..8], &[0, 0, 0, 7]);
    assert_eq!(&b[8..10], &[0, 0]);
    assert_eq!(&b[10..12], &[0, 16]);
    assert_eq!(&b[12..14], &[0x10, 0x00]);
}

#[test]
fn record_is_stored_at_the_end_with_its_length() {
    let mut sp = new_page();
    let slot = sp.insert_record(b"xyz").unwrap();
    assert_eq!(slot, 0);
    let page = sp.into_page();
    let b = page.as_bytes();
    // The record (2-byte length, then data) ends at the page end; slot 0 points at it.
    assert_eq!(&b[PAGE_SIZE - 5..], &[0, 3, b'x', b'y', b'z']);
    assert_eq!(&b[16..18], &[0x0F, 0xFB]);
    assert_eq!(&b[8..10], &[0, 1]);
}

#[test]
fn full_page_reports_needed_and_free() {
    let mut sp = new_page();
    let big = vec![7u8; PAGE_SIZE - HEADER_SIZE - 4];
    sp.insert_record(&big).unwrap();
    assert_eq!(sp.free_space(), 0);
    assert!(!sp.has_space_for(0));
    match sp.insert_record(b"a") {
        Err(Error::PageFull { needed, free }) => {
            assert_eq!(needed, 5);
            assert_eq!(free, 0);
        }
        other => panic!("expected PageFull, got {other:?}"),
    }
}

#[test]
fn page_follows_a_history_of_inserts_and_deletes() {
    let mut sp = new_page();
    let a = sp.insert_record(b"alpha").unwrap();
    let b = sp.insert_record(b"be").unwrap();
    sp.delete_record(a).unwrap();
    assert!(sp.insert_record(&vec![0u8; PAGE_SIZE]).is_err());
    let c = sp.insert_record(b"").unwrap();
    assert_eq!(sp.num_slots(), 3);
    assert_eq!(sp.free_space(), PAGE_SIZE - HEADER_SIZE - (5 + 4) - (2 + 4) - 4);
    assert!(sp.is_deleted(a) && !sp.is_deleted(b) && !sp.is_deleted(c));
    assert_eq!(sp.get_record(b).unwrap(), b"be");
    assert_eq!(sp.get_record(c).unwrap(), b"");
    assert_eq!(sp.page_id(), PageId(0));
}

#[test]
fn unknown_slot_is_invalid() {
    let mut sp = new_page();
    assert!(matches!(sp.get_record(0), Err(Error::InvalidSlot(0))));
    assert!(matches!(sp.delete_record(3), Err(Error::InvalidSlot(3))));
    assert!(!sp.is_deleted(3));
}

#[test]
fn deleted_record_cannot_be_read() {
    let mut sp = new_page();
    let a = sp.insert_record(b"gone").unwrap();
    sp.delete_record(a).unwrap();
    assert!(sp.get_record(a).is_err());
    assert_eq!(sp.num_slots(), 1);
}

#[test]
fn wrong_page_id_in_header_is_corrupt() {
    let sp = SlottedPage::new(Page::new(PageId(3)));
    let mut page = sp.into_page();
    page.id = PageId(4);
    match SlottedPage::from_page(page) {
        Err(Error::Corrupt(m)) => assert_eq!(m, "page 4: header claims page 3"),
        Err(other) => panic!("expected Corrupt, got {other:?}"),
        Ok(_) => panic!("expected Corrupt, got a page"),
    }
}

#[test]
fn zeroed_page_is_empty() {
    let page = Page::new(PageId(0));
    assert!(SlottedPage::is_empty_page(&page));
    let sp = SlottedPage::new(Page::new(PageId(0)));
    assert!(!SlottedPage::is_empty_page(&sp.into_page()));
    let mut page = Page::new(PageId(0));
    page.as_bytes_mut()[4] = 1;
    assert!(!SlottedPage::is_empty_page(&page));
}

// ---------------------------------------------------------------------------
// Rows
// ---------------------------------------------------------------------------

#[test]
fn null_bitmap_flags_exact_null_positions() {
    // Bitmap length for 9 values is 2 bytes; bits 2 and 8 (0-indexed) set.
    let row = vec![
        Value::Integer(1),
        Value::Integer(2),
        Value::Null,
        Value::Integer(4),
        Value::Integer(5),
        Value::Integer(6),
        Value::Integer(7),
        Value::Integer(8),
        Value::Null,
    ];
    let bytes = serialize(&row);
    assert_eq!(bytes[4 + 2], 0b0000_0100);
    assert_eq!(bytes[4 + 2 + 1], 0b0000_0001);
}

#[test]
fn round_trip_preserves_value_count() {
    let row = vec![Value::Null, Value::Boolean(true), Value::Varchar("x".into())];
    assert_eq!(deserialize(&serialize(&row)).unwrap().len(), 3);
}

#[test]
fn round_trip_preserves_values() {
    let row = vec![
        Value::Integer(-42),
        Value::Varchar("héllo".to_string()),
        Value::Null,
        Value::Boolean(false),
        Value::Integer(i64::MAX),
    ];
    assert_eq!(deserialize(&serialize(&row)).unwrap(), row);
}

#[test]
fn row_encoding_is_exact() {
    let row = vec![Value::Integer(1), Value::Null, Value::Boolean(true)];
    let bytes = serialize(&row);
    let expected: Vec<u8> = vec![
        0, 0, 0, 18, // total length
        0, 3, // value count
        0b0000_0010, // null bitmap
        0x01, 0, 0, 0, 0, 0, 0, 0, 1, // integer 1
        0x03, 1, // boolean true
    ];
    assert_eq!(bytes, expected);
}

#[test]
fn empty_row_round_trips() {
    let row: Vec<Value> = Vec::new();
    let bytes = serialize(&row);
    assert_eq!(bytes, vec![0, 0, 0, 6, 0, 0]);
    assert_eq!(deserialize(&bytes).unwrap(), row);
}

#[test]
fn truncated_row_is_rejected() {
    let bytes = serialize(&[Value::Integer(5)]);
    match deserialize(&bytes[..bytes.len() - 1]) {
        Err(Error::Deserialize(_)) => {}
        other => panic!("expected Deserialize, got {other:?}"),
    }
    assert!(matches!(deserialize(&[0, 0]), Err(Error::Deserialize(_))));
}

#[test]
fn invalid_utf8_text_is_rejected_with_its_description() {
    let bytes = [0, 0, 0, 13, 0, 1, 0, 0x02, 0, 0, 0, 1, 0xFF];
    match deserialize(&bytes) {
        Err(Error::Deserialize(m)) => {
            assert_eq!(m, "invalid UTF-8: invalid utf-8 sequence of 1 bytes from index 0")
        }
        other => panic!("expected Deserialize, got {other:?}"),
    }
}

#[test]
fn unknown_tag_is_rejected() {
    let mut bytes = serialize(&[Value::Boolean(true)]);
    bytes[7] = 0x09;
    assert!(matches!(deserialize(&bytes), Err(Error::Deserialize(_))));
}

// ---------------------------------------------------------------------------
// Heap-file bookkeeping
// ---------------------------------------------------------------------------

#[test]
fn page_count_follows_file_length() {
    let alloc = PageAllocator::for_file_length(2 * PAGE_SIZE as u64).unwrap();
    assert_eq!(alloc.page_count(), 2);
    match PageAllocator::for_file_length(100) {
        Err(Error::Corrupt(m)) => {
            assert_eq!(m, "heap file length 100 is not a multiple of PAGE_SIZE (4096)")
        }
        _ => panic!("expected Corrupt"),
    }
}

#[test]
fn freed_pages_are_reused_last_first() {
    let mut alloc = PageAllocator::new();
    let a = alloc.next_page_id();
    alloc.note_written(a);
    let b = alloc.next_page_id();
    alloc.note_written(b);
    assert_eq!((a, b), (PageId(0), PageId(1)));
    assert_eq!(alloc.page_count(), 2);
    alloc.release(PageId(0));
    alloc.release(PageId(1));
    assert_eq!(alloc.next_page_id(), PageId(1));
    assert_eq!(alloc.next_page_id(), PageId(0));
    assert_eq!(alloc.next_page_id(), PageId(2));
    assert_eq!(alloc.page_count(), 2);
}

#[test]
fn page_ids_past_the_end_are_invalid() {
    let mut alloc = PageAllocator::new();
    assert!(matches!(alloc.check_page_id(PageId(0)), Err(Error::InvalidPageId(0))));
    alloc.note_written(PageId(4));
    assert_eq!(alloc.page_count(), 5);
    assert!(alloc.check_page_id(PageId(4)).is_ok());
    assert!(matches!(alloc.check_page_id(PageId(5)), Err(Error::InvalidPageId(5))));
}

// ---------------------------------------------------------------------------
// Catalog
// ---------------------------------------------------------------------------

/// Stores `row` in the first page with room, or in a new page, step by step.
fn store_row(pages: &mut Vec<Page>, row: &[Value]) {
    let encoded = serialize(row);
    let count = pages.len() as u32;
    let mut step = first_placement(count);
    loop {
        match step {
            Placement::Try(id) => {
                let page = copy_page(&pages[id.0 as usize]);
                step = next_placement(page, count, &encoded).unwrap();
            }
            Placement::Write(page) => {
                let at = page.id.0 as usize;
                pages[at] = page;
                return;
            }
            Placement::Allocate => {
                let page = place_row_in_new_page(Page::new(PageId(count)), &encoded).unwrap();
                pages.push(page);
                return;
            }
        }
    }
}

/// Reads every live row of `pages`.
fn load_rows(pages: Vec<Page>) -> Vec<Vec<Value>> {
    let mut rows = Vec::new();
    for page in pages {
        append_page_rows(&mut rows, page).unwrap();
    }
    rows
}

fn copy_page(p: &Page) -> Page {
    let mut q = Page::new(p.id);
    q.as_bytes_mut().copy_from_slice(p.as_bytes());
    q
}

fn copy_pages(pages: &[Page]) -> Vec<Page> {
    pages.iter().map(copy_page).collect()
}

#[test]
fn table_ids_increment_from_one() {
    let mut tables: Vec<Page> = Vec::new();
    let existing = read_tables(&load_rows(copy_pages(&tables))).unwrap();
    let first = plan_create_table(&existing, "one", &columns()).unwrap();
    store_row(&mut tables, &first.table_row);
    let existing = read_tables(&load_rows(copy_pages(&tables))).unwrap();
    let second = plan_create_table(&existing, "two", &columns()).unwrap();
    assert_eq!(first.schema.table_id, 1);
    assert_eq!(second.schema.table_id, 2);
}

#[test]
fn type_names_round_trip() {
    for t in [ColumnType::Integer, ColumnType::Varchar, ColumnType::Boolean] {
        assert_eq!(ColumnType::from_name(t.name()), Some(t));
    }
    assert_eq!(ColumnType::from_name("BLOB"), None);
}

#[test]
fn duplicate_table_is_refused() {
    let existing = vec![("one".to_string(), 1u32, 0u32)];
    match plan_create_table(&existing, "one", &columns()) {
        Err(Error::Duplicate(m)) => assert_eq!(m, "table `one` already exists"),
        _ => panic!("expected Duplicate"),
    }
    // The name is refused before any id is computed, even at the largest id.
    let full = vec![("x".to_string(), u32::MAX, 0u32), ("one".to_string(), 1u32, 0u32)];
    assert!(matches!(plan_create_table(&full, "one", &columns()), Err(Error::Duplicate(_))));
}

#[test]
fn new_table_rows_are_exact() {
    let existing = vec![("x".to_string(), 4u32, 0u32), ("y".to_string(), 2u32, 0u32)];
    let planned = plan_create_table(&existing, "people", &columns()).unwrap();
    assert_eq!(
        planned.table_row,
        vec![Value::Integer(5), Value::Varchar("people".to_string()), Value::Integer(0)]
    );
    assert_eq!(planned.column_rows.len(), 2);
    assert_eq!(
        planned.column_rows[1],
        vec![
            Value::Integer(5),
            Value::Integer(2),
            Value::Varchar("b".to_string()),
            Value::Varchar("VARCHAR".to_string()),
            Value::Boolean(true),
        ]
    );
    assert_eq!(planned.schema.columns[0].column_id, 1);
    assert_eq!(planned.schema.columns[0].name, "a");
    assert!(!planned.schema.columns[0].nullable);
}

#[test]
fn catalog_is_read_back_from_pages() {
    let mut tables: Vec<Page> = Vec::new();
    let mut cols: Vec<Page> = Vec::new();
    for name in ["one", "two"] {
        let existing = read_tables(&load_rows(copy_pages(&tables))).unwrap();
        let planned = plan_create_table(&existing, name, &columns()).unwrap();
        store_row(&mut tables, &planned.table_row);
        // Store the columns in reverse order: reading sorts them by column id.
        for row in planned.column_rows.iter().rev() {
            store_row(&mut cols, row);
        }
    }
    let schemas =
        tables_from_rows(&load_rows(copy_pages(&tables)), &load_rows(copy_pages(&cols))).unwrap();
    assert_eq!(schemas.len(), 2);
    assert_eq!(schemas[1].name, "two");
    assert_eq!(schemas[1].table_id, 2);
    let names: Vec<&str> = schemas[1].columns.iter().map(|c| c.name.as_str()).collect();
    assert_eq!(names, vec!["a", "b"]);
    assert_eq!(schemas[1].columns[1].column_type, ColumnType::Varchar);

    let found = find_table(&schemas, "one").unwrap();
    assert_eq!(found.table_id, 1);
    match find_table(&schemas, "three") {
        Err(Error::NotFound(m)) => assert_eq!(m, "table `three`"),
        _ => panic!("expected NotFound"),
    }
}

#[test]
fn malformed_catalog_rows_are_corrupt() {
    let bad = vec![vec![Value::Integer(1)]];
    match read_tables(&bad) {
        Err(Error::Corrupt(m)) => assert_eq!(m, "malformed `_tables` row"),
        _ => panic!("expected Corrupt"),
    }
    let col = vec![vec![
        Value::Integer(1),
        Value::Integer(1),
        Value::Varchar("a".to_string()),
        Value::Varchar("BLOB".to_string()),
        Value::Boolean(true),
    ]];
    match tables_from_rows(&[], &col) {
        Err(Error::Corrupt(m)) => assert_eq!(m, "unknown column type `BLOB`"),
        _ => panic!("expected Corrupt"),
    }
}

#[test]
fn placed_rows_fill_a_page_then_a_new_one() {
    let mut pages: Vec<Page> = Vec::new();
    let row = vec![Value::Varchar("z".repeat(1000))];
    for _ in 0..5 {
        store_row(&mut pages, &row);
    }
    assert_eq!(pages.len(), 2);
    let rows = load_rows(pages);
    assert_eq!(rows.len(), 5);
    assert_eq!(rows[4], row);
}

#[test]
fn placement_starts_at_the_first_page() {
    assert!(matches!(first_placement(0), Placement::Allocate));
    assert!(matches!(first_placement(3), Placement::Try(PageId(0))));
}

#[test]
fn placement_skips_blank_and_full_pages() {
    let small = serialize(&[Value::Integer(7)]);
    // A zeroed page holds nothing: try the next page, or grow the file.
    assert!(matches!(
        next_placement(Page::new(PageId(0)), 2, &small).unwrap(),
        Placement::Try(PageId(1))
    ));
    assert!(matches!(
        next_placement(Page::new(PageId(1)), 2, &small).unwrap(),
        Placement::Allocate
    ));
    // A page with room takes the row.
    let page = SlottedPage::new(Page::new(PageId(0))).into_page();
    match next_placement(page, 2, &small).unwrap() {
        Placement::Write(p) => {
            assert_eq!(p.id, PageId(0));
            assert_eq!(page_rows(p).unwrap(), vec![vec![Value::Integer(7)]]);
        }
        _ => panic!("expected Write"),
    }
    // A page without room passes the row on.
    let big = serialize(&[Value::Varchar("z".repeat(3000))]);
    let mut sp = SlottedPage::new(Page::new(PageId(0)));
    sp.insert_record(&big).unwrap();
    assert!(matches!(
        next_placement(sp.into_page(), 2, &big).unwrap(),
        Placement::Try(PageId(1))
    ));
}

#[test]
fn placement_rejects_a_corrupt_page() {
    let mut page = Page::new(PageId(0));
    page.as_bytes_mut()[0] = 0x42;
    let small = serialize(&[Value::Integer(7)]);
    assert!(matches!(next_placement(page, 1, &small), Err(Error::Corrupt(_))));
}

#[test]
fn page_rows_are_appended_in_page_order() {
    let mut first = SlottedPage::new(Page::new(PageId(0)));
    first.insert_record(&serialize(&[Value::Integer(1)])).unwrap();
    let mut second = SlottedPage::new(Page::new(PageId(1)));
    second.insert_record(&serialize(&[Value::Integer(2)])).unwrap();
    second.insert_record(&serialize(&[Value::Integer(3)])).unwrap();
    let mut rows = vec![vec![Value::Boolean(true)]];
    append_page_rows(&mut rows, first.into_page()).unwrap();
    append_page_rows(&mut rows, Page::new(PageId(5))).unwrap();
    append_page_rows(&mut rows, second.into_page()).unwrap();
    assert_eq!(
        rows,
        vec![
            vec![Value::Boolean(true)],
            vec![Value::Integer(1)],
            vec![Value::Integer(2)],
            vec![Value::Integer(3)],
        ]
    );
    let mut bad = Page::new(PageId(0));
    bad.as_bytes_mut()[0] = 0x42;
    assert!(matches!(append_page_rows(&mut rows, bad), Err(Error::Corrupt(_))));
    assert_eq!(rows.len(), 4);
}

#[test]
fn small_row_fills_an_earlier_page() {
    let mut pages: Vec<Page> = Vec::new();
    let big = vec![Value::Varchar("z".repeat(3000))];
    let small = vec![Value::Integer(1)];
    store_row(&mut pages, &big);
    store_row(&mut pages, &big);
    store_row(&mut pages, &small);
    assert_eq!(pages.len(), 2);
    let rows = load_rows(pages);
    assert_eq!(rows, vec![big.clone(), small, big]);
}

// ---------------------------------------------------------------------------
// Error messages
// ---------------------------------------------------------------------------

#[test]
fn error_messages_are_exact() {
    assert_eq!(Error::InvalidPageId(9).to_message(), "invalid page id: 9");
    assert_eq!(
        Error::PageFull { needed: 12, free: 3 }.to_message(),
        "page full: need 12 bytes, only 3 available"
    );
    assert_eq!(Error::InvalidSlot(2).to_message(), "invalid slot id: 2");
    assert_eq!(Error::NotFound("x".to_string()).to_message(), "not found: x");
    assert_eq!(Error::Syntax("s".to_string()).to_message(), "syntax: s");
    let io = Error::Io(std::io::Error::new(std::io::ErrorKind::Other, "disk"));
    assert_eq!(io.to_message(), "I/O error: disk");
    let from: Error = std::io::Error::new(std::io::ErrorKind::Other, "x").into();
    assert!(matches!(from, Error::Io(_)));
    assert_eq!(from.source().unwrap().to_string(), "x");
    assert!(Error::InvalidSlot(1).source().is_none());
}
