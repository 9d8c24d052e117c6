use openqbw::export::{
    amount_type_byte, group_line_items, invoice_regression_holds, is_system_name, line_item_rows,
    lower_hex, sort_by_table_id, sort_headers_by_position, sort_items_by_position, transaction_rows,
    user_tables, ExportStats,
};
use openqbw::{AmountType, LineItem, SysTableEntry, TransactionHeader};

fn item(parent: &str, page: u64, offset: usize, ty: AmountType, cents: Option<u32>) -> LineItem {
    LineItem {
        invoice_id: parent.to_string(),
        page_number: page,
        page_offset: offset,
        item_qb_id: None,
        amount_type: ty,
        amount_cents: cents,
        amount_raw: [0x02, 0x10, 0x00, 0xff],
        txn_date_raw: None,
        counter: None,
    }
}

fn header(qb: &str, table: &str, page: u64, offset: usize) -> TransactionHeader {
    TransactionHeader {
        qb_id: qb.to_string(),
        source_table: table.to_string(),
        txn_date_raw: Some(15511),
        counter: Some(7),
        page_number: page,
        page_offset: offset,
    }
}

fn table(tid: u32, name: &str) -> SysTableEntry {
    SysTableEntry {
        table_id: tid,
        name: name.to_string(),
        magic: [0; 4],
        col_count: None,
        data_root_page: None,
        last_page: None,
        page_number: 0,
        row_offset: 0,
    }
}

#[test]
fn system_names_are_recognised() {
    assert!(is_system_name("SYSTABLE"));
    assert!(is_system_name("ISYSCOLUMN"));
    assert!(is_system_name("RS_lastcommit"));
    assert!(is_system_name("dbo_x"));
    assert!(!is_system_name("abmc_invoice_header"));
    assert!(!is_system_name("sys_lower"));
}

#[test]
fn amount_type_bytes_round_trip() {
    for b in 0u8..=255 {
        assert_eq!(amount_type_byte(AmountType::from_byte(b)), b as i64);
    }
}

#[test]
fn hex_is_lower_case_without_separator() {
    assert_eq!(lower_hex(&[0x02, 0x10, 0x00, 0xff]), "021000ff");
    assert_eq!(lower_hex(&[]), "");
}

#[test]
fn summary_formats_dollars_with_two_decimals() {
    let s = ExportStats {
        pages: 12,
        transactions: 3,
        headers: 2,
        line_items: 5,
        grand_total_cents: 399_914_792,
    };
    assert_eq!(
        s.summary(),
        "openqbw: pages=12 transactions=3 headers=2 lineitems=5 grand_total=$3999147.92"
    );
    let t = ExportStats { grand_total_cents: 5, ..s };
    assert!(t.summary().ends_with("grand_total=$0.05"));
    let u = ExportStats { grand_total_cents: -1205, ..s };
    assert!(u.summary().ends_with("grand_total=$-12.05"));
}

#[test]
fn regression_needs_both_figures() {
    assert!(invoice_regression_holds(13_375, 39_991_479_278));
    assert!(!invoice_regression_holds(13_374, 39_991_479_278));
    assert!(!invoice_regression_holds(13_375, 0));
}

#[test]
fn sorting_by_position_is_stable() {
    let items = vec![
        item("b", 2, 10, AmountType::Standard, Some(1)),
        item("a", 1, 50, AmountType::Standard, Some(2)),
        item("c", 1, 50, AmountType::Standard, Some(3)),
        item("d", 1, 5, AmountType::Standard, Some(4)),
    ];
    let sorted = sort_items_by_position(items);
    let ids: Vec<&str> = sorted.iter().map(|li| li.invoice_id.as_str()).collect();
    assert_eq!(ids, vec!["d", "a", "c", "b"]);
    let hs = sort_headers_by_position(vec![header("x", "t", 9, 0), header("y", "t", 3, 4)]);
    assert_eq!(hs[0].qb_id, "y");
}

#[test]
fn catalog_listing_sorts_and_filters() {
    let entries = sort_by_table_id(vec![table(9, "abmc_b"), table(1, "SYSTABLE"), table(4, "abmc_a")]);
    let ids: Vec<u32> = entries.iter().map(|e| e.table_id).collect();
    assert_eq!(ids, vec![1, 4, 9]);
    let user = user_tables(&entries);
    let names: Vec<&str> = user.iter().map(|e| e.name.as_str()).collect();
    assert_eq!(names, vec!["abmc_a", "abmc_b"]);
}

#[test]
fn groups_summarise_line_items_by_parent() {
    let mut a1 = item("A", 5, 0, AmountType::Standard, Some(100));
    a1.txn_date_raw = None;
    let mut b1 = item("B", 5, 40, AmountType::Deferred, None);
    b1.counter = Some(9);
    let mut a2 = item("A", 6, 0, AmountType::OneByteOne, Some(250));
    a2.txn_date_raw = Some(15000);
    let items = vec![a1, b1, a2];
    let sources = vec![None, Some("abmc_bill_lineitem".to_string()), Some("abmc_invoice_lineitem".to_string())];
    let groups = group_line_items(&items, &sources);
    assert_eq!(groups.len(), 2);
    assert_eq!(groups[0].qb_id, "A");
    assert_eq!(groups[0].line_count, 2);
    assert_eq!(groups[0].total_cents, 350);
    assert!(!groups[0].has_deferred);
    assert_eq!(groups[0].txn_date_raw, Some(15000));
    assert_eq!(groups[0].source_table.as_deref(), Some("abmc_invoice_lineitem"));
    assert_eq!(groups[0].first_page, 5);
    assert_eq!(groups[1].qb_id, "B");
    assert!(groups[1].has_deferred);
    assert_eq!(groups[1].counter, Some(9));
    let total: i64 = groups.iter().map(|g| g.total_cents).sum();
    let count: u64 = groups.iter().map(|g| g.line_count).sum();
    assert_eq!(total, 350);
    assert_eq!(count, 3);
}

#[test]
fn transaction_rows_keep_first_header_and_synthesize_orphans() {
    let items = vec![
        item("H1", 5, 0, AmountType::Standard, Some(100)),
        item("O1", 5, 40, AmountType::Standard, Some(7)),
        item("H1", 6, 0, AmountType::Standard, Some(50)),
    ];
    let sources = vec![None, Some("abmc_check_lineitem".to_string()), None];
    let groups = group_line_items(&items, &sources);
    let headers = vec![
        header("H1", "abmc_invoice_header", 3, 16),
        header("H2", "abmc_bill_header", 3, 80),
        header("H1", "abmc_general_journal_header", 4, 16),
    ];
    let rows = transaction_rows(&headers, &groups);
    assert_eq!(rows.len(), 3);
    assert_eq!(rows[0].qb_id, "H1");
    assert_eq!(rows[0].txn_type, "invoice");
    assert_eq!(rows[0].line_count, 2);
    assert_eq!(rows[0].total_cents, 150);
    assert_eq!(rows[0].source_page, 3);
    assert_eq!(rows[1].qb_id, "H2");
    assert_eq!(rows[1].txn_type, "bill");
    assert_eq!(rows[1].line_count, 0);
    assert_eq!(rows[1].total_cents, 0);
    assert_eq!(rows[2].qb_id, "O1");
    assert_eq!(rows[2].txn_type, "unknown");
    assert_eq!(rows[2].source_table, "abmc_check_lineitem");
    assert_eq!(rows[2].total_cents, 7);
    assert_eq!(rows[2].source_page, 5);
    let grand: i64 = rows.iter().map(|r| r.total_cents).sum();
    assert_eq!(grand, 157);
}

#[test]
fn line_numbers_count_within_parent_and_source() {
    let items = vec![
        item("A", 1, 0, AmountType::Standard, Some(1)),
        item("A", 1, 10, AmountType::Standard, Some(2)),
        item("A", 1, 20, AmountType::Standard, Some(3)),
        item("B", 1, 30, AmountType::Placeholder, None),
        item("A", 1, 40, AmountType::Other(0x42), None),
    ];
    let sources = vec![
        Some("t1".to_string()),
        Some("t1".to_string()),
        Some("t2".to_string()),
        None,
        Some("t1".to_string()),
    ];
    let rows = line_item_rows(&items, &sources);
    let numbers: Vec<u64> = rows.iter().map(|r| r.line_number).collect();
    assert_eq!(numbers, vec![1, 2, 1, 1, 3]);
    assert_eq!(rows[3].source_table, "");
    assert_eq!(rows[4].amount_type, 0x42);
    assert_eq!(rows[0].amount_raw_hex, "021000ff");
}
