use openqbw::transaction_header::{
    is_header_table, scan_page, HEADER_DATA_END, HEADER_PREFIX, HEADER_QB_ID_LEN,
};
use openqbw::TransactionHeader;

const PAGE_DATA_END: usize = HEADER_DATA_END;
const QB_ID_LEN: usize = HEADER_QB_ID_LEN;

#[test]
fn txn_type_strips_prefix_and_suffix() {
    let h = TransactionHeader {
        qb_id: "0000000000001QBm".into(),
        source_table: "abmc_invoice_header".into(),
        txn_date_raw: None,
        counter: None,
        page_number: 0,
        page_offset: 0,
    };
    assert_eq!(h.txn_type(), "invoice");
}

#[test]
fn txn_type_compound_name() {
    let h = TransactionHeader {
        qb_id: "0000000000001QBm".into(),
        source_table: "abmc_general_journal_header".into(),
        txn_date_raw: None,
        counter: None,
        page_number: 0,
        page_offset: 0,
    };
    assert_eq!(h.txn_type(), "general_journal");
}

#[test]
fn txn_type_keeps_names_without_prefix_or_suffix() {
    let h = TransactionHeader {
        qb_id: "0000000000001QBm".into(),
        source_table: "bill".into(),
        txn_date_raw: None,
        counter: None,
        page_number: 0,
        page_offset: 0,
    };
    assert_eq!(h.txn_type(), "bill");
}

#[test]
fn is_header_table_recognises_suffix() {
    assert!(is_header_table("abmc_invoice_header"));
    assert!(is_header_table("abmc_bill_header"));
    assert!(!is_header_table("abmc_invoice_lineitem"));
    assert!(!is_header_table("SYSTABLE"));
}

#[test]
fn scan_page_finds_synthetic_header() {
    let mut body = vec![0xAAu8; PAGE_DATA_END];
    let anchor = 64;
    body[anchor..anchor + 3].copy_from_slice(&HEADER_PREFIX);
    body[anchor + 3..anchor + 3 + QB_ID_LEN].copy_from_slice(b"0000000000001QBm");
    let after = anchor + 3 + QB_ID_LEN;
    body[after..after + 4].copy_from_slice(&15511u32.to_le_bytes());
    body[after + 4..after + 8].copy_from_slice(&12671u32.to_le_bytes());

    let mut out = Vec::new();
    scan_page(&body, 3628, "abmc_invoice_header", &mut out);
    assert_eq!(out.len(), 1);
    assert_eq!(out[0].qb_id, "0000000000001QBm");
    assert_eq!(out[0].source_table, "abmc_invoice_header");
    assert_eq!(out[0].txn_date_raw, Some(15511));
    assert_eq!(out[0].counter, Some(12671));
    assert_eq!(out[0].page_offset, anchor);
}

#[test]
fn scan_page_rejects_non_base62_qbid() {
    let mut body = vec![0xAAu8; PAGE_DATA_END];
    let anchor = 64;
    body[anchor..anchor + 3].copy_from_slice(&HEADER_PREFIX);
    body[anchor + 3..anchor + 3 + QB_ID_LEN].copy_from_slice(b"0000000000001QB!");
    let mut out = Vec::new();
    scan_page(&body, 3628, "abmc_invoice_header", &mut out);
    assert!(out.is_empty());
}

#[test]
fn scan_page_advances_past_match() {
    let mut body = vec![0u8; PAGE_DATA_END];
    let first = 16;
    body[first..first + 3].copy_from_slice(&HEADER_PREFIX);
    body[first + 3..first + 3 + QB_ID_LEN].copy_from_slice(b"0000000000001QBm");
    let second = first + 3 + QB_ID_LEN;
    body[second..second + 3].copy_from_slice(&HEADER_PREFIX);
    body[second + 3..second + 3 + QB_ID_LEN].copy_from_slice(b"0000000000001QBn");
    let mut out = Vec::new();
    scan_page(&body, 3628, "abmc_invoice_header", &mut out);
    assert_eq!(out.len(), 2);
    assert_eq!(out[0].qb_id, "0000000000001QBm");
    assert_eq!(out[1].qb_id, "0000000000001QBn");
}

#[test]
fn scan_page_rejects_implausible_date_counter() {
    let mut body = vec![0u8; PAGE_DATA_END];
    let anchor = 64;
    body[anchor..anchor + 3].copy_from_slice(&HEADER_PREFIX);
    body[anchor + 3..anchor + 3 + QB_ID_LEN].copy_from_slice(b"0000000000001QBm");
    let after = anchor + 3 + QB_ID_LEN;
    // Date out of range: no pair is reported.
    body[after..after + 4].copy_from_slice(&25_000u32.to_le_bytes());
    body[after + 4..after + 8].copy_from_slice(&5u32.to_le_bytes());
    let mut out = Vec::new();
    scan_page(&body, 1, "abmc_bill_header", &mut out);
    assert_eq!(out.len(), 1);
    assert_eq!(out[0].txn_date_raw, None);
    assert_eq!(out[0].counter, None);
}
