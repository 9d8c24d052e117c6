use openqbw::systable::{COL_COUNT_OFF, DATA_ROOT_OFF, LAST_PAGE_OFF};
use openqbw::{scan_systable_page as scan_page, SysTableEntry};

/// Build a minimal SYSTABLE row: tag + name, no trailer.
fn synth_row(tid: u32, magic: [u8; 4], name: &str) -> Vec<u8> {
    let mut out = Vec::new();
    out.extend_from_slice(&[0x05, 0x00, 0x00, 0x00]);
    out.extend_from_slice(&tid.to_le_bytes());
    out.extend_from_slice(&[0x00, 0x00, 0x00, 0x00]);
    out.extend_from_slice(&magic);
    out.extend_from_slice(&[0x00, 0x00, 0x00, 0x00]);
    out.push(name.len() as u8);
    out.extend_from_slice(name.as_bytes());
    out
}

#[test]
fn systable_scan_finds_single_row() {
    let mut body = vec![0u8; 0x100];
    let row = synth_row(5887, [0xb1, 0x0d, 0x19, 0x0d], "abmc_invoice_header");
    body[0x20..0x20 + row.len()].copy_from_slice(&row);
    let mut out: Vec<SysTableEntry> = Vec::new();
    scan_page(&body, 42, &mut out);
    assert_eq!(out.len(), 1);
    let e = &out[0];
    assert_eq!(e.table_id, 5887);
    assert_eq!(e.name, "abmc_invoice_header");
    assert_eq!(e.magic, [0xb1, 0x0d, 0x19, 0x0d]);
    assert_eq!(e.page_number, 42);
    assert_eq!(e.row_offset, 0x20);
}

#[test]
fn scan_finds_multiple_rows_with_different_magic() {
    let mut body = vec![0u8; 0x400];
    let r1 = synth_row(100, [0xb1, 0x0d, 0x19, 0x0d], "alpha_table");
    let r2 = synth_row(200, [0x59, 0x2a, 0x16, 0x0d], "beta_table");
    body[0x20..0x20 + r1.len()].copy_from_slice(&r1);
    let r2_off = 0x20 + r1.len() + 16;
    body[r2_off..r2_off + r2.len()].copy_from_slice(&r2);
    let mut out = Vec::new();
    scan_page(&body, 1, &mut out);
    assert_eq!(out.len(), 2);
    assert_eq!(out[0].name, "alpha_table");
    assert_eq!(out[1].name, "beta_table");
    assert_eq!(out[1].magic, [0x59, 0x2a, 0x16, 0x0d]);
}

#[test]
fn scan_rejects_implausible_name_len() {
    let mut body = vec![0u8; 0x100];
    let mut row = synth_row(1, [0; 4], "abcd");
    row[20] = 0;
    body[0x20..0x20 + row.len()].copy_from_slice(&row);
    let mut out = Vec::new();
    scan_page(&body, 0, &mut out);
    assert!(out.is_empty());

    let mut row = synth_row(1, [0; 4], "abcd");
    row[20] = 100;
    body[0x40..0x40 + row.len()].copy_from_slice(&row);
    let mut out = Vec::new();
    scan_page(&body, 0, &mut out);
    assert!(out.is_empty());
}

#[test]
fn systable_scan_rejects_non_ascii_name() {
    let mut body = vec![0u8; 0x100];
    let mut row = synth_row(7, [0; 4], "abcd");
    let name_off = 21;
    row[name_off] = 0xff;
    body[0x10..0x10 + row.len()].copy_from_slice(&row);
    let mut out = Vec::new();
    scan_page(&body, 0, &mut out);
    assert!(out.is_empty());
}

#[test]
fn scan_extracts_trailer_fields() {
    let mut body = vec![0u8; 0x200];
    let row = synth_row(5887, [0xb1, 0x0d, 0x19, 0x0d], "abmc_invoice_header");
    let row_off = 0x20;
    body[row_off..row_off + row.len()].copy_from_slice(&row);
    let trailer_start = row_off + row.len();
    body[trailer_start + COL_COUNT_OFF] = 20;
    body[trailer_start + DATA_ROOT_OFF..trailer_start + DATA_ROOT_OFF + 4].copy_from_slice(&3628u32.to_le_bytes());
    body[trailer_start + LAST_PAGE_OFF..trailer_start + LAST_PAGE_OFF + 4].copy_from_slice(&3072u32.to_le_bytes());
    let mut out = Vec::new();
    scan_page(&body, 0, &mut out);
    assert_eq!(out.len(), 1);
    let e = &out[0];
    assert_eq!(e.col_count, Some(20));
    assert_eq!(e.data_root_page, Some(3628));
    assert_eq!(e.last_page, Some(3072));
}

#[test]
fn scan_skips_trailer_region() {
    let mut body = vec![0u8; 0x1000];
    let row = synth_row(99, [0; 4], "trail_table");
    let row_off = 0xFF8;
    if row_off + row.len() <= body.len() {
        body[row_off..row_off + row.len()].copy_from_slice(&row);
    }
    let mut out = Vec::new();
    scan_page(&body, 0, &mut out);
    assert!(out.is_empty());
}

#[test]
fn scan_stops_at_tag_without_room_for_name_length() {
    // A tag whose name-length byte would fall past the searched region
    // ends the scan.
    let mut body = vec![0u8; 24];
    let row = synth_row(3, [0; 4], "abcd");
    body[0x04..0x04 + 20].copy_from_slice(&row[..20]);
    let mut out = Vec::new();
    scan_page(&body, 0, &mut out);
    assert!(out.is_empty());
}

#[test]
fn short_trailer_leaves_fields_unknown() {
    let mut body = vec![0u8; 0x40];
    let row = synth_row(5, [1, 2, 3, 4], "tbl_one");
    body[0..row.len()].copy_from_slice(&row);
    let mut out = Vec::new();
    scan_page(&body, 9, &mut out);
    assert_eq!(out.len(), 1);
    assert_eq!(out[0].table_id, 5);
    // 0x40 - 28 = 36 trailer bytes: the column count fits, the pages do not.
    assert_eq!(out[0].col_count, Some(0));
    assert_eq!(out[0].data_root_page, None);
    assert_eq!(out[0].last_page, None);
}

#[test]
fn unique_by_key_keeps_first_sighting_ordered_by_id_then_name() {
    let row = |tid: u32, name: &str, pn: u64| SysTableEntry {
        table_id: tid,
        name: name.to_string(),
        magic: [0; 4],
        col_count: None,
        data_root_page: None,
        last_page: None,
        page_number: pn,
        row_offset: 0,
    };
    let rows = vec![
        row(7, "beta", 1),
        row(3, "zeta", 2),
        row(7, "alpha", 3),
        row(7, "beta", 4),
        row(3, "zeta", 5),
    ];
    let out = openqbw::catalog::unique_by_key(rows);
    let keys: Vec<(u32, &str, u64)> = out.iter().map(|e| (e.table_id, e.name.as_str(), e.page_number)).collect();
    assert_eq!(keys, vec![(3, "zeta", 2), (7, "alpha", 3), (7, "beta", 1)]);
}
