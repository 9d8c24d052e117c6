use openqbw::page_attribution::PageAttribution;
use openqbw::sysindex::{
    classify, scan_page, AuditOutcome, CrossValidation, SysIndexEntry, SYSINDEX_CREATOR,
};
use openqbw::SysTableEntry;

/// Build a synthetic SYSINDEX row preamble + name.
fn synth_row(tid: u32, root: u32, name: &str) -> Vec<u8> {
    let mut v = Vec::new();
    v.extend_from_slice(&[0x00, 0x00]);
    v.extend_from_slice(&SYSINDEX_CREATOR);
    v.extend_from_slice(&root.to_le_bytes());
    v.extend_from_slice(&[0x00, 0x00, 0x00, 0x00]);
    v.extend_from_slice(&tid.to_le_bytes());
    v.extend_from_slice(&[0x00, 0x00, 0x00, 0x00]);
    v.push(name.len() as u8);
    v.extend_from_slice(name.as_bytes());
    v
}

fn table(tid: u32, name: &str, root: u32, last: u32) -> SysTableEntry {
    SysTableEntry {
        table_id: tid,
        name: name.into(),
        magic: [0; 4],
        col_count: None,
        data_root_page: Some(root),
        last_page: Some(last),
        page_number: 0,
        row_offset: 0,
    }
}

#[test]
fn sysindex_scan_finds_single_row() {
    let mut body = vec![0u8; 0x200];
    let row = synth_row(5887, 8418, "fkey_invoice_customer");
    body[0x40..0x40 + row.len()].copy_from_slice(&row);
    let mut out = Vec::new();
    scan_page(&body, 99, &mut out);
    assert_eq!(out.len(), 1);
    let e = &out[0];
    assert_eq!(e.table_id, 5887);
    assert_eq!(e.root_page, 8418);
    assert_eq!(e.name, "fkey_invoice_customer");
    assert_eq!(e.page_number, 99);
    assert_eq!(e.row_offset, 0x40);
    assert!(e.is_foreign_key());
}

#[test]
fn scan_rejects_zero_root_or_zero_tid() {
    let mut body = vec![0u8; 0x100];
    let row = synth_row(0, 100, "bogus");
    body[0..row.len()].copy_from_slice(&row);
    let mut out = Vec::new();
    scan_page(&body, 0, &mut out);
    assert!(out.is_empty());

    let mut body2 = vec![0u8; 0x100];
    let row2 = synth_row(5, 0, "bogus2");
    body2[0..row2.len()].copy_from_slice(&row2);
    let mut out2 = Vec::new();
    scan_page(&body2, 0, &mut out2);
    assert!(out2.is_empty());
}

#[test]
fn sysindex_scan_rejects_non_ascii_name() {
    let mut body = vec![0u8; 0x100];
    let mut row = synth_row(5, 100, "x");
    let last = row.len() - 1;
    row[last] = 0x01;
    body[0..row.len()].copy_from_slice(&row);
    let mut out = Vec::new();
    scan_page(&body, 0, &mut out);
    assert!(out.is_empty());
}

#[test]
fn scan_emits_multiple_back_to_back() {
    let mut body = vec![0u8; 0x300];
    let r1 = synth_row(1, 100, "pk_a");
    let r2 = synth_row(2, 200, "fkey_b_a");
    body[0x10..0x10 + r1.len()].copy_from_slice(&r1);
    body[0x80..0x80 + r2.len()].copy_from_slice(&r2);
    let mut out = Vec::new();
    scan_page(&body, 1, &mut out);
    assert_eq!(out.len(), 2);
    assert_eq!(out[0].name, "pk_a");
    assert_eq!(out[1].name, "fkey_b_a");
    assert!(!out[0].is_foreign_key());
    assert!(out[1].is_foreign_key());
}

#[test]
fn cross_validation_agree_disagree_missing_orphan() {
    let tables = vec![table(10, "alpha", 100, 200), table(20, "beta", 300, 400)];
    let position = PageAttribution::from_catalog(tables.clone());
    let entry = |tid: u32, root: u32, name: &str| SysIndexEntry {
        table_id: tid,
        root_page: root,
        name: name.into(),
        page_number: 0,
        row_offset: 0,
    };
    let entries = vec![
        entry(10, 150, "pk"),
        entry(10, 350, "fkey_x"),
        entry(20, 500, "pk"),
        entry(99, 150, "pk"),
        entry(10, 150, "pk"),
    ];
    let v = CrossValidation::run(&entries, &position, &tables);
    assert_eq!(v.total, 5);
    assert_eq!(v.distinct_roots, 4);
    assert_eq!(v.agree, 1);
    assert_eq!(v.disagree, 1);
    assert_eq!(v.missing, 1);
    assert_eq!(v.orphan_index, 1);
    let resolvable = v.agree + v.disagree + v.missing;
    assert_eq!(resolvable, 3);
    let (agree, all) = v.agreement_ratio();
    assert!((agree as f64 / all as f64 - 1.0 / 3.0).abs() < 1e-9);
    assert_eq!(v.disagree_samples.len(), 1);
    let (tid, sn, pn, root, idx) = &v.disagree_samples[0];
    assert_eq!(*tid, 10);
    assert_eq!(sn, "alpha");
    assert_eq!(pn, "beta");
    assert_eq!(*root, 350);
    assert_eq!(idx, "fkey_x");
}

#[test]
fn classify_orphan_when_table_unknown_even_with_position() {
    assert_eq!(classify(None, Some("alpha")), AuditOutcome::OrphanIndex);
    assert_eq!(classify(None, None), AuditOutcome::OrphanIndex);
}

#[test]
fn classify_agree_disagree_missing() {
    assert_eq!(classify(Some("alpha"), Some("alpha")), AuditOutcome::Agree);
    assert_eq!(classify(Some("alpha"), Some("beta")), AuditOutcome::Disagree);
    assert_eq!(classify(Some("alpha"), None), AuditOutcome::Missing);
}

#[test]
fn disagreement_samples_are_capped() {
    let tables = vec![table(10, "alpha", 100, 200), table(20, "beta", 300, 400)];
    let position = PageAttribution::from_catalog(tables.clone());
    let entries: Vec<SysIndexEntry> = (0..20u32)
        .map(|i| SysIndexEntry {
            table_id: 10,
            root_page: 300 + i,
            name: format!("ix_{i}"),
            page_number: 0,
            row_offset: 0,
        })
        .collect();
    let v = CrossValidation::run(&entries, &position, &tables);
    assert_eq!(v.disagree, 20);
    assert_eq!(v.disagree_samples.len(), 16);
    assert_eq!(v.disagree_samples[15].3, 315);
}
