use openqbw::sysobject::{bridge_of_sightings, looks_like_identifier, scan_objects};
use openqbw::{SysColumn, SysTableEntry};

#[test]
fn identifier_check_basic() {
    assert!(looks_like_identifier(b"abmc_invoice_header"));
    assert!(looks_like_identifier(b"_underscore_lead"));
    assert!(!looks_like_identifier(b""));
    assert!(!looks_like_identifier(b"1starts_digit"));
    assert!(!looks_like_identifier(b"has space"));
    assert!(!looks_like_identifier(b"has-dash"));
}

#[test]
fn bridge_picks_most_voted_name_and_keeps_first_sighting_order() {
    let s: Vec<(u32, String)> = vec![
        (7, "alpha".into()),
        (3, "gamma".into()),
        (7, "beta".into()),
        (7, "beta".into()),
        (3, "delta".into()),
    ];
    let bridge = bridge_of_sightings(&s);
    assert_eq!(bridge, vec![(7, "beta".to_string()), (3, "gamma".to_string())]);
}

fn column(owner: u32) -> SysColumn {
    SysColumn {
        name: "c".to_owned(),
        owner_object_id: owner,
        column_id: 1,
        nulls_flag: 0,
        domain_char: b'I',
        width: 4,
        page_number: 0,
        tag_offset: 0,
    }
}

fn table(name: &str) -> SysTableEntry {
    SysTableEntry {
        table_id: 1,
        name: name.to_owned(),
        magic: [0; 4],
        col_count: None,
        data_root_page: None,
        last_page: None,
        page_number: 0,
        row_offset: 0,
    }
}

fn object_row(oid: u32, name: &str) -> Vec<u8> {
    let mut out = oid.to_le_bytes().to_vec();
    out.extend_from_slice(&[0u8; 20]);
    out.push(name.len() as u8);
    out.extend_from_slice(name.as_bytes());
    out
}

#[test]
fn scan_objects_keeps_known_owner_and_known_name_only() {
    let mut page = vec![0u8; 4096];
    let rows = [
        (40u32, "abmc_invoice"),
        (41u32, "abmc_invoice"),
        (40u32, "abmc_unknown"),
        (40u32, "abmc_customer"),
    ];
    let mut at = 16;
    for (oid, name) in rows {
        let r = object_row(oid, name);
        page[at..at + r.len()].copy_from_slice(&r);
        at += r.len() + 8;
    }
    let cols = vec![column(40)];
    let tables = vec![table("abmc_invoice"), table("abmc_customer")];
    let mut out = Vec::new();
    scan_objects(&page, &cols, &tables, &mut out);
    assert_eq!(out, vec![(40, "abmc_invoice".to_string()), (40, "abmc_customer".to_string())]);
}
