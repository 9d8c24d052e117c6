use openqbw::{AttributionAgreement, ContentAttribution, RowSignature, SysTableEntry, SIG_LEN};

#[test]
fn signature_truncates_long_row() {
    let row = vec![1u8; 64];
    let s = RowSignature::from_row(&row);
    assert_eq!(s.as_bytes().len(), SIG_LEN);
    assert!(s.as_bytes().iter().all(|&b| b == 1));
}

#[test]
fn signature_handles_short_row() {
    let row = vec![0xAB, 0xCD, 0xEF];
    let s = RowSignature::from_row(&row);
    assert_eq!(s.as_bytes(), &[0xAB, 0xCD, 0xEF]);
}

#[test]
fn signature_hex_format() {
    let s = RowSignature::from_row(&[0x00, 0x0E, 0xFF]);
    assert_eq!(s.to_hex(), "00 0e ff");
}

#[test]
fn agreement_total_sums_components() {
    let a = AttributionAgreement {
        agree: 5,
        disagree: 2,
        only_position: 1,
        only_content: 3,
        neither: 4,
    };
    assert_eq!(a.total(), 15);
}

#[test]
fn signature_of_empty_row_is_empty_and_hex_is_empty() {
    let s = RowSignature::from_row(&[]);
    assert!(s.as_bytes().is_empty());
    assert_eq!(s.to_hex(), "");
}

fn entry(tid: u32, name: &str, root: Option<u32>) -> SysTableEntry {
    SysTableEntry {
        table_id: tid,
        name: name.to_owned(),
        magic: [0; 4],
        col_count: None,
        data_root_page: root,
        last_page: None,
        page_number: 0,
        row_offset: 0,
    }
}

#[test]
fn from_signatures_keeps_unique_counts_shared_and_skipped() {
    let rows = vec![
        entry(1, "a", Some(10)),
        entry(2, "b", Some(20)),
        entry(3, "c", Some(30)),
        entry(4, "d", None),
        entry(5, "e", Some(50)),
    ];
    let sigs = vec![
        Some(RowSignature::from_row(&[1, 2, 3])),
        Some(RowSignature::from_row(&[9, 9])),
        Some(RowSignature::from_row(&[9, 9])),
        None,
        Some(RowSignature::from_row(&[7])),
    ];
    let ca = ContentAttribution::from_signatures(rows, sigs);
    assert_eq!(ca.len(), 2);
    assert!(!ca.is_empty());
    assert_eq!(ca.ambiguous_count(), 1);
    assert_eq!(ca.skipped_count(), 1);
    assert_eq!(ca.lookup(&RowSignature::from_row(&[1, 2, 3])).unwrap().name, "a");
    assert_eq!(ca.lookup(&RowSignature::from_row(&[7])).unwrap().name, "e");
    assert!(ca.lookup(&RowSignature::from_row(&[9, 9])).is_none());
    assert!(ca.lookup(&RowSignature::from_row(&[4])).is_none());
}
