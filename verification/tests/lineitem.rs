use openqbw::lineitem::{
    is_base62, scan_page, ANCHOR_LEN, F32_ONE, PAGE_DATA_END, PARENT_PREFIX, QB_ID_LEN,
};
use openqbw::{AmountType, LineItem};

#[test]
fn amount_type_classification() {
    assert_eq!(AmountType::from_byte(0x00), AmountType::Placeholder);
    assert_eq!(AmountType::from_byte(0x01), AmountType::OneByteOne);
    assert_eq!(AmountType::from_byte(0x02), AmountType::Standard);
    assert_eq!(AmountType::from_byte(0x03), AmountType::Deferred);
    assert_eq!(AmountType::from_byte(0x42), AmountType::Other(0x42));
}

#[test]
fn cents_decoding_known_record() {
    let raw = [0x02, 0x40, 0x0F, 0x04];
    let t = AmountType::from_byte(raw[0]);
    assert_eq!(t.decode_cents(&raw), Some(266_048));
}

#[test]
fn type_03_no_cents() {
    let raw = [0x03, 0xBF, 0x5F, 0x63];
    let t = AmountType::from_byte(raw[0]);
    assert_eq!(t.decode_cents(&raw), None);
}

#[test]
fn base62_check() {
    assert!(is_base62(b"0000000000001QBm"));
    assert!(!is_base62(b"0000000000001QB!"));
    assert!(!is_base62(b"0000000000001 QB"));
}

#[test]
fn scan_page_finds_synthetic_anchor() {
    let mut body = vec![0xAAu8; PAGE_DATA_END];
    let anchor_offset = 32;
    body[anchor_offset..anchor_offset + 5].copy_from_slice(&PARENT_PREFIX);
    body[anchor_offset + 5..anchor_offset + 5 + QB_ID_LEN].copy_from_slice(b"0000000000001QBm");
    body[anchor_offset + 5 + QB_ID_LEN..anchor_offset + ANCHOR_LEN].copy_from_slice(&F32_ONE);
    body[anchor_offset + ANCHOR_LEN..anchor_offset + ANCHOR_LEN + 4].copy_from_slice(&[0x02, 0x40, 0x0F, 0x04]);
    body[anchor_offset + ANCHOR_LEN + 8..anchor_offset + ANCHOR_LEN + 12].copy_from_slice(&15511u32.to_le_bytes());
    body[anchor_offset + ANCHOR_LEN + 12..anchor_offset + ANCHOR_LEN + 16].copy_from_slice(&12671u32.to_le_bytes());

    let mut out = Vec::new();
    scan_page(&body, 3679, &mut out);
    assert_eq!(out.len(), 1);
    let li = &out[0];
    assert_eq!(li.invoice_id, "0000000000001QBm");
    assert_eq!(li.amount_type, AmountType::Standard);
    assert_eq!(li.amount_cents, Some(266_048));
    assert_eq!(li.txn_date_raw, Some(15511));
    assert_eq!(li.counter, Some(12671));
}

fn plain_item(date: Option<u32>) -> LineItem {
    LineItem {
        invoice_id: "0000000000001QBm".to_string(),
        page_number: 1,
        page_offset: 0,
        item_qb_id: None,
        amount_type: AmountType::Placeholder,
        amount_cents: None,
        amount_raw: [0; 4],
        txn_date_raw: date,
        counter: None,
    }
}

#[test]
fn txn_date_converts_plausible_dates_only() {
    assert_eq!(plain_item(Some(15511)).txn_date_days_since_unix(), Some(15511 - 4017));
    assert_eq!(plain_item(Some(0)).txn_date_days_since_unix(), None);
    assert_eq!(plain_item(Some(30_000)).txn_date_days_since_unix(), None);
    assert_eq!(plain_item(Some(29_999)).txn_date_days_since_unix(), Some(29_999 - 4017));
    assert_eq!(plain_item(None).txn_date_days_since_unix(), None);
}

#[test]
fn one_byte_one_decodes_cents_and_other_types_do_not() {
    let raw = [0x01, 0x10, 0x27, 0x00];
    assert_eq!(AmountType::OneByteOne.decode_cents(&raw), Some(10_000));
    assert_eq!(AmountType::Placeholder.decode_cents(&raw), None);
    assert_eq!(AmountType::Other(0x42).decode_cents(&raw), None);
}

#[test]
fn scan_page_reads_item_id_before_anchor_and_keeps_order() {
    let mut body = vec![0u8; PAGE_DATA_END];
    // Item QB-ID `04 00 10 <16 base62>` ahead of the first anchor.
    body[10..13].copy_from_slice(&[0x04, 0x00, 0x10]);
    body[13..29].copy_from_slice(b"ITEM000000000001");
    let first = 40;
    let second = 200;
    for (off, id) in [(first, b"AAAAAAAAAAAAAAAA"), (second, b"BBBBBBBBBBBBBBBB")] {
        body[off..off + 5].copy_from_slice(&PARENT_PREFIX);
        body[off + 5..off + 21].copy_from_slice(id);
        body[off + 21..off + 25].copy_from_slice(&F32_ONE);
    }
    let mut out = Vec::new();
    scan_page(&body, 7, &mut out);
    assert_eq!(out.len(), 2);
    assert_eq!(out[0].invoice_id, "AAAAAAAAAAAAAAAA");
    assert_eq!(out[0].page_offset, first);
    assert_eq!(out[0].item_qb_id.as_deref(), Some("ITEM000000000001"));
    assert_eq!(out[0].amount_type, AmountType::Placeholder);
    assert_eq!(out[1].invoice_id, "BBBBBBBBBBBBBBBB");
    assert_eq!(out[1].page_number, 7);
    assert_eq!(out[1].item_qb_id, None);
}

#[test]
fn scan_page_short_body_finds_nothing() {
    let mut out = Vec::new();
    scan_page(&[0u8; 24], 1, &mut out);
    assert!(out.is_empty());
}
