use openqbw::bv_recovery::{PAGE, SECTOR, SECTORS, TRAILER_START};
use openqbw::attribution_content::extract_signature;
use openqbw::attribution_schema::median_row_body;
use openqbw::export::{group_line_items, line_item_rows, transaction_rows};
use openqbw::lineitem::{ANCHOR_LEN, F32_ONE, PARENT_PREFIX};
use openqbw::probe::{block_siblings, profile_root, undecodable_pages};
use openqbw::{
    collect_unique, iter_lineitems, iter_syscolumns, iter_systable_entries, recover_bv_any,
    recover_bv_qb_data, ContentAttribution, PageAttribution, SYSCOLUMN_TAG,
};
use opensqlany::{ApModel, PageStore};

/// Encode a plaintext page with `bv` and a per-sector step; the trailer is
/// stored as is.
fn encode(pn: u64, bv: u8, plain: &[u8]) -> Vec<u8> {
    let p16 = (pn % 16) as u8;
    let bias = p16 / 2 * 4;
    let mut stored = plain.to_vec();
    for si in 0..SECTORS {
        let off = si * SECTOR;
        let end = if si == SECTORS - 1 { TRAILER_START } else { off + SECTOR };
        let step = 0x13u8.wrapping_mul(si as u8 + 1);
        let base = bv.wrapping_add(pn as u8).wrapping_add(si as u8).wrapping_sub(bias);
        for i in off..end {
            let idx = (i - off) as u8;
            stored[i] = plain[i].wrapping_add(base).wrapping_add(idx.wrapping_mul(step));
        }
    }
    stored
}

fn with_type(mut page: Vec<u8>, ty: u8) -> Vec<u8> {
    page[TRAILER_START] = 0x04;
    page[TRAILER_START + 2] = ty;
    page
}

fn systable_row(tid: u32, name: &str) -> Vec<u8> {
    let mut out = Vec::new();
    out.extend_from_slice(&[0x05, 0x00, 0x00, 0x00]);
    out.extend_from_slice(&tid.to_le_bytes());
    out.extend_from_slice(&[0x00, 0x00, 0x00, 0x00]);
    out.extend_from_slice(&[0xb1, 0x0d, 0x19, 0x0d]);
    out.extend_from_slice(&[0x00, 0x00, 0x00, 0x00]);
    out.push(name.len() as u8);
    out.extend_from_slice(name.as_bytes());
    out
}

fn store_of(pages: Vec<Vec<u8>>) -> PageStore {
    let mut bytes = Vec::new();
    for p in pages {
        assert_eq!(p.len(), PAGE);
        bytes.extend_from_slice(&p);
    }
    PageStore::from_bytes(bytes).expect("page-aligned store")
}

#[test]
fn catalog_rows_are_read_from_an_encoded_store() {
    let pn = 2u64;
    let bv = 0x5au8;
    let mut plain = vec![0u8; PAGE];
    let row = systable_row(5887, "abmc_invoice_header");
    plain[700..700 + row.len()].copy_from_slice(&row);
    let plain = with_type(plain, b'E');
    let raw = encode(pn, bv, &plain);
    assert_eq!(recover_bv_any(pn, &raw), Some(bv));
    let store = store_of(vec![vec![0u8; PAGE], with_type(vec![0u8; PAGE], b'A'), raw]);
    let model = ApModel::learn(&store);
    let rows = iter_systable_entries(&store, &model);
    assert_eq!(rows.len(), 1);
    assert_eq!(rows[0].table_id, 5887);
    assert_eq!(rows[0].name, "abmc_invoice_header");
    assert_eq!(rows[0].page_number, pn);
    assert_eq!(rows[0].row_offset, 700);
    let unique = collect_unique(&store, &model);
    assert_eq!(unique.len(), 1);
    let attribution = PageAttribution::build(&store, &model);
    assert_eq!(attribution.len(), usize::from(rows[0].data_root_page.unwrap_or(0) > 0));
}

#[test]
fn page_types_drive_siblings_profiles_and_counts() {
    let mut pages: Vec<Vec<u8>> = (0..10).map(|_| vec![0u8; PAGE]).collect();
    pages[3] = with_type(vec![0u8; PAGE], b'E');
    pages[5] = with_type(vec![0u8; PAGE], b'e');
    pages[6] = with_type(vec![0u8; PAGE], b'A');
    pages[9] = with_type(vec![0u8; PAGE], b'q');
    let store = store_of(pages);
    let model = ApModel::learn(&store);

    let sibs: Vec<u64> = block_siblings(&store, 4).iter().map(|(p, _)| *p).collect();
    assert_eq!(sibs, vec![3, 5]);
    let own: Vec<u64> = block_siblings(&store, 3).iter().map(|(p, _)| *p).collect();
    assert_eq!(own, vec![5]);
    assert!(block_siblings(&store, 9).is_empty());
    assert!(block_siblings(&store, 80).is_empty());

    assert_eq!(profile_root(&store, &model, 5).page_type, b'E');
    assert_eq!(profile_root(&store, &model, 6).page_type, b'A');
    assert_eq!(profile_root(&store, &model, 9).page_type, b'q');
    let missing = profile_root(&store, &model, 99);
    assert!(!missing.found);
    assert_eq!(missing.page_type, 0);

    let (total, failed) = undecodable_pages(&store, &model);
    assert_eq!(total, 2);
    assert!(failed.iter().all(|p| *p == 3 || *p == 5));
}

fn put_line_item(plain: &mut [u8], at: usize, parent: &[u8; 16], amount: [u8; 4], date: u32, counter: u32) {
    plain[at..at + 5].copy_from_slice(&PARENT_PREFIX);
    plain[at + 5..at + 21].copy_from_slice(parent);
    plain[at + 21..at + ANCHOR_LEN].copy_from_slice(&F32_ONE);
    plain[at + ANCHOR_LEN..at + ANCHOR_LEN + 4].copy_from_slice(&amount);
    plain[at + ANCHOR_LEN + 8..at + ANCHOR_LEN + 12].copy_from_slice(&date.to_le_bytes());
    plain[at + ANCHOR_LEN + 12..at + ANCHOR_LEN + 16].copy_from_slice(&counter.to_le_bytes());
}

#[test]
fn line_items_of_an_encoded_store_become_one_synthesized_transaction() {
    let pn = 2u64;
    let bv = 0x21u8;
    let mut plain = vec![0u8; PAGE];
    put_line_item(&mut plain, 1100, b"0000000000001QBm", [0x02, 0x40, 0x0F, 0x04], 15511, 12671);
    put_line_item(&mut plain, 1300, b"0000000000001QBm", [0x01, 0x10, 0x00, 0x00], 15511, 12671);
    // The page anchor `[rc, 0, D5, 0B]`, with `rc` the trailer's first byte.
    plain[0x100..0x104].copy_from_slice(&[0x04, 0x00, 0xD5, 0x0B]);
    let plain = with_type(plain, b'E');
    let raw = encode(pn, bv, &plain);
    assert_eq!(recover_bv_qb_data(pn, &raw), Some(bv));
    let store = store_of(vec![vec![0u8; PAGE], with_type(vec![0u8; PAGE], b'A'), raw]);
    let model = ApModel::learn(&store);

    let items = iter_lineitems(&store, &model);
    assert_eq!(items.len(), 2);
    assert_eq!(items[0].page_offset, 1100);
    assert_eq!(items[0].amount_cents, Some(266_048));
    assert_eq!(items[1].amount_cents, Some(16));
    let sources = vec![None, None];
    let groups = group_line_items(&items, &sources);
    assert_eq!(groups.len(), 1);
    assert_eq!(groups[0].total_cents, 266_064);
    let rows = transaction_rows(&[], &groups);
    assert_eq!(rows.len(), 1);
    assert_eq!(rows[0].txn_type, "unknown");
    assert_eq!(rows[0].qb_id, "0000000000001QBm");
    assert_eq!(rows[0].line_count, 2);
    assert_eq!(rows[0].txn_date_raw, Some(15511));
    assert_eq!(rows[0].source_page, pn);
    let lines = line_item_rows(&items, &sources);
    assert_eq!(lines[1].line_number, 2);
    assert_eq!(lines[1].amount_raw_hex, "01100000");
}

/// A plaintext page with a slot directory at `0x40` pointing at eight
/// rows that start at `0x800, 0x900, ..., 0xF00`.
fn slotted_plain() -> Vec<u8> {
    let mut plain = vec![0u8; PAGE];
    for (k, off) in (0..8u16).map(|k| (k, 0xF00 - 0x100 * k)) {
        let at = 0x40 + 2 * k as usize;
        plain[at..at + 2].copy_from_slice(&off.to_le_bytes());
    }
    plain
}

fn syscolumn_row(name: &str, owner: u32, col_id: u32) -> Vec<u8> {
    let mut v = Vec::new();
    v.push(name.len() as u8);
    v.extend_from_slice(name.as_bytes());
    v.extend_from_slice(&SYSCOLUMN_TAG);
    v.extend_from_slice(&0x8000_0001u32.to_le_bytes());
    v.extend_from_slice(&owner.to_le_bytes());
    v.extend_from_slice(&col_id.to_le_bytes());
    v.push(2);
    v.push(0x00);
    v.push(0x01);
    v.push(b'N');
    v.push(4);
    v
}

#[test]
fn slotted_rows_of_an_encoded_store_feed_columns_signatures_and_medians() {
    let pn = 2u64;
    let bv = 0x77u8;
    let mut plain = slotted_plain();
    let row = syscolumn_row("account_id", 3680, 1);
    plain[0x800..0x800 + row.len()].copy_from_slice(&row);
    plain[0x100..0x104].copy_from_slice(&[0x04, 0x00, 0xD5, 0x0B]);
    let plain = with_type(plain, b'E');
    let raw = encode(pn, bv, &plain);
    let store = store_of(vec![vec![0u8; PAGE], with_type(vec![0u8; PAGE], b'A'), raw]);
    let model = ApModel::learn(&store);

    let cols = iter_syscolumns(&store, &model);
    assert_eq!(cols.len(), 1);
    assert_eq!(cols[0].name, "account_id");
    assert_eq!(cols[0].owner_object_id, 3680);
    assert_eq!(cols[0].page_number, pn);

    let sig = extract_signature(&store, &model, pn).expect("page has rows");
    assert_eq!(sig.as_bytes(), &row[..12]);
    assert!(extract_signature(&store, &model, 1).is_none());

    assert_eq!(median_row_body(&store, &model, pn), Some(0x100));
    assert_eq!(median_row_body(&store, &model, 1), None);
    assert_eq!(median_row_body(&store, &model, 50), None);
}

#[test]
fn comparison_counts_cover_every_page() {
    let pn = 2u64;
    let mut plain = vec![0u8; PAGE];
    let row = systable_row(5887, "abmc_invoice_header");
    plain[700..700 + row.len()].copy_from_slice(&row);
    let raw = encode(pn, 0x5a, &with_type(plain, b'E'));
    let store = store_of(vec![vec![0u8; PAGE], with_type(vec![0u8; PAGE], b'A'), raw]);
    let model = ApModel::learn(&store);
    let content = ContentAttribution::build(&store, &model);
    let position = PageAttribution::build(&store, &model);
    let pages = vec![0u64, 1, 2, 2, 77];
    let a = content.compare(&store, &model, &position, pages.clone());
    assert_eq!(a.total(), pages.len() as u64);
}

#[test]
fn catalog_page_without_anchor_and_nonzero_first_byte_is_decoded_by_zero_density() {
    // The first-byte oracle assumes a zero first byte; here it is not, so
    // its guess decodes to a page with too few zeros, and the cascade
    // falls through to the zero-density search, which finds the true bv.
    let pn = 2u64;
    let bv = 0x5au8;
    let mut plain = vec![0u8; PAGE];
    plain[0] = 0x33;
    let row = systable_row(4242, "abmc_customer");
    plain[700..700 + row.len()].copy_from_slice(&row);
    let raw = encode(pn, bv, &with_type(plain, b'E'));
    assert_ne!(openqbw::oracle_bv_e_page(pn, &raw), bv);
    assert_eq!(recover_bv_qb_data(pn, &raw), None);
    assert_eq!(recover_bv_any(pn, &raw), Some(bv));
    let store = store_of(vec![vec![0u8; PAGE], with_type(vec![0u8; PAGE], b'A'), raw]);
    let model = ApModel::learn(&store);
    let rows = iter_systable_entries(&store, &model);
    assert_eq!(rows.len(), 1);
    assert_eq!(rows[0].table_id, 4242);
    assert_eq!(rows[0].name, "abmc_customer");
}
