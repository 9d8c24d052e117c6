use openqbw::probe::{
    byte_histogram, find_meta, is_zero_rich, longest_run, looks_decoded, profile_decoded, rescue_bv,
    run_bucket, top_bytes,
};
use openqbw::deobfuscate_with_bv;

#[test]
fn histogram_counts_every_byte() {
    let h = byte_histogram(&[1, 1, 0, 255, 1]);
    assert_eq!(h.len(), 256);
    assert_eq!(h[1], 3);
    assert_eq!(h[0], 1);
    assert_eq!(h[255], 1);
    assert_eq!(h[2], 0);
}

#[test]
fn top_bytes_orders_by_count_then_byte() {
    let top = top_bytes(&[5, 5, 3, 3, 9, 7, 7, 7], 3);
    assert_eq!(top, vec![(7, 3), (3, 2), (5, 2)]);
    assert_eq!(top_bytes(&[1], 0), vec![]);
    assert_eq!(top_bytes(&[1], 1000).len(), 256);
}

#[test]
fn longest_run_finds_the_longest() {
    assert_eq!(longest_run(&[]), 0);
    assert_eq!(longest_run(&[4]), 1);
    assert_eq!(longest_run(&[1, 1, 2, 2, 2, 1, 1]), 3);
    assert_eq!(longest_run(&[0; 40]), 40);
}

#[test]
fn run_buckets_are_powers_of_two() {
    assert_eq!(run_bucket(0), 0);
    assert_eq!(run_bucket(3), 0);
    assert_eq!(run_bucket(4), 4);
    assert_eq!(run_bucket(15), 8);
    assert_eq!(run_bucket(16), 16);
    assert_eq!(run_bucket(255), 128);
    assert_eq!(run_bucket(256), 256);
    assert_eq!(run_bucket(100_000), 256);
}

#[test]
fn plaintext_heuristics() {
    let mut page = vec![0xAAu8; 4096];
    assert!(!looks_decoded(&page));
    for b in page.iter_mut().take(204) {
        *b = 0;
    }
    assert!(looks_decoded(&page));
    assert!(is_zero_rich(&page));
    let mut spaces = vec![0x20u8; 4096];
    for (i, b) in spaces.iter_mut().enumerate().take(0xFF0) {
        if i % 2 == 0 {
            *b = (0x41 + (i % 26)) as u8;
        }
    }
    assert!(looks_decoded(&spaces));
    assert!(!is_zero_rich(&spaces));
}

#[test]
fn find_meta_matches_marker_and_page_number() {
    let mut plain = vec![0u8; 4096];
    plain[100..104].copy_from_slice(&77u32.to_le_bytes());
    plain[124] = 0xD5;
    plain[125] = 0x0B;
    plain[106] = 0x34;
    plain[107] = 0x12;
    plain[114] = 0xFE;
    assert_eq!(find_meta(&plain, 77), Some(100));
    assert_eq!(find_meta(&plain, 78), None);
    assert_eq!(find_meta(&plain[..20], 77), None);
    let p = profile_decoded(&plain, 77, b'E');
    assert!(p.found);
    assert_eq!(p.page_type, b'E');
    assert_eq!(p.v06_07, 0x1234);
    assert_eq!(p.v14, 0xFE);
    assert_eq!(p.header16, [0u8; 16]);
}

/// A stored page whose plaintext is mostly zero, encoded with `bv`.
fn synth_page(pn: u64, bv: u8) -> Vec<u8> {
    let p16 = (pn % 16) as u8;
    let bias = p16 / 2 * 4;
    let mut plain = vec![0u8; 4096];
    for i in (64..0xFF0).step_by(37) {
        plain[i] = ((i as u32 * 13) & 0xFF) as u8;
    }
    let mut stored = vec![0u8; 4096];
    for si in 0..8usize {
        let off = si * 512;
        let end = if si == 7 { 0xFF0 } else { off + 512 };
        let step = 0x11u8.wrapping_mul(si as u8 + 1);
        let base = bv.wrapping_add(pn as u8).wrapping_add(si as u8).wrapping_sub(bias);
        for i in off..end {
            let idx = (i - off) as u8;
            stored[i] = plain[i].wrapping_add(base).wrapping_add(idx.wrapping_mul(step));
        }
    }
    stored
}

#[test]
fn rescue_takes_first_sibling_bv_giving_zero_rich_body() {
    let pn = 9u64;
    let bv = 0x5au8;
    let raw = synth_page(pn, bv);
    assert!(is_zero_rich(&deobfuscate_with_bv(&raw, pn, bv)));
    assert!(!is_zero_rich(&deobfuscate_with_bv(&raw, pn, bv ^ 0x40)));
    assert_eq!(rescue_bv(&raw, pn, &[(8, None)]), None);
    assert_eq!(rescue_bv(&raw, pn, &[(8, None), (10, Some(bv ^ 0x40)), (11, Some(bv)), (12, Some(0))]), Some(bv));
    assert_eq!(rescue_bv(&raw, pn, &[(10, Some(bv ^ 0x40))]), None);
}
