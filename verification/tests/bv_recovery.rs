use openqbw::bv_recovery::{PAGE, SECTOR, SECTORS, TRAILER_START};
use openqbw::{deobfuscate_with_bv, recover_bv_any, recover_bv_apage, recover_bv_brute, APAGE_MAGIC};

/// Build a synthetic encoded page with known bv, step, and scattered
/// non-zero plaintext content.
fn synth_page(pn: u64, bv: u8, step_per_sec: [u8; SECTORS]) -> ([u8; PAGE], Vec<u8>) {
    let p16 = (pn % 16) as u8;
    let bias = p16 / 2 * 4;
    let mut plain = vec![0u8; PAGE];
    for i in (64..TRAILER_START).step_by(37) {
        plain[i] = ((i as u32 * 13) & 0xFF) as u8;
    }
    plain[TRAILER_START] = 0x04;
    plain[TRAILER_START + 1] = 0x00;
    plain[TRAILER_START + 2] = 0x45;

    let mut stored = [0u8; PAGE];
    stored[TRAILER_START..].copy_from_slice(&plain[TRAILER_START..]);
    for si in 0..SECTORS {
        let off = si * SECTOR;
        let end = if si == SECTORS - 1 { TRAILER_START } else { off + SECTOR };
        let step = step_per_sec[si];
        let base = bv.wrapping_add(pn as u8).wrapping_add(si as u8).wrapping_sub(bias);
        for i in off..end {
            let idx = (i - off) as u8;
            stored[i] = plain[i].wrapping_add(base).wrapping_add(idx.wrapping_mul(step));
        }
    }
    (stored, plain)
}

#[test]
fn brute_recovers_known_bv_zero_dominant() {
    let pn = 1234u64;
    let bv = 0x5a;
    let steps = [0x11u8, 0x22, 0x33, 0x44, 0x55, 0x66, 0x77, 0x88];
    let (raw, plain) = synth_page(pn, bv, steps);
    let recovered = recover_bv_brute(pn, &raw).expect("brute returns Some");
    assert_eq!(recovered, bv, "brute should recover the true bv");
    let decoded = deobfuscate_with_bv(&raw, pn, recovered);
    assert_eq!(&decoded[..TRAILER_START], &plain[..TRAILER_START]);
}

#[test]
fn brute_rejects_random_page() {
    let mut raw = [0u8; PAGE];
    let mut x = 0x9e3779b9u32;
    for b in raw.iter_mut() {
        x = x.wrapping_mul(0x85ebca6b).wrapping_add(1);
        *b = (x >> 24) as u8;
    }
    let _ = recover_bv_brute(42, &raw);
}

#[test]
fn recover_bv_any_prefers_qb_anchor_when_present() {
    let pn = 77u64;
    let p16 = (pn % 16) as u8;
    let bias = p16 / 2 * 4;
    let bv = 0xa3u8;
    let mut plain = vec![0u8; PAGE];
    plain[TRAILER_START] = 0x07;
    plain[0x100] = 0x07;
    plain[0x101] = 0x00;
    plain[0x102] = 0xD5;
    plain[0x103] = 0x0B;
    let mut raw = [0u8; PAGE];
    raw[TRAILER_START..].copy_from_slice(&plain[TRAILER_START..]);
    for si in 0..SECTORS {
        let off = si * SECTOR;
        let end = if si == SECTORS - 1 { TRAILER_START } else { off + SECTOR };
        let base = bv.wrapping_add(pn as u8).wrapping_add(si as u8).wrapping_sub(bias);
        for i in off..end {
            raw[i] = plain[i].wrapping_add(base);
        }
    }
    let recovered = recover_bv_any(pn, &raw).expect("some bv");
    assert_eq!(recovered, bv);
}

/// Encode a synthetic A-page: zero step per sector, magic at
/// `magic_offset`, sprinkled non-zero bytes.
fn synth_apage(pn: u64, bv: u8, magic_offset: usize) -> [u8; PAGE] {
    let p16 = (pn % 16) as u8;
    let bias = p16 / 2 * 4;
    let mut plain = vec![0u8; PAGE];
    for i in 0..TRAILER_START {
        if i % 28 == 0 {
            plain[i] = 0x60;
        } else if i % 28 == 1 {
            plain[i] = 0x80;
        }
    }
    plain[magic_offset..magic_offset + APAGE_MAGIC.len()].copy_from_slice(&APAGE_MAGIC);
    plain[TRAILER_START] = 0x05;
    plain[TRAILER_START + 1] = 0x00;
    plain[TRAILER_START + 2] = 0x41;

    let mut stored = [0u8; PAGE];
    stored[TRAILER_START..].copy_from_slice(&plain[TRAILER_START..]);
    for si in 0..SECTORS {
        let off = si * SECTOR;
        let end = if si == SECTORS - 1 { TRAILER_START } else { off + SECTOR };
        let base = bv.wrapping_add(pn as u8).wrapping_add(si as u8).wrapping_sub(bias);
        for i in off..end {
            stored[i] = plain[i].wrapping_add(base);
        }
    }
    stored
}

#[test]
fn apage_recovers_known_bv() {
    let pn = 3599u64;
    let bv = 66u8;
    let raw = synth_apage(pn, bv, 0xC4);
    let recovered = recover_bv_apage(pn, &raw).expect("apage returns Some");
    assert_eq!(recovered, bv);
}

#[test]
fn apage_handles_magic_near_sector_boundary() {
    let pn = 3620u64;
    let bv = 244u8;
    let raw = synth_apage(pn, bv, 0x1FE);
    let recovered = recover_bv_apage(pn, &raw).expect("apage returns Some");
    assert_eq!(recovered, bv);
}

#[test]
fn apage_returns_none_when_magic_absent() {
    let mut raw = [0u8; PAGE];
    let mut x = 0xDEADBEEFu32;
    for b in raw.iter_mut() {
        x = x.wrapping_mul(0x85ebca6b).wrapping_add(1);
        *b = (x >> 24) as u8;
    }
    assert!(recover_bv_apage(123, &raw).is_none());
}

#[test]
fn apage_rejects_wrong_size() {
    let raw = [0u8; PAGE - 1];
    assert!(recover_bv_apage(1, &raw).is_none());
}

#[test]
fn apage_magic_constant_unchanged() {
    assert_eq!(APAGE_MAGIC, [0x24, 0x04, 0x31, 0x00, 0xB4, 0x02, 0x19, 0x00]);
}
