use openqbw::syscolumn::{find_name_before, parse_rows_in_body, SYSCOLUMN_TAG};

/// Build a synthetic SYSCOLUMN row body.
fn synth_row(
    name: &str,
    default: Option<&str>,
    row_id: u32,
    owner: u32,
    col_id: u32,
    nulls: u8,
    domain: u8,
    width: u8,
) -> Vec<u8> {
    let mut v = Vec::new();
    v.push(name.len() as u8);
    v.extend_from_slice(name.as_bytes());
    if let Some(d) = default {
        v.push(d.len() as u8);
        v.extend_from_slice(d.as_bytes());
    }
    v.extend_from_slice(&SYSCOLUMN_TAG);
    v.extend_from_slice(&row_id.to_le_bytes());
    v.extend_from_slice(&owner.to_le_bytes());
    v.extend_from_slice(&col_id.to_le_bytes());
    v.push(nulls);
    v.push(0x00);
    v.push(0x01);
    v.push(domain);
    v.push(width);
    v
}

#[test]
fn parses_single_row_without_default() {
    let body = synth_row("account_id", None, 0x80000001, 3680, 1, 2, b'N', 4);
    let mut out = Vec::new();
    parse_rows_in_body(&body, 42, &mut out);
    assert_eq!(out.len(), 1);
    let c = &out[0];
    assert_eq!(c.name, "account_id");
    assert_eq!(c.owner_object_id, 3680);
    assert_eq!(c.column_id, 1);
    assert_eq!(c.nulls_flag, 2);
    assert_eq!(c.domain_char, b'N');
    assert_eq!(c.width, 4);
    assert_eq!(c.page_number, 42);
}

#[test]
fn parses_multiple_rows_concatenated() {
    let mut body = synth_row("amount_amt", None, 1, 100, 7, 2, b'Y', 8);
    body.extend(synth_row("memo", None, 2, 100, 8, 1, b'Y', 64));
    let mut out = Vec::new();
    parse_rows_in_body(&body, 0, &mut out);
    assert_eq!(out.len(), 2);
    assert_eq!(out[0].name, "amount_amt");
    assert_eq!(out[1].name, "memo");
    assert_eq!(out[1].width, 64);
}

#[test]
fn handles_underscore_and_digits_in_name() {
    let body = synth_row("col_42_xy", None, 0, 5, 1, 0, b'N', 1);
    let mut out = Vec::new();
    parse_rows_in_body(&body, 0, &mut out);
    assert_eq!(out.len(), 1);
    assert_eq!(out[0].name, "col_42_xy");
}

#[test]
fn rejects_bad_marker() {
    let mut body = synth_row("good", None, 0, 1, 1, 0, b'N', 4);
    let mark = body.len() - 3;
    body[mark] = 0x00;
    let mut out = Vec::new();
    parse_rows_in_body(&body, 0, &mut out);
    assert!(out.is_empty());
}

#[test]
fn rejects_non_alpha_domain() {
    let body = synth_row("col", None, 0, 1, 1, 0, 0xFF, 4);
    let mut out = Vec::new();
    parse_rows_in_body(&body, 0, &mut out);
    assert!(out.is_empty());
}

#[test]
fn name_back_walk_skips_into_garbage_prefix() {
    let mut body = vec![0xAA, 0xBB, 0xCC, 0xDD];
    body.extend(synth_row("real_name", None, 0, 1, 1, 0, b'N', 4));
    let mut out = Vec::new();
    parse_rows_in_body(&body, 0, &mut out);
    assert_eq!(out.len(), 1);
    assert_eq!(out[0].name, "real_name");
}

#[test]
fn name_found_across_a_default_value() {
    // A default that is not an identifier is peeled off to reach the name.
    let body = synth_row("status", Some("12"), 0, 9, 3, 0, b'V', 16);
    let tag_pos = 1 + 6 + 1 + 2;
    assert_eq!(find_name_before(&body, tag_pos).as_deref(), Some("status"));
    let mut out = Vec::new();
    parse_rows_in_body(&body, 0, &mut out);
    assert_eq!(out.len(), 1);
    assert_eq!(out[0].name, "status");
    assert_eq!(out[0].tag_offset, tag_pos);
}

#[test]
fn identifier_default_right_before_tag_is_taken_as_name() {
    // The shortest peel wins: an identifier-shaped default shadows the name.
    let body = synth_row("status", Some("OK"), 0, 9, 3, 0, b'V', 16);
    assert_eq!(find_name_before(&body, 1 + 6 + 1 + 2).as_deref(), Some("OK"));
}

#[test]
fn name_must_start_with_letter_or_underscore() {
    let body = synth_row("9lives", None, 0, 1, 1, 0, b'N', 4);
    let mut out = Vec::new();
    parse_rows_in_body(&body, 0, &mut out);
    assert!(out.is_empty());
}
