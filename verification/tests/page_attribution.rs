use openqbw::page_attribution::AttributionGap;
use openqbw::{PageAttribution, SysTableEntry};

fn entry(tid: u32, name: &str, root: Option<u32>, last: Option<u32>) -> SysTableEntry {
    SysTableEntry {
        table_id: tid,
        name: name.to_owned(),
        magic: [0; 4],
        col_count: None,
        data_root_page: root,
        last_page: last,
        page_number: 0,
        row_offset: 0,
    }
}

fn group<'a>(groups: &'a [(String, Vec<u64>)], name: &str) -> Option<&'a Vec<u64>> {
    groups.iter().find(|(n, _)| n == name).map(|(_, pages)| pages)
}

#[test]
fn empty_catalog_returns_none() {
    let attr = PageAttribution::from_catalog(vec![]);
    assert!(attr.is_empty());
    assert!(attr.attribute(123).is_none());
    assert_eq!(attr.gap(), Some(AttributionGap::NoCatalogRows));
}

#[test]
fn all_zero_roots_reports_distinct_gap() {
    let attr = PageAttribution::from_catalog(vec![
        entry(1, "a", None, None),
        entry(2, "b", Some(0), None),
    ]);
    assert!(attr.is_empty());
    assert_eq!(attr.gap(), Some(AttributionGap::AllRootsZeroed));
}

#[test]
fn usable_roots_report_no_gap() {
    let attr = PageAttribution::from_catalog(vec![entry(1, "a", Some(100), Some(200))]);
    assert_eq!(attr.gap(), None);
}

#[test]
fn skips_entries_without_root() {
    let attr = PageAttribution::from_catalog(vec![
        entry(1, "a", None, None),
        entry(2, "b", Some(0), None),
        entry(3, "c", Some(100), Some(200)),
    ]);
    assert_eq!(attr.len(), 1);
    assert_eq!(attr.attribute(150).unwrap().name, "c");
}

#[test]
fn picks_nearest_lower_root() {
    let attr = PageAttribution::from_catalog(vec![
        entry(1, "alpha", Some(100), Some(200)),
        entry(2, "beta", Some(300), Some(400)),
        entry(3, "gamma", Some(500), Some(600)),
    ]);
    assert!(attr.attribute(50).is_none());
    assert_eq!(attr.attribute(100).unwrap().name, "alpha");
    assert_eq!(attr.attribute(150).unwrap().name, "alpha");
    assert!(attr.attribute(250).is_none());
    assert_eq!(attr.attribute(300).unwrap().name, "beta");
    assert_eq!(attr.attribute(550).unwrap().name, "gamma");
    assert!(attr.attribute(700).is_none());
}

#[test]
fn missing_last_page_extends_indefinitely() {
    let attr = PageAttribution::from_catalog(vec![
        entry(1, "alpha", Some(100), None),
        entry(2, "beta", Some(500), Some(600)),
    ]);
    assert_eq!(attr.attribute(400).unwrap().name, "alpha");
    assert!(attr.attribute(700).is_none());
}

#[test]
fn group_pages_buckets_correctly() {
    let attr = PageAttribution::from_catalog(vec![
        entry(1, "alpha", Some(100), Some(200)),
        entry(2, "beta", Some(300), Some(400)),
    ]);
    let groups = attr.group_pages(vec![50u64, 150, 250, 350, 500]);
    assert_eq!(group(&groups, "alpha").unwrap(), &vec![150]);
    assert_eq!(group(&groups, "beta").unwrap(), &vec![350]);
    assert_eq!(group(&groups, "").unwrap(), &vec![50, 250, 500]);
}

#[test]
fn group_pages_orders_groups_by_name() {
    let attr = PageAttribution::from_catalog(vec![
        entry(1, "beta", Some(100), Some(200)),
        entry(2, "alpha", Some(300), Some(400)),
    ]);
    let groups = attr.group_pages(vec![350u64, 150, 999, 160]);
    let names: Vec<&str> = groups.iter().map(|(n, _)| n.as_str()).collect();
    assert_eq!(names, vec!["", "alpha", "beta"]);
    assert_eq!(group(&groups, "beta").unwrap(), &vec![150, 160]);
}

#[test]
fn equal_roots_keep_catalog_order_and_last_one_wins() {
    // Two rows share a root: the later catalog row is the nearest lower root.
    let attr = PageAttribution::from_catalog(vec![
        entry(1, "first", Some(100), None),
        entry(2, "second", Some(100), None),
    ]);
    let names: Vec<&str> = attr.entries().iter().map(|e| e.name.as_str()).collect();
    assert_eq!(names, vec!["first", "second"]);
    assert_eq!(attr.attribute(120).unwrap().name, "second");
}

#[test]
fn last_page_below_root_is_ignored() {
    let attr = PageAttribution::from_catalog(vec![entry(1, "odd", Some(300), Some(10))]);
    assert_eq!(attr.attribute(5000).unwrap().name, "odd");
}

#[test]
fn page_numbers_above_32_bits_are_compared_in_full() {
    let attr = PageAttribution::from_catalog(vec![entry(1, "t", Some(100), Some(200))]);
    assert!(attr.attribute((1u64 << 32) + 150).is_none());
    let open = PageAttribution::from_catalog(vec![
        entry(1, "t", Some(100), Some(200)),
        entry(2, "u", Some(300), None),
    ]);
    assert_eq!(open.attribute((1u64 << 32) + 150).unwrap().name, "u");
}

#[test]
fn groups_together_hold_every_input_page() {
    let attr = PageAttribution::from_catalog(vec![
        entry(1, "alpha", Some(100), Some(200)),
        entry(2, "beta", Some(300), Some(400)),
    ]);
    let pages = vec![350u64, 50, 150, 350, 250, 150, 999];
    let groups = attr.group_pages(pages.clone());
    let mut all: Vec<u64> = groups.iter().flat_map(|(_, p)| p.iter().copied()).collect();
    let mut input = pages;
    all.sort();
    input.sort();
    assert_eq!(all, input);
}
