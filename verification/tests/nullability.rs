use openqbw::nullability::{histogram_of, NullsFlagBucket};
use openqbw::SysColumn;

#[test]
fn bucket_fields_round_trip() {
    let b = NullsFlagBucket {
        flag: 0x18,
        count: 42,
        sample_columns: vec!["is_build".into(), "is_receipt".into()],
    };
    assert_eq!(b.flag, 0x18);
    assert_eq!(b.count, 42);
    assert_eq!(b.sample_columns.len(), 2);
}

fn column(flag: u8, name: &str) -> SysColumn {
    SysColumn {
        name: name.to_owned(),
        owner_object_id: 1,
        column_id: 1,
        nulls_flag: flag,
        domain_char: b'I',
        width: 4,
        page_number: 0,
        tag_offset: 0,
    }
}

#[test]
fn histogram_buckets_by_flag_in_flag_order_with_distinct_samples() {
    let cols = vec![
        column(0x18, "a"),
        column(0x01, "x"),
        column(0x18, "b"),
        column(0x18, "a"),
        column(0x18, "c"),
        column(0x18, "d"),
        column(0x18, "e"),
    ];
    let h = histogram_of(&cols);
    assert_eq!(h.len(), 2);
    assert_eq!(h[0].flag, 0x01);
    assert_eq!(h[0].count, 1);
    assert_eq!(h[0].sample_columns, vec!["x".to_string()]);
    assert_eq!(h[1].flag, 0x18);
    assert_eq!(h[1].count, 6);
    assert_eq!(h[1].sample_columns, vec!["a", "b", "c", "d"]);
}

#[test]
fn histogram_of_no_columns_is_empty() {
    assert!(histogram_of(&[]).is_empty());
}
