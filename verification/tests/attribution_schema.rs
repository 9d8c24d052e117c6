use openqbw::attribution_schema::{
    is_fixed_width_domain, SchemaAttribution, ValidationStats, WidthBand,
};

#[test]
fn fixed_width_domains_recognized() {
    for d in *b"NFIDTB" {
        assert!(is_fixed_width_domain(d));
    }
    for d in *b"YVCAX" {
        assert!(!is_fixed_width_domain(d));
    }
}

#[test]
fn empty_attribution_validates_nothing() {
    let sa = SchemaAttribution::empty();
    assert!(sa.is_empty());
    assert!(!sa.validate_observed("anything", 32));
}

#[test]
fn observed_inside_band_passes() {
    let mut sa = SchemaAttribution::empty();
    sa.set_band(
        "t".to_string(),
        WidthBand {
            owner_object_id: 1,
            low: 16,
            high: 64,
            column_count: 3,
        },
    );
    assert!(sa.validate_observed("t", 32));
    assert!(!sa.validate_observed("t", 8));
    assert!(!sa.validate_observed("t", 200));
    assert!(sa.validate_observed("t", 16));
    assert!(sa.validate_observed("t", 64));
}

#[test]
fn validation_stats_total_sums_components() {
    let s = ValidationStats {
        pass: 4,
        fail: 1,
        no_band: 2,
        unmeasured: 3,
    };
    assert_eq!(s.total(), 10);
}

#[test]
fn unknown_table_does_not_validate() {
    let sa = SchemaAttribution::empty();
    assert!(!sa.validate_observed("missing", 10));
}

#[test]
fn set_band_replaces_an_existing_band() {
    let mut sa = SchemaAttribution::empty();
    let band = |low: u32, high: u32| WidthBand { owner_object_id: 7, low, high, column_count: 1 };
    sa.set_band("t".to_string(), band(1, 2));
    sa.set_band("u".to_string(), band(3, 4));
    sa.set_band("t".to_string(), band(10, 20));
    assert_eq!(sa.len(), 2);
    assert_eq!(sa.band("t").unwrap().low, 10);
    assert_eq!(sa.band("u").unwrap().high, 4);
    assert!(sa.band("v").is_none());
}
