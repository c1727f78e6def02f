use raconteur::{Constraint, Property, PropertyMap};

#[test]
fn int_range_is_half_open() {
    let mut map = PropertyMap::new();
    map.insert("age", Property::integer(30));

    assert!(Constraint::is_in_range("age", 30, 31).is_satisfied_by(&map));
    assert!(Constraint::is_in_range("age", 0, 31).is_satisfied_by(&map));
    assert!(!Constraint::is_in_range("age", 0, 30).is_satisfied_by(&map));
    assert!(!Constraint::is_in_range("age", 31, 40).is_satisfied_by(&map));
}

#[test]
fn real_range_is_half_open() {
    let mut map = PropertyMap::new();
    map.insert("money", Property::real_bits((20.0f64).to_bits()));

    let c = |lo: f64, hi: f64| Constraint::is_in_range_float("money", lo.to_bits(), hi.to_bits());
    assert!(c(20.0, 20.5).is_satisfied_by(&map));
    assert!(c(0.0, 100.0).is_satisfied_by(&map));
    assert!(!c(0.0, 20.0).is_satisfied_by(&map));
    assert!(!c(20.5, 100.0).is_satisfied_by(&map));
}

#[test]
fn cross_tag_ranges_never_match() {
    let mut map = PropertyMap::new();
    map.insert("int value", Property::integer(5));
    map.insert("real value", Property::real_bits((5.0f64).to_bits()));

    assert!(!Constraint::is_in_range("real value", 0, 10).is_satisfied_by(&map));
    assert!(!Constraint::is_in_range_float(
        "int value",
        (0.0f64).to_bits(),
        (10.0f64).to_bits()
    )
    .is_satisfied_by(&map));
}

#[test]
fn has_not_holds_on_empty_map() {
    let map = PropertyMap::new();
    assert!(Constraint::has_not("anything").is_satisfied_by(&map));
    assert!(!Constraint::has("anything").is_satisfied_by(&map));
}

#[test]
fn equals_requires_matching_tags() {
    let mut map = PropertyMap::new();
    map.insert("age", Property::integer(18));

    assert!(Constraint::equals("age", Property::integer(18)).is_satisfied_by(&map));
    assert!(!Constraint::equals("age", Property::real_bits((18.0f64).to_bits()))
        .is_satisfied_by(&map));
    assert!(!Constraint::equals("age", Property::text("18")).is_satisfied_by(&map));
}

#[test]
fn real_comparisons_follow_ieee_rules() {
    let mut map = PropertyMap::new();
    map.insert("zero", Property::real_bits((-0.0f64).to_bits()));
    // the two zeros are equal, so -0.0 lies in [0.0, 1.0)
    assert!(Constraint::is_in_range_float("zero", (0.0f64).to_bits(), (1.0f64).to_bits())
        .is_satisfied_by(&map));

    let mut nan_map = PropertyMap::new();
    nan_map.insert("x", Property::real_bits(f64::NAN.to_bits()));
    // NaN compares false with everything, including itself
    assert!(!Constraint::is_in_range_float(
        "x",
        f64::NEG_INFINITY.to_bits(),
        f64::INFINITY.to_bits()
    )
    .is_satisfied_by(&nan_map));
    assert!(!Constraint::equals("x", Property::real_bits(f64::NAN.to_bits()))
        .is_satisfied_by(&nan_map));

    let mut inf_map = PropertyMap::new();
    inf_map.insert("x", Property::real_bits(f64::NEG_INFINITY.to_bits()));
    assert!(Constraint::is_in_range_float(
        "x",
        f64::NEG_INFINITY.to_bits(),
        (0.0f64).to_bits()
    )
    .is_satisfied_by(&inf_map));
}

#[test]
fn property_display_forms() {
    assert_eq!(Property::text("hello").display(), "hello");
    assert_eq!(Property::integer(42).display(), "42");
    assert_eq!(Property::integer(-7).display(), "-7");
    assert_eq!(Property::integer(0).display(), "0");
    assert_eq!(Property::integer(i64::MIN).display(), "-9223372036854775808");
}

#[test]
fn real_display_forms() {
    assert_eq!(Property::real_bits((18.0f64).to_bits()).display(), "18");
    assert_eq!(Property::real_bits((0.0f64).to_bits()).display(), "0");
    assert_eq!(Property::real_bits((-0.0f64).to_bits()).display(), "-0");
    assert_eq!(Property::real_bits((-3.0f64).to_bits()).display(), "-3");
    assert_eq!(Property::real_bits((0.5f64).to_bits()).display(), "0.5");
    assert_eq!(Property::real_bits((2.25f64).to_bits()).display(), "2.25");
    assert_eq!(Property::real_bits((1048576.0f64).to_bits()).display(), "1048576");
    assert_eq!(Property::real_bits(f64::NAN.to_bits()).display(), "NaN");
    assert_eq!(Property::real_bits(f64::INFINITY.to_bits()).display(), "inf");
    assert_eq!(Property::real_bits(f64::NEG_INFINITY.to_bits()).display(), "-inf");
    // the expansion is exact: 0.1 is not a binary fraction
    assert_eq!(
        Property::real_bits((0.1f64).to_bits()).display(),
        "0.1000000000000000055511151231257827021181583404541015625"
    );
}

#[test]
fn property_map_insert_replaces() {
    let mut map = PropertyMap::new();
    map.insert("job", Property::text("baker"));
    map.insert("job", Property::text("smith"));
    let got = map.get("job").unwrap();
    assert!(got.same_value(&Property::text("smith")));
    assert!(map.get("nothing").is_none());
}
