use pcf::Version;

fn v(major: u16, minor: u16, patch: u16) -> Version {
    Version { major, minor, patch }
}

#[test]
fn parse_two_components_pads_patch() {
    let parsed = Version::parse("2.5").unwrap();
    assert_eq!(parsed, v(2, 5, 0));
    assert_eq!(parsed.to_string(), "2.5.0");
}

#[test]
fn parse_one_component_pads_minor_and_patch() {
    assert_eq!(Version::parse("7").unwrap().to_string(), "7.0.0");
}

#[test]
fn parse_three_components() {
    assert_eq!(Version::parse("1.2.3"), Some(v(1, 2, 3)));
    assert_eq!(Version::parse("1.2.3").unwrap().to_string(), "1.2.3");
}

#[test]
fn parse_normalizes_leading_zeros() {
    assert_eq!(Version::parse("01.002.0003").unwrap().to_string(), "1.2.3");
}

#[test]
fn parse_rejects_more_than_three_components() {
    assert_eq!(Version::parse("1.2.3.4"), None);
    assert_eq!(Version::parse("1.2.3.x"), None);
    assert_eq!(Version::parse("1.2.3."), None);
}

#[test]
fn parse_rejects_non_numeric_components() {
    assert_eq!(Version::parse("a.b.c"), None);
    assert_eq!(Version::parse("1.x"), None);
    assert_eq!(Version::parse(""), None);
    assert_eq!(Version::parse("1..2"), None);
    assert_eq!(Version::parse("-1.0.0"), None);
}

#[test]
fn parse_rejects_values_beyond_sixteen_bits() {
    assert_eq!(Version::parse("65535.0.0"), Some(v(65535, 0, 0)));
    assert_eq!(Version::parse("65536.0.0"), None);
    assert_eq!(Version::parse("1.99999999999999999999"), None);
}

#[test]
fn largest_version_formats() {
    assert_eq!(v(65535, 65535, 65535).to_string(), "65535.65535.65535");
    assert_eq!(v(0, 10, 100).to_string(), "0.10.100");
}

#[test]
fn text_forms() {
    assert_eq!(v(4, 10, 7).text(), b"4.10.7".to_vec());
    assert_eq!(v(4, 10, 7).short_text(), b"4.10".to_vec());
}

#[test]
fn bumps_cascade() {
    let base = v(3, 4, 5);
    assert_eq!(base.bump_major(), Some(v(4, 0, 0)));
    assert_eq!(base.bump_minor(), Some(v(3, 5, 0)));
    assert_eq!(base.bump_patch(), Some(v(3, 4, 6)));
}

#[test]
fn bumps_stop_at_the_largest_value() {
    assert_eq!(v(65535, 1, 1).bump_major(), None);
    assert_eq!(v(1, 65535, 1).bump_minor(), None);
    assert_eq!(v(1, 1, 65535).bump_patch(), None);
}

#[test]
fn setters_reset_lower_fields() {
    let mut a = v(3, 4, 5);
    a.set_major(9);
    assert_eq!(a, v(9, 0, 0));
    let mut b = v(3, 4, 5);
    b.set_minor(9);
    assert_eq!(b, v(3, 9, 0));
    let mut c = v(3, 4, 5);
    c.set_patch(9);
    assert_eq!(c, v(3, 4, 9));
}

#[test]
fn with_fields_sets_each_field_alone() {
    let base = v(3, 4, 5);
    assert_eq!(base.with_fields(None, Some(9), None), v(3, 9, 5));
    assert_eq!(base.with_fields(Some(8), None, None), v(8, 4, 5));
    assert_eq!(base.with_fields(None, None, Some(1)), v(3, 4, 1));
    assert_eq!(base.with_fields(Some(1), Some(2), Some(3)), v(1, 2, 3));
    assert_eq!(base.with_fields(None, None, None), base);
}

#[test]
fn text_parses_back_to_the_version() {
    for version in [v(0, 0, 0), v(1, 2, 3), v(10, 200, 3000), v(65535, 65535, 65535)] {
        assert_eq!(Version::parse(&version.to_string()), Some(version));
        let short = String::from_utf8(version.short_text()).unwrap();
        assert_eq!(Version::parse(&short), Some(v(version.major, version.minor, 0)));
    }
}
