use sharkbench::text::Ordering;
use sharkbench::version::Version;

#[test]
fn should_parse_1_part() {
    assert_eq!(Version::parse("1"), Ok(Version { parts: vec![1] }));
}

#[test]
fn should_parse_2_parts() {
    assert_eq!(Version::parse("1.2"), Ok(Version { parts: vec![1, 2] }));
}

#[test]
fn should_parse_3_parts() {
    assert_eq!(Version::parse("1.2.3"), Ok(Version { parts: vec![1, 2, 3] }));
}

#[test]
fn should_compare_1_part() {
    assert!(Version::parse("1").unwrap() < Version::parse("2").unwrap());
}

#[test]
fn should_compare_2_parts() {
    assert!(Version::parse("1.2").unwrap() < Version::parse("1.10").unwrap());
    assert!(Version::parse("1.2").unwrap() > Version::parse("1.1").unwrap());
}

#[test]
fn should_compare_3_parts() {
    assert!(Version::parse("1.2.3").unwrap() < Version::parse("1.2.20").unwrap());
    assert!(Version::parse("1.2.3").unwrap() > Version::parse("1.2.2").unwrap());
}

#[test]
fn rejects_versions_without_numeric_part() {
    assert!(Version::parse("a").is_err());
    assert!(Version::parse("").is_err());
}

#[test]
fn compare_agrees_with_derived_order() {
    let a = Version::parse("1.2").unwrap();
    let b = Version::parse("1.10").unwrap();
    assert_eq!(a.compare(&b), Ordering::Less);
    assert_eq!(b.compare(&a), Ordering::Greater);
    assert_eq!(a.compare(&a), Ordering::Equal);
}
