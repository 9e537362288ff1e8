use cargo_dep::version::{Identifier, Version};

#[test]
fn parse_reads_the_numbers() {
    let v = Version::parse("1.22.333").unwrap();
    assert_eq!((v.major, v.minor, v.patch), (1, 22, 333));
    assert!(v.pre.is_empty());
    assert!(v.build.is_empty());
}

#[test]
fn parse_reads_the_tags() {
    let v = Version::parse("0.1.0-alpha.7+build.01").unwrap();
    assert_eq!((v.major, v.minor, v.patch), (0, 1, 0));
    assert_eq!(v.pre.len(), 2);
    assert!(matches!(&v.pre[0], Identifier::AlphaNumeric(s) if s == "alpha"));
    assert!(matches!(&v.pre[1], Identifier::Numeric(7)));
    assert_eq!(v.build.len(), 2);
    assert!(matches!(&v.build[0], Identifier::AlphaNumeric(s) if s == "build"));
    assert!(matches!(&v.build[1], Identifier::AlphaNumeric(s) if s == "01"));
}

#[test]
fn parse_refuses_what_is_no_version() {
    assert!(Version::parse("").is_none());
    assert!(Version::parse("1").is_none());
    assert!(Version::parse("1.2").is_none());
    assert!(Version::parse("1.2.x").is_none());
    assert!(Version::parse("1.2.3 junk").is_none());
    assert!(Version::parse("99999999999999999999.0.0").is_none());
}

#[test]
fn same_release_compares_numbers_and_pre_release() {
    let base = Version::parse("1.2.3").unwrap();
    assert!(base.same_release(&Version::parse("1.2.3").unwrap()));
    assert!(!base.same_release(&Version::parse("1.2.4").unwrap()));
    assert!(!base.same_release(&Version::parse("1.3.3").unwrap()));
    assert!(!base.same_release(&Version::parse("2.2.3").unwrap()));
    assert!(!base.same_release(&Version::parse("1.2.3-rc.1").unwrap()));
    let rc = Version::parse("1.2.3-rc.1").unwrap();
    assert!(rc.same_release(&Version::parse("1.2.3-rc.1").unwrap()));
    assert!(!rc.same_release(&Version::parse("1.2.3-rc.2").unwrap()));
    assert!(!rc.same_release(&Version::parse("1.2.3-rc").unwrap()));
    assert!(!rc.same_release(&Version::parse("1.2.3-rc.x").unwrap()));
}

#[test]
fn same_release_leaves_build_metadata_out() {
    let one = Version::parse("1.2.3+linux").unwrap();
    let two = Version::parse("1.2.3+mac.4").unwrap();
    assert!(one.same_release(&two));
    assert!(one.same_release(&Version::parse("1.2.3").unwrap()));
}

#[test]
fn identifiers_of_different_kinds_differ() {
    let number = Identifier::Numeric(1);
    let text = Identifier::AlphaNumeric("1".to_string());
    assert!(number.same_as(&Identifier::Numeric(1)));
    assert!(!number.same_as(&Identifier::Numeric(2)));
    assert!(!number.same_as(&text));
    assert!(!text.same_as(&number));
    assert!(text.same_as(&Identifier::AlphaNumeric("1".to_string())));
}

#[test]
fn parse_passes_over_space_around_the_version() {
    let v = Version::parse(" 1.2.3\n").unwrap();
    assert_eq!((v.major, v.minor, v.patch), (1, 2, 3));
    assert!(Version::parse("1. 2.3").is_none());
}

#[test]
fn parse_takes_a_leading_zero_for_text_in_a_tag() {
    let v = Version::parse("1.0.0-0.00.7a").unwrap();
    assert!(matches!(&v.pre[0], Identifier::Numeric(0)));
    assert!(matches!(&v.pre[1], Identifier::AlphaNumeric(s) if s == "00"));
    assert!(matches!(&v.pre[2], Identifier::AlphaNumeric(s) if s == "7a"));
    assert!(Version::parse("01.0.0").is_none());
}
