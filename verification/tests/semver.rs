use kirbo::semver::{SemverError, SemverRange, Version};
use std::cmp::Ordering;

#[test]
fn parse_version() {
    assert_eq!("1".parse::<Version>().unwrap(), Version::from((1, 0, 0)));
    assert_eq!("1.2".parse::<Version>().unwrap(), Version::from((1, 2, 0)));
    assert_eq!(
        "1.2.3".parse::<Version>().unwrap(),
        Version::from((1, 2, 3))
    );
    assert!("1.2.3-".parse::<Version>().is_err());
    assert!("1.2.3.4".parse::<Version>().is_err());
    assert!("1.2.3b".parse::<Version>().is_err());

    assert_eq!(
        "1.2.3-alpha.1".parse::<Version>().unwrap(),
        Version {
            major: 1,
            minor: 2,
            patch: 3,
            prerelease_info: Some("alpha.1".to_string()),
            build_info: None,
        }
    );
    assert_eq!(
        "1.2.3+build-1024".parse::<Version>().unwrap(),
        Version {
            major: 1,
            minor: 2,
            patch: 3,
            prerelease_info: None,
            build_info: Some("build-1024".to_string()),
        }
    );
    assert_eq!(
        "1.2.3-alpha.1+build-1024".parse::<Version>().unwrap(),
        Version {
            major: 1,
            minor: 2,
            patch: 3,
            prerelease_info: Some("alpha.1".to_string()),
            build_info: Some("build-1024".to_string()),
        }
    );
}

#[test]
fn parse_version_range() {
    assert!(matches!("1".parse(), Ok(SemverRange::Exact(_))));
    assert!(matches!("^1".parse(), Ok(SemverRange::Compatible(_))));
    assert!(matches!("~1".parse(), Ok(SemverRange::Patched(_))));
    assert!(matches!(">=1".parse(), Ok(SemverRange::GreaterThanOrEqual(_))));
    assert!(matches!(">1".parse(), Ok(SemverRange::GreaterThan(_))));
    assert!(matches!("<1".parse(), Ok(SemverRange::LessThan(_))));
    assert!(matches!("*".parse(), Ok(SemverRange::Any)));
}

#[test]
fn semver_greater_than() {
    let range = SemverRange::GreaterThan((1, 0, 0).into());

    assert!(!Version::from((0, 0, 0)).satisfies(&range));
    assert!(!Version::from((1, 0, 0)).satisfies(&range));
    assert!(Version::from((1, 0, 1)).satisfies(&range));
    assert!(Version::from((2, 0, 0)).satisfies(&range));
}

#[test]
fn semver_greater_than_or_equal() {
    let range = SemverRange::GreaterThanOrEqual((1, 0, 0).into());

    assert!(!Version::from((0, 0, 0)).satisfies(&range));
    assert!(Version::from((1, 0, 0)).satisfies(&range));
    assert!(Version::from((1, 0, 1)).satisfies(&range));
    assert!(Version::from((2, 0, 0)).satisfies(&range));
}

#[test]
fn semver_less_than() {
    let range = SemverRange::LessThan((1, 0, 0).into());

    assert!(Version::from((0, 0, 0)).satisfies(&range));
    assert!(!Version::from((1, 0, 0)).satisfies(&range));
    assert!(!Version::from((1, 0, 1)).satisfies(&range));
    assert!(!Version::from((2, 0, 0)).satisfies(&range));
}

#[test]
fn semver_exact() {
    let range = SemverRange::Exact((1, 0, 0).into());

    assert!(!Version::from((0, 0, 0)).satisfies(&range));
    assert!(Version::from((1, 0, 0)).satisfies(&range));
    assert!(!Version::from((1, 0, 1)).satisfies(&range));
}

#[test]
fn semver_patched() {
    let range = SemverRange::Patched((1, 0, 0).into());

    assert!(!Version::from((0, 0, 0)).satisfies(&range));
    assert!(Version::from((1, 0, 0)).satisfies(&range));
    assert!(Version::from((1, 0, 1)).satisfies(&range));
    assert!(!Version::from((1, 1, 0)).satisfies(&range));
    assert!(!Version::from((2, 0, 0)).satisfies(&range));
}

#[test]
fn semver_compatible() {
    let range = SemverRange::Compatible((0, 0, 1).into());

    assert!(!Version::from((0, 0, 0)).satisfies(&range));
    assert!(Version::from((0, 0, 1)).satisfies(&range));
    assert!(!Version::from((0, 0, 2)).satisfies(&range));
    assert!(!Version::from((0, 1, 0)).satisfies(&range));
    assert!(!Version::from((1, 0, 0)).satisfies(&range));

    let range = SemverRange::Compatible((0, 1, 0).into());

    assert!(!Version::from((0, 0, 0)).satisfies(&range));
    assert!(Version::from((0, 1, 0)).satisfies(&range));
    assert!(Version::from((0, 1, 1)).satisfies(&range));
    assert!(!Version::from((0, 2, 0)).satisfies(&range));
    assert!(!Version::from((1, 0, 0)).satisfies(&range));

    let range = SemverRange::Compatible((1, 0, 0).into());

    assert!(!Version::from((0, 0, 0)).satisfies(&range));
    assert!(Version::from((1, 0, 0)).satisfies(&range));
    assert!(Version::from((1, 0, 1)).satisfies(&range));
    assert!(Version::from((1, 1, 0)).satisfies(&range));
    assert!(!Version::from((2, 0, 0)).satisfies(&range));

    let range = SemverRange::Compatible((1, 1, 1).into());

    assert!(!Version::from((0, 0, 0)).satisfies(&range));
    assert!(!Version::from((1, 0, 0)).satisfies(&range));
    assert!(!Version::from((1, 0, 1)).satisfies(&range));
    assert!(!Version::from((1, 1, 0)).satisfies(&range));
    assert!(Version::from((1, 1, 1)).satisfies(&range));
    assert!(Version::from((1, 1, 2)).satisfies(&range));
    assert!(Version::from((1, 2, 0)).satisfies(&range));
    assert!(!Version::from((2, 0, 0)).satisfies(&range));
}

#[test]
fn semver_any() {
    assert!(Version::from((0, 0, 0)).satisfies(&SemverRange::Any));
    assert!(Version::from((1, 0, 0)).satisfies(&SemverRange::Any));
    assert!(Version::from((1, 0, 1)).satisfies(&SemverRange::Any));
    assert!(Version::from((1, 1, 0)).satisfies(&SemverRange::Any));
    assert!(Version::from((2, 0, 0)).satisfies(&SemverRange::Any));
}

#[test]
fn parse_rejects_malformed_versions() {
    for text in [
        "", ".", "1.", ".1", "1..2", "01", "1.02", "1.2.03", "00", "a", "1.a", "v1.2.3", "1 ",
        " 1", "-1", "+1", "1.2.3+", "1.2.3-+b", "1.-a", "1.+b", "1.2.3.4-a", "１",
        "18446744073709551616", "1.18446744073709551616",
    ] {
        assert_eq!(Version::parse(text), Err(SemverError::InvalidVersionSyntax), "{text:?}");
    }
}

#[test]
fn parse_accepts_zero_segments_and_limits() {
    assert_eq!(Version::parse("0"), Ok(Version::from((0, 0, 0))));
    assert_eq!(Version::parse("0.0.0"), Ok(Version::from((0, 0, 0))));
    assert_eq!(Version::parse("1.0.10"), Ok(Version::from((1, 0, 10))));
    assert_eq!(
        Version::parse("18446744073709551615.0.7"),
        Ok(Version::from((u64::MAX, 0, 7)))
    );
}

#[test]
fn parse_splits_tags_at_the_first_marks() {
    let v = Version::parse("1-rc.1").unwrap();
    assert_eq!((v.major, v.minor, v.patch), (1, 0, 0));
    assert_eq!(v.prerelease_info.as_deref(), Some("rc.1"));
    assert_eq!(v.build_info, None);

    let v = Version::parse("1.2-a-b+c+d-e").unwrap();
    assert_eq!((v.major, v.minor, v.patch), (1, 2, 0));
    assert_eq!(v.prerelease_info.as_deref(), Some("a-b"));
    assert_eq!(v.build_info.as_deref(), Some("c+d-e"));

    let v = Version::parse("3.4.5+x-y").unwrap();
    assert_eq!(v.prerelease_info, None);
    assert_eq!(v.build_info.as_deref(), Some("x-y"));

    let v = Version::parse("1.0.0-ünï+çödé").unwrap();
    assert_eq!(v.prerelease_info.as_deref(), Some("ünï"));
    assert_eq!(v.build_info.as_deref(), Some("çödé"));
}

#[test]
fn format_writes_numbers_then_tags() {
    assert_eq!(Version::from((1, 2, 3)).to_string(), "1.2.3");
    assert_eq!(Version::from((0, 0, 0)).format(), "0.0.0");
    assert_eq!(Version::from((10, 200, 3000)).format(), "10.200.3000");
    assert_eq!(
        Version::from((u64::MAX, 0, 9)).to_string(),
        "18446744073709551615.0.9"
    );
    let v = Version {
        major: 1,
        minor: 2,
        patch: 3,
        prerelease_info: Some("alpha.1".to_string()),
        build_info: Some("build-1024".to_string()),
    };
    assert_eq!(v.to_string(), "1.2.3");
    assert_eq!(v.format(), "1.2.3-alpha.1+build-1024");
    let v = Version { build_info: None, ..v };
    assert_eq!(v.format(), "1.2.3-alpha.1");
    let v = Version {
        prerelease_info: None,
        build_info: Some("b".to_string()),
        ..v
    };
    assert_eq!(v.format(), "1.2.3+b");
}

#[test]
fn text_round_trip_keeps_numbers_and_tags() {
    for text in ["1", "1.2", "0.0.1", "1.2.3-alpha.1", "1.2.3+build-1024", "7.8-rc+b.1", "9+x"] {
        let v = Version::parse(text).unwrap();
        let again = Version::parse(&v.format()).unwrap();
        assert_eq!(again, v);
        let bare = Version::parse(&v.to_string()).unwrap();
        assert_eq!(bare, Version::from((v.major, v.minor, v.patch)));
    }
}

#[test]
fn ordering_ignores_tags() {
    let tagged = Version::parse("1.0.0-alpha").unwrap();
    let plain = Version::parse("1.0.0").unwrap();
    assert_eq!(tagged.cmp(&plain), Ordering::Equal);
    assert_eq!(tagged.partial_cmp(&plain), Some(Ordering::Equal));
    assert!(!(tagged < plain) && !(tagged > plain));
    assert!(tagged <= plain && tagged >= plain);
    assert_ne!(tagged, plain);
}

#[test]
fn ordering_goes_by_major_then_minor_then_patch() {
    let v = |a, b, c| Version::from((a, b, c));
    assert_eq!(v(1, 9, 9).cmp(&v(2, 0, 0)), Ordering::Less);
    assert_eq!(v(2, 0, 0).cmp(&v(1, 9, 9)), Ordering::Greater);
    assert_eq!(v(1, 2, 9).cmp(&v(1, 3, 0)), Ordering::Less);
    assert_eq!(v(1, 3, 0).cmp(&v(1, 2, 9)), Ordering::Greater);
    assert_eq!(v(1, 2, 3).cmp(&v(1, 2, 4)), Ordering::Less);
    assert_eq!(v(1, 2, 4).cmp(&v(1, 2, 3)), Ordering::Greater);
    assert_eq!(v(1, 2, 3).cmp(&v(1, 2, 3)), Ordering::Equal);
    assert!(v(1, 10, 0) > v(1, 9, 0));
}

#[test]
fn caret_and_tilde_ranges_on_parsed_text() {
    let sat = |range: &str, version: &str| {
        Version::parse(version)
            .unwrap()
            .satisfies(&SemverRange::parse(range).unwrap())
    };
    assert!(sat("^1.2.3", "1.2.3"));
    assert!(sat("^1.2.3", "1.9.9"));
    assert!(!sat("^1.2.3", "1.2.2"));
    assert!(!sat("^1.2.3", "2.0.0"));

    assert!(sat("^0.2.3", "0.2.3"));
    assert!(sat("^0.2.3", "0.2.9"));
    assert!(!sat("^0.2.3", "0.3.0"));

    assert!(sat("^0.0.3", "0.0.3"));
    assert!(!sat("^0.0.3", "0.0.2"));
    assert!(!sat("^0.0.3", "0.0.4"));
    assert!(!sat("^0.0.3", "0.1.3"));

    assert!(sat("~1.2.3", "1.2.3"));
    assert!(sat("~1.2.3", "1.2.99"));
    assert!(!sat("~1.2.3", "1.2.2"));
    assert!(!sat("~1.2.3", "1.3.0"));
}

#[test]
fn comparison_ranges_on_parsed_text() {
    let sat = |range: &str, version: &str| {
        Version::parse(version)
            .unwrap()
            .satisfies(&SemverRange::parse(range).unwrap())
    };
    assert!(sat(">1.2.3", "1.2.4"));
    assert!(!sat(">1.2.3", "1.2.3"));
    assert!(sat(">=1.2.3", "1.2.3"));
    assert!(!sat(">=1.2.3", "1.2.2"));
    assert!(sat("<1.2.3", "1.2.2"));
    assert!(!sat("<1.2.3", "1.2.3"));
    assert!(sat("1.2.3", "1.2.3"));
    assert!(!sat("1.2.3", "1.2.4"));
    assert!(sat("*", "0.0.0"));
}

#[test]
fn exact_range_tells_tags_apart() {
    let tagged = Version::parse("1.0.0-alpha").unwrap();
    let plain = Version::parse("1.0.0").unwrap();
    assert!(!tagged.satisfies(&SemverRange::parse("1.0.0").unwrap()));
    assert!(plain.satisfies(&SemverRange::parse("1.0.0").unwrap()));
    assert!(tagged.satisfies(&SemverRange::parse("1.0.0-alpha").unwrap()));
    assert!(tagged.satisfies(&SemverRange::parse(">=1.0.0").unwrap()));
    assert!(!tagged.satisfies(&SemverRange::parse("^0.0.0").unwrap()));
}

#[test]
fn range_parse_reads_the_bound_after_the_mark() {
    let bound = |text: &str| match SemverRange::parse(text).unwrap() {
        SemverRange::GreaterThan(v)
        | SemverRange::GreaterThanOrEqual(v)
        | SemverRange::LessThan(v)
        | SemverRange::Exact(v)
        | SemverRange::Patched(v)
        | SemverRange::Compatible(v) => v,
        SemverRange::Any => panic!("no bound"),
    };
    assert_eq!(bound("<1.2.3"), Version::from((1, 2, 3)));
    assert_eq!(bound(">1.2.3"), Version::from((1, 2, 3)));
    assert_eq!(bound(">=1.2.3"), Version::from((1, 2, 3)));
    assert_eq!(bound("^0.20.0"), Version::from((0, 20, 0)));
    assert_eq!(bound("~4"), Version::from((4, 0, 0)));
    assert_eq!(bound("2.7.1"), Version::from((2, 7, 1)));
}

#[test]
fn range_parse_errors() {
    let err = |text: &str| SemverRange::parse(text).err();
    assert_eq!(err(""), Some(SemverError::InvalidRangeSyntax));
    assert_eq!(err("latest"), Some(SemverError::InvalidRangeSyntax));
    assert_eq!(err("=1.0.0"), Some(SemverError::InvalidRangeSyntax));
    assert_eq!(err("**"), Some(SemverError::InvalidRangeSyntax));
    assert_eq!(err(" ^1"), Some(SemverError::InvalidRangeSyntax));
    assert_eq!(err("^"), Some(SemverError::InvalidVersionSyntax));
    assert_eq!(err("<=1.0.0"), Some(SemverError::InvalidVersionSyntax));
    assert_eq!(err(">=x"), Some(SemverError::InvalidVersionSyntax));
    assert_eq!(err("1.2.3.4"), Some(SemverError::InvalidVersionSyntax));
    assert_eq!(err("~01"), Some(SemverError::InvalidVersionSyntax));
}

#[test]
fn range_text_round_trip() {
    for text in [
        "*", "1.2.3", "^1.2.3", "~0.2.0", ">=1.0.0", ">1.0.0", "<2.0.0", "^1.0.0-rc.1+b5",
        ">=0.0.0+x",
    ] {
        let range = SemverRange::parse(text).unwrap();
        assert_eq!(range.format(), text);
        assert_eq!(SemverRange::parse(&range.format()).unwrap().format(), text);
    }
    assert_eq!(SemverRange::parse("^1").unwrap().format(), "^1.0.0");
    assert_eq!(SemverRange::parse("<1.2").unwrap().format(), "<1.2.0");
    assert_eq!(SemverRange::Any.format(), "*");
    assert_eq!(SemverRange::GreaterThanOrEqual((3, 4, 5).into()).format(), ">=3.4.5");
}

#[test]
fn clones_are_equal() {
    let v = Version::parse("1.2.3-a+b").unwrap();
    assert_eq!(v.clone(), v);
    let range = SemverRange::parse("~1.2.3-a+b").unwrap();
    assert_eq!(range.clone().format(), range.format());
}
