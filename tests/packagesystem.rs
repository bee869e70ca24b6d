use bootupd::model::ContentMetadata;
use bootupd::model::Timestamp;
use bootupd::packagesystem::{
    compare_package_slices, compare_package_versions, parse_evr, parse_evr_vec, rpm_parse_metadata,
    Module, RpmParseError,
};
use std::cmp::Ordering;

const ARCH: &str = "x86_64";

fn module(name: &str, evr: &str) -> Module {
    Module {
        name: name.to_string(),
        rpm_evr: evr.to_string(),
    }
}

#[test]
fn test_parse_evr() {
    let cases = [
        (
            "test-bootupd-payload-1.0-1.x86_64",
            "test-bootupd-payload",
            "1.0-1",
        ),
        (
            "grub2-efi-x64-1:2.06-95.fc38.x86_64",
            "grub2",
            "1:2.06-95.fc38",
        ),
        ("shim-x64-15.6-2.x86_64", "shim", "15.6-2"),
        ("grub2-1:2.12-28.fc42", "grub2", "1:2.12-28.fc42"),
    ];

    for &(input, expected_name, expected_evr) in &cases {
        assert_eq!(
            Module {
                name: expected_name.to_string(),
                rpm_evr: expected_evr.to_string(),
            },
            parse_evr(input, ARCH)
        );
    }
}

#[test]
fn test_parse_rpmout() {
    let testdata = "grub2-efi-x64-1:2.06-95.fc38.x86_64,1681321788 grub2-efi-x64-1:2.06-95.fc38.x86_64,1681321788 shim-x64-15.6-2.x86_64,1657222566 shim-x64-15.6-2.x86_64,1657222566 shim-x64-15.6-2.x86_64,1657222566";
    let parsed = rpm_parse_metadata(testdata, ARCH).unwrap();
    assert_eq!(
        parsed.version,
        "grub2-efi-x64-1:2.06-95.fc38.x86_64,shim-x64-15.6-2.x86_64"
    );
    let expected_modules = vec![
        Module {
            name: "grub2".to_string(),
            rpm_evr: "1:2.06-95.fc38".to_string(),
        },
        Module {
            name: "shim".to_string(),
            rpm_evr: "15.6-2".to_string(),
        },
    ];

    assert_eq!(parsed.versions, Some(expected_modules));
}

#[test]
fn rpm_output_keeps_latest_buildtime() {
    let parsed = rpm_parse_metadata("b-1-1.x86_64,100\na-1-1.x86_64,300  c-2-1.x86_64,200", ARCH).unwrap();
    assert_eq!(parsed.version, "a-1-1.x86_64,b-1-1.x86_64,c-2-1.x86_64");
    assert_eq!(parsed.timestamp, Timestamp { secs: 300, nanos: 0 });
}

#[test]
fn rpm_output_errors() {
    assert_eq!(
        rpm_parse_metadata("grub2-1-1.x86_64", ARCH),
        Err(RpmParseError::Malformed("grub2-1-1.x86_64".to_string()))
    );
    assert_eq!(
        rpm_parse_metadata("grub2-1-1.x86_64,notanumber", ARCH),
        Err(RpmParseError::BadBuildtime("grub2-1-1.x86_64,notanumber".to_string()))
    );
    assert_eq!(rpm_parse_metadata("  \n ", ARCH), Err(RpmParseError::NoPackages));
}

#[test]
fn test_compare_package_slices() {
    let a = vec![
        Module {
            name: "grub2".into(),
            rpm_evr: "1:2.12-21.fc41".into(),
        },
        Module {
            name: "shim".into(),
            rpm_evr: "15.8-3".into(),
        },
    ];
    let b = vec![
        Module {
            name: "grub2".into(),
            rpm_evr: "1:2.12-28.fc41".into(),
        },
        Module {
            name: "shim".into(),
            rpm_evr: "15.8-3".into(),
        },
    ];
    let ord = compare_package_slices(&a, &b);
    assert_eq!(ord, Ordering::Less);

    let ord = compare_package_slices(&b, &a);
    assert_eq!(ord, Ordering::Greater);

    let ord = compare_package_slices(&a, &a);
    assert_eq!(ord, Ordering::Equal);
}

#[test]
fn test_compare_package_versions() {
    let current = "grub2-efi-x64-1:2.12-28.fc42.x86_64,shim-x64-15.8-3.x86_64";
    let target = "grub2-efi-x64-1:2.12-29.fc42.x86_64,shim-x64-15.8-3.x86_64";
    let ord = compare_package_versions(current, target, ARCH);
    assert_eq!(ord, Ordering::Less);

    let ord = compare_package_versions(target, current, ARCH);
    assert_eq!(ord, Ordering::Greater);

    let current = "grub2-efi-x64-1:2.12-28.fc42.x86_64,shim-x64-15.8-3.x86_64";
    let target = "grub2-1:2.12-29.fc42,shim-15.8-3";
    let ord = compare_package_versions(current, target, ARCH);
    assert_eq!(ord, Ordering::Less);

    let ord = compare_package_versions(target, current, ARCH);
    assert_eq!(ord, Ordering::Greater);

    let current = "grub2-1:2.12-28.fc42,shim-15.8-3";
    let target = "grub2-1:2.12-28.fc42,shim-15.8-4";
    let ord = compare_package_versions(current, target, ARCH);
    assert_eq!(ord, Ordering::Less);

    let ord = compare_package_versions(target, current, ARCH);
    assert_eq!(ord, Ordering::Greater);

    let current = "grub2-efi-x64-1:2.12-28.fc42.x86_64,shim-x64-15.8-3.x86_64";
    let target = "grub2-efi-x64-1:2.12-28.fc42.x86_64,shim-x64-15.8-3.x86_64,test";
    let ord = compare_package_versions(current, target, ARCH);
    assert_eq!(ord, Ordering::Less);

    let ord = compare_package_versions(target, current, ARCH);
    assert_eq!(ord, Ordering::Greater);

    {
        let current = "grub2-1:2.12-28.fc42,shim-15.8-3";
        let target = "grub2-1:2.12-27.fc42,shim-15.8-4";
        let ord = compare_package_versions(current, target, ARCH);
        assert_eq!(ord, Ordering::Less);

        let ord = compare_package_versions(target, current, ARCH);
        assert_eq!(ord, Ordering::Less);
    }

    {
        let current = "grub2-efi-x64-1:2.12-28.fc42.x86_64,shim-x64-15.8-3.x86_64";
        let target = "grub2-efi-x64-1:2.12-28.fc42.x86_64,shim-x64-15.8-3.x86_64";
        let ord = compare_package_versions(current, target, ARCH);
        assert_eq!(ord, Ordering::Equal);

        let current = "grub2-efi-x64-1:2.12-28.fc42.x86_64,shim-x64-15.8-3.x86_64";
        let target = "grub2-1:2.12-28.fc42,shim-15.8-3";
        let ord = compare_package_versions(current, target, ARCH);
        assert_eq!(ord, Ordering::Equal);

        let current = "grub2-1:2.12-28.fc42,shim-15.8-3";
        let target = "grub2-1:2.12-28.fc42,shim-15.8-3";
        let ord = compare_package_versions(current, target, ARCH);
        assert_eq!(ord, Ordering::Equal);
    }

    let current = "grub2-1:2.12-28.fc42";
    let target = "grub2-1:2.12-29.fc42";
    let ord = compare_package_versions(current, target, ARCH);
    assert_eq!(ord, Ordering::Less);

    let ord = compare_package_versions(target, current, ARCH);
    assert_eq!(ord, Ordering::Greater);
}

#[test]
fn nevra_names_collapse_only_for_grub2_and_shim() {
    assert_eq!(
        parse_evr("grub2-efi-ia32-1:2.12-21.fc41.x86_64", ARCH),
        module("grub2", "1:2.12-21.fc41")
    );
    assert_eq!(
        parse_evr("uboot-images-2023.04-2.fc42.x86_64", ARCH),
        module("uboot-images", "2023.04-2.fc42")
    );
    assert_eq!(parse_evr("noarch-token", ARCH), module("noarch", "token"));
    assert_eq!(parse_evr("plain", ARCH), module("plain", ""));
}

#[test]
fn package_list_is_sorted_and_deduplicated() {
    let v = parse_evr_vec("shim-15.8-3,grub2-1:2.12-28.fc42,shim-15.8-3", ARCH);
    assert_eq!(v, vec![module("grub2", "1:2.12-28.fc42"), module("shim", "15.8-3")]);
}

#[test]
fn upgrade_verdict_ignores_token_order() {
    let a = "grub2-1:2.12-28.fc42,shim-15.8-3";
    let b = "grub2-1:2.12-28.fc42,shim-15.8-4";
    let c = "shim-15.8-4,grub2-1:2.12-28.fc42";
    assert_eq!(compare_package_versions(a, b, ARCH), Ordering::Less);
    assert_eq!(compare_package_versions(a, c, ARCH), Ordering::Less);
}

#[test]
fn appended_package_is_an_upgrade() {
    let a = "grub2-1:2.12-28.fc42,shim-15.8-3";
    let b = "grub2-1:2.12-28.fc42,shim-15.8-3,zz-1-1";
    assert_eq!(compare_package_versions(a, b, ARCH), Ordering::Less);
    assert_eq!(compare_package_versions(b, a, ARCH), Ordering::Greater);
}

#[test]
fn oracle_seed_scenarios() {
    let a = "grub2-1:2.12-28.fc42,shim-15.8-3";
    let b = "grub2-1:2.12-28.fc42,shim-15.8-4";
    assert_eq!(compare_package_versions(a, b, ARCH), Ordering::Less);
    assert_eq!(compare_package_versions(b, a, ARCH), Ordering::Greater);
    assert_eq!(compare_package_versions(a, a, ARCH), Ordering::Equal);
    let mixed = "grub2-efi-x64-1:2.12-28.fc42.x86_64,shim-x64-15.8-3.x86_64";
    assert_eq!(compare_package_versions(mixed, a, ARCH), Ordering::Equal);
    let d = "grub2-1:2.12-27.fc42,shim-15.8-4";
    assert_eq!(compare_package_versions(a, d, ARCH), Ordering::Less);
    assert_eq!(compare_package_versions(d, a, ARCH), Ordering::Less);
}

#[test]
fn test_meta_compare() {
    let t = Timestamp { secs: 1_700_000_000, nanos: 0 };
    let t1 = Timestamp { secs: 1_700_000_001, nanos: 0 };
    let a = ContentMetadata {
        timestamp: t,
        version: "grub2-efi-ia32-1:2.12-21.fc41.x86_64,grub2-efi-x64-1:2.12-21.fc41.x86_64,shim-ia32-15.8-3.x86_64,shim-x64-15.8-3.x86_64".into(),
        versions: None,
    };
    let b = ContentMetadata {
        timestamp: t1,
        version: "grub2-efi-ia32-1:2.12-28.fc41.x86_64,grub2-efi-x64-1:2.12-28.fc41.x86_64,shim-ia32-15.8-3.x86_64,shim-x64-15.8-3.x86_64".into(),
        versions: None,
    };
    assert_eq!(a.can_upgrade_to(&b, ARCH), Ordering::Less);
    assert_eq!(b.can_upgrade_to(&a, ARCH), Ordering::Greater);

    let a = ContentMetadata {
        timestamp: t,
        version: "test".into(),
        versions: Some(vec![
            Module {
                name: "grub2".into(),
                rpm_evr: "1:2.12-21.fc41".into(),
            },
            Module {
                name: "shim".into(),
                rpm_evr: "15.8-3".into(),
            },
        ]),
    };
    let b = ContentMetadata {
        timestamp: t1,
        version: "test".into(),
        versions: Some(vec![
            Module {
                name: "grub2".into(),
                rpm_evr: "1:2.12-28.fc41".into(),
            },
            Module {
                name: "shim".into(),
                rpm_evr: "15.8-3".into(),
            },
        ]),
    };
    assert_eq!(a.can_upgrade_to(&b, ARCH), Ordering::Less);
    assert_eq!(b.can_upgrade_to(&a, ARCH), Ordering::Greater);
}

#[test]
fn only_whole_first_word_grub2_or_shim_collapses() {
    assert_eq!(parse_evr("shimx-a-1-1.x86_64", ARCH), module("shimx-a", "1-1"));
    assert_eq!(parse_evr("grub2x-tools-2-1.x86_64", ARCH), module("grub2x-tools", "2-1"));
    assert_eq!(parse_evr("shim-x64-15.8-3.x86_64", ARCH), module("shim", "15.8-3"));
}

#[test]
fn dedup_by_uapi_equal_versions() {
    let v = parse_evr_vec("a-1.0,a-1.00,b-2", ARCH);
    assert_eq!(v, vec![module("a", "1.0"), module("b", "2")]);
}
