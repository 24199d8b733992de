use lol_stats::update::{
    fallback_update_info, normalize_release_notes, normalize_version_tag, parse_u32, split_char,
    update_info_from_manifest, version_is_newer, version_parts, UpdateManifest,
};

#[test]
fn parse_numbers() {
    assert_eq!(parse_u32("42"), Some(42));
    assert_eq!(parse_u32("+7"), Some(7));
    assert_eq!(parse_u32("4294967295"), Some(u32::MAX));
    assert_eq!(parse_u32("4294967296"), None);
    assert_eq!(parse_u32(""), None);
    assert_eq!(parse_u32("1a"), None);
    assert_eq!(parse_u32("-1"), None);
}

#[test]
fn version_tags() {
    assert_eq!(normalize_version_tag("  v1.2.3-beta "), "1.2.3");
    assert_eq!(normalize_version_tag("V2.0.1+build5"), "2.0.1");
    assert_eq!(normalize_version_tag("vV0.9"), "0.9");
    assert_eq!(normalize_version_tag("-rc"), "");
    assert_eq!(split_char("a.b..c", '.'), vec!["a", "b", "", "c"]);
    assert_eq!(version_parts("1.x.3"), vec![1, 0, 3]);
    assert_eq!(version_parts(""), vec![0]);
}

#[test]
fn version_comparison() {
    assert!(version_is_newer("1.2.4", "1.2.3"));
    assert!(version_is_newer("1.10", "1.9.9"));
    assert!(!version_is_newer("1.2.3", "1.2.3"));
    assert!(!version_is_newer("1.2", "1.2.0"));
    assert!(!version_is_newer("1.2.0", "1.2"));
    assert!(!version_is_newer("0.9", "1.0"));
}

#[test]
fn version_order_laws_on_values() {
    // Never newer than itself; never both ways; newer is transitive.
    for v in ["1.0", "2.3.4", "0", "x.1"] {
        assert!(!version_is_newer(v, v));
    }
    assert!(version_is_newer("3.0", "2.5") && !version_is_newer("2.5", "3.0"));
    assert!(version_is_newer("2.5", "2.4.9") && version_is_newer("3.0", "2.4.9"));
}

#[test]
fn release_notes() {
    let notes = normalize_release_notes(Some(vec!["  a ".to_string(), "   ".to_string(), "b".to_string()]), None);
    assert_eq!(notes, vec!["a", "b"]);
    let from_log = normalize_release_notes(
        Some(vec!["  ".to_string()]),
        Some("- first\n\n* second \n•  third\n  plain".to_string()),
    );
    assert_eq!(from_log, vec!["first", "second", "third", "plain"]);
    assert!(normalize_release_notes(None, None).is_empty());
}

#[test]
fn update_info() {
    let fb = fallback_update_info("1.0.0".to_string());
    assert_eq!(fb.latest_version, "1.0.0");
    assert!(!fb.has_update);
    assert_eq!(fb.release_page_url, "https://crescendum.lanzout.com/b00rp145sh");

    let info = update_info_from_manifest(
        "1.0.0".to_string(),
        UpdateManifest {
            version: "v1.1.0".to_string(),
            download_url: "  ".to_string(),
            title: Some("T".to_string()),
            message: None,
            notes: None,
            changelog: Some("- fix".to_string()),
        },
    );
    assert_eq!(info.latest_version, "1.1.0");
    assert!(info.has_update);
    assert_eq!(info.release_page_url, "https://crescendum.lanzout.com/b00rp145sh");
    assert_eq!(info.release_name, Some("T".to_string()));
    assert_eq!(info.release_notes, vec!["fix"]);

    let none = update_info_from_manifest(
        "1.0.0".to_string(),
        UpdateManifest {
            version: "v".to_string(),
            download_url: "https://x".to_string(),
            title: Some("T".to_string()),
            message: None,
            notes: None,
            changelog: None,
        },
    );
    assert_eq!(none.latest_version, "1.0.0");
    assert!(!none.has_update);
    assert_eq!(none.release_name, None);
}
