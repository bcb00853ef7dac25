use agent_rules::upgrade::{
    asset_name, extract_tag_from_headers, old_sibling_name, parse_version, plan_upgrade,
    UpgradePlan,
};

#[test]
fn asset_name_covers_all_supported_platforms() {
    assert_eq!(
        asset_name("macos", "x86_64"),
        Ok("agent-rules-darwin-amd64")
    );
    assert_eq!(
        asset_name("macos", "aarch64"),
        Ok("agent-rules-darwin-arm64")
    );
    assert_eq!(asset_name("linux", "x86_64"), Ok("agent-rules-linux-amd64"));
    assert_eq!(
        asset_name("windows", "x86_64"),
        Ok("agent-rules-windows-amd64.exe")
    );
}

#[test]
fn asset_name_rejects_unsupported_platform() {
    let err = asset_name("linux", "aarch64").unwrap_err();
    assert!(err.contains("linux-aarch64"), "error message: {err}");
}

#[test]
fn asset_name_error_lists_supported_platforms() {
    assert_eq!(
        asset_name("freebsd", "x86_64"),
        Err("no prebuilt binary for freebsd-x86_64 (supported: macos-x86_64, macos-aarch64, linux-x86_64, windows-x86_64)".to_string())
    );
}

#[test]
fn tag_extraction_from_normal_crlf_headers() {
    let headers = "HTTP/2 302\r\ncontent-type: text/html\r\nlocation: https://github.com/crsanti/agent-rules/releases/tag/v0.3.0\r\n\r\n";
    assert_eq!(extract_tag_from_headers(headers), Ok("v0.3.0".to_string()));
}

#[test]
fn tag_extraction_is_case_insensitive_on_header_name() {
    let headers = "HTTP/2 302\r\nLocation: https://github.com/crsanti/agent-rules/releases/tag/v0.3.0\r\n";
    assert_eq!(extract_tag_from_headers(headers), Ok("v0.3.0".to_string()));

    let headers = "HTTP/2 302\r\nLOCATION: https://github.com/crsanti/agent-rules/releases/tag/v0.3.0\r\n";
    assert_eq!(extract_tag_from_headers(headers), Ok("v0.3.0".to_string()));
}

#[test]
fn tag_extraction_trims_trailing_whitespace_and_junk() {
    let headers =
        "HTTP/2 302\r\nlocation: https://github.com/crsanti/agent-rules/releases/tag/v0.3.0   \r\n";
    assert_eq!(extract_tag_from_headers(headers), Ok("v0.3.0".to_string()));
}

#[test]
fn tag_extraction_errors_without_location_header() {
    let headers = "HTTP/2 200\r\ncontent-type: text/html\r\n";
    assert!(extract_tag_from_headers(headers).is_err());
}

#[test]
fn tag_extraction_reports_which_failure() {
    assert_eq!(
        extract_tag_from_headers("HTTP/2 200\r\n"),
        Err("no 'location' header in response (releases/latest did not redirect as expected)".to_string())
    );
    assert_eq!(
        extract_tag_from_headers("location: https://example.com/tag/ \r\n"),
        Err("empty 'location' header".to_string())
    );
    assert_eq!(
        extract_tag_from_headers("location:v1.0.0"),
        Ok("v1.0.0".to_string())
    );
}

#[test]
fn version_parsing_accepts_v_prefix_and_bare_form() {
    assert_eq!(parse_version("v0.2.0"), Ok((0, 2, 0)));
    assert_eq!(parse_version("0.2.0"), Ok((0, 2, 0)));
}

#[test]
fn version_parsing_strips_prerelease_suffix() {
    assert_eq!(parse_version("v1.2.3-rc1"), Ok((1, 2, 3)));
    assert_eq!(parse_version("1.2.3+build5"), Ok((1, 2, 3)));
}

#[test]
fn version_parsing_rejects_garbage() {
    assert!(parse_version("not-a-version").is_err());
    assert!(parse_version("1.2").is_err());
    assert!(parse_version("1.2.3.4").is_err());
    assert!(parse_version("1.2.x").is_err());
}

#[test]
fn version_parsing_error_quotes_the_input() {
    assert_eq!(
        parse_version("1.2"),
        Err("not a valid version: \"1.2\"".to_string())
    );
    assert!(parse_version("1.2.18446744073709551616").is_err());
    assert_eq!(
        parse_version("1.2.18446744073709551615"),
        Ok((1, 2, 18446744073709551615))
    );
}

#[test]
fn version_ordering_compares_numerically_not_lexically() {
    assert!(parse_version("v0.2.10").unwrap() > parse_version("v0.2.9").unwrap());
}

#[test]
fn old_sibling_name_appends_rather_than_replaces_extension() {
    assert_eq!(old_sibling_name("agent-rules.exe"), "agent-rules.exe.old");
    assert_eq!(old_sibling_name("agent-rules"), "agent-rules.old");
}

#[test]
fn upgrade_plan_follows_version_order() {
    assert!(matches!(
        plan_upgrade("v0.3.0", "0.3.0", "linux", "x86_64"),
        Ok(UpgradePlan::UpToDate)
    ));
    assert!(matches!(
        plan_upgrade("v0.2.9", "0.2.10", "linux", "x86_64"),
        Ok(UpgradePlan::Ahead)
    ));
    match plan_upgrade("v0.2.10", "0.2.9", "linux", "x86_64") {
        Ok(UpgradePlan::Download { asset, url }) => {
            assert_eq!(asset, "agent-rules-linux-amd64");
            assert_eq!(
                url,
                "https://github.com/crsanti/agent-rules/releases/download/v0.2.10/agent-rules-linux-amd64"
            );
        }
        _ => panic!("expected a download"),
    }
}

#[test]
fn upgrade_plan_reports_bad_versions_and_platforms() {
    assert_eq!(
        plan_upgrade("latest", "0.1.0", "linux", "x86_64").err(),
        Some("latest release tag \"latest\": not a valid version: \"latest\"".to_string())
    );
    assert_eq!(
        plan_upgrade("v1.0.0", "dev", "linux", "x86_64").err(),
        Some("current version \"dev\": not a valid version: \"dev\"".to_string())
    );
    assert_eq!(
        plan_upgrade("v1.0.0", "0.1.0", "linux", "aarch64").err(),
        Some("no prebuilt binary for linux-aarch64 (supported: macos-x86_64, macos-aarch64, linux-x86_64, windows-x86_64)".to_string())
    );
}

#[test]
fn printed_versions_read_back() {
    for (a, b, c) in [(0u64, 0u64, 0u64), (1, 22, 333), (u64::MAX, 7, 10)] {
        let s = format!("{a}.{b}.{c}");
        assert_eq!(parse_version(&s), Ok((a, b, c)));
        assert_eq!(parse_version(&format!("v{s}")), Ok((a, b, c)));
    }
    assert!(parse_version("1.2.18446744073709551616").is_err());
    assert!(parse_version("+1.2.3").is_err());
}
