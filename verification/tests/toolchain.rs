use xtask::toolchain::{
    bump_plan, bumped_content, current_channel, is_channel_line, parse_channel,
    parse_latest_stable, parse_version, quoted_value,
};

const TOOLCHAIN: &str =
    "# a comment\n[toolchain]\nchannel = \"1.94.0\"\ncomponents = [\"rustfmt\", \"clippy\"]\n";
const MANIFEST: &str = "manifest-version = \"2\"\ndate = \"2026-08-18\"\n\n[pkg.rust]\nversion = \"1.98.0 (88d9e12ae 2026-08-18)\"\ngit_commit_hash = \"88d9e12ae\"\n\n[pkg.cargo]\nversion = \"0.99.0 (abc 2026-08-18)\"\n";

#[test]
fn parses_channel_and_manifest_version() {
    assert_eq!(parse_channel(TOOLCHAIN).as_deref(), Some("1.94.0"));
    assert_eq!(parse_latest_stable(MANIFEST).as_deref(), Some("1.98.0"));
}

#[test]
fn compares_only_three_part_versions() {
    assert!(parse_version("1.98.0") < parse_version("1.98.1"));
    assert!(parse_version("1.98.0") > parse_version("1.97.1"));
    assert_eq!(parse_version("nightly"), None);
    assert_eq!(parse_version("1.98"), None);
}

#[test]
fn rewrites_only_the_channel_line() {
    let updated = bumped_content(TOOLCHAIN, "1.98.0").unwrap();
    assert!(updated.contains("channel = \"1.98.0\""));
    assert!(updated.contains("# a comment"));
    assert!(updated.ends_with('\n'));
    assert!(!updated.contains("1.94.0"));
}

#[test]
fn version_parts_are_plain_digits() {
    assert_eq!(parse_version("1.98.0"), Some((1, 98, 0)));
    assert_eq!(parse_version("+1.2.3"), None);
    assert_eq!(parse_version("1.+2.3"), None);
    assert_eq!(parse_version("1.98.0.1"), None);
    assert_eq!(parse_version("1..0"), None);
    assert_eq!(parse_version("1.-2.0"), None);
    assert_eq!(parse_version("18446744073709551615.0.0"), Some((u64::MAX, 0, 0)));
    assert_eq!(parse_version("18446744073709551616.0.0"), None);
}

#[test]
fn channel_lines_and_quoted_values() {
    assert!(is_channel_line("  channel   = \"x\""));
    assert!(is_channel_line("channel=\"x\""));
    assert!(!is_channel_line("channels = \"x\""));
    assert!(!is_channel_line("# channel = \"x\""));
    assert_eq!(quoted_value("a = \"b\" \"c\"").as_deref(), Some("b"));
    assert_eq!(quoted_value("a = \"\"").as_deref(), Some(""));
    assert_eq!(quoted_value("a = \"b"), None);
    assert_eq!(quoted_value("a = b"), None);
    assert_eq!(parse_channel("[toolchain]\n"), None);
}

#[test]
fn rewrite_keeps_indentation_and_missing_final_newline() {
    let content = "[toolchain]\n  channel = \"1.1.1\"\nchannel = \"2.2.2\"";
    assert_eq!(
        bumped_content(content, "3.0.0").as_deref(),
        Some("[toolchain]\n  channel = \"3.0.0\"\nchannel = \"2.2.2\"")
    );
    assert_eq!(bumped_content("[toolchain]\n", "3.0.0"), None);
}

#[test]
fn bump_decisions() {
    assert_eq!(current_channel(TOOLCHAIN, "rt.toml"), Ok("1.94.0".to_string()));
    assert_eq!(
        current_channel("[toolchain]\n", "rt.toml"),
        Err("no `channel = \"...\"` line in rt.toml".to_string())
    );
    assert_eq!(
        current_channel("channel = \"stable\"\n", "rt.toml"),
        Err("channel \"stable\" is not a pinned X.Y.Z version; refusing to guess".to_string())
    );
    assert_eq!(bump_plan(TOOLCHAIN, "1.94.0", "1.94.0", "rt.toml"), Ok(None));
    assert_eq!(bump_plan(TOOLCHAIN, "1.94.0", "1.93.9", "rt.toml"), Ok(None));
    let updated = bump_plan(TOOLCHAIN, "1.94.0", "1.98.0", "rt.toml").unwrap().unwrap();
    assert_eq!(parse_channel(&updated).as_deref(), Some("1.98.0"));
    assert_eq!(parse_latest_stable("[pkg.rust]\nversion = 1\n"), None);
    assert_eq!(parse_latest_stable("version = \"1.0.0\"\n"), None);
}

#[test]
fn bumping_twice_is_bumping_once() {
    let once = bumped_content(TOOLCHAIN, "1.98.0").unwrap();
    assert_eq!(bumped_content(&once, "1.98.0").as_deref(), Some(once.as_str()));
    let crlf = "[toolchain]\r\n  channel = \"1.1.1\"\r\nx = 1\r\n";
    let once = bumped_content(crlf, "2.0.0").unwrap();
    assert_eq!(once, "[toolchain]\n  channel = \"2.0.0\"\nx = 1\n");
    assert_eq!(bumped_content(&once, "2.0.0").as_deref(), Some(once.as_str()));
    // a line ending in "\r\r\n" loses one '\r' per rewrite
    let stray = "a\r\r\nchannel = \"1.0.0\"\n";
    let once = bumped_content(stray, "2.0.0").unwrap();
    assert_eq!(once, "a\r\nchannel = \"2.0.0\"\n");
    assert_eq!(bumped_content(&once, "2.0.0").as_deref(), Some("a\nchannel = \"2.0.0\"\n"));
}
