use xtask::calendar::civil_from_days;
use xtask::scaffold::{
    adr_record, crate_manifest, epoch_days, project_readme, replace_text, snake_case,
    strip_template_only_text, README_TEMPLATE, LIB_RS_TEMPLATE,
};

#[test]
fn civil_from_days_matches_known_dates() {
    assert_eq!(civil_from_days(0), "1970-01-01");
    assert_eq!(civil_from_days(20_089), "2025-01-01");
}

#[test]
fn civil_from_days_leap_days_and_far_years() {
    assert_eq!(civil_from_days(59), "1970-03-01");
    assert_eq!(civil_from_days(11_016), "2000-02-29");
    assert_eq!(civil_from_days(11_017), "2000-03-01");
    assert_eq!(civil_from_days(47_541), "2100-03-01");
    assert_eq!(civil_from_days(47_540), "2100-02-28");
    assert_eq!(civil_from_days(2_932_896), "9999-12-31");
    assert_eq!(civil_from_days(2_932_897), "10000-01-01");
}

#[test]
fn template_only_strip_handles_both_comment_styles() {
    let text = "keep1\n# >>> template-only\ndrop\n// <<< template-only\nkeep2\n";
    assert_eq!(strip_template_only_text(text), "keep1\nkeep2\n");
}

#[test]
fn strip_keeps_text_without_markers_and_unterminated_blocks_drop_the_rest() {
    assert_eq!(strip_template_only_text("a\nb"), "a\nb");
    assert_eq!(strip_template_only_text(""), "");
    assert_eq!(strip_template_only_text("a\n>>> template-only\nb\nc"), "a\n");
}

#[test]
fn placeholders_are_substituted() {
    assert_eq!(snake_case("my-cli-tool"), "my_cli_tool");
    let manifest = crate_manifest("my-cli");
    assert!(manifest.starts_with("[package]\nname = \"my-cli\"\n"));
    assert!(!manifest.contains("NAME_PLACEHOLDER"));
    let readme = project_readme(README_TEMPLATE, "my-cli", "octocat");
    assert!(readme.starts_with("# my-cli\n"));
    assert!(readme.contains("https://github.com/octocat/my-cli/actions"));
    assert!(!readme.contains("@PROJECT@") && !readme.contains("@OWNER@"));
    assert!(adr_record("2025-01-01").contains("- Date: 2025-01-01\n"));
    assert!(LIB_RS_TEMPLATE.starts_with("//!"));
}

#[test]
fn epoch_days_floor_seconds() {
    assert_eq!(epoch_days(0), 0);
    assert_eq!(epoch_days(86_399), 0);
    assert_eq!(epoch_days(86_400), 1);
}

#[test]
fn replace_text_follows_str_replace() {
    assert_eq!(replace_text("a__p__b__p__", "__p__", "x"), "axbx");
    assert_eq!(replace_text("aaa", "aa", "b"), "ba");
    assert_eq!(replace_text("none here", "zz", "y"), "none here");
    assert_eq!(replace_text("abc", "", "-"), "abc".replace("", "-"));
    assert_eq!(replace_text("", "", "-"), "-");
}
