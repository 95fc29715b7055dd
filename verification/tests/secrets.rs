use xtask::secrets::{
    contains_prefixed_token, hunk_new_start, is_secret_assignment, ALLOW_MARKER, KEY_BEGIN, KEY_END,
};
use xtask::{scan_diff, Finding};

fn paths(findings: &[Finding]) -> Vec<&str> {
    findings.iter().map(|f| f.pattern).collect()
}

#[test]
fn scans_added_lines_only() {
    let token = format!("ghp_{}", "a".repeat(30));
    let removed = format!("--- a/.env\n+++ b/.env\n-{token}\n");
    assert!(scan_diff(&removed).is_empty());
    let added = format!("--- a/.env\n+++ b/.env\n+{token}\n");
    let findings = scan_diff(&added);
    assert_eq!(paths(&findings), vec!["GitHub token"]);
    assert_eq!(findings[0].path, ".env");
}

#[test]
fn tracks_new_file_lines_for_annotations() {
    let token = format!("ghp_{}", "a".repeat(30));
    let diff = format!("--- a/f.txt\n+++ b/f.txt\n@@ -2,2 +2,3 @@\n ctx\n+{token}\n+plain\n");
    let findings = scan_diff(&diff);
    assert_eq!(findings.len(), 1);
    assert_eq!(findings[0].new_line, Some(3));
    assert_eq!(
        findings[0].to_string(),
        "f.txt:3: matches secret pattern \"GitHub token\""
    );
    assert!(findings[0]
        .annotation()
        .starts_with("::error file=f.txt,line=3,"));
    let bare = scan_diff(&format!("+{token}\n"));
    assert_eq!(bare[0].new_line, None);
    assert!(bare[0].annotation().starts_with("::error title="));
}

#[test]
fn finds_each_pattern_family() {
    let key = format!("+{KEY_BEGIN}RSA{KEY_END}");
    let github = format!("+gho_{}", "b".repeat(36));
    let pat = format!("+github_pat_{}", "c".repeat(30));
    let aws = format!("+AKIA{}", "D".repeat(16));
    let slack = format!("+xoxb-{}", "1234567890-abc");
    let env = format!("+OPENAI_API_KEY=sk-{}", "e".repeat(20));
    let diff = format!("{key}\n{github}\n{pat}\n{aws}\n{slack}\n{env}\n");
    assert_eq!(
        paths(&scan_diff(&diff)),
        vec![
            "private key block",
            "GitHub token",
            "GitHub token",
            "AWS access key ID",
            "Slack token",
            ".env-style secret assignment",
        ]
    );
}

#[test]
fn ignores_lookalikes() {
    let diff = "\
+tokens look like ghp_ followed by base62
+footer (`TOKEN: value` / `TOKEN #value`)
+let token = parse(header);
+GITHUB_TOKEN: ${{ secrets.GITHUB_TOKEN }}
+API_KEY=<your-key-here>
+PASSWORD=changeme-me
+DB_PASSWORD=short
+a key header starts with -----BEGIN and a type word
+a lone suffix PRIVATE KEY----- is not a header
";
    assert!(scan_diff(diff).is_empty());
}

#[test]
fn env_assignment_edge_cases() {
    let real = format!("+SESSION_TOKEN={}", "f".repeat(24));
    assert_eq!(paths(&scan_diff(&real)), vec![".env-style secret assignment"]);
    let exported = format!("+export AWS_SECRET_ACCESS_KEY={}", "g".repeat(24));
    assert_eq!(paths(&scan_diff(&exported)), vec![".env-style secret assignment"]);
    assert!(scan_diff("+TOKEN = abcdefghijkl\n").is_empty());
    let quoted = format!("+API_KEY=\"{}\"", "h".repeat(16));
    assert_eq!(paths(&scan_diff(&quoted)), vec![".env-style secret assignment"]);
    assert!(scan_diff("+API_KEY=\"<123456>\"\n").is_empty());
    for line in [
        "+SECRET=${VAULT_REF}",
        "+SECRET=%VAULT_REF%",
        "+API_TOKEN=your-token-here",
        "+PASSWORD=xxxxxxxxxxxx",
        "+TOKEN=example-value-123",
        "+PASSWORD=changeme123",
        "+PASSWORD=change-me-123",
        "+TOKEN=placeholder-value",
        "+TOKEN=redacted-value-1",
    ] {
        assert!(scan_diff(line).is_empty(), "should not flag: {line}");
    }
}

#[test]
fn allow_marker_skips_documented_examples() {
    let marked = format!("+AWS_ACCESS_KEY_ID=AKIA{} # {ALLOW_MARKER}", "I".repeat(16));
    assert!(scan_diff(&marked).is_empty());
    let canonical = format!("+AKIA{}", "IOSFODNN7EXAMPLE");
    assert_eq!(paths(&scan_diff(&canonical)), vec!["AWS access key ID"]);
    let mixed = format!("+ghp_{}", "A1_b2".repeat(6));
    assert_eq!(paths(&scan_diff(&mixed)), vec!["GitHub token"]);
}

#[test]
fn findings_report_diff_lines_and_degrade_without_path() {
    let token = format!("ghp_{}", "z".repeat(25));
    let diff = format!("context\n+{token}\n");
    let findings = scan_diff(&diff);
    assert_eq!(findings.len(), 1);
    assert_eq!(findings[0].path, "");
    assert_eq!(findings[0].diff_line, 2);
    assert_eq!(
        findings[0].to_string(),
        "diff line 2: matches secret pattern \"GitHub token\""
    );
    let with_path = scan_diff(&format!("+++ b/a.rs\n+{token}\n"));
    assert_eq!(
        with_path[0].to_string(),
        "a.rs (diff line 2): matches secret pattern \"GitHub token\""
    );
    assert_eq!(
        with_path[0].annotation(),
        "::error title=pr-guard secret scan::possible secret: GitHub token — rotate if real; documented examples carry the `pr-guard:allow` marker"
    );
    let dev_null = scan_diff(&format!("+++ /dev/null\n+{token}\n"));
    assert_eq!(dev_null[0].path, "");
}

#[test]
fn multibyte_values_count_bytes() {
    // four two-byte characters are eight bytes: long enough to count
    assert_eq!(
        paths(&scan_diff("+TOKEN=éééé\n")),
        vec![".env-style secret assignment"]
    );
    assert!(scan_diff("+TOKEN=ééé\n").is_empty());
}

#[test]
fn hunk_headers_and_token_helpers() {
    assert_eq!(hunk_new_start("@@ -2,2 +2,3 @@"), Some(2));
    assert_eq!(hunk_new_start("@@ -1 +15 @@ fn x()"), Some(15));
    assert_eq!(hunk_new_start("@@ -1 +x @@"), None);
    assert_eq!(hunk_new_start("+++ b/f"), None);
    let prefixes: [&'static str; 2] = ["ab_", "cd_"];
    assert!(contains_prefixed_token("x cd_12345", &prefixes, 5));
    assert!(!contains_prefixed_token("x cd_1234-5", &prefixes, 5));
    assert!(!contains_prefixed_token("x ef_12345", &prefixes, 5));
    assert!(is_secret_assignment(&format!("export API_TOKEN=\"{}\"", "abcd1234efgh")));
    assert!(is_secret_assignment(&format!("db.password={}", "hunter2".repeat(2))));
    assert!(!is_secret_assignment("API_TOKEN=short"));
    assert!(!is_secret_assignment("API_TOKEN = abcd1234efgh"));
    assert!(!is_secret_assignment("NAME=abcd1234efgh"));
    assert!(!is_secret_assignment("API_TOKEN=<your-token-here>"));
    assert!(!is_secret_assignment(&format!("1TOKEN={}", "abcd1234efgh")));
}

#[test]
fn slack_search_resumes_after_each_match() {
    let tail = "1234567890";
    let overlapping = format!("+xoxo{}-{tail}\n", "xb");
    assert!(scan_diff(&overlapping).is_empty());
    let plain = format!("+xo{}-{tail}\n", "xb");
    assert_eq!(paths(&scan_diff(&plain)), vec!["Slack token"]);
}

#[test]
fn new_file_lines_need_a_hunk_header() {
    let diff = format!("+x\n+ghp_{}\n", "a".repeat(30));
    let findings = scan_diff(&diff);
    assert_eq!(findings.len(), 1);
    assert_eq!(findings[0].new_line, None);
    assert!(findings[0].annotation().starts_with("::error title="));
}

#[test]
fn env_values_may_not_start_with_whitespace() {
    assert!(!is_secret_assignment(&format!("TOKEN= {}", "abcdefghijkl")));
    assert!(is_secret_assignment(&format!("TOKEN={}", "abcdefghijkl")));
}

#[test]
fn display_quotes_the_pattern_name() {
    let f = Finding { path: String::new(), diff_line: 4, new_line: None, pattern: "Slack token" };
    assert_eq!(f.to_string(), "diff line 4: matches secret pattern \"Slack token\"");
    let g = Finding { path: "a".to_string(), diff_line: 2, new_line: None, pattern: "odd \"name\"" };
    assert_eq!(g.to_string(), "a (diff line 2): matches secret pattern \"odd \\\"name\\\"\"");
}
