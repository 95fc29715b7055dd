use xtask::check;
use xtask::commit::{is_footer_start, is_prose_line, parse_header, BODY_PROSE_RUN_MAX, HEADER_MAX};

fn errors_of(message: &str) -> Vec<String> {
    check(message)
}

#[test]
fn accepts_plain_scoped_and_breaking_headers() {
    assert!(errors_of("feat: add thing").is_empty());
    assert!(errors_of("fix(cli): correct thing").is_empty());
    assert!(errors_of("chore!: drop old thing").is_empty());
    assert!(errors_of("docs(api): note").is_empty());
}

#[test]
fn rejects_missing_type_and_non_ascii_subject() {
    assert!(!errors_of("initial commit").is_empty());
    assert!(!errors_of("feat: 添加了什么").is_empty());
    assert!(!errors_of("FEAT: loud").is_empty());
    assert!(!errors_of("feat(CLI): loud scope").is_empty());
}

#[test]
fn enforces_header_length_and_blank_separator() {
    let long = format!("feat: {}", "x".repeat(HEADER_MAX));
    assert!(!errors_of(&long).is_empty());
    assert!(!errors_of("feat: x\nbody without blank line").is_empty());
    assert!(errors_of("feat: x\n\nbody is fine").is_empty());
}

#[test]
fn footers_need_a_preceding_blank_line() {
    assert!(errors_of("feat: x\n\nbody\n\nBREAKING CHANGE: y").is_empty());
    assert!(!errors_of("feat: x\nbody\nBREAKING CHANGE: y").is_empty());
    assert!(!errors_of("feat: x\nbody\nReviewed-by: someone").is_empty());
    assert!(errors_of("feat: x\n\nReviewed-by: someone").is_empty());
}

#[test]
fn rejects_html_comments_anywhere() {
    assert!(!errors_of("feat: x\n\nbody\n\n<!-- template note -->").is_empty());
    assert!(!errors_of("feat: x\n\n<!-- lone comment -->").is_empty());
    assert!(errors_of("feat: x\n\nbody without comments").is_empty());
}

#[test]
fn long_prose_paragraphs_must_be_split() {
    let prose = |n: usize| {
        (1..=n)
            .map(|i| format!("line {i}"))
            .collect::<Vec<_>>()
            .join("\n")
    };
    assert!(errors_of(&format!("feat: x\n\n{}", prose(BODY_PROSE_RUN_MAX))).is_empty());
    assert!(!errors_of(&format!("feat: x\n\n{}", prose(BODY_PROSE_RUN_MAX + 1))).is_empty());
    let split = format!("feat: x\n\n{}\n\n{}", prose(4), prose(4));
    assert!(errors_of(&split).is_empty());
    assert_eq!(
        errors_of(&format!("feat: x\n\n{}", prose(BODY_PROSE_RUN_MAX + 3))).len(),
        1
    );
}

#[test]
fn formatted_body_blocks_are_not_prose() {
    let bullets = (1..=10)
        .map(|i| format!("- item {i}"))
        .collect::<Vec<_>>()
        .join("\n");
    assert!(errors_of(&format!("feat: x\n\n{bullets}")).is_empty());
    let numbered = (1..=10)
        .map(|i| format!("{i}. item"))
        .collect::<Vec<_>>()
        .join("\n");
    assert!(errors_of(&format!("feat: x\n\n{numbered}")).is_empty());
    let quote = (1..=10)
        .map(|i| format!("> note {i}"))
        .collect::<Vec<_>>()
        .join("\n");
    assert!(errors_of(&format!("feat: x\n\n{quote}")).is_empty());
    let fence = format!("feat: x\n\n```text\n{}\n```", "log line\n".repeat(10));
    assert!(errors_of(&fence).is_empty());
}

#[test]
fn rejects_task_lists_and_cut_lines() {
    assert!(!errors_of("feat: x\n\nbody\n\n- [ ] open item").is_empty());
    assert!(!errors_of("feat: x\n\nbody\n\n- [x] done item").is_empty());
    assert!(!errors_of("feat: x\n\nbody\n\n  - [X] nested item").is_empty());
    assert!(!errors_of("feat: x\n\nbody\n\n---").is_empty());
    assert!(!errors_of("feat: x\n\nbody\n\n\n---\n\nmore").is_empty());
    assert!(errors_of("feat: x\n\nbody\n\n- plain item\n- another --- with text").is_empty());
}

#[test]
fn git_style_comment_lines_are_stripped_first() {
    assert!(errors_of("feat: x\n# Please enter the commit message").is_empty());
    assert_eq!(errors_of("# only a comment"), vec!["message is empty"]);
}

#[test]
fn exact_messages_in_message_order() {
    let long = format!("feat: {}", "x".repeat(HEADER_MAX));
    assert_eq!(
        errors_of(&long),
        vec![format!("header is {} chars (max 100)", HEADER_MAX + 6)]
    );
    assert_eq!(
        errors_of("wip: thing"),
        vec!["unknown type \"wip\"; allowed: feat, fix, docs, style, refactor, perf, test, build, ci, chore, revert"]
    );
    assert_eq!(
        errors_of("feat:  x\nbody"),
        vec![
            "subject must not have leading/trailing whitespace",
            "header and body must be separated by a blank line",
        ]
    );
    assert_eq!(
        errors_of("feat: x\nReviewed-by: \"someone\""),
        vec![
            "header and body must be separated by a blank line".to_string(),
            "footer line 2 (\"Reviewed-by: \\\"someone\\\"\"…) must be preceded by a blank line"
                .to_string(),
        ]
    );
    assert_eq!(
        errors_of("feat: x\n\n<!-- - [ ] -->\n---"),
        vec![
            "line 3 contains an HTML comment (`<!--`) — delete the template's comments instead of merging them",
            "line 4 is a bare `---` — the cut-line convention is gone; the whole PR body lands as the commit body",
        ]
    );
    let prose = (1..=9).map(|i| format!("p{i}")).collect::<Vec<_>>().join("\n");
    assert_eq!(
        errors_of(&format!("feat: x\n\n{prose}")),
        vec!["body paragraph at line 3 runs past 7 prose lines — split it into shorter paragraphs or use a list"]
    );
}

#[test]
fn header_shape_errors() {
    let shape = "header must match `type(scope): subject` (lowercase type, optional lowercase scope, optional `!`)";
    assert_eq!(errors_of("feat(: x"), vec![shape]);
    assert_eq!(errors_of("feat(): x"), vec![shape]);
    assert_eq!(errors_of("feat(a b): x"), vec![shape]);
    assert!(errors_of("feat(a-1)!: x").is_empty());
    assert_eq!(errors_of("feat: "), vec!["subject must not be empty"]);
    assert_eq!(errors_of("feat: é"), vec!["subject must be pure ASCII (English)"]);
    assert_eq!(errors_of(""), vec!["message is empty"]);
    assert_eq!(errors_of("\n\n"), vec!["message is empty"]);
}

#[test]
fn header_shapes() {
    let pair = |t: &str, s: &str| Some((t.to_string(), s.to_string()));
    assert_eq!(parse_header("feat(cli)!: add x"), pair("feat", "add x"));
    assert_eq!(parse_header("fix: a: b"), pair("fix", "a: b"));
    assert_eq!(parse_header("feat(a-1): x"), pair("feat", "x"));
    assert_eq!(parse_header("feat(): x"), None);
    assert_eq!(parse_header("feat(cli: x"), None);
    assert_eq!(parse_header("feat:x"), None);
    assert_eq!(parse_header(": x"), None);
    assert_eq!(parse_header("Feat: x"), None);
    assert_eq!(parse_header("++i;"), None);
}

#[test]
fn prose_and_footer_lines() {
    assert!(is_prose_line("plain words"));
    assert!(is_prose_line("1x is not a list"));
    assert!(!is_prose_line(""));
    assert!(!is_prose_line("---"));
    assert!(!is_prose_line("- item"));
    assert!(!is_prose_line("> quoted"));
    assert!(!is_prose_line("12. numbered"));
    assert!(!is_prose_line("3) numbered"));
    assert!(is_footer_start("Refs #12"));
    assert!(is_footer_start("Signed-off-by: A <a@b>"));
    assert!(is_footer_start("BREAKING CHANGE: gone"));
    assert!(is_footer_start("BREAKING-CHANGE: gone"));
    assert!(!is_footer_start("1abc: x"));
    assert!(!is_footer_start("word"));
    assert!(!is_footer_start("two words: x"));
}

#[test]
fn footer_tokens_follow_the_documented_grammar() {
    assert!(is_footer_start("BREAKING-CHANGES: x"));
    assert!(is_footer_start("BREAKING-CHANGE #12"));
    assert!(is_footer_start("Closes #1"));
    assert!(!is_footer_start("BREAKING CHANGES: x"));
    assert!(!is_footer_start("line 1"));
}

#[test]
fn only_the_first_trailer_of_a_block_needs_a_blank_line() {
    assert!(errors_of("feat: x\n\nbody\n\nCloses #1\nReviewed-by: someone").is_empty());
    let errors = errors_of("feat: x\n\nbody\nCloses #1\nReviewed-by: someone");
    assert_eq!(errors.len(), 1);
    assert!(errors[0].starts_with("footer line 4 "));
}

#[test]
fn errors_come_in_line_order() {
    let errors = errors_of("feat: x\nReviewed-by: a\n<!-- c -->");
    assert_eq!(
        errors,
        vec![
            "header and body must be separated by a blank line".to_string(),
            "footer line 2 (\"Reviewed-by: a\"…) must be preceded by a blank line".to_string(),
            "line 3 contains an HTML comment (`<!--`) — delete the template's comments instead of merging them".to_string(),
        ]
    );
    let prose: Vec<String> = (0..8).map(|i| format!("line {i}")).collect();
    let message = format!("feat: x\n\n{}\n<!-- c -->", prose.join("\n"));
    let errors = errors_of(&message);
    assert_eq!(errors.len(), 2);
    assert!(errors[0].starts_with("body paragraph at line 3 "));
    assert!(errors[1].starts_with("line 11 contains an HTML comment"));
}
