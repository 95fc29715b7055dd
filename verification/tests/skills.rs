use xtask::skills::{
    check_agents_md_text, check_pointer_text, check_skill_text, parse_frontmatter,
    split_frontmatter, Frontmatter,
};

fn parse(text: &str) -> (Frontmatter, Vec<String>) {
    let mut failures = Vec::new();
    let frontmatter = parse_frontmatter(text, "test/SKILL.md", &mut failures);
    (frontmatter, failures)
}

#[test]
fn split_tolerates_crlf_checkouts() {
    let (frontmatter, body) =
        split_frontmatter("---\r\nname: x\r\n---\r\nbody\r\n").expect("valid frontmatter");
    assert_eq!(frontmatter, "name: x");
    assert_eq!(body, "body\n");
}

#[test]
fn split_distinguishes_open_and_close_failures() {
    assert_eq!(
        split_frontmatter("name: x\n").unwrap_err(),
        "missing YAML frontmatter (must start with ---)"
    );
    assert_eq!(
        split_frontmatter("---\nname: x\n").unwrap_err(),
        "frontmatter is not closed with ---"
    );
}

#[test]
fn plain_scalars_parse() {
    let (frontmatter, failures) = parse("name: pr-preflight\ndescription: short\n");
    assert!(failures.is_empty());
    assert_eq!(frontmatter.get("description").unwrap(), "short");
}

#[test]
fn unquoted_colon_space_is_rejected() {
    let (_, failures) = parse("description: layer on top: diff self-review\n");
    assert_eq!(failures.len(), 1);
    assert!(failures[0].contains("wrap the value in double quotes"));
}

#[test]
fn quoted_colon_space_is_accepted() {
    let (frontmatter, failures) = parse("description: \"layer on top: diff\"\n");
    assert!(failures.is_empty());
    assert_eq!(frontmatter.get("description").unwrap(), "layer on top: diff");
}

#[test]
fn unterminated_quote_and_indicators_are_rejected() {
    let (_, failures) = parse("description: \"never closed\n");
    assert_eq!(failures.len(), 1);
    let (_, failures) = parse("description: >- folded\n");
    assert_eq!(failures.len(), 1);
}

#[test]
fn later_keys_override_earlier_ones() {
    let (frontmatter, failures) = parse("name: a\n# comment\n\nname: 'b'\nlicense: MIT\n");
    assert!(failures.is_empty());
    assert_eq!(frontmatter.get("name").unwrap(), "b");
    assert_eq!(frontmatter.keys(), vec!["name", "license"]);
    assert_eq!(frontmatter.get("metadata"), None);
    let (_, failures) = parse("no colon here\n");
    assert_eq!(
        failures,
        vec!["test/SKILL.md: unparseable frontmatter line: \"no colon here\""]
    );
}

#[test]
fn skill_checks_report_every_failure() {
    let mut failures = Vec::new();
    check_skill_text(
        "s/SKILL.md",
        "pr-preflight",
        "---\nname: other\ncolor: red\n---\nbody\n",
        &mut failures,
    );
    assert_eq!(
        failures,
        vec![
            "s/SKILL.md: unsupported frontmatter keys [\"color\"] — only [\"name\", \"description\", \"license\", \"allowed-tools\", \"metadata\"] are allowed; activation conditions belong in `description`, not custom fields",
            "s/SKILL.md: name \"other\" must equal directory name \"pr-preflight\"",
            "s/SKILL.md: frontmatter requires `description`",
        ]
    );
    let mut failures = Vec::new();
    check_skill_text("s/SKILL.md", "s", "no frontmatter", &mut failures);
    assert_eq!(
        failures,
        vec!["s/SKILL.md: missing YAML frontmatter (must start with ---)"]
    );
    let mut failures = Vec::new();
    let body = "x".repeat(20_001);
    check_skill_text(
        "s/SKILL.md",
        "s",
        &format!("---\nname: s\ndescription: ok\n---\n{body}"),
        &mut failures,
    );
    assert_eq!(
        failures,
        vec!["s/SKILL.md: body is 20001 chars, exceeding the 20000-char budget — move detail into reference files inside the skill directory"]
    );
    let mut failures = Vec::new();
    check_skill_text("s/SKILL.md", "s", "---\nname: s\ndescription: ''\n---\n", &mut failures);
    assert_eq!(
        failures,
        vec!["s/SKILL.md: description must be 1..1024 chars (got 0)"]
    );
}

#[test]
fn agents_md_and_pointer_checks() {
    let mut failures = Vec::new();
    check_agents_md_text("# AGENTS\n\nLast reviewed: 2026-01-01\n", &mut failures);
    assert!(failures.is_empty());
    check_agents_md_text("# AGENTS\n1\n2\n3\n4\nLast reviewed\n", &mut failures);
    assert_eq!(
        failures,
        vec!["AGENTS.md: missing the freshness note (Last reviewed) in the header"]
    );
    let mut failures = Vec::new();
    let long = format!("Last reviewed\n{}", "x\n".repeat(250));
    check_agents_md_text(&long, &mut failures);
    assert_eq!(
        failures,
        vec!["AGENTS.md: 251 lines exceeds the 250-line budget"]
    );
    let mut failures = Vec::new();
    check_pointer_text("HOST.md", "AGENTS.md", "<!-- note -->\n\n  @AGENTS.md  \n", &mut failures);
    assert!(failures.is_empty());
    check_pointer_text("HOST.md", "AGENTS.md", "@AGENTS.md\ncopy\n", &mut failures);
    assert_eq!(
        failures,
        vec!["HOST.md: must contain only the @AGENTS.md reference (SSOT — never a copy)"]
    );
}

#[test]
fn skills_link_text_fallback() {
    assert!(xtask::skills::skills_link_text_ok("../.agents/skills\n"));
    assert!(xtask::skills::skills_link_text_ok("  ../.agents/skills"));
    assert!(!xtask::skills::skills_link_text_ok("../agents/skills"));
    assert!(!xtask::skills::skills_link_text_ok(""));
}

#[test]
fn a_loadable_skill_passes() {
    let mut failures = Vec::new();
    xtask::skills::check_skill_text(
        ".agents/skills/demo/SKILL.md",
        "demo",
        "---\nname: demo\ndescription: does a thing\n---\nbody\n",
        &mut failures,
    );
    assert!(failures.is_empty());
    xtask::skills::check_skill_text(
        ".agents/skills/demo/SKILL.md",
        "demo",
        "---\nname: other\ndescription: does a thing\nwhen: now\n---\nbody\n",
        &mut failures,
    );
    assert_eq!(failures.len(), 2);
}
