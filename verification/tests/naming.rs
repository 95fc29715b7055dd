use xtask::is_kebab_case;
use xtask::naming::is_github_owner;

#[test]
fn kebab_case_validation() {
    assert!(is_kebab_case("a"));
    assert!(is_kebab_case("my-cli"));
    assert!(is_kebab_case("x1-y2"));
    assert!(!is_kebab_case("1abc"));
    assert!(!is_kebab_case("My-Cli"));
    assert!(!is_kebab_case("my_cli"));
    assert!(!is_kebab_case("my--cli"));
    assert!(!is_kebab_case("-cli"));
    assert!(!is_kebab_case("cli-"));
    assert!(!is_kebab_case(""));
}

#[test]
fn github_owner_validation() {
    assert!(is_github_owner("octocat"));
    assert!(is_github_owner("my-org"));
    assert!(is_github_owner("a"));
    assert!(!is_github_owner("-bad"));
    assert!(!is_github_owner("bad-"));
    assert!(!is_github_owner("bad_name"));
    assert!(!is_github_owner(""));
}

#[test]
fn kebab_names_are_valid_owners() {
    for name in ["a", "my-cli", "x1-y2", "abc-9-z"] {
        assert!(is_kebab_case(name));
        assert!(is_github_owner(name));
    }
    assert!(is_github_owner("My-Org"));
    assert!(!is_kebab_case("My-Org"));
    assert!(!is_kebab_case("café"));
}
