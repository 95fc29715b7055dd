# xtask

Repository automation for a Rust project template, written in Verus: the
text checks that git hooks and CI run, with their behaviour stated as
`requires`/`ensures` contracts and proved.

## Layout

- `src/` — the verified library.
  - `text.rs`: character classes, searching, splitting, trimming and number
    formatting over `Seq<char>`, shared by the other modules.
  - `commit.rs`: the commit-message convention check (`check`), specified
    message by message by `violations`.
  - `secrets.rs`: the secret scan of unified diffs (`scan_diff`) and the
    `Finding` it reports.
  - `toolchain.rs`: reading and rewriting the pinned `channel` of
    rust-toolchain.toml, and the bump decision.
  - `skills.rs`: skill frontmatter parsing and the agent-doc checks.
  - `naming.rs`: kebab-case crate names and GitHub owner names.
  - `scaffold.rs`: templates, template-only block stripping and placeholder
    substitution for bootstrapping and new crates.
  - `calendar.rs`: the civil date of a day count since 1970-01-01.
  - `greeting.rs`: the greeting library of the generated command-line tool.
- `tests/` — executable tests of the library.
- `app/` — the command-line shell: argument handling, file system, processes
  and network access, which call into the library.
