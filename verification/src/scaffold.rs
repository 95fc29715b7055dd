//! The text side of project bootstrapping and crate scaffolding: the
//! templates, placeholder substitution and the removal of template-only
//! blocks.

use vstd::prelude::*;
use crate::text;
use crate::text::{
    chars_of, contains_str, push_chars, replace_all, replace_empty, slice_chars, split_char, string_of,
};

verus! {

/// The manifest of a new internal workspace crate; `NAME_PLACEHOLDER` is the
/// crate's name.
pub const CARGO_TOML_TEMPLATE: &'static str = r#"[package]
name = "NAME_PLACEHOLDER"
description = "TODO: one-line description of this crate"
# Internal crates carry no semver burden. To publish later, switch to
# version.workspace = true, drop publish = false, and register the package
# in release-plz.toml — see CONTRIBUTING.md.
version = "0.0.0"
publish = false
edition.workspace = true
rust-version.workspace = true
license.workspace = true

[lints]
workspace = true

[dependencies]
"#;

/// The `src/lib.rs` of a new internal workspace crate.
pub const LIB_RS_TEMPLATE: &'static str =
    "//! TODO: crate documentation (the contract for consumers, not an implementation recap)\n";

/// The project README; `@PROJECT@` is the project name and `@OWNER@` the
/// GitHub owner.
pub const README_TEMPLATE: &'static str = r"# @PROJECT@

[中文文档](./README.zh-CN.md)

[![CI](https://github.com/@OWNER@/@PROJECT@/actions/workflows/ci.yml/badge.svg)](https://github.com/@OWNER@/@PROJECT@/actions/workflows/ci.yml)
[![crates.io](https://img.shields.io/crates/v/@PROJECT@.svg)](https://crates.io/crates/@PROJECT@)
[![license](https://img.shields.io/badge/license-MIT%20OR%20Apache--2.0-blue.svg)](./LICENSE-MIT)

TODO: one-line description of what this project does (also update `description` in crates/@PROJECT@/Cargo.toml).

## Install

After the first release, use the installer from GitHub Releases:

    curl --proto '=https' --tlsv1.2 -LsSf https://github.com/@OWNER@/@PROJECT@/releases/latest/download/@PROJECT@-installer.sh | sh

or install from crates.io:

    cargo install @PROJECT@

## Usage

See `@PROJECT@ --help`.

## Development

    direnv allow   # or: nix develop (entering the shell also arms the git hooks)
    just ci        # full quality gate (local green ≡ CI green)

See [CONTRIBUTING.md](./CONTRIBUTING.md).

## License

MIT OR Apache-2.0 — see [LICENSE-MIT](./LICENSE-MIT) and [LICENSE-APACHE](./LICENSE-APACHE).
";

/// The Chinese project README, with the same placeholders.
pub const README_ZH_TEMPLATE: &'static str = r"# @PROJECT@

[English](./README.md)（如有出入以英文版为准）

TODO: 一句话说明这个项目做什么（同步更新 crates/@PROJECT@/Cargo.toml 的 description）。

## 安装

首次发版后可使用 GitHub Release 的安装脚本：

    curl --proto '=https' --tlsv1.2 -LsSf https://github.com/@OWNER@/@PROJECT@/releases/latest/download/@PROJECT@-installer.sh | sh

或从 crates.io 安装：

    cargo install @PROJECT@

## 使用

见 `@PROJECT@ --help`。

## 开发

    direnv allow   # 或 nix develop（进入 devShell 会自动安装 git 钩子）
    just ci        # 全量质量门（本地绿 ≡ CI 绿）

详见 [CONTRIBUTING.zh-CN.md](./CONTRIBUTING.zh-CN.md)。

## License

MIT OR Apache-2.0，见 [LICENSE-MIT](./LICENSE-MIT) 与 [LICENSE-APACHE](./LICENSE-APACHE)。
";

/// The first architecture decision record; `@DATE@` is the day of the
/// bootstrap.
pub const ADR_TEMPLATE: &'static str = r#"# 0001. Record architecture decisions with ADRs

- Status: accepted
- Date: @DATE@

## Context

The hardest thing to track over a project's lifetime is the *motivation* behind
decisions; rationale scattered across PR descriptions, chat and wikis rots or
contradicts itself.

## Decision

Record architecturally significant decisions as lightweight MADR files in
`docs/decisions/`, named `NNNN-title.md`, sequentially numbered, numbers never
reused. A superseded decision is marked `superseded by ADR-NNNN`, never deleted.
Code comments, docs and PR descriptions reference the number ("see ADR-0007")
instead of restating the rationale.

## Consequences

Each decision's rationale has exactly one authoritative location; a new decision
is a new file, so there is no merge-conflict hot spot. ADRs record "why we
decided this back then"; current-state descriptions belong to architecture docs
and code.
"#;


/// `str::split_inclusive` on one character: the pieces of `s`, each keeping
/// the `c` that ends it.
pub open spec fn split_inclusive(s: Seq<char>, c: char) -> Seq<Seq<char>> {
    let parts = text::split(s, c);
    let init = parts.take(parts.len() - 1).map_values(|p: Seq<char>| p.push(c));
    if parts.last().len() == 0 {
        init
    } else {
        init.push(parts.last())
    }
}

pub open spec fn opens_block(l: Seq<char>) -> bool {
    text::contains(l, ">>> template-only"@)
}

pub open spec fn closes_block(l: Seq<char>) -> bool {
    text::contains(l, "<<< template-only"@)
}

/// The stripper after the first `n` lines: (inside a template-only block,
/// text kept so far).
pub open spec fn strip_prefix_lines(ls: Seq<Seq<char>>, n: int) -> (bool, Seq<char>)
    decreases n,
{
    if n <= 0 {
        (false, Seq::<char>::empty())
    } else {
        let (inside, out) = strip_prefix_lines(ls, n - 1);
        let l = ls[n - 1];
        if opens_block(l) {
            (true, out)
        } else if closes_block(l) {
            (false, out)
        } else if !inside {
            (false, out + l)
        } else {
            (true, out)
        }
    }
}

/// `t` without the lines between `>>> template-only` and `<<< template-only`
/// markers, the marker lines included.
pub open spec fn template_stripped(t: Seq<char>) -> Seq<char> {
    let ls = split_inclusive(t, '\n');
    strip_prefix_lines(ls, ls.len() as int).1
}

/// No occurrence of a line-free pattern straddles a line break.
proof fn lemma_no_occurrence_across_lines(a: Seq<char>, b: Seq<char>, m: Seq<char>)
    requires
        !text::contains(a, m),
        !text::contains(b, m),
        a.len() == 0 || a.last() == '\n',
        !text::has_char(m, '\n'),
    ensures
        !text::contains(a + b, m),
{
    let ab = a + b;
    assert forall|j: int| !text::occurs_at(ab, m, j) by {
        if text::occurs_at(ab, m, j) {
            if j + m.len() <= a.len() {
                assert(a.subrange(j, j + m.len()) =~= ab.subrange(j, j + m.len()));
                assert(text::occurs_at(a, m, j));
            } else if j >= a.len() {
                assert(b.subrange(j - a.len(), j - a.len() + m.len()) =~= ab.subrange(
                    j,
                    j + m.len(),
                ));
                assert(text::occurs_at(b, m, j - a.len()));
            } else {
                let k = a.len() - 1 - j;
                assert(ab.subrange(j, j + m.len())[k] == ab[a.len() - 1]);
                assert(m[k] == '\n');
            }
        }
    }
}

proof fn lemma_strip_prefix_clean(ls: Seq<Seq<char>>, n: int)
    requires
        0 <= n <= ls.len(),
        forall|i: int| 0 <= i < ls.len() - 1 ==> (#[trigger] ls[i]).len() > 0 && ls[i].last()
            == '\n',
    ensures
        !text::contains(strip_prefix_lines(ls, n).1, ">>> template-only"@),
        !text::contains(strip_prefix_lines(ls, n).1, "<<< template-only"@),
        n < ls.len() ==> strip_prefix_lines(ls, n).1.len() == 0 || strip_prefix_lines(
            ls,
            n,
        ).1.last() == '\n',
    decreases n,
{
    reveal_strlit(">>> template-only");
    reveal_strlit("<<< template-only");
    let m1 = ">>> template-only"@;
    let m2 = "<<< template-only"@;
    assert(!text::has_char(m1, '\n')) by {
        if text::has_char(m1, '\n') {
            let k = choose|k: int| 0 <= k < m1.len() && m1[k] == '\n';
        }
    }
    assert(!text::has_char(m2, '\n')) by {
        if text::has_char(m2, '\n') {
            let k = choose|k: int| 0 <= k < m2.len() && m2[k] == '\n';
        }
    }
    if n <= 0 {
        let e = Seq::<char>::empty();
        assert forall|j: int| !text::occurs_at(e, m1, j) && !text::occurs_at(e, m2, j) by {}
    } else {
        lemma_strip_prefix_clean(ls, n - 1);
        let (inside, out) = strip_prefix_lines(ls, n - 1);
        let l = ls[n - 1];
        if !opens_block(l) && !closes_block(l) && !inside {
            lemma_no_occurrence_across_lines(out, l, m1);
            lemma_no_occurrence_across_lines(out, l, m2);
            if n < ls.len() {
                assert((out + l).last() == l.last());
            }
        }
    }
}

/// No template-only marker is left: the stripped text contains neither
/// `>>> template-only` nor `<<< template-only`.
pub proof fn stripped_text_has_no_markers(t: Seq<char>)
    ensures
        !text::contains(template_stripped(t), ">>> template-only"@),
        !text::contains(template_stripped(t), "<<< template-only"@),
{
    let ls = split_inclusive(t, '\n');
    let parts = text::split(t, '\n');
    text::lemma_split_nonempty(t, '\n');
    assert forall|i: int| 0 <= i < ls.len() - 1 implies (#[trigger] ls[i]).len() > 0
        && ls[i].last() == '\n' by {
        assert(ls[i] == parts[i].push('\n'));
    }
    lemma_strip_prefix_clean(ls, ls.len() as int);
}

/// Delete every line between `>>> template-only` and `<<< template-only`
/// markers inclusive; the marker works with any comment prefix.
pub fn strip_template_only_text(t: &str) -> (out: String)
    ensures
        out@ == template_stripped(t@),
{
    let chars = chars_of(t);
    let parts = split_char(chars.as_slice(), '\n');
    proof {
        text::lemma_split_nonempty(t@, '\n');
    }
    let ghost ls = split_inclusive(t@, '\n');
    let ghost ps = text::split(t@, '\n');
    let n = parts.len() - 1;
    let count: usize = if parts[n].len() == 0 { n } else { n + 1 };
    assert(text::views(parts@)[n as int] == parts@[n as int]@);
    assert(ls.len() == count);
    let mut out = String::new();
    let mut inside = false;
    let mut i: usize = 0;
    while i < count
        invariant
            text::views(parts@) == ps,
            ps == text::split(t@, '\n'),
            ls == split_inclusive(t@, '\n'),
            n == parts@.len() - 1,
            count == ls.len(),
            count <= n + 1,
            i <= count,
            strip_prefix_lines(ls, i as int) == (inside, out@),
        decreases count - i,
    {
        let part = parts[i].as_slice();
        assert(ps[i as int] == part@);
        let mut piece: Vec<char> = slice_chars(part, 0, part.len());
        assert(piece@ =~= part@);
        if i < n {
            piece.push('\n');
        }
        assert(piece@ =~= ls[i as int]);
        if contains_str(piece.as_slice(), ">>> template-only") {
            inside = true;
        } else if contains_str(piece.as_slice(), "<<< template-only") {
            inside = false;
        } else if !inside {
            push_chars(&mut out, piece.as_slice());
        }
        i += 1;
    }
    out
}

/// `text` with every occurrence of `pattern` replaced, as `str::replace`
/// does it (the empty pattern matches before each character and at the end).
pub fn replace_text(t: &str, pattern: &str, replacement: &str) -> (out: String)
    ensures
        out@ == text::replace(t@, pattern@, replacement@),
{
    let chars = chars_of(t);
    let p = chars_of(pattern);
    let r = if p.len() == 0 {
        assert(pattern@ =~= Seq::<char>::empty());
        replace_empty(chars.as_slice(), replacement)
    } else {
        replace_all(chars.as_slice(), pattern, replacement)
    };
    string_of(r.as_slice())
}

/// The manifest of a new crate named `name`.
pub fn crate_manifest(name: &str) -> (out: String)
    ensures
        out@ == text::replace(CARGO_TOML_TEMPLATE@, "NAME_PLACEHOLDER"@, name@),
{
    proof {
        reveal_strlit("NAME_PLACEHOLDER");
    }
    replace_text(CARGO_TOML_TEMPLATE, "NAME_PLACEHOLDER", name)
}

/// The Rust crate name of a kebab-case project name (`-` becomes `_`).
pub fn snake_case(name: &str) -> (out: String)
    ensures
        out@ == text::replace(name@, "-"@, "_"@),
{
    proof {
        reveal_strlit("-");
    }
    replace_text(name, "-", "_")
}

/// A README template with the project name and owner filled in.
pub fn project_readme(template: &str, name: &str, owner: &str) -> (out: String)
    ensures
        out@ == text::replace(text::replace(template@, "@PROJECT@"@, name@), "@OWNER@"@, owner@),
{
    proof {
        reveal_strlit("@PROJECT@");
        reveal_strlit("@OWNER@");
    }
    let a = replace_text(template, "@PROJECT@", name);
    replace_text(a.as_str(), "@OWNER@", owner)
}

/// The first decision record, dated `date`.
pub fn adr_record(date: &str) -> (out: String)
    ensures
        out@ == text::replace(ADR_TEMPLATE@, "@DATE@"@, date@),
{
    proof {
        reveal_strlit("@DATE@");
    }
    replace_text(ADR_TEMPLATE, "@DATE@", date)
}

/// Whole days since 1970-01-01 for a count of seconds since then.
pub fn epoch_days(secs: u64) -> (days: u64)
    ensures
        days == secs / 86400,
{
    secs / 86400
}

/// A project name with its hyphens replaced holds no hyphen.
pub proof fn snake_case_has_no_hyphen(s: Seq<char>)
    ensures
        !text::has_char(text::replace(s, "-"@, "_"@), '-'),
    decreases s.len(),
{
    reveal_strlit("-");
    reveal_strlit("_");
    let p = "-"@;
    let r = "_"@;
    assert(p =~= seq!['-']);
    assert(r =~= seq!['_']);
    match text::find(s, p) {
        None => {
            assert forall|i: int| 0 <= i < s.len() implies s[i] != '-' by {
                if s[i] == '-' {
                    assert(s.subrange(i, i + 1) =~= p);
                    assert(text::occurs_at(s, p, i));
                    let f = text::first_occurrence(s, p, i);
                    assert(text::is_first(s, p, f));
                }
            }
        },
        Some(i) => {
            let j = choose|j: int| text::is_first(s, p, j);
            assert(text::is_first(s, p, i));
            snake_case_has_no_hyphen(s.skip(i + 1));
            let rest = text::replace(s.skip(i + 1), p, r);
            assert forall|k: int| 0 <= k < i implies s[k] != '-' by {
                if s[k] == '-' {
                    assert(s.subrange(k, k + 1) =~= p);
                    assert(text::occurs_at(s, p, k));
                }
            }
            let whole = s.take(i) + r + rest;
            assert(text::replace(s, p, r) == whole);
            assert forall|k: int| 0 <= k < whole.len() implies whole[k] != '-' by {
                if k < i {
                    assert(whole[k] == s[k]);
                } else if k == i {
                    assert(whole[k] == '_');
                } else {
                    assert(whole[k] == rest[k - i - 1]);
                }
            }
        },
    }
}

} // verus!
