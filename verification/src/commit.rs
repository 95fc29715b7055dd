//! Validation of a commit message (or PR title) against the repository's
//! modified Conventional Commits convention.
//!
//!   header:  `type(scope)!: subject` — type from [`TYPES`], optional lowercase
//!            `[a-z0-9-]+` scope, optional `!` breaking marker; subject pure
//!            ASCII; whole header at most [`HEADER_MAX`] chars
//!   body:    separated from the header by one blank line; no HTML comments,
//!            no task-list items (`- [ ]`) and no bare `---` lines anywhere; a
//!            prose paragraph runs at most [`BODY_PROSE_RUN_MAX`] lines (list
//!            items, blockquotes and fenced code are exempt)
//!   footer:  `TOKEN: value` / `TOKEN #value` (incl. `BREAKING CHANGE:`) must
//!            start the footer block, preceded by a blank line

use vstd::prelude::*;
use crate::text;
use crate::text::{
    chars_all_ascii, chars_eq, chars_of, char_is_alnum, char_is_digit, char_is_lower,
    contains_str, eq_str, has_prefix, push_decimal, push_message, push_quoted,
    leading_digits, skip_chars, slice_chars, split_char, split_once_str, take_chars, text_num_text, trim_chars,
    trim_start_chars, debug_str, string_of,
};

verus! {

/// The longest accepted header, in characters.
pub const HEADER_MAX: usize = 100;

/// Longest tolerated run of consecutive prose lines in a body.
pub const BODY_PROSE_RUN_MAX: usize = 7;

/// The commit types, which double as version intent.
pub const TYPES: [&'static str; 11] = [
    "feat",
    "fix",
    "docs",
    "style",
    "refactor",
    "perf",
    "test",
    "build",
    "ci",
    "chore",
    "revert",
];

// ---------------------------------------------------------------------------
// The model
// ---------------------------------------------------------------------------

/// A `#` line, which git strips from the message.
pub open spec fn is_comment(l: Seq<char>) -> bool {
    l.len() > 0 && l[0] == '#'
}

/// The lines that are not comments, in order.
pub open spec fn drop_comments(ls: Seq<Seq<char>>) -> Seq<Seq<char>>
    decreases ls.len(),
{
    if ls.len() == 0 {
        ls
    } else {
        let r = drop_comments(ls.drop_last());
        if is_comment(ls.last()) {
            r
        } else {
            r.push(ls.last())
        }
    }
}

/// `ls` without its trailing empty lines.
pub open spec fn drop_trailing_blank(ls: Seq<Seq<char>>) -> Seq<Seq<char>>
    decreases ls.len(),
{
    if ls.len() > 0 && ls.last().len() == 0 {
        drop_trailing_blank(ls.drop_last())
    } else {
        ls
    }
}

/// The lines the convention applies to.
pub open spec fn message_lines(t: Seq<char>) -> Seq<Seq<char>> {
    drop_trailing_blank(drop_comments(text::split(t, '\n')))
}

pub open spec fn is_type_name(ty: Seq<char>) -> bool {
    exists|i: int| 0 <= i < 11 && ty == (#[trigger] TYPES[i])@
}

pub open spec fn all_lower(s: Seq<char>) -> bool {
    forall|i: int| 0 <= i < s.len() ==> text::is_lower(#[trigger] s[i])
}

pub open spec fn is_scope_char(c: char) -> bool {
    text::is_lower(c) || text::is_digit(c) || c == '-'
}

pub open spec fn valid_type(ty: Seq<char>) -> bool {
    ty.len() > 0 && all_lower(ty)
}

pub open spec fn valid_scope(scope: Seq<char>) -> bool {
    scope.len() > 0 && forall|i: int| 0 <= i < scope.len() ==> is_scope_char(#[trigger] scope[i])
}

/// The prefix without its `!` breaking marker.
pub open spec fn strip_bang(p: Seq<char>) -> Seq<char> {
    if p.len() > 0 && p.last() == '!' {
        p.drop_last()
    } else {
        p
    }
}

/// `type(scope)!: subject` split into `(type, subject)`, or `None` when the
/// header does not have that shape (the regex
/// `^([a-z]+)(\(([a-z0-9-]+)\))?(!)?: (.*)$`).
pub open spec fn parse_header_spec(h: Seq<char>) -> Option<(Seq<char>, Seq<char>)> {
    match text::split_once(h, ": "@) {
        None => None,
        Some((p, subject)) => {
            let prefix = strip_bang(p);
            match text::split_once(prefix, seq!['(']) {
                Some((ty, rest)) => {
                    if rest.len() > 0 && rest.last() == ')' && valid_type(ty) && valid_scope(
                        rest.drop_last(),
                    ) {
                        Some((ty, subject))
                    } else {
                        None
                    }
                },
                None => {
                    if valid_type(prefix) {
                        Some((prefix, subject))
                    } else {
                        None
                    }
                },
            }
        },
    }
}

/// The optional `(scope)` group of a header: absent when `scope` is empty.
pub open spec fn scope_part(scope: Seq<char>) -> Seq<char> {
    if scope.len() == 0 {
        Seq::<char>::empty()
    } else {
        seq!['('] + scope + seq![')']
    }
}

/// The optional `!` breaking marker.
pub open spec fn bang_part(bang: bool) -> Seq<char> {
    if bang {
        seq!['!']
    } else {
        Seq::<char>::empty()
    }
}

/// `h` matches `^([a-z]+)(\(([a-z0-9-]+)\))?(!)?: (.*)$` with `ty` as the
/// first group and `subject` as the last.
pub open spec fn header_matches(h: Seq<char>, ty: Seq<char>, subject: Seq<char>) -> bool {
    exists|scope: Seq<char>, bang: bool|
        {
            &&& valid_type(ty)
            &&& scope.len() == 0 || valid_scope(scope)
            &&& h == ty + scope_part(scope) + bang_part(bang) + ": "@ + subject
        }
}

proof fn lemma_split_once_parts(s: Seq<char>, p: Seq<char>)
    requires
        text::split_once(s, p) is Some,
    ensures
        match text::split_once(s, p) {
            Some((a, b)) => s == a + p + b,
            None => false,
        },
{
    let i = text::find(s, p)->0;
    let j = choose|j: int| text::is_first(s, p, j);
    assert(text::is_first(s, p, i));
    assert(s.subrange(i, i + p.len()) == p);
    assert(s =~= s.take(i) + p + s.skip(i + p.len()));
}

/// Where `p` does not occur, `find` finds nothing.
proof fn lemma_find_none(s: Seq<char>, p: Seq<char>)
    requires
        forall|j: int| !text::occurs_at(s, p, j),
    ensures
        text::find(s, p) is None,
{
}

/// `c` occurs nowhere in `s`, so no pattern starting with `c` does.
proof fn lemma_no_occurrence(s: Seq<char>, p: Seq<char>, c: char, n: int)
    requires
        p.len() > 0,
        p[0] == c,
        0 <= n <= s.len(),
        forall|k: int| 0 <= k < n ==> s[k] != c,
    ensures
        forall|j: int| 0 <= j < n ==> !text::occurs_at(s, p, j),
{
    assert forall|j: int| 0 <= j < n implies !text::occurs_at(s, p, j) by {
        if text::occurs_at(s, p, j) {
            assert(s.subrange(j, j + p.len())[0] == s[j]);
        }
    }
}

#[verifier::spinoff_prover]
proof fn lemma_parsed_header_matches(h: Seq<char>, ty: Seq<char>, subject: Seq<char>)
    requires
        parse_header_spec(h) == Some((ty, subject)),
    ensures
        header_matches(h, ty, subject),
{
    reveal_strlit(": ");
    let sep = ": "@;
    assert(sep =~= seq![':', ' ']);
    lemma_split_once_parts(h, sep);
    let (p, subj) = text::split_once(h, sep)->0;
    let prefix = strip_bang(p);
    let bang = p.len() > 0 && p.last() == '!';
    assert(p =~= prefix + bang_part(bang));
    match text::split_once(prefix, seq!['(']) {
        Some((t, rest)) => {
            lemma_split_once_parts(prefix, seq!['(']);
            let scope = rest.drop_last();
            assert(rest =~= scope + seq![')']);
            assert(h =~= ty + scope_part(scope) + bang_part(bang) + sep + subject);
        },
        None => {
            let scope = Seq::<char>::empty();
            assert(h =~= ty + scope_part(scope) + bang_part(bang) + sep + subject);
        },
    }
}

#[verifier::spinoff_prover]
proof fn lemma_matching_header_parses(h: Seq<char>, ty: Seq<char>, subject: Seq<char>)
    requires
        header_matches(h, ty, subject),
    ensures
        parse_header_spec(h) == Some((ty, subject)),
{
    reveal_strlit(": ");
    let sep = ": "@;
    assert(sep =~= seq![':', ' ']);
    let (scope, bang) = choose|scope: Seq<char>, bang: bool|
        {
            &&& valid_type(ty)
            &&& scope.len() == 0 || valid_scope(scope)
            &&& h == ty + scope_part(scope) + bang_part(bang) + ": "@ + subject
        };
    let q = ty + scope_part(scope);
    let pre = q + bang_part(bang);
    let n = pre.len() as int;
    assert forall|k: int| 0 <= k < n implies pre[k] != ':' by {
        if k < ty.len() {
            assert(pre[k] == ty[k]);
            assert(text::is_lower(ty[k]));
        } else if k < q.len() {
            assert(pre[k] == scope_part(scope)[k - ty.len()]);
            if k > ty.len() && k < q.len() - 1 {
                assert(scope_part(scope)[k - ty.len()] == scope[k - ty.len() - 1]);
                assert(is_scope_char(scope[k - ty.len() - 1]));
            }
        } else {
            assert(pre[k] == bang_part(bang)[k - q.len()]);
        }
    }
    assert(h =~= pre + sep + subject);
    assert forall|k: int| 0 <= k < n implies h[k] != ':' by {
        assert(h[k] == pre[k]);
    }
    lemma_no_occurrence(h, sep, ':', n);
    assert(h.subrange(n, n + 2) =~= sep);
    assert(text::is_first(h, sep, n));
    text::lemma_find_is(h, sep, n);
    assert(h.take(n) =~= pre);
    assert(h.skip(n + 2) =~= subject);
    assert(strip_bang(pre) == q) by {
        if bang {
            assert(pre.drop_last() =~= q);
        } else {
            assert(pre =~= q);
            if scope.len() > 0 {
                assert(q.last() == ')');
            } else {
                assert(q.last() == ty.last());
                assert(text::is_lower(ty[ty.len() - 1]));
            }
        }
    }
    let open = seq!['('];
    assert forall|k: int| 0 <= k < ty.len() implies q[k] != '(' by {
        assert(q[k] == ty[k]);
        assert(text::is_lower(ty[k]));
    }
    if scope.len() == 0 {
        assert(q =~= ty);
        lemma_no_occurrence(q, open, '(', q.len() as int);
        assert forall|j: int| !text::occurs_at(q, open, j) by {
            if text::occurs_at(q, open, j) {
                assert(0 <= j < q.len());
            }
        }
        lemma_find_none(q, open);
    } else {
        let m = ty.len() as int;
        lemma_no_occurrence(q, open, '(', m);
        assert(q.subrange(m, m + 1) =~= open);
        assert(text::is_first(q, open, m));
        text::lemma_find_is(q, open, m);
        assert(q.take(m) =~= ty);
        let rest = q.skip(m + 1);
        assert(rest =~= scope + seq![')']);
        assert(rest.drop_last() =~= scope);
    }
}

/// `parse_header` reads a header as the documented regex
/// `^([a-z]+)(\(([a-z0-9-]+)\))?(!)?: (.*)$`, returning its first and last
/// groups, and gives `None` exactly when the header does not match.
pub proof fn parse_header_is_the_regex(h: Seq<char>, ty: Seq<char>, subject: Seq<char>)
    ensures
        parse_header_spec(h) == Some((ty, subject)) <==> header_matches(h, ty, subject),
{
    if parse_header_spec(h) == Some((ty, subject)) {
        lemma_parsed_header_matches(h, ty, subject);
    }
    if header_matches(h, ty, subject) {
        lemma_matching_header_parses(h, ty, subject);
    }
}

pub open spec fn empty_msgs() -> Seq<Seq<char>> {
    Seq::<Seq<char>>::empty()
}

pub open spec fn header_length_errors(h: Seq<char>) -> Seq<Seq<char>> {
    if h.len() > HEADER_MAX {
        seq![
            "header is "@ + text::dec(h.len()) + " chars (max "@ + text::dec(HEADER_MAX as nat)
                + ")"@,
        ]
    } else {
        empty_msgs()
    }
}

/// The allowed types, comma separated.
pub open spec fn type_list() -> Seq<char> {
    "feat, fix, docs, style, refactor, perf, test, build, ci, chore, revert"@
}

/// Errors about the header's shape, type and subject. A type that parsed is
/// lowercase ASCII letters, whose `Debug` form is the type in quotes.
pub open spec fn header_errors(h: Seq<char>) -> Seq<Seq<char>> {
    match parse_header_spec(h) {
        None => seq![
            "header must match `type(scope): subject` (lowercase type, optional lowercase scope, optional `!`)"@,
        ],
        Some((ty, subject)) => {
            let type_errors = if is_type_name(ty) {
                empty_msgs()
            } else {
                seq!["unknown type "@ + text::quoted(ty) + "; allowed: "@ + type_list()]
            };
            let subject_errors = if subject.len() == 0 {
                seq!["subject must not be empty"@]
            } else {
                (if text::all_ascii(subject) {
                    empty_msgs()
                } else {
                    seq!["subject must be pure ASCII (English)"@]
                }) + (if subject == text::trim(subject) {
                    empty_msgs()
                } else {
                    seq!["subject must not have leading/trailing whitespace"@]
                })
            };
            type_errors + subject_errors
        },
    }
}

/// The separator error, reported at line 2.
pub open spec fn separator_errors(ls: Seq<Seq<char>>) -> Seq<Seq<char>> {
    if ls.len() > 1 && ls[1].len() != 0 {
        seq!["header and body must be separated by a blank line"@]
    } else {
        empty_msgs()
    }
}

pub open spec fn is_task_item(t: Seq<char>) -> bool {
    text::starts_with(t, "- [ ]"@) || text::starts_with(t, "- [x]"@) || text::starts_with(
        t,
        "- [X]"@,
    )
}

/// The scaffolding errors of the line numbered `n` (from 1).
pub open spec fn line_scaffolding_errors(l: Seq<char>, n: nat) -> Seq<Seq<char>> {
    let t = text::trim_start(l);
    (if text::contains(l, "<!--"@) {
        seq![
            "line "@ + text::dec(n)
                + " contains an HTML comment (`<!--`) — delete the template's comments instead of merging them"@,
        ]
    } else {
        empty_msgs()
    }) + (if is_task_item(t) {
        seq![
            "line "@ + text::dec(n)
                + " is a task-list item (`- [ ]`) — checklist scaffolding must not land in history"@,
        ]
    } else {
        empty_msgs()
    }) + (if t == "---"@ {
        seq![
            "line "@ + text::dec(n)
                + " is a bare `---` — the cut-line convention is gone; the whole PR body lands as the commit body"@,
        ]
    } else {
        empty_msgs()
    })
}

/// Length of the run of `[A-Za-z0-9-]` at the start of `s`.
pub open spec fn token_tail(s: Seq<char>) -> nat
    decreases s.len(),
{
    if s.len() > 0 && (text::is_alnum(s[0]) || s[0] == '-') {
        1 + token_tail(s.drop_first())
    } else {
        0
    }
}

/// Length of the `[A-Za-z][A-Za-z0-9-]*` token at the start of `l` (0 when
/// there is none).
pub open spec fn token_len(l: Seq<char>) -> nat {
    if l.len() > 0 && text::is_alpha(l[0]) {
        1 + token_tail(l.drop_first())
    } else {
        0
    }
}

/// `: ` or ` #` follows the first `n` characters of `l`.
pub open spec fn separator_after(l: Seq<char>, n: nat) -> bool {
    n <= l.len() && (text::starts_with(l.skip(n as int), ": "@) || text::starts_with(
        l.skip(n as int),
        " #"@,
    ))
}

/// A line that opens a footer token, the regex
/// `^(BREAKING CHANGE|BREAKING-CHANGE|[A-Za-z][A-Za-z0-9-]*)(: | #)`:
/// `BREAKING CHANGE`, or the longest `[A-Za-z][A-Za-z0-9-]*` token (which
/// covers `BREAKING-CHANGE`; a shorter token is followed by a token
/// character, never by `:` or a space), then `: ` or ` #`.
pub open spec fn is_footer_start_spec(l: Seq<char>) -> bool {
    ||| text::starts_with(l, "BREAKING CHANGE"@) && separator_after(l, 15)
    ||| token_len(l) > 0 && separator_after(l, token_len(l))
}

/// The first 30 characters of a line.
pub open spec fn preview(l: Seq<char>) -> Seq<char> {
    if l.len() <= 30 {
        l
    } else {
        l.take(30)
    }
}

/// Line `i` (from 0) is the first line of a footer block: a footer token
/// line after the header whose previous line is not itself a footer line of
/// the body.
pub open spec fn opens_footer_block(ls: Seq<Seq<char>>, i: int) -> bool {
    1 <= i < ls.len() && is_footer_start_spec(ls[i]) && !(i >= 2 && is_footer_start_spec(
        ls[i - 1],
    ))
}

/// The footer error of line `i` (from 0): a footer block must be preceded by
/// a blank line.
pub open spec fn footer_error_at(ls: Seq<Seq<char>>, i: int) -> Seq<Seq<char>> {
    if opens_footer_block(ls, i) && ls[i - 1].len() != 0 {
        seq![
            "footer line "@ + text::dec((i + 1) as nat) + " ("@ + text::str_debug(preview(ls[i]))
                + "…) must be preceded by a blank line"@,
        ]
    } else {
        empty_msgs()
    }
}

/// Whether a trimmed body line reads as flowing prose: not empty, not `---`,
/// not a list item (`- `, `* `, `+ `, `1. `, `1) `) and not a blockquote.
pub open spec fn is_prose_spec(t: Seq<char>) -> bool {
    let d = text::digit_run(t);
    !(t.len() == 0 || t == "---"@ || text::starts_with(t, "- "@) || text::starts_with(t, "* "@)
        || text::starts_with(t, "+ "@) || text::starts_with(t, "> "@)) && !(d > 0 && d <= t.len()
        && (text::starts_with(t.skip(d as int), ". "@) || text::starts_with(
        t.skip(d as int),
        ") "@,
    )))
}

/// A list marker: `-`, `*`, `+` or `>` followed by a space.
pub open spec fn starts_list_item(t: Seq<char>) -> bool {
    t.len() >= 2 && (t[0] == '-' || t[0] == '*' || t[0] == '+' || t[0] == '>') && t[1] == ' '
}

/// Bullet items (`- `, `* `, `+ `), blockquotes (`> `), empty lines and
/// `---` are never prose.
pub proof fn formatted_lines_are_not_prose(t: Seq<char>)
    ensures
        starts_list_item(t) ==> !is_prose_spec(t),
        t.len() == 0 ==> !is_prose_spec(t),
        t == seq!['-', '-', '-'] ==> !is_prose_spec(t),
{
    reveal_strlit("- ");
    reveal_strlit("* ");
    reveal_strlit("+ ");
    reveal_strlit("> ");
    reveal_strlit("---");
    if starts_list_item(t) {
        assert(t.take(2) =~= seq![t[0], ' ']);
        if t[0] == '-' {
            assert("- "@ =~= seq!['-', ' ']);
            assert(text::starts_with(t, "- "@));
        } else if t[0] == '*' {
            assert("* "@ =~= seq!['*', ' ']);
            assert(text::starts_with(t, "* "@));
        } else if t[0] == '+' {
            assert("+ "@ =~= seq!['+', ' ']);
            assert(text::starts_with(t, "+ "@));
        } else {
            assert("> "@ =~= seq!['>', ' ']);
            assert(text::starts_with(t, "> "@));
        }
    }
    if t == seq!['-', '-', '-'] {
        assert(t =~= "---"@);
    }
}

/// Numbered items (`1. `, `12) `) are never prose: `d` digits, then `.` or
/// `)` and a space.
pub proof fn numbered_items_are_not_prose(t: Seq<char>, d: int)
    requires
        0 < d,
        d + 2 <= t.len(),
        forall|k: int| 0 <= k < d ==> '0' <= #[trigger] t[k] <= '9',
        t[d] == '.' || t[d] == ')',
        t[d + 1] == ' ',
    ensures
        !is_prose_spec(t),
{
    reveal_strlit(". ");
    reveal_strlit(") ");
    lemma_digit_run_is(t, d);
    assert(t.skip(d).take(2) =~= seq![t[d], ' ']);
    if t[d] == '.' {
        assert(". "@ =~= seq!['.', ' ']);
        assert(text::starts_with(t.skip(d), ". "@));
    } else {
        assert(") "@ =~= seq![')', ' ']);
        assert(text::starts_with(t.skip(d), ") "@));
    }
}

proof fn lemma_digit_run_is(t: Seq<char>, d: int)
    requires
        0 <= d < t.len(),
        forall|k: int| 0 <= k < d ==> '0' <= #[trigger] t[k] <= '9',
        !('0' <= t[d] <= '9'),
    ensures
        text::digit_run(t) == d,
    decreases d,
{
    if d > 0 {
        let r = t.drop_first();
        assert forall|k: int| 0 <= k < d - 1 implies '0' <= #[trigger] r[k] <= '9' by {
            assert(r[k] == t[k + 1]);
        }
        lemma_digit_run_is(r, d - 1);
    }
}

proof fn lemma_lists_make_no_runs(ls: Seq<Seq<char>>, n: int)
    requires
        forall|i: int| 2 <= i < ls.len() ==> starts_list_item(text::trim_start(#[trigger] ls[i])),
        n <= ls.len(),
    ensures
        prose_scan(ls, n).1.len() == 0,
        prose_scan(ls, n).0.2 == 0,
    decreases n,
{
    if n > 2 {
        lemma_lists_make_no_runs(ls, n - 1);
        let t = text::trim_start(ls[n - 1]);
        assert(starts_list_item(t));
        formatted_lines_are_not_prose(t);
        let (st, starts) = prose_scan(ls, n - 1);
        let (st2, e) = prose_step(st, n - 1, ls[n - 1]);
        assert(e.len() == 0);
        assert(starts + e =~= starts);
    }
}

/// A body made only of list items and blockquotes has no paragraph-length
/// violation, however long it is.
pub proof fn list_bodies_have_no_long_paragraphs(t: Seq<char>)
    requires
        forall|i: int|
            2 <= i < message_lines(t).len() ==> starts_list_item(
                text::trim_start(#[trigger] message_lines(t)[i]),
            ),
    ensures
        long_runs(message_lines(t)).len() == 0,
        forall|i: int| prose_error_at(message_lines(t), i).len() == 0,
{
    let ls = message_lines(t);
    lemma_lists_make_no_runs(ls, ls.len() as int);
}

/// One body line (with index `index`) through the scanner, whose state is
/// (inside a code fence, first line of the current prose run, the run's
/// length): the next state, and the first line of the run when this line
/// takes it past [`BODY_PROSE_RUN_MAX`] lines.
pub open spec fn prose_step(st: (bool, int, int), index: int, l: Seq<char>) -> ((bool, int, int), Seq<
    int,
>) {
    let t = text::trim_start(l);
    if text::starts_with(t, "```"@) {
        ((!st.0, st.1, 0), Seq::<int>::empty())
    } else if st.0 || !is_prose_spec(t) {
        ((st.0, st.1, 0), Seq::<int>::empty())
    } else {
        let start = if st.2 == 0 {
            index
        } else {
            st.1
        };
        let len = st.2 + 1;
        (
            (st.0, start, len),
            if len == BODY_PROSE_RUN_MAX + 1 {
                seq![start]
            } else {
                Seq::<int>::empty()
            },
        )
    }
}

/// The scanner after the body lines `2..n`.
pub open spec fn prose_scan(ls: Seq<Seq<char>>, n: int) -> ((bool, int, int), Seq<int>)
    decreases n,
{
    if n <= 2 {
        ((false, 0, 0), Seq::<int>::empty())
    } else {
        let (st, starts) = prose_scan(ls, n - 1);
        let (st2, s) = prose_step(st, n - 1, ls[n - 1]);
        (st2, starts + s)
    }
}

/// The first lines of the runs of more than [`BODY_PROSE_RUN_MAX`]
/// consecutive prose lines outside code fences.
pub open spec fn long_runs(ls: Seq<Seq<char>>) -> Seq<int> {
    prose_scan(ls, ls.len() as int).1
}

pub open spec fn prose_message(i: int) -> Seq<char> {
    "body paragraph at line "@ + text::dec((i + 1) as nat) + " runs past "@ + text::dec(
        BODY_PROSE_RUN_MAX as nat,
    ) + " prose lines — split it into shorter paragraphs or use a list"@
}

/// The prose error of line `i` (from 0): a too-long paragraph starts there.
pub open spec fn prose_error_at(ls: Seq<Seq<char>>, i: int) -> Seq<Seq<char>> {
    if long_runs(ls).contains(i) {
        seq![prose_message(i)]
    } else {
        empty_msgs()
    }
}

/// The errors that name line `i` (from 0): header errors on line 1, the
/// separator error on line 2, then the line's scaffolding, footer and
/// paragraph errors.
pub open spec fn line_errors(ls: Seq<Seq<char>>, i: int) -> Seq<Seq<char>> {
    (if i == 0 {
        header_length_errors(ls[0]) + header_errors(ls[0])
    } else {
        empty_msgs()
    }) + (if i == 1 {
        separator_errors(ls)
    } else {
        empty_msgs()
    }) + line_scaffolding_errors(ls[i], (i + 1) as nat) + footer_error_at(ls, i)
        + prose_error_at(ls, i)
}

/// The errors of lines `0..n`, line by line.
pub open spec fn errors_through(ls: Seq<Seq<char>>, n: int) -> Seq<Seq<char>>
    decreases n,
{
    if n <= 0 {
        empty_msgs()
    } else {
        errors_through(ls, n - 1) + line_errors(ls, n - 1)
    }
}

/// All convention violations of a commit message, in message order: by the
/// line each error names.
pub open spec fn violations(t: Seq<char>) -> Seq<Seq<char>> {
    let ls = message_lines(t);
    if ls.len() == 0 {
        seq!["message is empty"@]
    } else {
        errors_through(ls, ls.len() as int)
    }
}

/// The header follows the convention: at most 100 characters,
/// `type(scope)!: subject` with a known type and a non-empty, pure ASCII
/// subject without surrounding whitespace.
pub open spec fn header_ok(h: Seq<char>) -> bool {
    h.len() <= 100 && match parse_header_spec(h) {
        Some((ty, subject)) => is_type_name(ty) && subject.len() > 0 && text::all_ascii(subject)
            && subject == text::trim(subject),
        None => false,
    }
}

/// The commit types are exactly `feat`, `fix`, `docs`, `style`,
/// `refactor`, `perf`, `test`, `build`, `ci`, `chore` and `revert`.
pub proof fn commit_types_are_the_documented_ones(ty: Seq<char>)
    ensures
        is_type_name(ty) <==> (ty == "feat"@ || ty == "fix"@ || ty == "docs"@ || ty == "style"@
            || ty == "refactor"@ || ty == "perf"@ || ty == "test"@ || ty == "build"@ || ty
            == "ci"@ || ty == "chore"@ || ty == "revert"@),
{
    if is_type_name(ty) {
        let i = choose|i: int| 0 <= i < 11 && ty == (#[trigger] TYPES[i])@;
        assert(0 <= i < 11);
    }
    if ty == "feat"@ {
        assert(ty == TYPES[0]@);
    } else if ty == "fix"@ {
        assert(ty == TYPES[1]@);
    } else if ty == "docs"@ {
        assert(ty == TYPES[2]@);
    } else if ty == "style"@ {
        assert(ty == TYPES[3]@);
    } else if ty == "refactor"@ {
        assert(ty == TYPES[4]@);
    } else if ty == "perf"@ {
        assert(ty == TYPES[5]@);
    } else if ty == "test"@ {
        assert(ty == TYPES[6]@);
    } else if ty == "build"@ {
        assert(ty == TYPES[7]@);
    } else if ty == "ci"@ {
        assert(ty == TYPES[8]@);
    } else if ty == "chore"@ {
        assert(ty == TYPES[9]@);
    } else if ty == "revert"@ {
        assert(ty == TYPES[10]@);
    }
}

/// No HTML comment, task-list item or bare `---` on the line.
pub open spec fn line_clean(l: Seq<char>) -> bool {
    !text::contains(l, "<!--"@) && !is_task_item(text::trim_start(l)) && text::trim_start(l)
        != "---"@
}

/// The documented convention, on the message's lines: a conforming header,
/// a blank second line if there is one, no scaffolding on any line, a blank
/// line before every footer block, and no prose paragraph longer than
/// [`BODY_PROSE_RUN_MAX`] lines.
pub open spec fn follows_convention(ls: Seq<Seq<char>>) -> bool {
    &&& ls.len() > 0
    &&& header_ok(ls[0])
    &&& ls.len() == 1 || ls[1].len() == 0
    &&& forall|i: int| 0 <= i < ls.len() ==> line_clean(#[trigger] ls[i])
    &&& forall|i: int| #[trigger] opens_footer_block(ls, i) ==> ls[i - 1].len() == 0
    &&& long_runs(ls).len() == 0
}

proof fn lemma_prose_scan_bounds(ls: Seq<Seq<char>>, n: int)
    requires
        2 <= n,
    ensures
        0 <= prose_scan(ls, n).0.1 < n,
        forall|k: int| 0 <= k < prose_scan(ls, n).1.len() ==> 0 <= #[trigger] prose_scan(ls, n).1[k] < n,
    decreases n,
{
    if n > 2 {
        lemma_prose_scan_bounds(ls, n - 1);
        let (st, starts) = prose_scan(ls, n - 1);
        let (st2, e) = prose_step(st, n - 1, ls[n - 1]);
        assert(prose_scan(ls, n).1 == starts + e);
        assert forall|k: int| 0 <= k < prose_scan(ls, n).1.len() implies 0 <= #[trigger] prose_scan(
            ls,
            n,
        ).1[k] < n by {
            if k < starts.len() {
                assert(prose_scan(ls, n).1[k] == starts[k]);
            } else {
                assert(prose_scan(ls, n).1[k] == e[k - starts.len()]);
            }
        }
    }
}

proof fn lemma_errors_through_empty(ls: Seq<Seq<char>>, n: int)
    requires
        0 <= n,
    ensures
        errors_through(ls, n).len() == 0 <==> forall|i: int| 0 <= i < n ==> (#[trigger] line_errors(ls, i)).len() == 0,
    decreases n,
{
    if n > 0 {
        lemma_errors_through_empty(ls, n - 1);
        if errors_through(ls, n).len() == 0 {
            assert forall|i: int| 0 <= i < n implies (#[trigger] line_errors(ls, i)).len() == 0 by {
                if i < n - 1 {
                } else {
                    assert(i == n - 1);
                }
            }
        }
    }
}

proof fn lemma_line_errors_empty(ls: Seq<Seq<char>>, i: int)
    requires
        0 <= i < ls.len(),
    ensures
        line_errors(ls, i).len() == 0 <==> {
            &&& i == 0 ==> header_ok(ls[0])
            &&& i == 1 ==> ls[1].len() == 0
            &&& line_clean(ls[i])
            &&& opens_footer_block(ls, i) ==> ls[i - 1].len() == 0
            &&& !long_runs(ls).contains(i)
        },
{
    let l = ls[i];
    let t = text::trim_start(l);
    let sc = line_scaffolding_errors(l, (i + 1) as nat);
    assert(sc.len() == 0 <==> line_clean(l));
    if i == 0 {
        let h = ls[0];
        assert(header_length_errors(h).len() == 0 <==> h.len() <= HEADER_MAX);
        match parse_header_spec(h) {
            Some((ty, subject)) => {
                assert(header_errors(h).len() == 0 <==> (is_type_name(ty) && subject.len() > 0
                    && text::all_ascii(subject) && subject == text::trim(subject)));
            },
            None => {},
        }
    }
}

/// A message passes the check exactly when it follows the documented
/// convention: conforming header, blank separator line, no scaffolding, a
/// blank line before each footer block and no over-long prose paragraph.
pub proof fn check_passes_iff_convention(t: Seq<char>)
    ensures
        violations(t).len() == 0 <==> follows_convention(message_lines(t)),
{
    let ls = message_lines(t);
    if ls.len() > 0 {
        let n = ls.len() as int;
        lemma_errors_through_empty(ls, n);
        lemma_prose_scan_bounds(ls, if n < 2 { 2 } else { n });
        assert forall|i: int| 0 <= i < n implies (#[trigger] line_errors(ls, i)).len() == 0 <==> {
            &&& i == 0 ==> header_ok(ls[0])
            &&& i == 1 ==> ls[1].len() == 0
            &&& line_clean(ls[i])
            &&& opens_footer_block(ls, i) ==> ls[i - 1].len() == 0
            &&& !long_runs(ls).contains(i)
        } by {
            lemma_line_errors_empty(ls, i);
        }
        if violations(t).len() == 0 {
            assert(line_errors(ls, 0).len() == 0);
            if n > 1 {
                assert(line_errors(ls, 1).len() == 0);
            }
            assert forall|i: int| 0 <= i < n implies line_clean(#[trigger] ls[i]) by {
                assert(line_errors(ls, i).len() == 0);
            }
            assert forall|i: int| #[trigger] opens_footer_block(ls, i) implies ls[i - 1].len()
                == 0 by {
                assert(line_errors(ls, i).len() == 0);
            }
            if long_runs(ls).len() > 0 {
                let s0 = long_runs(ls)[0];
                if n < 2 {
                    assert(long_runs(ls) =~= Seq::<int>::empty());
                }
                assert(0 <= s0 < n);
                assert(long_runs(ls).contains(s0));
                assert(line_errors(ls, s0).len() == 0);
            }
        }
        if follows_convention(ls) {
            assert forall|i: int| 0 <= i < n implies (#[trigger] line_errors(ls, i)).len() == 0 by {
                assert(line_clean(ls[i]));
                if opens_footer_block(ls, i) {
                }
                assert(!long_runs(ls).contains(i));
            }
        }
    }
}

/// The message with its `#` comment lines removed, as git stores it.
pub open spec fn without_comment_lines(t: Seq<char>) -> Seq<char> {
    text::join(drop_comments(text::split(t, '\n')), "\n"@)
}

proof fn lemma_drop_comments_kept(ls: Seq<Seq<char>>)
    ensures
        forall|i: int| 0 <= i < drop_comments(ls).len() ==> exists|j: int|
            0 <= j < ls.len() && ls[j] == #[trigger] drop_comments(ls)[i],
        forall|i: int| 0 <= i < drop_comments(ls).len() ==> !is_comment(#[trigger] drop_comments(ls)[i]),
    decreases ls.len(),
{
    if ls.len() > 0 {
        lemma_drop_comments_kept(ls.drop_last());
        let r = drop_comments(ls.drop_last());
        assert forall|i: int| 0 <= i < drop_comments(ls).len() implies exists|j: int|
            0 <= j < ls.len() && ls[j] == #[trigger] drop_comments(ls)[i] by {
            if i < r.len() {
                let j = choose|j: int| 0 <= j < ls.drop_last().len() && ls.drop_last()[j] == r[i];
                assert(ls[j] == ls.drop_last()[j]);
            } else {
                assert(ls[ls.len() - 1] == drop_comments(ls)[i]);
            }
        }
        assert forall|i: int| 0 <= i < drop_comments(ls).len() implies !is_comment(
            #[trigger] drop_comments(ls)[i],
        ) by {
            if i < r.len() {
                assert(drop_comments(ls)[i] == r[i]);
            }
        }
    }
}

proof fn lemma_drop_comments_identity(ls: Seq<Seq<char>>)
    requires
        forall|i: int| 0 <= i < ls.len() ==> !is_comment(#[trigger] ls[i]),
    ensures
        drop_comments(ls) == ls,
    decreases ls.len(),
{
    if ls.len() > 0 {
        assert(!is_comment(ls[ls.len() - 1]));
        lemma_drop_comments_identity(ls.drop_last());
        assert(ls.drop_last().push(ls.last()) =~= ls);
    }
}

/// git strips `#` comment lines after the commit-msg hook runs, and the check
/// does the same: a message and the message without its comment lines have
/// the same violations.
pub proof fn comment_lines_do_not_matter(t: Seq<char>)
    ensures
        violations(without_comment_lines(t)) == violations(t),
{
    reveal_strlit("\n");
    assert("\n"@ =~= seq!['\n']);
    let parts = text::split(t, '\n');
    let kept = drop_comments(parts);
    text::lemma_split_pieces(t, '\n');
    lemma_drop_comments_kept(parts);
    if kept.len() == 0 {
        assert(without_comment_lines(t) =~= Seq::<char>::empty());
        let e = Seq::<char>::empty();
        assert(text::split(e, '\n') =~= seq![e]);
        let none = Seq::<Seq<char>>::empty();
        assert(drop_comments(none) == none);
        assert(drop_trailing_blank(none) == none);
        assert(seq![e].drop_last() =~= none);
        assert(drop_comments(seq![e]) =~= none.push(e));
        assert(none.push(e) =~= seq![e]);
        assert(drop_trailing_blank(seq![e]) =~= none);
    } else {
        assert forall|i: int| 0 <= i < kept.len() implies !text::has_char(#[trigger] kept[i], '\n') by {
            let j = choose|j: int| 0 <= j < parts.len() && parts[j] == kept[i];
            assert(!text::has_char(parts[j], '\n'));
        }
        text::lemma_split_join(kept, '\n');
        lemma_drop_comments_identity(kept);
    }
    assert(message_lines(without_comment_lines(t)) == message_lines(t));
}

// ---------------------------------------------------------------------------
// The checks
// ---------------------------------------------------------------------------

/// All convention violations in `text`, in message order (by the line each
/// error names).
#[verifier::spinoff_prover]
pub fn check(text: &str) -> (errors: Vec<String>)
    ensures
        text::strings(errors@) == violations(text@),
{
    let chars = chars_of(text);
    let lines = message_lines_of(chars.as_slice());
    let mut errors: Vec<String> = Vec::new();
    if lines.len() == 0 {
        push_message(&mut errors, String::from_str("message is empty"));
        return errors;
    }
    let ghost ls = text::views(lines@);
    let runs = long_run_starts(&lines);
    let mut i: usize = 0;
    assert(text::strings(errors@) =~= errors_through(ls, 0));
    while i < lines.len()
        invariant
            ls == text::views(lines@),
            ls.len() > 0,
            i <= lines@.len(),
            runs@.len() == lines@.len(),
            forall|j: int| 0 <= j < runs@.len() ==> runs@[j] == long_runs(ls).contains(j),
            text::strings(errors@) == errors_through(ls, i as int),
        decreases lines@.len() - i,
    {
        let ghost before = text::strings(errors@);
        let line = lines[i].as_slice();
        assert(ls[i as int] == line@);
        if i == 0 {
            if line.len() > HEADER_MAX {
                let m = header_length_message(line.len());
                push_message(&mut errors, m);
            }
            assert(text::strings(errors@) =~= before + header_length_errors(ls[0]));
            header_checks(line, &mut errors);
        }
        let ghost mid1 = text::strings(errors@);
        if i == 1 && line.len() != 0 {
            push_message(
                &mut errors,
                String::from_str("header and body must be separated by a blank line"),
            );
        }
        let ghost mid2 = text::strings(errors@);
        assert(mid2 == mid1 + (if i == 1 {
            separator_errors(ls)
        } else {
            empty_msgs()
        }));
        scaffolding_errors(line, i, &mut errors);
        footer_error(&lines, i, &mut errors);
        let ghost mid3 = text::strings(errors@);
        if runs[i] {
            let m = body_paragraph_message(i);
            push_message(&mut errors, m);
        }
        assert(text::strings(errors@) =~= mid3 + prose_error_at(ls, i as int));
        assert(text::strings(errors@) =~= before + line_errors(ls, i as int));
        i += 1;
    }
    errors
}

fn body_paragraph_message(i: usize) -> (m: String)
    requires
        i < usize::MAX,
    ensures
        m@ == prose_message(i as int),
{
    let mut m = String::from_str("body paragraph at line ");
    push_decimal(&mut m, (i + 1) as u64);
    m.append(" runs past ");
    push_decimal(&mut m, BODY_PROSE_RUN_MAX as u64);
    m.append(" prose lines — split it into shorter paragraphs or use a list");
    m
}

fn header_length_message(n: usize) -> (m: String)
    ensures
        m@ == "header is "@ + text::dec(n as nat) + " chars (max "@ + text::dec(HEADER_MAX as nat)
            + ")"@,
{
    let mut m = String::from_str("header is ");
    push_decimal(&mut m, n as u64);
    m.append(" chars (max ");
    push_decimal(&mut m, HEADER_MAX as u64);
    m.append(")");
    m
}

/// The lines of the message: split at `'\n'`, `#` lines dropped, trailing
/// empty lines dropped.
fn message_lines_of(t: &[char]) -> (ls: Vec<Vec<char>>)
    ensures
        text::views(ls@) == message_lines(t@),
{
    let parts = split_char(t, '\n');
    let mut kept: Vec<Vec<char>> = Vec::new();
    let mut i: usize = 0;
    let ghost ps = text::split(t@, '\n');
    while i < parts.len()
        invariant
            text::views(parts@) == ps,
            i <= parts@.len(),
            text::views(kept@) == drop_comments(ps.take(i as int)),
        decreases parts@.len() - i,
    {
        let p = parts[i].as_slice();
        assert(text::views(parts@)[i as int] == p@);
        assert(ps.take(i + 1).drop_last() =~= ps.take(i as int));
        if !(p.len() > 0 && p[0] == '#') {
            let copy = slice_chars(p, 0, p.len());
            assert(copy@ =~= p@);
            let ghost before = text::views(kept@);
            kept.push(copy);
            assert(text::views(kept@) =~= before.push(p@));
        }
        i += 1;
    }
    assert(ps.take(i as int) =~= ps);
    while kept.len() > 0 && kept[kept.len() - 1].len() == 0
        invariant
            drop_trailing_blank(text::views(kept@)) == message_lines(t@),
        decreases kept@.len(),
    {
        let ghost before = text::views(kept@);
        assert(before.last() == kept@[kept@.len() - 1]@);
        kept.pop();
        assert(text::views(kept@) =~= before.drop_last());
    }
    proof {
        if kept@.len() > 0 {
            assert(text::views(kept@).last() == kept@[kept@.len() - 1]@);
        }
    }
    kept
}

/// `(type, subject)` of a well-shaped header.
fn parse_header_chars(h: &[char]) -> (r: Option<(Vec<char>, Vec<char>)>)
    ensures
        match r {
            Some((ty, subject)) => parse_header_spec(h@) == Some((ty@, subject@)),
            None => parse_header_spec(h@) is None,
        },
{
    let (p, subject) = match split_once_str(h, ": ") {
        Some(parts) => parts,
        None => return None,
    };
    let prefix = if p.len() > 0 && p[p.len() - 1] == '!' {
        take_chars(p.as_slice(), p.len() - 1)
    } else {
        slice_chars(p.as_slice(), 0, p.len())
    };
    assert(prefix@ =~= strip_bang(p@));
    match split_once_str(prefix.as_slice(), "(") {
        Some((ty, rest)) => {
            proof {
                reveal_strlit("(");
                assert("("@ =~= seq!['(']);
            }
            if rest.len() == 0 || rest[rest.len() - 1] != ')' {
                return None;
            }
            let scope = take_chars(rest.as_slice(), rest.len() - 1);
            assert(scope@ =~= rest@.drop_last());
            if !is_type_word(ty.as_slice()) || !is_scope_word(scope.as_slice()) {
                return None;
            }
            Some((ty, subject))
        },
        None => {
            proof {
                reveal_strlit("(");
                assert("("@ =~= seq!['(']);
            }
            if !is_type_word(prefix.as_slice()) {
                return None;
            }
            Some((prefix, subject))
        },
    }
}

fn is_type_word(s: &[char]) -> (b: bool)
    ensures
        b == valid_type(s@),
{
    if s.len() == 0 {
        return false;
    }
    let mut i: usize = 0;
    while i < s.len()
        invariant
            i <= s@.len(),
            forall|k: int| 0 <= k < i ==> text::is_lower(#[trigger] s@[k]),
        decreases s@.len() - i,
    {
        if !char_is_lower(s[i]) {
            return false;
        }
        i += 1;
    }
    true
}

fn is_scope_word(s: &[char]) -> (b: bool)
    ensures
        b == valid_scope(s@),
{
    if s.len() == 0 {
        return false;
    }
    let mut i: usize = 0;
    while i < s.len()
        invariant
            i <= s@.len(),
            forall|k: int| 0 <= k < i ==> is_scope_char(#[trigger] s@[k]),
        decreases s@.len() - i,
    {
        let c = s[i];
        if !(char_is_lower(c) || char_is_digit(c) || c == '-') {
            return false;
        }
        i += 1;
    }
    true
}

fn is_known_type(ty: &[char]) -> (b: bool)
    ensures
        b == is_type_name(ty@),
{
    let mut i: usize = 0;
    while i < 11
        invariant
            i <= 11,
            forall|k: int| 0 <= k < i ==> ty@ != (#[trigger] TYPES[k])@,
        decreases 11 - i,
    {
        if eq_str(ty, TYPES[i]) {
            return true;
        }
        i += 1;
    }
    false
}

/// Appends the header's shape, type and subject errors.
fn header_checks(h: &[char], errors: &mut Vec<String>)
    ensures
        text::strings(final(errors)@) == text::strings(old(errors)@) + header_errors(h@),
{
    let ghost start = text::strings(errors@);
    match parse_header_chars(h) {
        None => {
            push_message(
                errors,
                String::from_str(
                    "header must match `type(scope): subject` (lowercase type, optional lowercase scope, optional `!`)",
                ),
            );
            assert(text::strings(errors@) =~= start + header_errors(h@));
        },
        Some((ty, subject)) => {
            if !is_known_type(ty.as_slice()) {
                let mut m = String::from_str("unknown type ");
                push_quoted(&mut m, ty.as_slice());
                m.append("; allowed: ");
                m.append("feat, fix, docs, style, refactor, perf, test, build, ci, chore, revert");
                push_message(errors, m);
            }
            let ghost mid = text::strings(errors@);
            if subject.len() == 0 {
                push_message(errors, String::from_str("subject must not be empty"));
            } else {
                if !chars_all_ascii(subject.as_slice()) {
                    push_message(errors, String::from_str("subject must be pure ASCII (English)"));
                }
                let ghost mid2 = text::strings(errors@);
                let trimmed = trim_chars(subject.as_slice());
                if !chars_eq(subject.as_slice(), trimmed.as_slice()) {
                    push_message(
                        errors,
                        String::from_str("subject must not have leading/trailing whitespace"),
                    );
                }
            }
            assert(text::strings(errors@) =~= start + header_errors(h@));
        },
    }
}

/// Whether a trimmed body line reads as flowing prose.
fn is_prose_chars(t: &[char]) -> (b: bool)
    ensures
        b == is_prose_spec(t@),
{
    if t.len() == 0 || eq_str(t, "---") || has_prefix(t, "- ") || has_prefix(t, "* ")
        || has_prefix(t, "+ ") || has_prefix(t, "> ") {
        return false;
    }
    let d = leading_digits(t);
    let rest = skip_chars(t, d);
    let numbered = d > 0 && (has_prefix(rest.as_slice(), ". ") || has_prefix(
        rest.as_slice(),
        ") ",
    ));
    !numbered
}

fn token_tail_len(s: &[char], from: usize) -> (n: usize)
    requires
        from <= s@.len(),
    ensures
        n == token_tail(s@.skip(from as int)),
        from + n <= s@.len(),
{
    let mut i: usize = from;
    while i < s.len() && (char_is_alnum(s[i]) || s[i] == '-')
        invariant
            from <= i <= s@.len(),
            token_tail(s@.skip(from as int)) == (i - from) + token_tail(s@.skip(i as int)),
        decreases s@.len() - i,
    {
        assert(s@.skip(i as int).drop_first() =~= s@.skip(i + 1));
        i += 1;
    }
    i - from
}

/// Whether `: ` or ` #` follows the first `n` characters of `l`.
fn separator_after_chars(l: &[char], n: usize) -> (b: bool)
    ensures
        b == separator_after(l@, n as nat),
{
    if n > l.len() {
        return false;
    }
    let rest = skip_chars(l, n);
    has_prefix(rest.as_slice(), ": ") || has_prefix(rest.as_slice(), " #")
}

/// Whether a line opens a footer token.
fn is_footer_start_chars(l: &[char]) -> (b: bool)
    ensures
        b == is_footer_start_spec(l@),
{
    proof {
        reveal_strlit("BREAKING CHANGE");
    }
    if has_prefix(l, "BREAKING CHANGE") && separator_after_chars(l, 15) {
        return true;
    }
    if l.len() > 0 && (char_is_lower(l[0]) || ('A' <= l[0] && l[0] <= 'Z')) {
        assert(l@.skip(1) =~= l@.drop_first());
        let n = 1 + token_tail_len(l, 1);
        separator_after_chars(l, n)
    } else {
        false
    }
}

/// Split `type(scope)!: subject` into `(type, subject)`, validating the
/// prefix shape (the regex `^([a-z]+)(\(([a-z0-9-]+)\))?(!)?: (.*)$`).
pub fn parse_header(header: &str) -> (r: Option<(String, String)>)
    ensures
        match r {
            Some((ty, subject)) => parse_header_spec(header@) == Some((ty@, subject@)),
            None => parse_header_spec(header@) is None,
        },
{
    let h = chars_of(header);
    match parse_header_chars(h.as_slice()) {
        Some((ty, subject)) => Some((string_of(ty.as_slice()), string_of(subject.as_slice()))),
        None => None,
    }
}

/// Whether a (trimmed) body line reads as flowing prose.
pub fn is_prose_line(trimmed: &str) -> (b: bool)
    ensures
        b == is_prose_spec(trimmed@),
{
    let t = chars_of(trimmed);
    is_prose_chars(t.as_slice())
}

/// A line that opens a footer token: `BREAKING CHANGE`, `BREAKING-CHANGE` or
/// `[A-Za-z][A-Za-z0-9-]*`, followed by `: ` or ` #`.
pub fn is_footer_start(line: &str) -> (b: bool)
    ensures
        b == is_footer_start_spec(line@),
{
    let l = chars_of(line);
    is_footer_start_chars(l.as_slice())
}

/// The HTML comment, task-list and bare `---` errors of line `i` (from 0).
fn scaffolding_errors(line: &[char], i: usize, errors: &mut Vec<String>)
    requires
        i < usize::MAX,
    ensures
        text::strings(final(errors)@) == text::strings(old(errors)@) + line_scaffolding_errors(
            line@,
            (i + 1) as nat,
        ),
{
    let ghost before = text::strings(errors@);
    let trimmed = trim_start_chars(line);
    if contains_str(line, "<!--") {
        let m = text_num_text(
            "line ",
            (i + 1) as u64,
            " contains an HTML comment (`<!--`) — delete the template's comments instead of merging them",
        );
        push_message(errors, m);
    }
    let t = trimmed.as_slice();
    if has_prefix(t, "- [ ]") || has_prefix(t, "- [x]") || has_prefix(t, "- [X]") {
        let m = text_num_text(
            "line ",
            (i + 1) as u64,
            " is a task-list item (`- [ ]`) — checklist scaffolding must not land in history",
        );
        push_message(errors, m);
    }
    if eq_str(t, "---") {
        let m = text_num_text(
            "line ",
            (i + 1) as u64,
            " is a bare `---` — the cut-line convention is gone; the whole PR body lands as the commit body",
        );
        push_message(errors, m);
    }
    assert(text::strings(errors@) =~= before + line_scaffolding_errors(line@, (i + 1) as nat));
}

/// The footer error of line `i`: the first line of a footer block must
/// follow a blank line.
fn footer_error(lines: &Vec<Vec<char>>, i: usize, errors: &mut Vec<String>)
    requires
        i < lines@.len(),
    ensures
        text::strings(final(errors)@) == text::strings(old(errors)@) + footer_error_at(
            text::views(lines@),
            i as int,
        ),
{
    let ghost ls = text::views(lines@);
    let ghost before = text::strings(errors@);
    if i == 0 {
        assert(text::strings(errors@) =~= before + footer_error_at(ls, i as int));
        return;
    }
    let line = lines[i].as_slice();
    let prev = lines[i - 1].as_slice();
    let n = lines.len();
    assert(i < n);
    assert(ls[i as int] == line@);
    assert(ls[i - 1] == prev@);
    let opens = is_footer_start_chars(line) && !(i >= 2 && is_footer_start_chars(prev));
    if opens && prev.len() != 0 {
        let pv = if line.len() <= 30 {
            slice_chars(line, 0, line.len())
        } else {
            take_chars(line, 30)
        };
        assert(pv@ =~= preview(line@));
        let ps = string_of(pv.as_slice());
        let mut m = String::from_str("footer line ");
        push_decimal(&mut m, (i + 1) as u64);
        m.append(" (");
        let d = debug_str(ps.as_str());
        m.append(d.as_str());
        m.append("…) must be preceded by a blank line");
        push_message(errors, m);
    }
    assert(text::strings(errors@) =~= before + footer_error_at(ls, i as int));
}

/// For each line, whether a run of more than [`BODY_PROSE_RUN_MAX`] prose
/// lines starts there.
fn long_run_starts(lines: &Vec<Vec<char>>) -> (marks: Vec<bool>)
    ensures
        marks@.len() == lines@.len(),
        forall|j: int|
            0 <= j < marks@.len() ==> marks@[j] == long_runs(text::views(lines@)).contains(j),
{
    let ghost ls = text::views(lines@);
    let n = lines.len();
    let mut marks: Vec<bool> = Vec::new();
    let mut k: usize = 0;
    while k < n
        invariant
            n == lines@.len(),
            k <= n,
            marks@.len() == k,
            forall|j: int| 0 <= j < k ==> !marks@[j],
        decreases n - k,
    {
        marks.push(false);
        k += 1;
    }
    if n <= 2 {
        assert forall|j: int| 0 <= j < marks@.len() implies marks@[j] == long_runs(ls).contains(
            j,
        ) by {
            assert(long_runs(ls) =~= Seq::<int>::empty());
        }
        return marks;
    }
    let mut in_fence = false;
    let mut run_start: usize = 0;
    let mut run_len: usize = 0;
    let mut i: usize = 2;
    while i < n
        invariant
            ls == text::views(lines@),
            n == lines@.len(),
            2 <= i <= n,
            run_len <= i,
            run_start < i,
            marks@.len() == n,
            prose_scan(ls, i as int).0 == (in_fence, run_start as int, run_len as int),
            forall|j: int| 0 <= j < n ==> marks@[j] == prose_scan(ls, i as int).1.contains(j),
        decreases n - i,
    {
        let line = lines[i].as_slice();
        assert(ls[i as int] == line@);
        let ghost old_starts = prose_scan(ls, i as int).1;
        let ghost old_marks = marks@;
        let trimmed = trim_start_chars(line);
        let t = trimmed.as_slice();
        if has_prefix(t, "```") {
            in_fence = !in_fence;
            run_len = 0;
        } else if in_fence || !is_prose_chars(t) {
            run_len = 0;
        } else {
            if run_len == 0 {
                run_start = i;
            }
            run_len += 1;
            if run_len == BODY_PROSE_RUN_MAX + 1 {
                marks.set(run_start, true);
            }
        }
        i += 1;
        proof {
            let new_starts = prose_scan(ls, i as int).1;
            assert forall|j: int| 0 <= j < n implies marks@[j] == new_starts.contains(j) by {
                if new_starts.len() > old_starts.len() {
                    assert(new_starts == old_starts.push(run_start as int));
                    if j == run_start {
                        assert(new_starts[old_starts.len() as int] == j);
                    } else {
                        if new_starts.contains(j) {
                            let k = choose|k: int| 0 <= k < new_starts.len() && new_starts[k] == j;
                            assert(old_starts[k] == j);
                        }
                        if old_starts.contains(j) {
                            let k = choose|k: int| 0 <= k < old_starts.len() && old_starts[k] == j;
                            assert(new_starts[k] == j);
                        }
                    }
                } else {
                    assert(new_starts =~= old_starts);
                }
            }
        }
    }
    assert(prose_scan(ls, n as int).1 == long_runs(ls));
    marks
}

} // verus!
