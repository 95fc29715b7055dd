//! Secret scan for pull requests: added diff lines are matched against token /
//! private-key / `.env`-assignment shapes. The one line-level escape hatch is
//! the [`ALLOW_MARKER`] marker, for documented *example* secrets.

use vstd::prelude::*;
use crate::text;
use crate::text::{
    char_is_alnum, char_is_digit, char_is_upper, char_is_whitespace, chars_of, contains_str, debug_str, eq_str,
    find_str, has_prefix, leading_digits, matches_at, parse_usize, push_decimal,
    push_quoted,
    skip_chars, slice_chars, split_once_str, string_of, take_chars, to_lower, to_upper,
    trim_chars, lines_of,
};

verus! {

/// Line-level escape hatch: an added line carrying this marker is skipped.
pub const ALLOW_MARKER: &'static str = "pr-guard:allow";

// The pattern literals are assembled from fragments so that this module's
// own source never trips the scan when it lands in a diff.
pub const KEY_BEGIN: &'static str = "-----BEGIN ";

pub const KEY_END: &'static str = " PRIVATE KEY-----";

pub const GITHUB_PREFIXES: [&'static str; 6] = [
    "ghp_",
    "gho_",
    "ghu_",
    "ghs_",
    "ghr_",
    "github_pat_",
];

pub const SECRET_WORDS: [&'static str; 6] = [
    "SECRET",
    "TOKEN",
    "PASSWORD",
    "PASSWD",
    "API_KEY",
    "APIKEY",
];

/// One possible secret in an added diff line. Its text forms name the file,
/// the line and the pattern, never the matched text.
pub struct Finding {
    /// The file (from the `+++ b/<path>` header), empty when unknown.
    pub path: String,
    /// Line number in the diff (from 1).
    pub diff_line: usize,
    /// Line number in the new file (from hunk headers), when known.
    pub new_line: Option<usize>,
    /// The name of the pattern that matched.
    pub pattern: &'static str,
}

/// (path, diff line, new-file line, pattern name).
pub type FindingView = (Seq<char>, nat, Option<nat>, Seq<char>);

impl View for Finding {
    type V = FindingView;

    open spec fn view(&self) -> FindingView {
        (
            self.path@,
            self.diff_line as nat,
            match self.new_line {
                Some(n) => Some(n as nat),
                None => None,
            },
            self.pattern@,
        )
    }
}

pub open spec fn findings_view(v: Seq<Finding>) -> Seq<FindingView> {
    v.map_values(|f: Finding| f@)
}

// ---------------------------------------------------------------------------
// The patterns
// ---------------------------------------------------------------------------

/// Character classes of token tails: 0 is `[A-Za-z0-9_]`, 1 is `[A-Z0-9]`,
/// 2 is `[A-Za-z0-9-]`.
pub open spec fn in_class(kind: u8, c: char) -> bool {
    if kind == 0 {
        text::is_alnum(c) || c == '_'
    } else if kind == 1 {
        text::is_upper(c) || text::is_digit(c)
    } else {
        text::is_alnum(c) || c == '-'
    }
}

/// Length of the run of class-`kind` characters at the start of `s`.
pub open spec fn run(s: Seq<char>, kind: u8) -> nat
    decreases s.len(),
{
    if s.len() > 0 && in_class(kind, s[0]) {
        1 + run(s.drop_first(), kind)
    } else {
        0
    }
}

/// `p` occurs in `l` followed by at least `min` class-`kind` characters.
pub open spec fn prefixed_token(l: Seq<char>, p: Seq<char>, kind: u8, min: nat) -> bool {
    exists|i: int| text::occurs_at(l, p, i) && run(l.skip(i + p.len()), kind) >= min
}

pub open spec fn private_key(l: Seq<char>) -> bool {
    text::contains(l, KEY_BEGIN@) && text::contains(l, KEY_END@)
}

pub open spec fn github_token(l: Seq<char>) -> bool {
    exists|j: int| 0 <= j < 6 && prefixed_token(l, (#[trigger] GITHUB_PREFIXES[j])@, 0, 20)
}

pub open spec fn aws_key(l: Seq<char>) -> bool {
    prefixed_token(l, "AKIA"@, 1, 16) || prefixed_token(l, "ASIA"@, 1, 16)
}

/// What follows `xox` in a Slack token: a kind letter, `-`, and at least ten
/// `[A-Za-z0-9-]` characters.
pub open spec fn slack_tail(r: Seq<char>) -> bool {
    r.len() >= 2 && (r[0] == 'b' || r[0] == 'a' || r[0] == 'p' || r[0] == 'r' || r[0] == 's')
        && r[1] == '-' && run(r.skip(2), 2) >= 10
}

/// A Slack token among the occurrences of `xox` found by a left-to-right
/// search from `p` that resumes after each match (`str::match_indices`), so
/// occurrences that overlap an earlier match are not considered.
pub open spec fn slack_from(l: Seq<char>, p: int) -> bool
    decreases l.len() - p,
{
    if p < 0 || p + 3 > l.len() {
        false
    } else if text::occurs_at(l, "xox"@, p) {
        slack_tail(l.skip(p + 3)) || slack_from(l, p + 3)
    } else {
        slack_from(l, p + 1)
    }
}

pub open spec fn slack_token(l: Seq<char>) -> bool {
    slack_from(l, 0)
}

/// Number of bytes of the UTF-8 encoding of `c`.
pub open spec fn utf8_width(c: char) -> nat {
    if (c as u32) < 0x80 {
        1
    } else if (c as u32) < 0x800 {
        2
    } else if (c as u32) < 0x10000 {
        3
    } else {
        4
    }
}

/// Number of bytes of the UTF-8 encoding of `s` (`str::len`).
pub open spec fn utf8_len(s: Seq<char>) -> nat
    decreases s.len(),
{
    if s.len() == 0 {
        0
    } else {
        utf8_len(s.drop_last()) + utf8_width(s.last())
    }
}

/// A `.env` key: a bare identifier (`[A-Za-z0-9_.-]+`, not starting with a
/// digit).
pub open spec fn env_key(k: Seq<char>) -> bool {
    k.len() > 0 && !text::is_digit(k[0]) && forall|i: int|
        0 <= i < k.len() ==> text::is_alnum(#[trigger] k[i]) || k[i] == '_' || k[i] == '.' || k[i]
            == '-'
}

pub open spec fn has_secret_word(upper: Seq<char>) -> bool {
    exists|j: int| 0 <= j < 6 && text::contains(upper, (#[trigger] SECRET_WORDS[j])@)
}

/// `v` without one pair of surrounding double or single quotes.
pub open spec fn unquote(v: Seq<char>) -> Seq<char> {
    if v.len() >= 2 && v[0] == '"' && v.last() == '"' {
        v.subrange(1, v.len() - 1)
    } else if v.len() >= 2 && v[0] == '\'' && v.last() == '\'' {
        v.subrange(1, v.len() - 1)
    } else {
        v
    }
}

/// A documented placeholder shape (on the lowercased value).
pub open spec fn placeholder(w: Seq<char>) -> bool {
    text::starts_with(w, "<"@) || text::starts_with(w, "$"@) || text::starts_with(w, "%"@)
        || text::starts_with(w, "your"@) || text::starts_with(w, "xxx"@) || text::contains(
        w,
        "example"@,
    ) || text::contains(w, "changeme"@) || text::contains(w, "change-me"@) || text::contains(
        w,
        "placeholder"@,
    ) || text::contains(w, "redacted"@)
}

/// A `.env`-style assignment: `KEY=value` with the key at line start
/// (optional `export ` prefix), no spaces around `=` (the key is a bare
/// identifier and the value does not start with whitespace), the key
/// carrying a secret-ish word, and a value of at least 8 bytes that is not a
/// placeholder.
pub open spec fn secret_assignment(l: Seq<char>) -> bool {
    let l1 = if text::starts_with(l, "export "@) {
        l.skip(7)
    } else {
        l
    };
    match text::split_once(l1, "="@) {
        None => false,
        Some((key, value)) => {
            let u = unquote(text::trim(value));
            env_key(key) && has_secret_word(text::upper_seq(key)) && !(value.len() > 0
                && text::is_white(value[0])) && utf8_len(u) >= 8 && !placeholder(
                text::lower_seq(u),
            )
        },
    }
}

/// The name of the first pattern that `l` matches.
pub open spec fn matching_pattern(l: Seq<char>) -> Option<Seq<char>> {
    if private_key(l) {
        Some("private key block"@)
    } else if github_token(l) {
        Some("GitHub token"@)
    } else if aws_key(l) {
        Some("AWS access key ID"@)
    } else if slack_token(l) {
        Some("Slack token"@)
    } else if secret_assignment(l) {
        Some(".env-style secret assignment"@)
    } else {
        None
    }
}

// ---------------------------------------------------------------------------
// The scan
// ---------------------------------------------------------------------------

/// `@@ -old[,n] +new[,n] @@`: the new-side start line.
pub open spec fn hunk_start(l: Seq<char>) -> Option<nat> {
    if text::starts_with(l, "@@"@) {
        let rest = l.skip(2);
        match text::find(rest, "+"@) {
            None => None,
            Some(p) => {
                let after = rest.skip(p + 1);
                text::parse_uint(after.take(text::digit_run(after) as int), usize::MAX as nat)
            },
        }
    } else {
        None
    }
}

/// The next new-file line number (`usize` arithmetic wraps).
pub open spec fn next_line(n: nat) -> nat {
    if n == usize::MAX {
        0
    } else {
        n + 1
    }
}

/// The new-file line after a line that the new file contains; unknown until
/// a hunk header has been read.
pub open spec fn advance(n: Option<nat>) -> Option<nat> {
    match n {
        Some(k) => Some(next_line(k)),
        None => None,
    }
}

/// The new-file line a finding reports: known and positive.
pub open spec fn reported_line(n: Option<nat>) -> Option<nat> {
    match n {
        Some(k) => if k > 0 {
            Some(k)
        } else {
            None
        },
        None => None,
    }
}

/// One diff line (numbered `index` from 0) through the scanner, whose state
/// is (current path, next new-file line if a hunk header gave one): the next
/// state and the finding it yields, if any.
pub open spec fn scan_step(st: (Seq<char>, Option<nat>), index: nat, l: Seq<char>) -> ((Seq<char>, Option<nat>), Seq<
    FindingView,
>) {
    let none = Seq::<FindingView>::empty();
    if text::starts_with(l, "--- "@) {
        (st, none)
    } else if text::starts_with(l, "+++ "@) {
        let rest = l.skip(4);
        (
            (
                if text::starts_with(rest, "b/"@) {
                    rest.skip(2)
                } else {
                    Seq::<char>::empty()
                },
                st.1,
            ),
            none,
        )
    } else if hunk_start(l) is Some {
        ((st.0, Some(hunk_start(l)->0)), none)
    } else if text::starts_with(l, "-"@) {
        (st, none)
    } else if text::starts_with(l, "+"@) {
        let added = l.skip(1);
        let next = (st.0, advance(st.1));
        if text::contains(added, ALLOW_MARKER@) {
            (next, none)
        } else {
            match matching_pattern(added) {
                None => (next, none),
                Some(name) => (
                    next,
                    seq![
                        (
                            st.0,
                            index + 1,
                            reported_line(st.1),
                            name,
                        ),
                    ],
                ),
            }
        }
    } else if text::starts_with(l, " "@) {
        ((st.0, advance(st.1)), none)
    } else {
        (st, none)
    }
}

/// The scanner after the first `n` lines.
pub open spec fn scan_prefix(ls: Seq<Seq<char>>, n: int) -> ((Seq<char>, Option<nat>), Seq<FindingView>)
    decreases n,
{
    if n <= 0 {
        ((Seq::<char>::empty(), None), Seq::<FindingView>::empty())
    } else {
        let (st, fs) = scan_prefix(ls, n - 1);
        let (st2, f) = scan_step(st, (n - 1) as nat, ls[n - 1]);
        (st2, fs + f)
    }
}

/// The findings of a unified diff, in diff order.
pub open spec fn scan(diff: Seq<char>) -> Seq<FindingView> {
    let ls = text::lines(diff);
    scan_prefix(ls, ls.len() as int).1
}

/// What a finding says of the diff line it names: an added line (`+`, not a
/// `+++ ` header), without the allow marker, whose added text matches the
/// finding's pattern first.
pub open spec fn reports_added_line(ls: Seq<Seq<char>>, f: FindingView) -> bool {
    let i = f.1 - 1;
    &&& 0 <= i < ls.len()
    &&& text::starts_with(ls[i], "+"@)
    &&& !text::starts_with(ls[i], "+++ "@)
    &&& !text::contains(ls[i].skip(1), ALLOW_MARKER@)
    &&& matching_pattern(ls[i].skip(1)) == Some(f.3)
}

proof fn lemma_scan_prefix_findings(ls: Seq<Seq<char>>, n: int)
    requires
        0 <= n <= ls.len(),
    ensures
        forall|k: int|
            0 <= k < scan_prefix(ls, n).1.len() ==> {
                &&& reports_added_line(ls, #[trigger] scan_prefix(ls, n).1[k])
                &&& scan_prefix(ls, n).1[k].1 <= n
            },
        forall|a: int, b: int|
            0 <= a < b < scan_prefix(ls, n).1.len() ==> scan_prefix(ls, n).1[a].1
                < scan_prefix(ls, n).1[b].1,
    decreases n,
{
    reveal_strlit("+++ ");
    reveal_strlit("+");
    if n > 0 {
        lemma_scan_prefix_findings(ls, n - 1);
        let (st, fs) = scan_prefix(ls, n - 1);
        let (st2, f) = scan_step(st, (n - 1) as nat, ls[n - 1]);
        let all = fs + f;
        assert(scan_prefix(ls, n).1 == all);
        assert forall|k: int| 0 <= k < f.len() implies {
            &&& reports_added_line(ls, #[trigger] f[k])
            &&& f[k].1 == n
        } by {
            let l = ls[n - 1];
            assert(!text::starts_with(l, "+++ "@));
        }
        assert forall|k: int| 0 <= k < all.len() implies {
            &&& reports_added_line(ls, #[trigger] all[k])
            &&& all[k].1 <= n
        } by {
            if k < fs.len() {
                assert(all[k] == fs[k]);
            } else {
                assert(all[k] == f[k - fs.len()]);
            }
        }
        assert forall|a: int, b: int| 0 <= a < b < all.len() implies all[a].1 < all[b].1 by {
            if b < fs.len() {
                assert(all[a] == fs[a] && all[b] == fs[b]);
            } else if a < fs.len() {
                assert(all[a] == fs[a]);
                assert(all[b] == f[b - fs.len()]);
            } else {
                assert(all[a] == f[a - fs.len()]);
                assert(all[b] == f[b - fs.len()]);
            }
        }
    }
}

/// A diff line that the new file contains: an added line (`+`, not a
/// `+++ ` header) or a context line (` `). Removed lines (`-`) and headers
/// are not in the new file.
pub open spec fn in_new_file(l: Seq<char>) -> bool {
    l.len() > 0 && (l[0] == ' ' || (l[0] == '+' && !(l.len() >= 4 && l[1] == '+' && l[2] == '+'
        && l[3] == ' ')))
}

/// How many of the lines `a..b` the new file contains.
pub open spec fn new_file_lines(ls: Seq<Seq<char>>, a: int, b: int) -> nat
    decreases b - a,
{
    if b <= a {
        0
    } else {
        new_file_lines(ls, a, b - 1) + if in_new_file(ls[b - 1]) {
            1nat
        } else {
            0nat
        }
    }
}

/// The last hunk header among the lines before `i`.
pub open spec fn last_hunk(ls: Seq<Seq<char>>, i: int) -> Option<int>
    decreases i,
{
    if i <= 0 {
        None
    } else if hunk_start(ls[i - 1]) is Some {
        Some(i - 1)
    } else {
        last_hunk(ls, i - 1)
    }
}

/// The new-file position of line `i`: the start of its hunk plus the lines
/// of the new file between the hunk header and line `i`.
pub open spec fn new_file_position(ls: Seq<Seq<char>>, i: int) -> int {
    match last_hunk(ls, i) {
        Some(h) => (hunk_start(ls[h])->0 + new_file_lines(ls, h + 1, i)) as int,
        None => 0,
    }
}

/// The new-file line that a finding on line `i` reports, as a hunk header
/// and the lines after it give it: none before the first hunk header, else
/// its position when that is positive (positions past `usize::MAX` are left
/// open).
pub open spec fn reports_new_line(ls: Seq<Seq<char>>, i: int, reported: Option<nat>) -> bool {
    match last_hunk(ls, i) {
        None => reported is None,
        Some(h) => new_file_position(ls, i) <= usize::MAX ==> reported == (if new_file_position(
            ls,
            i,
        ) > 0 {
            Some(new_file_position(ls, i) as nat)
        } else {
            None
        }),
    }
}

proof fn lemma_last_hunk_bounds(ls: Seq<Seq<char>>, i: int)
    ensures
        last_hunk(ls, i) matches Some(h) ==> 0 <= h < i && hunk_start(ls[h]) is Some,
    decreases i,
{
    if i > 0 {
        lemma_last_hunk_bounds(ls, i - 1);
    }
}

proof fn lemma_hunk_start_bound(l: Seq<char>)
    ensures
        hunk_start(l) matches Some(n) ==> n <= usize::MAX && text::starts_with(l, "@@"@),
{
}

#[verifier::spinoff_prover]
proof fn lemma_scan_new_lines(ls: Seq<Seq<char>>, n: int)
    requires
        0 <= n <= ls.len(),
    ensures
        (scan_prefix(ls, n).0.1 is None) == (last_hunk(ls, n) is None),
        last_hunk(ls, n) is Some && new_file_position(ls, n) <= usize::MAX ==> scan_prefix(
            ls,
            n,
        ).0.1 == Some(new_file_position(ls, n) as nat),
        forall|k: int|
            0 <= k < scan_prefix(ls, n).1.len() ==> reports_new_line(
                ls,
                (#[trigger] scan_prefix(ls, n).1[k]).1 - 1,
                scan_prefix(ls, n).1[k].2,
            ),
    decreases n,
{
    reveal_strlit("--- ");
    reveal_strlit("+++ ");
    reveal_strlit("-");
    reveal_strlit("+");
    reveal_strlit(" ");
    reveal_strlit("@@");
    if n > 0 {
        lemma_scan_new_lines(ls, n - 1);
        let (st, fs) = scan_prefix(ls, n - 1);
        let l = ls[n - 1];
        let (st2, f) = scan_step(st, (n - 1) as nat, l);
        assert(scan_prefix(ls, n).1 == fs + f);
        lemma_hunk_start_bound(l);
        let is_hunk = hunk_start(l) is Some;
        if is_hunk {
            assert(l[0] == '@') by {
                assert(l.take(2)[0] == l[0]);
                assert("@@"@ =~= seq!['@', '@']);
            }
            assert(!text::starts_with(l, "--- "@)) by {
                if text::starts_with(l, "--- "@) {
                    assert(l.take(4)[0] == l[0]);
                }
            }
            assert(!text::starts_with(l, "+++ "@)) by {
                if text::starts_with(l, "+++ "@) {
                    assert(l.take(4)[0] == l[0]);
                }
            }
            assert(last_hunk(ls, n) == Some(n - 1));
            assert(new_file_lines(ls, n, n) == 0);
        } else {
            assert(last_hunk(ls, n) == last_hunk(ls, n - 1));
            lemma_last_hunk_bounds(ls, n - 1);
            match last_hunk(ls, n - 1) {
                Some(h) => {
                    assert(new_file_lines(ls, h + 1, n) == new_file_lines(ls, h + 1, n - 1) + (
                    if in_new_file(l) {
                        1nat
                    } else {
                        0nat
                    }));
                },
                None => {},
            }
            let counted = in_new_file(l);
            let dash3 = text::starts_with(l, "--- "@);
            let plus3 = text::starts_with(l, "+++ "@);
            if dash3 {
                assert(l.take(4)[0] == l[0]);
                assert(!counted);
            } else if plus3 {
                assert(l.take(4)[0] == l[0] && l.take(4)[1] == l[1] && l.take(4)[2] == l[2]
                    && l.take(4)[3] == l[3]);
                assert(!counted);
            } else if text::starts_with(l, "-"@) {
                assert(l.take(1)[0] == l[0]);
                assert(!counted);
            } else if text::starts_with(l, "+"@) {
                assert(l.take(1)[0] == l[0]);
                assert(!(l.len() >= 4 && l[1] == '+' && l[2] == '+' && l[3] == ' ')) by {
                    if l.len() >= 4 && l[1] == '+' && l[2] == '+' && l[3] == ' ' {
                        assert(l.take(4) =~= "+++ "@);
                    }
                }
                assert(counted);
            } else if text::starts_with(l, " "@) {
                assert(l.take(1)[0] == l[0]);
                assert(counted);
            } else {
                assert(!counted) by {
                    if counted {
                        if l[0] == ' ' {
                            assert(l.take(1) =~= " "@);
                        } else {
                            assert(l.take(1) =~= "+"@);
                        }
                    }
                }
            }
        }
        assert forall|k: int| 0 <= k < scan_prefix(ls, n).1.len() implies reports_new_line(
            ls,
            (#[trigger] scan_prefix(ls, n).1[k]).1 - 1,
            scan_prefix(ls, n).1[k].2,
        ) by {
            if k < fs.len() {
                assert(scan_prefix(ls, n).1[k] == fs[k]);
            } else {
                assert(scan_prefix(ls, n).1[k] == f[k - fs.len()]);
            }
        }
    }
}

/// The new-file line of a finding counts from its hunk header: the hunk's
/// new start plus the added and context lines between the header and the
/// finding's line, removed lines not counted; there is none before the
/// first hunk header (positions past `usize::MAX` are left open).
pub proof fn new_file_lines_count_from_the_hunk(diff: Seq<char>)
    ensures
        forall|k: int|
            0 <= k < scan(diff).len() ==> reports_new_line(
                text::lines(diff),
                (#[trigger] scan(diff)[k]).1 - 1,
                scan(diff)[k].2,
            ),
{
    let ls = text::lines(diff);
    lemma_scan_new_lines(ls, ls.len() as int);
}

/// A removal is the fix, not the leak: every finding names an added line of
/// the diff (not a `+++ ` header, not carrying the allow marker) whose added
/// text matches the finding's pattern, findings come in diff order, and each
/// carries one of the pattern names (never text of the line).
pub proof fn findings_come_from_added_lines(diff: Seq<char>)
    ensures
        forall|k: int|
            0 <= k < scan(diff).len() ==> reports_added_line(
                text::lines(diff),
                #[trigger] scan(diff)[k],
            ),
        forall|a: int, b: int| 0 <= a < b < scan(diff).len() ==> scan(diff)[a].1 < scan(diff)[b].1,
        forall|k: int| 0 <= k < scan(diff).len() ==> is_pattern_name(#[trigger] scan(diff)[k].3),
{
    let ls = text::lines(diff);
    lemma_scan_prefix_findings(ls, ls.len() as int);
    assert forall|k: int| 0 <= k < scan(diff).len() implies is_pattern_name(
        #[trigger] scan(diff)[k].3,
    ) by {
        assert(reports_added_line(ls, scan(diff)[k]));
    }
}

// ---------------------------------------------------------------------------
// Implementation
// ---------------------------------------------------------------------------

fn char_in_class(kind: u8, c: char) -> (b: bool)
    ensures
        b == in_class(kind, c),
{
    if kind == 0 {
        char_is_alnum(c) || c == '_'
    } else if kind == 1 {
        char_is_upper(c) || char_is_digit(c)
    } else {
        char_is_alnum(c) || c == '-'
    }
}

/// Length of the run of class-`kind` characters from `from`.
fn run_from(s: &[char], from: usize, kind: u8) -> (n: usize)
    requires
        from <= s@.len(),
    ensures
        n == run(s@.skip(from as int), kind),
{
    let mut i: usize = from;
    while i < s.len() && char_in_class(kind, s[i])
        invariant
            from <= i <= s@.len(),
            run(s@.skip(from as int), kind) == (i - from) + run(s@.skip(i as int), kind),
        decreases s@.len() - i,
    {
        assert(s@.skip(i as int).drop_first() =~= s@.skip(i + 1));
        i += 1;
    }
    i - from
}

fn prefix_followed_by_run(l: &[char], prefix: &str, kind: u8, min: usize) -> (b: bool)
    ensures
        b == prefixed_token(l@, prefix@, kind, min as nat),
{
    let p = chars_of(prefix);
    let n = l.len();
    let mut i: usize = 0;
    while i < n
        invariant
            n == l@.len(),
            p@ == prefix@,
            i <= n,
            forall|j: int|
                0 <= j < i ==> !(text::occurs_at(l@, p@, j) && run(l@.skip(j + p@.len()), kind)
                    >= min),
        decreases n - i,
    {
        if matches_at(l, i, p.as_slice()) {
            if run_from(l, i + p.len(), kind) >= min {
                return true;
            }
        }
        i += 1;
    }
    if matches_at(l, n, p.as_slice()) {
        if run_from(l, n + p.len(), kind) >= min {
            return true;
        }
    }
    assert forall|j: int|
        !(text::occurs_at(l@, p@, j) && run(l@.skip(j + p@.len()), kind) >= min) by {
        if text::occurs_at(l@, p@, j) {
            assert(j <= n);
        }
    }
    false
}

fn is_private_key(l: &[char]) -> (b: bool)
    ensures
        b == private_key(l@),
{
    contains_str(l, KEY_BEGIN) && contains_str(l, KEY_END)
}

/// `prefix` followed by a run of at least `min_tail` token characters
/// (`[A-Za-z0-9_]`), for one of the `prefixes`.
fn contains_prefixed_token_chars(l: &[char], prefixes: &[&'static str], min_tail: usize) -> (b: bool)
    ensures
        b == exists|j: int|
            0 <= j < prefixes@.len() && prefixed_token(
                l@,
                (#[trigger] prefixes@[j])@,
                0,
                min_tail as nat,
            ),
{
    let mut j: usize = 0;
    while j < prefixes.len()
        invariant
            j <= prefixes@.len(),
            forall|k: int|
                0 <= k < j ==> !prefixed_token(l@, (#[trigger] prefixes@[k])@, 0, min_tail as nat),
        decreases prefixes@.len() - j,
    {
        if prefix_followed_by_run(l, prefixes[j], 0, min_tail) {
            return true;
        }
        j += 1;
    }
    false
}

fn is_github_token(l: &[char]) -> (b: bool)
    ensures
        b == github_token(l@),
{
    let prefixes: [&'static str; 6] = GITHUB_PREFIXES;
    let b = contains_prefixed_token_chars(l, prefixes.as_slice(), 20);
    assert(prefixes@ == GITHUB_PREFIXES@);
    assert(b == github_token(l@)) by {
        if b {
            let j = choose|j: int| 0 <= j < prefixes@.len() && prefixed_token(l@, (#[trigger] prefixes@[j])@, 0, 20);
            assert(GITHUB_PREFIXES[j] == prefixes@[j]);
        } else {
            assert forall|j: int| 0 <= j < 6 implies !prefixed_token(l@, (#[trigger] GITHUB_PREFIXES[j])@, 0, 20) by {
                assert(GITHUB_PREFIXES[j] == prefixes@[j]);
            }
        }
    }
    b
}

fn is_aws_key(l: &[char]) -> (b: bool)
    ensures
        b == aws_key(l@),
{
    prefix_followed_by_run(l, "AKIA", 1, 16) || prefix_followed_by_run(l, "ASIA", 1, 16)
}

fn is_slack_tail(l: &[char], from: usize) -> (b: bool)
    requires
        from <= l@.len(),
    ensures
        b == slack_tail(l@.skip(from as int)),
{
    let n = l.len();
    if n - from < 2 {
        return false;
    }
    let k = l[from];
    if !(k == 'b' || k == 'a' || k == 'p' || k == 'r' || k == 's') || l[from + 1] != '-' {
        return false;
    }
    assert(l@.skip(from as int).skip(2) =~= l@.skip(from + 2));
    run_from(l, from + 2, 2) >= 10
}

fn is_slack_token(l: &[char]) -> (b: bool)
    ensures
        b == slack_token(l@),
{
    let x = chars_of("xox");
    proof {
        reveal_strlit("xox");
    }
    let n = l.len();
    let mut i: usize = 0;
    while i < n && n - i >= 3
        invariant
            n == l@.len(),
            x@ == "xox"@,
            x@.len() == 3,
            i <= n,
            slack_from(l@, i as int) == slack_token(l@),
        decreases n - i,
    {
        if matches_at(l, i, x.as_slice()) {
            if is_slack_tail(l, i + 3) {
                return true;
            }
            i += 3;
        } else {
            i += 1;
        }
    }
    false
}

/// Whether `utf8_len(s) >= 8`.
fn at_least_eight_bytes(s: &[char]) -> (b: bool)
    ensures
        b == (utf8_len(s@) >= 8),
{
    let mut total: usize = 0;
    let mut i: usize = 0;
    assert(s@.take(0) =~= Seq::<char>::empty());
    while i < s.len()
        invariant
            i <= s@.len(),
            total == utf8_len(s@.take(i as int)),
            total < 8,
        decreases s@.len() - i,
    {
        let c = s[i] as u32;
        let w: usize = if c < 0x80 {
            1
        } else if c < 0x800 {
            2
        } else if c < 0x10000 {
            3
        } else {
            4
        };
        assert(s@.take(i + 1).drop_last() =~= s@.take(i as int));
        total = total + w;
        i += 1;
        if total >= 8 {
            proof {
                lemma_utf8_len_grows(s@, i as int);
            }
            return true;
        }
    }
    assert(s@.take(i as int) =~= s@);
    false
}

proof fn lemma_utf8_len_grows(s: Seq<char>, i: int)
    requires
        0 <= i <= s.len(),
    ensures
        utf8_len(s.take(i)) <= utf8_len(s),
    decreases s.len() - i,
{
    if i < s.len() {
        lemma_utf8_len_grows(s, i + 1);
        assert(s.take(i + 1).drop_last() =~= s.take(i));
    } else {
        assert(s.take(i) =~= s);
    }
}

fn is_env_key(k: &[char]) -> (b: bool)
    ensures
        b == env_key(k@),
{
    if k.len() == 0 || char_is_digit(k[0]) {
        return false;
    }
    let mut i: usize = 0;
    while i < k.len()
        invariant
            i <= k@.len(),
            forall|m: int|
                0 <= m < i ==> text::is_alnum(#[trigger] k@[m]) || k@[m] == '_' || k@[m] == '.'
                    || k@[m] == '-',
        decreases k@.len() - i,
    {
        let c = k[i];
        if !(char_is_alnum(c) || c == '_' || c == '.' || c == '-') {
            assert(!(text::is_alnum(k@[i as int]) || k@[i as int] == '_' || k@[i as int] == '.'
                || k@[i as int] == '-'));
            return false;
        }
        i += 1;
    }
    true
}

fn has_secret_word_in(upper: &[char]) -> (b: bool)
    ensures
        b == has_secret_word(upper@),
{
    let mut j: usize = 0;
    while j < 6
        invariant
            j <= 6,
            forall|k: int| 0 <= k < j ==> !text::contains(upper@, (#[trigger] SECRET_WORDS[k])@),
        decreases 6 - j,
    {
        if contains_str(upper, SECRET_WORDS[j]) {
            return true;
        }
        j += 1;
    }
    false
}

fn unquoted(v: &[char]) -> (r: Vec<char>)
    ensures
        r@ == unquote(v@),
{
    let n = v.len();
    if n >= 2 && ((v[0] == '"' && v[n - 1] == '"') || (v[0] == '\'' && v[n - 1] == '\'')) {
        slice_chars(v, 1, n - 1)
    } else {
        slice_chars(v, 0, n)
    }
}

fn is_placeholder(w: &[char]) -> (b: bool)
    ensures
        b == placeholder(w@),
{
    has_prefix(w, "<") || has_prefix(w, "$") || has_prefix(w, "%") || has_prefix(w, "your")
        || has_prefix(w, "xxx") || contains_str(w, "example") || contains_str(w, "changeme")
        || contains_str(w, "change-me") || contains_str(w, "placeholder") || contains_str(
        w,
        "redacted",
    )
}

/// Whether `l` is a `.env`-style secret assignment.
fn is_secret_assignment_chars(l: &[char]) -> (b: bool)
    ensures
        b == secret_assignment(l@),
{
    let l1 = if has_prefix(l, "export ") {
        proof {
            reveal_strlit("export ");
        }
        skip_chars(l, 7)
    } else {
        slice_chars(l, 0, l.len())
    };
    assert(!text::starts_with(l@, "export "@) ==> l1@ =~= l@);
    let (key, value) = match split_once_str(l1.as_slice(), "=") {
        Some(kv) => kv,
        None => return false,
    };
    if !is_env_key(key.as_slice()) {
        return false;
    }
    let upper = to_upper(key.as_slice());
    if !has_secret_word_in(upper.as_slice()) {
        return false;
    }
    if value.len() > 0 && char_is_whitespace(value[0]) {
        return false;
    }
    let trimmed = trim_chars(value.as_slice());
    let u = unquoted(trimmed.as_slice());
    if !at_least_eight_bytes(u.as_slice()) {
        return false;
    }
    let lower = to_lower(u.as_slice());
    !is_placeholder(lower.as_slice())
}

/// The name of the first secret pattern that `l` matches.
pub fn find_pattern(l: &[char]) -> (r: Option<&'static str>)
    ensures
        match r {
            Some(name) => matching_pattern(l@) == Some(name@),
            None => matching_pattern(l@) is None,
        },
{
    if is_private_key(l) {
        Some("private key block")
    } else if is_github_token(l) {
        Some("GitHub token")
    } else if is_aws_key(l) {
        Some("AWS access key ID")
    } else if is_slack_token(l) {
        Some("Slack token")
    } else if is_secret_assignment_chars(l) {
        Some(".env-style secret assignment")
    } else {
        None
    }
}

/// `@@ -old[,n] +new[,n] @@`: the new-side start line.
fn hunk_start_chars(l: &[char]) -> (r: Option<usize>)
    ensures
        match r {
            Some(n) => hunk_start(l@) == Some(n as nat),
            None => hunk_start(l@) is None,
        },
{
    if !has_prefix(l, "@@") {
        return None;
    }
    proof {
        reveal_strlit("@@");
    }
    let rest = skip_chars(l, 2);
    let plus = match find_str(rest.as_slice(), "+") {
        Some(p) => p,
        None => return None,
    };
    proof {
        reveal_strlit("+");
    }
    let rn = rest.len();
    assert(plus < rn);
    let after = skip_chars(rest.as_slice(), plus + 1);
    let d = leading_digits(after.as_slice());
    let digits = take_chars(after.as_slice(), d);
    parse_usize(digits.as_slice())
}

/// `@@ -old[,n] +new[,n] @@`: the new-side start line.
pub fn hunk_new_start(line: &str) -> (r: Option<usize>)
    ensures
        match r {
            Some(n) => hunk_start(line@) == Some(n as nat),
            None => hunk_start(line@) is None,
        },
{
    let l = chars_of(line);
    hunk_start_chars(l.as_slice())
}

/// `prefix` followed by a run of at least `min_tail` token characters, for
/// one of the `prefixes`.
pub fn contains_prefixed_token(line: &str, prefixes: &[&'static str], min_tail: usize) -> (b: bool)
    ensures
        b == exists|j: int|
            0 <= j < prefixes@.len() && prefixed_token(
                line@,
                (#[trigger] prefixes@[j])@,
                0,
                min_tail as nat,
            ),
{
    let l = chars_of(line);
    contains_prefixed_token_chars(l.as_slice(), prefixes, min_tail)
}

/// A `.env`-style secret assignment.
pub fn is_secret_assignment(line: &str) -> (b: bool)
    ensures
        b == secret_assignment(line@),
{
    let l = chars_of(line);
    is_secret_assignment_chars(l.as_slice())
}

pub open spec fn opt_nat(n: Option<usize>) -> Option<nat> {
    match n {
        Some(k) => Some(k as nat),
        None => None,
    }
}

/// The next new-file line, if known (`usize` arithmetic wraps).
fn advance_line(n: Option<usize>) -> (r: Option<usize>)
    ensures
        opt_nat(r) == advance(opt_nat(n)),
{
    match n {
        Some(k) => Some(if k == usize::MAX {
            0
        } else {
            k + 1
        }),
        None => None,
    }
}

/// Scan a unified diff for secrets in *added* lines only (a removal is the
/// fix, not the leak), tracking the `+++ b/<path>` header and hunk offsets
/// for reporting.
pub fn scan_diff(diff: &str) -> (findings: Vec<Finding>)
    ensures
        findings_view(findings@) == scan(diff@),
{
    let chars = chars_of(diff);
    let lines = lines_of(chars.as_slice());
    let ghost ls = text::lines(diff@);
    let mut findings: Vec<Finding> = Vec::new();
    let mut path: Vec<char> = Vec::new();
    let mut new_line: Option<usize> = None;
    let mut index: usize = 0;
    while index < lines.len()
        invariant
            text::views(lines@) == ls,
            index <= lines@.len(),
            scan_prefix(ls, index as int).0 == (path@, opt_nat(new_line)),
            findings_view(findings@) == scan_prefix(ls, index as int).1,
        decreases lines@.len() - index,
    {
        let line = lines[index].as_slice();
        assert(ls[index as int] == line@);
        let ghost before = findings_view(findings@);
        let ghost st = (path@, opt_nat(new_line));
        proof {
            reveal_strlit("--- ");
            reveal_strlit("+++ ");
            reveal_strlit("b/");
            reveal_strlit("-");
            reveal_strlit("+");
            reveal_strlit(" ");
        }
        if has_prefix(line, "--- ") {
        } else if has_prefix(line, "+++ ") {
            let rest = skip_chars(line, 4);
            path = if has_prefix(rest.as_slice(), "b/") {
                skip_chars(rest.as_slice(), 2)
            } else {
                Vec::new()
            };
        } else {
            match hunk_start_chars(line) {
                Some(start) => {
                    new_line = Some(start);
                },
                None => {
                    if has_prefix(line, "-") {
                    } else if has_prefix(line, "+") {
                        let added = skip_chars(line, 1);
                        let finding_line = new_line;
                        new_line = advance_line(new_line);
                        if !contains_str(added.as_slice(), ALLOW_MARKER) {
                            match find_pattern(added.as_slice()) {
                                Some(name) => {
                                    let f = Finding {
                                        path: string_of(path.as_slice()),
                                        diff_line: index + 1,
                                        new_line: match finding_line {
                                            Some(k) if k > 0 => Some(k),
                                            _ => None,
                                        },
                                        pattern: name,
                                    };
                                    findings.push(f);
                                    assert(findings_view(findings@) =~= before.push(f@));
                                },
                                None => {},
                            }
                        }
                    } else if has_prefix(line, " ") {
                        new_line = advance_line(new_line);
                    }
                },
            }
        }
        index += 1;
        assert(findings_view(findings@) =~= scan_prefix(ls, index as int).1);
    }
    findings
}

/// The names of the secret patterns, in the order they are tried.
pub open spec fn is_pattern_name(p: Seq<char>) -> bool {
    p == "private key block"@ || p == "GitHub token"@ || p == "AWS access key ID"@ || p
        == "Slack token"@ || p == ".env-style secret assignment"@
}

/// The `Debug` form of a pattern name: a pattern's name, which needs no
/// escape, in double quotes.
pub open spec fn pattern_debug(p: Seq<char>) -> Seq<char> {
    if is_pattern_name(p) {
        text::quoted(p)
    } else {
        text::str_debug(p)
    }
}

fn is_pattern_name_str(p: &str) -> (b: bool)
    ensures
        b == is_pattern_name(p@),
{
    let c = chars_of(p);
    eq_str(c.as_slice(), "private key block") || eq_str(c.as_slice(), "GitHub token") || eq_str(
        c.as_slice(),
        "AWS access key ID",
    ) || eq_str(c.as_slice(), "Slack token") || eq_str(
        c.as_slice(),
        ".env-style secret assignment",
    )
}

impl Finding {
    /// `possible secret: <pattern> — rotate if real; …`.
    pub open spec fn message_spec(&self) -> Seq<char> {
        "possible secret: "@ + self.pattern@
            + " — rotate if real; documented examples carry the `"@ + ALLOW_MARKER@
            + "` marker"@
    }

    /// The GitHub Actions workflow command (run summary + inline diff
    /// annotation).
    pub open spec fn annotation_spec(&self) -> Seq<char> {
        match (self.path@.len() == 0, self.new_line) {
            (false, Some(line)) => "::error file="@ + self.path@ + ",line="@ + text::dec(
                line as nat,
            ) + ",title=pr-guard secret scan::"@ + self.message_spec(),
            _ => "::error title=pr-guard secret scan::"@ + self.message_spec(),
        }
    }

    /// `<where>: matches secret pattern "<pattern>"`.
    pub open spec fn display_spec(&self) -> Seq<char> {
        let whereabouts = match (self.path@.len() == 0, self.new_line) {
            (false, Some(line)) => self.path@ + ":"@ + text::dec(line as nat),
            (false, None) => self.path@ + " (diff line "@ + text::dec(self.diff_line as nat)
                + ")"@,
            (true, _) => "diff line "@ + text::dec(self.diff_line as nat),
        };
        whereabouts + ": matches secret pattern "@ + pattern_debug(self.pattern@)
    }

    /// GitHub Actions workflow command (run summary + inline diff annotation).
    pub fn annotation(&self) -> (r: String)
        ensures
            r@ == self.annotation_spec(),
    {
        let mut r = String::new();
        match self.new_line {
            Some(line) if self.path.as_str().unicode_len() != 0 => {
                r.append("::error file=");
                r.append(self.path.as_str());
                r.append(",line=");
                push_decimal(&mut r, line as u64);
                r.append(",title=pr-guard secret scan::");
            },
            _ => {
                r.append("::error title=pr-guard secret scan::");
            },
        }
        r.append("possible secret: ");
        r.append(self.pattern);
        r.append(" — rotate if real; documented examples carry the `");
        r.append(ALLOW_MARKER);
        r.append("` marker");
        assert(r@ =~= self.annotation_spec());
        r
    }

    /// The human-readable form: where the finding is and which pattern
    /// matched.
    pub fn to_string(&self) -> (r: String)
        ensures
            r@ == self.display_spec(),
    {
        let mut r = String::new();
        let empty = self.path.as_str().unicode_len() == 0;
        match self.new_line {
            Some(line) if !empty => {
                r.append(self.path.as_str());
                r.append(":");
                push_decimal(&mut r, line as u64);
            },
            None if !empty => {
                r.append(self.path.as_str());
                r.append(" (diff line ");
                push_decimal(&mut r, self.diff_line as u64);
                r.append(")");
            },
            _ => {
                r.append("diff line ");
                push_decimal(&mut r, self.diff_line as u64);
            },
        }
        r.append(": matches secret pattern ");
        if is_pattern_name_str(self.pattern) {
            let c = chars_of(self.pattern);
            push_quoted(&mut r, c.as_slice());
        } else {
            let d = debug_str(self.pattern);
            r.append(d.as_str());
        }
        assert(r@ =~= self.display_spec());
        r
    }
}

} // verus!
