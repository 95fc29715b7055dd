//! The text side of `bump-toolchain`: reading the pinned `channel` of a
//! rust-toolchain.toml, reading the latest stable release from a channel
//! manifest, comparing `X.Y.Z` versions and rewriting the channel line.

use vstd::prelude::*;
use crate::text;
use crate::text::{
    chars_of, char_is_whitespace, debug_str, find_chars, has_prefix, has_suffix, lines_of, parse_u64,
    push_chars, slice_chars, split_char, string_of, trim_chars, trim_start_chars,
    trim_start_index, eq_str,
};

verus! {

// ---------------------------------------------------------------------------
// The model
// ---------------------------------------------------------------------------

/// A `channel = "..."` line, with any leading indentation.
pub open spec fn channel_line(l: Seq<char>) -> bool {
    let t = text::trim_start(l);
    text::starts_with(t, "channel"@) && text::starts_with(text::trim_start(t.skip(7)), "="@)
}

/// The first `"..."`-quoted string on a line.
pub open spec fn quoted_value_spec(l: Seq<char>) -> Option<Seq<char>> {
    match text::find(l, seq!['"']) {
        None => None,
        Some(a) => {
            let rest = l.skip(a + 1);
            match text::find(rest, seq!['"']) {
                None => None,
                Some(b) => Some(rest.take(b)),
            }
        },
    }
}

/// `i` is the first channel line of `ls`.
pub open spec fn is_first_channel(ls: Seq<Seq<char>>, i: int) -> bool {
    0 <= i < ls.len() && channel_line(ls[i]) && forall|j: int| 0 <= j < i ==> !channel_line(ls[j])
}

/// The index of the first channel line.
pub open spec fn first_channel(ls: Seq<Seq<char>>) -> Option<int> {
    if exists|i: int| is_first_channel(ls, i) {
        Some(choose|i: int| is_first_channel(ls, i))
    } else {
        None
    }
}

/// The `channel` value of a rust-toolchain.toml.
pub open spec fn channel_of(content: Seq<char>) -> Option<Seq<char>> {
    let ls = text::lines(content);
    match first_channel(ls) {
        None => None,
        Some(i) => quoted_value_spec(ls[i]),
    }
}

/// `str::split_whitespace().next()`: the first word.
pub open spec fn first_word(v: Seq<char>) -> Option<Seq<char>> {
    let a = text::trim_start(v);
    if a.len() == 0 {
        None
    } else {
        Some(a.take(word_len(a) as int))
    }
}

/// Length of the run of non-whitespace at the start of `s`.
pub open spec fn word_len(s: Seq<char>) -> nat
    decreases s.len(),
{
    if s.len() > 0 && !text::is_white(s[0]) {
        1 + word_len(s.drop_first())
    } else {
        0
    }
}

/// Scans the manifest lines `ls` for `[pkg.rust]`'s `version`, `in_pkg`
/// telling whether the scan is inside that table.
pub open spec fn latest_in(ls: Seq<Seq<char>>, in_pkg: bool) -> Option<Seq<char>>
    decreases ls.len(),
{
    if ls.len() == 0 {
        None
    } else {
        let t = text::trim(ls[0]);
        if text::starts_with(t, "["@) {
            latest_in(ls.drop_first(), t == "[pkg.rust]"@)
        } else if in_pkg && text::starts_with(t, "version"@) {
            match quoted_value_spec(t) {
                None => None,
                Some(v) => first_word(v),
            }
        } else {
            latest_in(ls.drop_first(), in_pkg)
        }
    }
}

/// The latest stable version in a channel-rust-stable.toml: `[pkg.rust]`'s
/// `version = "X.Y.Z (hash date)"`, reduced to the bare `X.Y.Z`.
pub open spec fn latest_stable_of(content: Seq<char>) -> Option<Seq<char>> {
    latest_in(text::lines(content), false)
}

/// One part of a version: one or more ASCII digits whose value fits a `u64`.
pub open spec fn version_part(s: Seq<char>) -> Option<nat> {
    if s.len() > 0 && text::all_digits(s) && text::digits_value(s) <= u64::MAX {
        Some(text::digits_value(s))
    } else {
        None
    }
}

/// `X.Y.Z` of ASCII digits as a comparable tuple; `None` for anything else.
pub open spec fn version_of(t: Seq<char>) -> Option<(u64, u64, u64)> {
    let ps = text::split(t, '.');
    if ps.len() == 3 {
        match (version_part(ps[0]), version_part(ps[1]), version_part(ps[2])) {
            (Some(a), Some(b), Some(c)) => Some((a as u64, b as u64, c as u64)),
            _ => None,
        }
    } else {
        None
    }
}

/// The leading whitespace of a line.
pub open spec fn indent(l: Seq<char>) -> Seq<char> {
    l.take(l.len() - text::trim_start(l).len())
}

/// `channel = "<v>"` with the indentation of `l`.
pub open spec fn channel_line_for(l: Seq<char>, v: Seq<char>) -> Seq<char> {
    indent(l) + "channel = \""@ + v + "\""@
}

/// `content` with only its first channel line rewritten to `v`, lines joined
/// by `'\n'` and the trailing-newline convention kept.
pub open spec fn bumped(content: Seq<char>, v: Seq<char>) -> Option<Seq<char>> {
    let ls = text::lines(content);
    match first_channel(ls) {
        None => None,
        Some(k) => Some(
            text::join(ls.update(k, channel_line_for(ls[k], v)), "\n"@) + (if text::ends_with(
                content,
                "\n"@,
            ) {
                "\n"@
            } else {
                Seq::<char>::empty()
            }),
        ),
    }
}

/// Lexicographic `<=` on parsed versions, `None` below every version (the
/// order of `Option<(u64, u64, u64)>`).
pub open spec fn version_le(a: Option<(u64, u64, u64)>, b: Option<(u64, u64, u64)>) -> bool {
    match (a, b) {
        (None, _) => true,
        (Some(_), None) => false,
        (Some(x), Some(y)) => x.0 < y.0 || (x.0 == y.0 && (x.1 < y.1 || (x.1 == y.1 && x.2
            <= y.2))),
    }
}

/// `X.Y.Z` written out in decimal.
pub open spec fn version_text(a: u64, b: u64, c: u64) -> Seq<char> {
    text::dec(a as nat) + "."@ + text::dec(b as nat) + "."@ + text::dec(c as nat)
}

/// Versions compare as `(major, minor, patch)` in lexicographic order, the
/// patch number included, and a version that does not parse is older than
/// every one that does.
pub proof fn version_order_is_lexicographic(x: (u64, u64, u64), y: (u64, u64, u64))
    ensures
        version_le(Some(x), Some(y)) <==> (x.0 < y.0 || (x.0 == y.0 && x.1 < y.1) || (x.0 == y.0
            && x.1 == y.1 && x.2 <= y.2)),
        version_le(None, Some(y)),
        !version_le(Some(x), None),
{
}

/// A release that differs only by a higher patch number is newer, so
/// `bump_plan` bumps to it.
pub proof fn higher_patch_is_newer(a: u64, b: u64, c: u64, d: u64)
    requires
        c < d,
    ensures
        !version_le(Some((a, b, d)), Some((a, b, c))),
        version_le(Some((a, b, c)), Some((a, b, d))),
{
    version_order_is_lexicographic((a, b, d), (a, b, c));
    version_order_is_lexicographic((a, b, c), (a, b, d));
}

proof fn lemma_parse_dec(n: u64)
    ensures
        version_part(text::dec(n as nat)) == Some(n as nat),
        !text::has_char(text::dec(n as nat), '.'),
{
    text::lemma_dec_digits(n as nat);
    let s = text::dec(n as nat);
    assert(text::is_digit(s[0]));
    assert(!text::has_char(s, '.')) by {
        if text::has_char(s, '.') {
            let i = choose|i: int| 0 <= i < s.len() && s[i] == '.';
            assert(text::is_digit(s[i]));
        }
    }
}

/// Reading a version back gives the numbers it was written from.
pub proof fn version_round_trip(a: u64, b: u64, c: u64)
    ensures
        version_of(version_text(a, b, c)) == Some((a, b, c)),
{
    reveal_strlit(".");
    assert("."@ =~= seq!['.']);
    let da = text::dec(a as nat);
    let db = text::dec(b as nat);
    let dc = text::dec(c as nat);
    lemma_parse_dec(a);
    lemma_parse_dec(b);
    lemma_parse_dec(c);
    assert(version_text(a, b, c) =~= (da.push('.') + db).push('.') + dc);
    text::lemma_split_at_sep(da.push('.') + db, dc, '.');
    text::lemma_split_at_sep(da, db, '.');
    text::lemma_split_no_sep(da, '.');
    text::lemma_split_no_sep(db, '.');
    text::lemma_split_no_sep(dc, '.');
    let ps = text::split(version_text(a, b, c), '.');
    assert(ps =~= seq![da, db, dc]);
}

proof fn lemma_channel_line_strip_cr(l: Seq<char>)
    ensures
        channel_line(text::strip_cr(l)) ==> channel_line(l),
{
    reveal_strlit("channel");
    reveal_strlit("=");
    if l.len() > 0 && l.last() == '\r' && channel_line(l.drop_last()) {
        let s = l.drop_last();
        assert(s.push('\r') =~= l);
        let t = text::trim_start(s);
        text::lemma_trim_start_push(s, '\r');
        assert(text::trim_start(l) == t.push('\r'));
        assert(t.push('\r').take(7) =~= t.take(7));
        let after = t.skip(7);
        assert(t.push('\r').skip(7) =~= after.push('\r'));
        text::lemma_trim_start_push(after, '\r');
        assert(text::trim_start(after).push('\r').take(1) =~= text::trim_start(after).take(1));
    }
}

proof fn lemma_lines_no_newline(s: Seq<char>)
    ensures
        forall|i: int| 0 <= i < text::lines(s).len() ==> !text::has_char(
            #[trigger] text::lines(s)[i],
            '\n',
        ),
{
    let parts = text::split(s, '\n');
    text::lemma_split_pieces(s, '\n');
    text::lemma_split_nonempty(s, '\n');
    assert forall|i: int| 0 <= i < text::lines(s).len() implies !text::has_char(
        #[trigger] text::lines(s)[i],
        '\n',
    ) by {
        let l = text::lines(s)[i];
        assert(!text::has_char(parts[i], '\n'));
        if text::has_char(l, '\n') {
            let k = choose|k: int| 0 <= k < l.len() && l[k] == '\n';
            if i < parts.len() - 1 {
                assert(l == text::strip_cr(parts[i]));
                assert(parts[i][k] == '\n');
            } else {
                assert(l == parts.last());
            }
        }
    }
}

/// The new channel line is a channel line without line breaks that does not
/// end in `'\r'` and keeps the indentation of the line it replaces.
proof fn lemma_channel_line_shape(l: Seq<char>, v: Seq<char>)
    requires
        !text::has_char(v, '\n'),
        !text::has_char(l, '\n'),
    ensures
        channel_line(channel_line_for(l, v)),
        text::strip_cr(channel_line_for(l, v)) == channel_line_for(l, v),
        !text::has_char(channel_line_for(l, v), '\n'),
        indent(channel_line_for(l, v)) == indent(l),
        channel_line_for(l, v).len() > 0,
{
    reveal_strlit("channel = \"");
    reveal_strlit("\"");
    reveal_strlit("channel");
    reveal_strlit("=");
    let head = "channel = \""@;
    assert(head =~= seq!['c', 'h', 'a', 'n', 'n', 'e', 'l', ' ', '=', ' ', '"']);
    let ind = indent(l);
    text::lemma_trim_start_prefix_white(l);
    assert forall|i: int| 0 <= i < ind.len() implies text::is_white(#[trigger] ind[i]) by {
        assert(ind[i] == l[i]);
    }
    let x = head + v + "\""@;
    let nl = channel_line_for(l, v);
    assert(nl =~= ind + x);
    text::lemma_trim_start_after_white(ind, x);
    assert(text::trim_start(nl) == x);
    assert(nl.take(nl.len() - x.len()) =~= ind);
    assert(x.take(7) =~= "channel"@);
    let after = x.skip(7);
    assert(after =~= seq![' '] + x.skip(8));
    assert(forall|i: int| 0 <= i < 1 ==> text::is_white(#[trigger] seq![' '][i]));
    text::lemma_trim_start_after_white(seq![' '], x.skip(8));
    assert(x.skip(8).take(1) =~= "="@);
    assert(nl.last() == '"');
    assert(!text::has_char(nl, '\n')) by {
        if text::has_char(nl, '\n') {
            let k = choose|k: int| 0 <= k < nl.len() && nl[k] == '\n';
            if k < ind.len() {
                assert(ind[k] == l[k]);
            } else if k < ind.len() + 11 {
                assert(nl[k] == head[k - ind.len()]);
            } else if k < ind.len() + 11 + v.len() {
                assert(nl[k] == v[k - ind.len() - 11]);
            }
        }
    }
}

/// The last character of pieces joined by a separator is that of the last
/// piece, when it is not empty.
proof fn lemma_join_last(ls: Seq<Seq<char>>, sep: Seq<char>)
    requires
        ls.len() > 0,
        ls.last().len() > 0,
    ensures
        text::join(ls, sep).len() > 0,
        text::join(ls, sep).last() == ls.last().last(),
{
}

/// Bumping twice to the same version is bumping once, for files whose lines
/// other than the channel line end without a stray `'\r'` that the rewrite
/// would strip (`str::lines` drops one `'\r'` before each `'\n'`, so a line
/// ending in `"\r\r\n"` loses one `'\r'` per rewrite).
pub proof fn bump_is_idempotent(content: Seq<char>, v: Seq<char>)
    requires
        bumped(content, v) is Some,
        !text::has_char(v, '\n'),
        forall|i: int|
            0 <= i < text::lines(content).len() - 1 && i != first_channel(text::lines(content))->0
                ==> text::strip_cr(#[trigger] text::lines(content)[i]) == text::lines(content)[i],
        text::ends_with(content, "\n"@) && text::lines(content).len() - 1 != first_channel(
            text::lines(content),
        )->0 ==> text::strip_cr(text::lines(content).last()) == text::lines(content).last(),
    ensures
        bumped(bumped(content, v)->0, v) == bumped(content, v),
{
    reveal_strlit("\n");
    assert("\n"@ =~= seq!['\n']);
    let ls = text::lines(content);
    let k = first_channel(ls)->0;
    let kk = choose|i: int| is_first_channel(ls, i);
    lemma_first_channel_is(ls, kk);
    assert(is_first_channel(ls, k));
    lemma_lines_no_newline(content);
    let nl = channel_line_for(ls[k], v);
    lemma_channel_line_shape(ls[k], v);
    let t = ls.update(k, nl);
    assert forall|i: int| 0 <= i < t.len() implies !text::has_char(#[trigger] t[i], '\n') by {
        if i != k {
            assert(t[i] == ls[i]);
        }
    }
    let trailing = text::ends_with(content, "\n"@);
    let out = bumped(content, v)->0;
    let joined = text::join(t, seq!['\n']);
    let suffix = if trailing {
        "\n"@
    } else {
        Seq::<char>::empty()
    };
    assert(out == joined + suffix);
    if trailing {
        assert(out =~= joined.push('\n'));
    } else {
        assert(out =~= joined);
    }
    text::lemma_lines_of_join(t, trailing, out);
    if trailing {
        assert forall|i: int| 0 <= i < t.len() implies text::strip_cr(#[trigger] t[i]) == t[i] by {
            if i != k {
                assert(t[i] == ls[i]);
            }
        }
        assert(text::lines(out) =~= t);
        assert(out.skip(out.len() - 1) =~= seq!['\n']);
        assert(text::ends_with(out, "\n"@));
    } else {
        assert(content.len() > 0) by {
            if content.len() == 0 {
                assert(text::split(content, '\n') =~= seq![Seq::<char>::empty()]);
            }
        }
        assert(content.last() != '\n') by {
            if content.last() == '\n' {
                assert(content.skip(content.len() - 1) =~= seq!['\n']);
            }
        }
        text::lemma_lines_last_piece(content);
        assert(t.last().len() > 0) by {
            if k != t.len() - 1 {
                assert(t.last() == ls.last());
                assert(ls.last() == text::split(content, '\n').last());
            } else {
                assert(t.last() == nl);
            }
        }
        assert forall|i: int| 0 <= i < t.len() - 1 implies text::strip_cr(#[trigger] t[i]) == t[i] by {
            if i != k {
                assert(t[i] == ls[i]);
            }
        }
        assert(text::lines(out) =~= t);
        lemma_join_last(t, seq!['\n']);
        assert(!text::has_char(t.last(), '\n'));
        assert(t.last().last() == t.last()[t.last().len() - 1]);
        assert(!text::ends_with(out, "\n"@)) by {
            if text::ends_with(out, "\n"@) {
                assert(out.skip(out.len() - 1)[0] == out.last());
            }
        }
    }
    let l2 = text::lines(out);
    assert forall|j: int| 0 <= j < k implies !channel_line(#[trigger] l2[j]) by {
        assert(l2[j] == ls[j]);
    }
    assert(is_first_channel(l2, k));
    lemma_first_channel_is(l2, k);
    assert(channel_line_for(l2[k], v) == nl);
    assert(l2.update(k, channel_line_for(l2[k], v)) =~= t);
}

/// The new channel line is a channel line, ends its own `'\r'`-free text,
/// and quotes exactly the new version.
proof fn lemma_new_channel_line(l: Seq<char>, v: Seq<char>)
    requires
        !text::has_char(v, '"'),
        !text::has_char(v, '\n'),
        !text::has_char(l, '\n'),
    ensures
        channel_line(channel_line_for(l, v)),
        quoted_value_spec(channel_line_for(l, v)) == Some(v),
        text::strip_cr(channel_line_for(l, v)) == channel_line_for(l, v),
        !text::has_char(channel_line_for(l, v), '\n'),
{
    reveal_strlit("channel = \"");
    reveal_strlit("\"");
    lemma_channel_line_shape(l, v);
    let head = "channel = \""@;
    assert(head =~= seq!['c', 'h', 'a', 'n', 'n', 'e', 'l', ' ', '=', ' ', '"']);
    let ind = indent(l);
    let x = head + v + "\""@;
    let nl = channel_line_for(l, v);
    assert(nl =~= ind + x);
    // the first quote
    let p: int = ind.len() as int + 10;
    let q = seq!['"'];
    assert(nl[p] == '"');
    assert(nl.subrange(p, p + 1) =~= q);
    text::lemma_trim_start_prefix_white(l);
    assert forall|j: int| 0 <= j < p implies !text::occurs_at(nl, q, j) by {
        if text::occurs_at(nl, q, j) {
            assert(nl.subrange(j, j + 1)[0] == nl[j]);
            if j < ind.len() {
                assert(nl[j] == ind[j]);
                assert(ind[j] == l[j]);
            } else {
                assert(nl[j] == head[j - ind.len()]);
            }
        }
    }
    text::lemma_find_is(nl, q, p);
    let rest = nl.skip(p + 1);
    assert(rest =~= v + "\""@);
    let b = v.len() as int;
    assert(rest.subrange(b, b + 1) =~= q);
    assert forall|j: int| 0 <= j < b implies !text::occurs_at(rest, q, j) by {
        if text::occurs_at(rest, q, j) {
            assert(rest.subrange(j, j + 1)[0] == rest[j]);
            assert(rest[j] == v[j]);
        }
    }
    text::lemma_find_is(rest, q, b);
    assert(rest.take(b) =~= v);
}

/// A bumped file reads back the new version: its channel is `v` (a version
/// without quotes or line breaks).
pub proof fn bumped_reads_back(content: Seq<char>, v: Seq<char>)
    requires
        bumped(content, v) is Some,
        !text::has_char(v, '"'),
        !text::has_char(v, '\n'),
    ensures
        channel_of(bumped(content, v)->0) == Some(v),
{
    reveal_strlit("\n");
    assert("\n"@ =~= seq!['\n']);
    let ls = text::lines(content);
    let k = first_channel(ls)->0;
    let kk = choose|i: int| is_first_channel(ls, i);
    lemma_first_channel_is(ls, kk);
    lemma_lines_no_newline(content);
    let nl = channel_line_for(ls[k], v);
    lemma_new_channel_line(ls[k], v);
    let t = ls.update(k, nl);
    assert forall|i: int| 0 <= i < t.len() implies !text::has_char(#[trigger] t[i], '\n') by {
        if i != k {
            assert(t[i] == ls[i]);
        }
    }
    let trailing = text::ends_with(content, "\n"@);
    let out = bumped(content, v)->0;
    let joined = text::join(t, seq!['\n']);
    if trailing {
        assert(out =~= joined.push('\n'));
    } else {
        assert(out =~= joined);
    }
    text::lemma_lines_of_join(t, trailing, out);
    let l2 = text::lines(out);
    assert(l2.len() >= t.len() - 1);
    assert(t[k] == nl);
    assert(nl.len() > 0);
    if k < t.len() - 1 {
        assert(l2[k] == text::strip_cr(t[k]));
    } else if trailing {
        assert(l2[t.len() - 1] == text::strip_cr(t[t.len() - 1]));
    } else {
        assert(t.last() == nl);
        assert(l2[t.len() - 1] == t.last());
    }
    assert(l2[k] == nl);
    assert forall|j: int| 0 <= j < k implies !channel_line(#[trigger] l2[j]) by {
        assert(j < t.len() - 1);
        assert(l2[j] == text::strip_cr(t[j]));
        assert(t[j] == ls[j]);
        assert(!channel_line(ls[j]));
        lemma_channel_line_strip_cr(ls[j]);
    }
    assert(is_first_channel(l2, k));
    lemma_first_channel_is(l2, k);
}

// ---------------------------------------------------------------------------
// Implementation
// ---------------------------------------------------------------------------

/// A `channel = "..."` line, with any leading indentation.
fn is_channel_chars(line: &[char]) -> (b: bool)
    ensures
        b == channel_line(line@),
{
    let t = trim_start_chars(line);
    if !has_prefix(t.as_slice(), "channel") {
        return false;
    }
    proof {
        reveal_strlit("channel");
    }
    let after = trim_start_chars(slice_chars(t.as_slice(), 7, t.len()).as_slice());
    assert(t@.subrange(7, t@.len() as int) =~= t@.skip(7));
    has_prefix(after.as_slice(), "=")
}

/// The first `"..."`-quoted string on a line.
fn quoted_value_chars(line: &[char]) -> (r: Option<Vec<char>>)
    ensures
        match r {
            Some(v) => quoted_value_spec(line@) == Some(v@),
            None => quoted_value_spec(line@) is None,
        },
{
    let q = vec!['"'];
    assert(q@ =~= seq!['"']);
    let n = line.len();
    let a = match find_chars(line, q.as_slice()) {
        Some(a) => a,
        None => return None,
    };
    assert(a < n);
    let rest = slice_chars(line, a + 1, n);
    assert(rest@ =~= line@.skip(a + 1));
    match find_chars(rest.as_slice(), q.as_slice()) {
        Some(b) => {
            let v = slice_chars(rest.as_slice(), 0, b);
            assert(v@ =~= rest@.take(b as int));
            Some(v)
        },
        None => None,
    }
}

/// A `channel = "..."` line, with any leading indentation.
pub fn is_channel_line(line: &str) -> (b: bool)
    ensures
        b == channel_line(line@),
{
    let l = chars_of(line);
    is_channel_chars(l.as_slice())
}

/// The first `"..."`-quoted string on a line.
pub fn quoted_value(line: &str) -> (r: Option<String>)
    ensures
        match r {
            Some(v) => quoted_value_spec(line@) == Some(v@),
            None => quoted_value_spec(line@) is None,
        },
{
    let l = chars_of(line);
    match quoted_value_chars(l.as_slice()) {
        Some(v) => Some(string_of(v.as_slice())),
        None => None,
    }
}

/// The `channel` value of a rust-toolchain.toml (`channel = "X.Y.Z"`).
pub fn parse_channel(content: &str) -> (r: Option<String>)
    ensures
        match r {
            Some(v) => channel_of(content@) == Some(v@),
            None => channel_of(content@) is None,
        },
{
    let chars = chars_of(content);
    let lines = lines_of(chars.as_slice());
    match first_channel_index(&lines) {
        Some(i) => {
            assert(text::views(lines@)[i as int] == lines@[i as int]@);
            match quoted_value_chars(lines[i].as_slice()) {
                Some(v) => Some(string_of(v.as_slice())),
                None => None,
            }
        },
        None => None,
    }
}

proof fn lemma_first_channel_is(ls: Seq<Seq<char>>, i: int)
    requires
        is_first_channel(ls, i),
    ensures
        first_channel(ls) == Some(i),
{
    let j = choose|j: int| is_first_channel(ls, j);
    if j < i {
        assert(!channel_line(ls[j]));
    } else if i < j {
        assert(!channel_line(ls[i]));
    }
}

fn first_channel_index(lines: &Vec<Vec<char>>) -> (r: Option<usize>)
    ensures
        match r {
            Some(i) => first_channel(text::views(lines@)) == Some(i as int) && i < lines@.len(),
            None => first_channel(text::views(lines@)) is None,
        },
{
    let ghost ls = text::views(lines@);
    let mut i: usize = 0;
    while i < lines.len()
        invariant
            ls == text::views(lines@),
            i <= lines@.len(),
            forall|j: int| 0 <= j < i ==> !channel_line(#[trigger] ls[j]),
        decreases lines@.len() - i,
    {
        assert(ls[i as int] == lines@[i as int]@);
        if is_channel_chars(lines[i].as_slice()) {
            proof {
                lemma_first_channel_is(ls, i as int);
            }
            return Some(i);
        }
        i += 1;
    }
    assert(!exists|k: int| is_first_channel(ls, k));
    None
}

fn word_end(s: &[char]) -> (n: usize)
    ensures
        n == word_len(s@),
        n <= s@.len(),
{
    let mut i: usize = 0;
    assert(s@.skip(0) =~= s@);
    while i < s.len() && !char_is_whitespace(s[i])
        invariant
            i <= s@.len(),
            word_len(s@) == i + word_len(s@.skip(i as int)),
        decreases s@.len() - i,
    {
        assert(s@.skip(i as int).drop_first() =~= s@.skip(i + 1));
        i += 1;
    }
    i
}

/// The latest stable version in a channel manifest.
pub fn parse_latest_stable(content: &str) -> (r: Option<String>)
    ensures
        match r {
            Some(v) => latest_stable_of(content@) == Some(v@),
            None => latest_stable_of(content@) is None,
        },
{
    let chars = chars_of(content);
    let lines = lines_of(chars.as_slice());
    let ghost ls = text::views(lines@);
    let mut in_rust_pkg = false;
    let mut i: usize = 0;
    assert(ls.skip(0) =~= ls);
    while i < lines.len()
        invariant
            ls == text::views(lines@),
            ls == text::lines(content@),
            i <= lines@.len(),
            latest_in(ls, false) == latest_in(ls.skip(i as int), in_rust_pkg),
        decreases lines@.len() - i,
    {
        assert(ls[i as int] == lines@[i as int]@);
        assert(ls.skip(i as int)[0] == ls[i as int]);
        assert(ls.skip(i as int).drop_first() =~= ls.skip(i + 1));
        let t = trim_chars(lines[i].as_slice());
        if has_prefix(t.as_slice(), "[") {
            in_rust_pkg = eq_str(t.as_slice(), "[pkg.rust]");
        } else if in_rust_pkg && has_prefix(t.as_slice(), "version") {
            match quoted_value_chars(t.as_slice()) {
                None => return None,
                Some(v) => {
                    let a = trim_start_chars(v.as_slice());
                    if a.len() == 0 {
                        return None;
                    }
                    let n = word_end(a.as_slice());
                    let w = slice_chars(a.as_slice(), 0, n);
                    assert(w@ =~= a@.take(n as int));
                    return Some(string_of(w.as_slice()));
                },
            }
        }
        i += 1;
    }
    None
}

/// One version part: ASCII digits only (no sign), fitting a `u64`.
fn parse_version_part(s: &[char]) -> (r: Option<u64>)
    ensures
        match r {
            Some(v) => version_part(s@) == Some(v as nat),
            None => version_part(s@) is None,
        },
{
    if s.len() > 0 && s[0] == '+' {
        assert(!text::is_digit(s@[0]));
        return None;
    }
    let r = parse_u64(s);
    proof {
        assert(!(s@.len() > 1 && s@[0] == '+'));
    }
    r
}

/// `X.Y.Z` of ASCII digits as a comparable tuple; `None` for anything else
/// (`nightly`, `1.98`, `1.98.0.1`, `+1.2.3`, ...).
pub fn parse_version(text: &str) -> (r: Option<(u64, u64, u64)>)
    ensures
        r == version_of(text@),
{
    let chars = chars_of(text);
    let parts = split_char(chars.as_slice(), '.');
    if parts.len() != 3 {
        return None;
    }
    assert(text::views(parts@)[0] == parts@[0]@);
    assert(text::views(parts@)[1] == parts@[1]@);
    assert(text::views(parts@)[2] == parts@[2]@);
    let major = match parse_version_part(parts[0].as_slice()) {
        Some(v) => v,
        None => return None,
    };
    let minor = match parse_version_part(parts[1].as_slice()) {
        Some(v) => v,
        None => return None,
    };
    let patch = match parse_version_part(parts[2].as_slice()) {
        Some(v) => v,
        None => return None,
    };
    Some((major, minor, patch))
}

/// Lexicographic `<=` on parsed versions, `None` below every version.
pub fn version_at_most(a: Option<(u64, u64, u64)>, b: Option<(u64, u64, u64)>) -> (r: bool)
    ensures
        r == version_le(a, b),
{
    match (a, b) {
        (None, _) => true,
        (Some(_), None) => false,
        (Some(x), Some(y)) => x.0 < y.0 || (x.0 == y.0 && (x.1 < y.1 || (x.1 == y.1 && x.2
            <= y.2))),
    }
}

/// `content` with only the channel line rewritten, preserving comments,
/// indentation and the trailing-newline convention; `None` when there is no
/// channel line.
pub fn bumped_content(content: &str, new_version: &str) -> (r: Option<String>)
    ensures
        match r {
            Some(s) => bumped(content@, new_version@) == Some(s@),
            None => bumped(content@, new_version@) is None,
        },
{
    let chars = chars_of(content);
    let lines = lines_of(chars.as_slice());
    let k = match first_channel_index(&lines) {
        Some(k) => k,
        None => return None,
    };
    let ghost ls = text::views(lines@);
    let ghost target = ls.update(k as int, channel_line_for(ls[k as int], new_version@));
    let mut out = String::new();
    let mut i: usize = 0;
    while i < lines.len()
        invariant
            ls == text::views(lines@),
            ls == text::lines(content@),
            chars@ == content@,
            k < lines@.len(),
            target == ls.update(k as int, channel_line_for(ls[k as int], new_version@)),
            i <= lines@.len(),
            out@ == text::join(target.take(i as int), "\n"@),
        decreases lines@.len() - i,
    {
        let line = lines[i].as_slice();
        assert(ls[i as int] == line@);
        let ghost before = out@;
        if i > 0 {
            out.append("\n");
        }
        if i == k {
            let start = trim_start_index(line);
            let ind = slice_chars(line, 0, start);
            proof {
                assert(line@.skip(start as int).len() == line@.len() - start);
                assert(ind@ =~= indent(line@));
            }
            push_chars(&mut out, ind.as_slice());
            out.append("channel = \"");
            out.append(new_version);
            out.append("\"");
        } else {
            push_chars(&mut out, line);
        }
        proof {
            let ti = target.take(i + 1);
            assert(ti.drop_last() =~= target.take(i as int));
            assert(ti.last() == target[i as int]);
            if i == 0 {
                assert(ti.len() == 1);
            }
        }
        assert(out@ =~= text::join(target.take(i + 1), "\n"@));
        i += 1;
    }
    assert(target.take(i as int) =~= target);
    if has_suffix(chars.as_slice(), "\n") {
        out.append("\n");
    }
    assert(out@ =~= bumped(content@, new_version@)->0);
    Some(out)
}

/// The pinned channel of a rust-toolchain.toml at `path`, or the error that
/// stops the bump: no channel line, or a channel that is not `X.Y.Z`.
pub fn current_channel(content: &str, path: &str) -> (r: Result<String, String>)
    ensures
        match r {
            Ok(c) => channel_of(content@) == Some(c@) && version_of(c@) is Some,
            Err(e) => match channel_of(content@) {
                None => e@ == "no `channel = \"...\"` line in "@ + path@,
                Some(c) => version_of(c) is None && e@ == "channel "@ + text::str_debug(c)
                    + " is not a pinned X.Y.Z version; refusing to guess"@,
            },
        },
{
    match parse_channel(content) {
        None => {
            let mut e = String::from_str("no `channel = \"...\"` line in ");
            e.append(path);
            Err(e)
        },
        Some(current) => {
            if parse_version(current.as_str()).is_none() {
                let mut e = String::from_str("channel ");
                let d = debug_str(current.as_str());
                e.append(d.as_str());
                e.append(" is not a pinned X.Y.Z version; refusing to guess");
                Err(e)
            } else {
                Ok(current)
            }
        },
    }
}

/// The rewrite a bump makes, given the toolchain file's content, its pinned
/// version and the latest stable version: `Ok(None)` when the pin is up to
/// date, `Ok(Some(updated))` with the new content otherwise, and the error
/// when the channel line cannot be rewritten.
pub fn bump_plan(content: &str, current: &str, latest: &str, path: &str) -> (r: Result<
    Option<String>,
    String,
>)
    ensures
        version_le(version_of(latest@), version_of(current@)) ==> r == Ok::<
            Option<String>,
            String,
        >(None),
        !version_le(version_of(latest@), version_of(current@)) ==> match r {
            Ok(Some(s)) => bumped(content@, latest@) == Some(s@),
            Ok(None) => false,
            Err(e) => bumped(content@, latest@) is None && e@
                == "failed to rewrite the channel line in "@ + path@,
        },
{
    if version_at_most(parse_version(latest), parse_version(current)) {
        return Ok(None);
    }
    match bumped_content(content, latest) {
        Some(updated) => Ok(Some(updated)),
        None => {
            let mut e = String::from_str("failed to rewrite the channel line in ");
            e.append(path);
            Err(e)
        },
    }
}

} // verus!
