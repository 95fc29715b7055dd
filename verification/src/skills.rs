//! Smoke checks for agent-facing docs: SKILL.md frontmatter (`name` equal to
//! the directory name, `description` of 1..=1024 chars, keys within
//! [`ALLOWED_KEYS`], body within the progressive-disclosure budget),
//! AGENTS.md (line budget and freshness note) and an agent host's pointer
//! file (only a reference to AGENTS.md).

use vstd::prelude::*;
use crate::text;
use crate::text::{
    chars_eq, chars_of, contains_str, debug_str, eq_str, find_str, has_prefix, lines_of,
    push_decimal, push_message, replace_all, skip_chars, split_once_str,
    string_of, take_chars, trim_chars,
};

verus! {

/// ~5k tokens of body text per skill.
pub const SKILL_BODY_BUDGET_CHARS: usize = 20000;

pub const AGENTS_LINE_BUDGET: usize = 250;

/// The frontmatter keys that hosts read.
pub const ALLOWED_KEYS: [&'static str; 5] = [
    "name",
    "description",
    "license",
    "allowed-tools",
    "metadata",
];

pub const MISSING_FRONTMATTER: &'static str = "missing YAML frontmatter (must start with ---)";

pub const UNCLOSED_FRONTMATTER: &'static str = "frontmatter is not closed with ---";

// ---------------------------------------------------------------------------
// Frontmatter entries: a map from key to value that keeps insertion order
// ---------------------------------------------------------------------------

pub type Entries = Seq<(Seq<char>, Seq<char>)>;

/// `i` is the first entry with key `k`.
pub open spec fn key_at(es: Entries, k: Seq<char>, i: int) -> bool {
    0 <= i < es.len() && es[i].0 == k && forall|j: int| 0 <= j < i ==> es[j].0 != k
}

pub open spec fn key_index(es: Entries, k: Seq<char>) -> Option<int> {
    if exists|i: int| key_at(es, k, i) {
        Some(choose|i: int| key_at(es, k, i))
    } else {
        None
    }
}

/// The value stored under `k`.
pub open spec fn lookup(es: Entries, k: Seq<char>) -> Option<Seq<char>> {
    match key_index(es, k) {
        Some(i) => Some(es[i].1),
        None => None,
    }
}

/// `HashMap::insert`: the value of an existing key is replaced, a new key is
/// added.
pub open spec fn insert_entry(es: Entries, k: Seq<char>, v: Seq<char>) -> Entries {
    match key_index(es, k) {
        Some(i) => es.update(i, (k, v)),
        None => es.push((k, v)),
    }
}

pub proof fn lemma_key_index_is(es: Entries, k: Seq<char>, i: int)
    requires
        key_at(es, k, i),
    ensures
        key_index(es, k) == Some(i),
{
    let j = choose|j: int| key_at(es, k, j);
    if j < i {
        assert(es[j].0 != k);
    } else if i < j {
        assert(es[i].0 != k);
    }
}

/// Frontmatter keys and values, in the order the keys first appear.
pub struct Frontmatter {
    entries: Vec<(String, String)>,
}

impl View for Frontmatter {
    type V = Entries;

    closed spec fn view(&self) -> Entries {
        self.entries@.map_values(|e: (String, String)| (e.0@, e.1@))
    }
}

impl Frontmatter {
    pub fn new() -> (f: Frontmatter)
        ensures
            f@ == Seq::<(Seq<char>, Seq<char>)>::empty(),
    {
        let f = Frontmatter { entries: Vec::new() };
        assert(f@ =~= Seq::<(Seq<char>, Seq<char>)>::empty());
        f
    }

    fn index_of(&self, key: &[char]) -> (r: Option<usize>)
        ensures
            match r {
                Some(i) => key_index(self@, key@) == Some(i as int) && i < self@.len(),
                None => key_index(self@, key@) is None,
            },
    {
        let mut i: usize = 0;
        while i < self.entries.len()
            invariant
                i <= self.entries@.len(),
                self@.len() == self.entries@.len(),
                forall|j: int| 0 <= j < i ==> self@[j].0 != key@,
            decreases self.entries@.len() - i,
        {
            let k = chars_of(self.entries[i].0.as_str());
            assert(self@[i as int].0 == self.entries@[i as int].0@);
            if chars_eq(k.as_slice(), key) {
                proof {
                    lemma_key_index_is(self@, key@, i as int);
                }
                return Some(i);
            }
            i += 1;
        }
        assert(!exists|j: int| key_at(self@, key@, j));
        None
    }

    /// The value stored under `key`.
    pub fn get(&self, key: &str) -> (r: Option<String>)
        ensures
            match r {
                Some(v) => lookup(self@, key@) == Some(v@),
                None => lookup(self@, key@) is None,
            },
    {
        let k = chars_of(key);
        match self.index_of(k.as_slice()) {
            Some(i) => {
                assert(self@[i as int].1 == self.entries@[i as int].1@);
                Some(self.entries[i].1.clone())
            },
            None => None,
        }
    }

    /// Stores `value` under `key`, replacing an earlier value.
    pub fn insert(&mut self, key: String, value: String)
        ensures
            final(self)@ == insert_entry(old(self)@, key@, value@),
    {
        let k = chars_of(key.as_str());
        match self.index_of(k.as_slice()) {
            Some(i) => {
                let ghost before = self@;
                self.entries.set(i, (key, value));
                assert(self@ =~= before.update(i as int, (k@, value@)));
            },
            None => {
                let ghost before = self@;
                self.entries.push((key, value));
                assert(self@ =~= before.push((k@, value@)));
            },
        }
    }

    /// The keys, in order.
    pub fn keys(&self) -> (r: Vec<String>)
        ensures
            text::strings(r@) == self@.map_values(|e: (Seq<char>, Seq<char>)| e.0),
    {
        let mut r: Vec<String> = Vec::new();
        let mut i: usize = 0;
        while i < self.entries.len()
            invariant
                i <= self.entries@.len(),
                self@.len() == self.entries@.len(),
                text::strings(r@) == self@.take(i as int).map_values(
                    |e: (Seq<char>, Seq<char>)| e.0,
                ),
            decreases self.entries@.len() - i,
        {
            let k = self.entries[i].0.clone();
            assert(self@[i as int].0 == self.entries@[i as int].0@);
            assert(k@ == self@[i as int].0);
            let ghost before = text::strings(r@);
            r.push(k);
            assert(text::strings(r@) =~= before.push(self@[i as int].0));
            assert(self@.take(i + 1) =~= self@.take(i as int).push(self@[i as int]));
            i += 1;
            assert(text::strings(r@) =~= self@.take(i as int).map_values(
                |e: (Seq<char>, Seq<char>)| e.0,
            ));
        }
        assert(self@.take(i as int) =~= self@);
        r
    }

    pub fn len(&self) -> (n: usize)
        ensures
            n == self@.len(),
    {
        self.entries.len()
    }
}

/// A key given twice keeps its last value, and storing a key leaves every
/// other key's value as it was.
pub proof fn insert_then_lookup(es: Entries, k: Seq<char>, v: Seq<char>, other: Seq<char>)
    requires
        other != k,
    ensures
        lookup(insert_entry(es, k, v), k) == Some(v),
        lookup(insert_entry(es, k, v), other) == lookup(es, other),
{
    let es2 = insert_entry(es, k, v);
    match key_index(es, k) {
        Some(i) => {
            let j = choose|j: int| key_at(es, k, j);
            lemma_key_index_is(es, k, i);
            assert(key_at(es2, k, i));
            lemma_key_index_is(es2, k, i);
            match key_index(es, other) {
                Some(m) => {
                    lemma_key_index_is_some(es, other);
                    assert(key_at(es2, other, m)) by {
                        assert forall|j: int| 0 <= j < m implies es2[j].0 != other by {
                            assert(es[j].0 != other);
                        }
                    }
                    lemma_key_index_is(es2, other, m);
                },
                None => {
                    assert forall|m: int| !key_at(es2, other, m) by {
                        if key_at(es2, other, m) {
                            assert forall|j: int| 0 <= j < m implies es[j].0 != other by {
                                assert(es2[j].0 != other);
                            }
                            assert(key_at(es, other, m));
                        }
                    }
                },
            }
        },
        None => {
            assert forall|m: int| !key_at(es, k, m) by {}
            assert forall|j: int| 0 <= j < es.len() implies es[j].0 != k by {
                if es[j].0 == k {
                    let first = choose_first_key(es, k, j);
                    assert(key_at(es, k, first));
                }
            }
            assert(key_at(es2, k, es.len() as int));
            lemma_key_index_is(es2, k, es.len() as int);
            match key_index(es, other) {
                Some(m) => {
                    lemma_key_index_is_some(es, other);
                    assert(key_at(es2, other, m)) by {
                        assert forall|j: int| 0 <= j < m implies es2[j].0 != other by {
                            assert(es[j].0 != other);
                        }
                    }
                    lemma_key_index_is(es2, other, m);
                },
                None => {
                    assert forall|m: int| !key_at(es2, other, m) by {
                        if key_at(es2, other, m) {
                            assert forall|j: int| 0 <= j < m implies es[j].0 != other by {
                                assert(es2[j].0 != other);
                            }
                            assert(key_at(es, other, m));
                        }
                    }
                },
            }
        },
    }
}

proof fn lemma_key_index_is_some(es: Entries, k: Seq<char>)
    requires
        key_index(es, k) is Some,
    ensures
        key_at(es, k, key_index(es, k)->0),
{
}

/// When some entry has key `k`, one of them is the first.
proof fn choose_first_key(es: Entries, k: Seq<char>, j: int) -> (first: int)
    requires
        0 <= j < es.len(),
        es[j].0 == k,
    ensures
        key_at(es, k, first),
    decreases j,
{
    if exists|m: int| 0 <= m < j && es[m].0 == k {
        let m = choose|m: int| 0 <= m < j && es[m].0 == k;
        choose_first_key(es, k, m)
    } else {
        j
    }
}

// ---------------------------------------------------------------------------
// The model of the checks
// ---------------------------------------------------------------------------

/// The frontmatter and body of a SKILL.md, or why it has none. CRLF line
/// endings are read as LF.
pub open spec fn frontmatter_split(t: Seq<char>) -> Result<(Seq<char>, Seq<char>), Seq<char>> {
    let n = text::replace(t, "\r\n"@, "\n"@);
    if !text::starts_with(n, "---\n"@) {
        Err(MISSING_FRONTMATTER@)
    } else {
        let rest = n.skip(4);
        match text::find(rest, "\n---\n"@) {
            None => Err(UNCLOSED_FRONTMATTER@),
            Some(e) => Ok((rest.take(e), rest.skip(e + 5))),
        }
    }
}

pub open spec fn is_quote(c: char) -> bool {
    c == '"' || c == '\''
}

/// Leading quote characters removed.
pub open spec fn strip_quotes_start(s: Seq<char>) -> Seq<char>
    decreases s.len(),
{
    if s.len() > 0 && is_quote(s[0]) {
        strip_quotes_start(s.drop_first())
    } else {
        s
    }
}

/// Trailing quote characters removed.
pub open spec fn strip_quotes_end(s: Seq<char>) -> Seq<char>
    decreases s.len(),
{
    if s.len() > 0 && is_quote(s.last()) {
        strip_quotes_end(s.drop_last())
    } else {
        s
    }
}

/// `str::trim_matches(['"', '\''])`.
pub open spec fn strip_quotes(s: Seq<char>) -> Seq<char> {
    strip_quotes_end(strip_quotes_start(s))
}

/// A YAML indicator that starts a construct the line-based format forbids.
pub open spec fn is_indicator(c: char) -> bool {
    c == '>' || c == '|' || c == '&' || c == '*' || c == '!' || c == '%' || c == '@' || c == '`'
        || c == '[' || c == '{'
}

/// One frontmatter line through the parser: the entries and failures after
/// it.
pub open spec fn frontmatter_line(
    es: Entries,
    fails: Seq<Seq<char>>,
    rel: Seq<char>,
    line: Seq<char>,
) -> (Entries, Seq<Seq<char>>) {
    let stripped = text::trim(line);
    if stripped.len() == 0 || stripped[0] == '#' {
        (es, fails)
    } else {
        match text::split_once(line, ":"@) {
            None => (
                es,
                fails.push(rel + ": unparseable frontmatter line: "@ + text::str_debug(line)),
            ),
            Some((k0, v0)) => {
                let key = text::trim(k0);
                let value = text::trim(v0);
                if value.len() > 0 && is_quote(value[0]) {
                    if value.len() < 2 || value.last() != value[0] {
                        (
                            es,
                            fails.push(
                                rel + ": unterminated quoted scalar for "@ + text::str_debug(key),
                            ),
                        )
                    } else {
                        (insert_entry(es, key, strip_quotes(value)), fails)
                    }
                } else if value.len() > 0 && (text::contains(value, ": "@) || value.last()
                    == ':') {
                    (
                        es,
                        fails.push(
                            rel + ": plain scalar for "@ + text::str_debug(key)
                                + " contains ':' — strict YAML hosts reject this; wrap the value in double quotes"@,
                        ),
                    )
                } else if value.len() > 0 && is_indicator(value[0]) {
                    (
                        es,
                        fails.push(
                            rel + ": value for "@ + text::str_debug(key)
                                + " starts with a YAML indicator — only single-line plain or quoted scalars are supported in SKILL.md frontmatter"@,
                        ),
                    )
                } else {
                    (insert_entry(es, key, strip_quotes(value)), fails)
                }
            },
        }
    }
}

/// The parser after the first `n` lines.
pub open spec fn frontmatter_prefix(ls: Seq<Seq<char>>, rel: Seq<char>, n: int) -> (
    Entries,
    Seq<Seq<char>>,
)
    decreases n,
{
    if n <= 0 {
        (Seq::empty(), Seq::empty())
    } else {
        let (es, fs) = frontmatter_prefix(ls, rel, n - 1);
        frontmatter_line(es, fs, rel, ls[n - 1])
    }
}

/// The entries of single-line `key: value` frontmatter and the failures of
/// the lines that strict YAML hosts would reject.
pub open spec fn frontmatter_of(t: Seq<char>, rel: Seq<char>) -> (Entries, Seq<Seq<char>>) {
    let ls = text::lines(t);
    frontmatter_prefix(ls, rel, ls.len() as int)
}

pub open spec fn allowed_key(k: Seq<char>) -> bool {
    exists|i: int| 0 <= i < 5 && k == (#[trigger] ALLOWED_KEYS[i])@
}

/// The keys outside [`ALLOWED_KEYS`], in order.
pub open spec fn unknown_keys(es: Entries) -> Seq<Seq<char>>
    decreases es.len(),
{
    if es.len() == 0 {
        Seq::empty()
    } else {
        let r = unknown_keys(es.drop_last());
        if allowed_key(es.last().0) {
            r
        } else {
            r.push(es.last().0)
        }
    }
}

/// `Debug` of a list of strings: `["a", "b"]`.
pub open spec fn debug_list(ks: Seq<Seq<char>>) -> Seq<char> {
    "["@ + text::join(ks.map_values(|k: Seq<char>| text::str_debug(k)), ", "@) + "]"@
}

pub open spec fn allowed_keys_debug() -> Seq<char> {
    "[\"name\", \"description\", \"license\", \"allowed-tools\", \"metadata\"]"@
}

pub open spec fn no_msgs() -> Seq<Seq<char>> {
    Seq::<Seq<char>>::empty()
}

/// The failures of a SKILL.md at `rel` in the directory `dir`.
pub open spec fn skill_failures(rel: Seq<char>, dir: Seq<char>, t: Seq<char>) -> Seq<Seq<char>> {
    match frontmatter_split(t) {
        Err(reason) => seq![rel + ": "@ + reason],
        Ok((fm, body)) => {
            let (es, parse_fails) = frontmatter_of(fm, rel);
            let unknown = unknown_keys(es);
            parse_fails + (if unknown.len() > 0 {
                seq![
                    rel + ": unsupported frontmatter keys "@ + debug_list(unknown) + " — only "@
                        + allowed_keys_debug()
                        + " are allowed; activation conditions belong in `description`, not custom fields"@,
                ]
            } else {
                no_msgs()
            }) + match lookup(es, "name"@) {
                None => seq![rel + ": frontmatter requires `name`"@],
                Some(name) => if name != dir {
                    seq![
                        rel + ": name "@ + text::str_debug(name) + " must equal directory name "@
                            + text::str_debug(dir),
                    ]
                } else {
                    no_msgs()
                },
            } + match lookup(es, "description"@) {
                None => seq![rel + ": frontmatter requires `description`"@],
                Some(d) => if !(1 <= d.len() <= 1024) {
                    seq![
                        rel + ": description must be 1..1024 chars (got "@ + text::dec(d.len())
                            + ")"@,
                    ]
                } else {
                    no_msgs()
                },
            } + (if body.len() > SKILL_BODY_BUDGET_CHARS {
                seq![
                    rel + ": body is "@ + text::dec(body.len()) + " chars, exceeding the "@
                        + text::dec(SKILL_BODY_BUDGET_CHARS as nat)
                        + "-char budget — move detail into reference files inside the skill directory"@,
                ]
            } else {
                no_msgs()
            })
        },
    }
}

/// A value that YAML reads as a plain single-line scalar: it does not start
/// with a quote or an indicator (`>|&*!%@`[{`), has no `: ` inside, and does
/// not end with `:` or a quote.
pub open spec fn plain_scalar(w: Seq<char>) -> bool {
    &&& w.len() > 0 ==> {
        let c = w[0];
        !(c == '"' || c == '\'' || c == '>' || c == '|' || c == '&' || c == '*' || c == '!' || c
            == '%' || c == '@' || c == '`' || c == '[' || c == '{')
    }
    &&& w.len() > 0 ==> w.last() != ':' && w.last() != '"' && w.last() != '\''
    &&& forall|i: int| 0 <= i < w.len() - 1 ==> !(#[trigger] w[i] == ':' && w[i + 1] == ' ')
}

proof fn lemma_trim_end_keeps_first(s: Seq<char>)
    requires
        s.len() > 0,
        !text::is_white(s[0]),
    ensures
        text::trim_end(s).len() > 0,
        text::trim_end(s)[0] == s[0],
    decreases s.len(),
{
    if text::is_white(s.last()) {
        lemma_trim_end_keeps_first(s.drop_last());
    }
}

/// One `key: value` line whose value is a plain scalar (a colon not followed
/// by a space, as in a URL, included) adds no failure and stores the trimmed
/// value under the trimmed key.
pub proof fn plain_values_are_stored(es: Entries, fails: Seq<Seq<char>>, rel: Seq<char>, k: Seq<char>, v: Seq<char>)
    requires
        k.len() > 0,
        !text::is_white(k[0]),
        k[0] != '#',
        !text::has_char(k, ':'),
        plain_scalar(text::trim(v)),
    ensures
        frontmatter_line(es, fails, rel, k + ":"@ + v).1 == fails,
        lookup(frontmatter_line(es, fails, rel, k + ":"@ + v).0, text::trim(k)) == Some(
            text::trim(v),
        ),
{
    reveal_strlit(":");
    reveal_strlit(": ");
    let colon = ":"@;
    assert(colon =~= seq![':']);
    let line = k + colon + v;
    // the line is neither blank nor a comment
    assert(text::trim_start(line) == line);
    lemma_trim_end_keeps_first(line);
    assert(text::trim(line)[0] == k[0]);
    // it splits at the colon after the key
    let n = k.len() as int;
    assert(line.subrange(n, n + 1) =~= colon);
    assert forall|j: int| 0 <= j < n implies !text::occurs_at(line, colon, j) by {
        if text::occurs_at(line, colon, j) {
            assert(line.subrange(j, j + 1)[0] == line[j]);
            assert(line[j] == k[j]);
        }
    }
    assert(text::is_first(line, colon, n));
    text::lemma_find_is(line, colon, n);
    assert(line.take(n) =~= k);
    assert(line.skip(n + 1) =~= v);
    let w = text::trim(v);
    assert(!text::contains(w, ": "@)) by {
        assert(": "@ =~= seq![':', ' ']);
        if text::contains(w, ": "@) {
            let i = choose|i: int| text::occurs_at(w, ": "@, i);
            assert(w.subrange(i, i + 2)[0] == w[i]);
            assert(w.subrange(i, i + 2)[1] == w[i + 1]);
        }
    }
    assert(strip_quotes(w) == w) by {
        if w.len() > 0 {
            assert(strip_quotes_start(w) == w);
            assert(strip_quotes_end(w) == w);
        }
    }
    let other = text::trim(k).push('x');
    assert(other.len() != text::trim(k).len());
    insert_then_lookup(es, text::trim(k), w, other);
}

/// Parsing frontmatter that is one such `key: value` line yields no failure
/// and the trimmed value under the trimmed key, e.g. a description holding a
/// URL.
pub proof fn plain_frontmatter_line_parses(rel: Seq<char>, k: Seq<char>, v: Seq<char>)
    requires
        k.len() > 0,
        !text::is_white(k[0]),
        k[0] != '#',
        !text::has_char(k, ':'),
        !text::has_char(k, '\n'),
        !text::has_char(v, '\n'),
        plain_scalar(text::trim(v)),
    ensures
        frontmatter_of(k + ":"@ + v, rel).1.len() == 0,
        lookup(frontmatter_of(k + ":"@ + v, rel).0, text::trim(k)) == Some(text::trim(v)),
{
    reveal_strlit(":");
    let line = k + ":"@ + v;
    assert(":"@ =~= seq![':']);
    assert(!text::has_char(line, '\n')) by {
        if text::has_char(line, '\n') {
            let i = choose|i: int| 0 <= i < line.len() && line[i] == '\n';
            if i < k.len() {
                assert(line[i] == k[i]);
            } else if i > k.len() {
                assert(line[i] == v[i - k.len() - 1]);
            }
        }
    }
    text::lemma_split_no_sep(line, '\n');
    assert(text::lines(line) =~= seq![line]);
    let e = Seq::<(Seq<char>, Seq<char>)>::empty();
    let f = Seq::<Seq<char>>::empty();
    assert(frontmatter_prefix(seq![line], rel, 0) == (e, f));
    plain_values_are_stored(e, f, rel, k, v);
}

/// AGENTS.md passes exactly when it has at most 250 lines and one of its
/// first five lines carries `Last reviewed`.
pub proof fn agents_md_passes_iff_short_and_fresh(t: Seq<char>)
    ensures
        agents_md_failures(t).len() == 0 <==> (text::lines(t).len() <= 250 && exists|i: int|
            0 <= i < 5 && i < text::lines(t).len() && text::contains(
                #[trigger] text::lines(t)[i],
                "Last reviewed"@,
            )),
{
}

/// A SKILL.md that a host can load: frontmatter present and closed, every
/// frontmatter line a single-line `key: value` that strict YAML accepts,
/// only [`ALLOWED_KEYS`], a `name` equal to the directory name, a
/// `description` of 1 to 1024 characters, and a body of at most 20000
/// characters.
pub open spec fn skill_ok(rel: Seq<char>, dir: Seq<char>, t: Seq<char>) -> bool {
    match frontmatter_split(t) {
        Err(_) => false,
        Ok((fm, body)) => {
            let (es, parse_fails) = frontmatter_of(fm, rel);
            &&& parse_fails.len() == 0
            &&& forall|j: int| 0 <= j < es.len() ==> allowed_key(#[trigger] es[j].0)
            &&& lookup(es, "name"@) == Some(dir)
            &&& lookup(es, "description"@) matches Some(d) && 1 <= d.len() <= 1024
            &&& body.len() <= 20000
        },
    }
}

proof fn lemma_unknown_keys_empty(es: Entries)
    ensures
        unknown_keys(es).len() == 0 <==> forall|j: int| 0 <= j < es.len() ==> allowed_key(#[trigger] es[j].0),
    decreases es.len(),
{
    if es.len() > 0 {
        lemma_unknown_keys_empty(es.drop_last());
        if unknown_keys(es).len() == 0 {
            assert forall|j: int| 0 <= j < es.len() implies allowed_key(#[trigger] es[j].0) by {
                if j < es.len() - 1 {
                    assert(es[j] == es.drop_last()[j]);
                }
            }
        } else if forall|j: int| 0 <= j < es.len() ==> allowed_key(#[trigger] es[j].0) {
            assert forall|j: int| 0 <= j < es.drop_last().len() implies allowed_key(
                #[trigger] es.drop_last()[j].0,
            ) by {
                assert(es[j] == es.drop_last()[j]);
            }
            assert(allowed_key(es[es.len() - 1].0));
        }
    }
}

/// A SKILL.md passes the check exactly when a host can load it.
pub proof fn skill_passes_iff_loadable(rel: Seq<char>, dir: Seq<char>, t: Seq<char>)
    ensures
        skill_failures(rel, dir, t).len() == 0 <==> skill_ok(rel, dir, t),
{
    match frontmatter_split(t) {
        Err(_) => {},
        Ok((fm, body)) => {
            let (es, parse_fails) = frontmatter_of(fm, rel);
            lemma_unknown_keys_empty(es);
        },
    }
}

/// Whether one of the first five lines carries the freshness note.
pub open spec fn has_freshness_note(ls: Seq<Seq<char>>) -> bool {
    exists|i: int| 0 <= i < ls.len() && i < 5 && text::contains(#[trigger] ls[i], "Last reviewed"@)
}

/// The failures of AGENTS.md's text.
pub open spec fn agents_md_failures(t: Seq<char>) -> Seq<Seq<char>> {
    let ls = text::lines(t);
    (if ls.len() > AGENTS_LINE_BUDGET {
        seq![
            "AGENTS.md: "@ + text::dec(ls.len()) + " lines exceeds the "@ + text::dec(
                AGENTS_LINE_BUDGET as nat,
            ) + "-line budget"@,
        ]
    } else {
        no_msgs()
    }) + (if has_freshness_note(ls) {
        no_msgs()
    } else {
        seq!["AGENTS.md: missing the freshness note (Last reviewed) in the header"@]
    })
}

/// The trimmed lines of a pointer file that are neither empty nor HTML
/// comments.
pub open spec fn pointer_content(ls: Seq<Seq<char>>) -> Seq<Seq<char>>
    decreases ls.len(),
{
    if ls.len() == 0 {
        Seq::empty()
    } else {
        let r = pointer_content(ls.drop_last());
        let t = text::trim(ls.last());
        if t.len() == 0 || text::starts_with(t, "<!--"@) {
            r
        } else {
            r.push(t)
        }
    }
}

/// The failures of the pointer file `file`, which must hold only
/// `@<target>` (a reference, never a second copy).
pub open spec fn pointer_failures(file: Seq<char>, target: Seq<char>, t: Seq<char>) -> Seq<
    Seq<char>,
> {
    if pointer_content(text::lines(t)) == seq!["@"@ + target] {
        no_msgs()
    } else {
        seq![
            file + ": must contain only the @"@ + target
                + " reference (SSOT — never a copy)"@,
        ]
    }
}

// ---------------------------------------------------------------------------
// Implementation
// ---------------------------------------------------------------------------

/// Split raw file text into (frontmatter, body), keeping the two failure
/// modes apart; CRLF line endings are normalized first.
pub fn split_frontmatter(text: &str) -> (r: Result<(String, String), &'static str>)
    ensures
        match r {
            Ok((f, b)) => frontmatter_split(text@) == Ok::<(Seq<char>, Seq<char>), Seq<char>>(
                (f@, b@),
            ),
            Err(e) => frontmatter_split(text@) == Err::<(Seq<char>, Seq<char>), Seq<char>>(e@),
        },
{
    let chars = chars_of(text);
    proof {
        reveal_strlit("\r\n");
    }
    let normalized = replace_all(chars.as_slice(), "\r\n", "\n");
    if !has_prefix(normalized.as_slice(), "---\n") {
        return Err(MISSING_FRONTMATTER);
    }
    proof {
        reveal_strlit("---\n");
        reveal_strlit("\n---\n");
    }
    let rest = skip_chars(normalized.as_slice(), 4);
    let n = rest.len();
    match find_str(rest.as_slice(), "\n---\n") {
        None => Err(UNCLOSED_FRONTMATTER),
        Some(e) => {
            assert(e + 5 <= n);
            let front = take_chars(rest.as_slice(), e);
            let body = skip_chars(rest.as_slice(), e + 5);
            Ok((string_of(front.as_slice()), string_of(body.as_slice())))
        },
    }
}

fn strip_quote_chars(s: &[char]) -> (r: Vec<char>)
    ensures
        r@ == strip_quotes(s@),
{
    let mut i: usize = 0;
    assert(s@.skip(0) =~= s@);
    while i < s.len() && (s[i] == '"' || s[i] == '\'')
        invariant
            i <= s@.len(),
            strip_quotes_start(s@.skip(i as int)) == strip_quotes_start(s@),
        decreases s@.len() - i,
    {
        assert(s@.skip(i as int).drop_first() =~= s@.skip(i + 1));
        i += 1;
    }
    let a = skip_chars(s, i);
    let mut j: usize = a.len();
    assert(a@.take(j as int) =~= a@);
    while j > 0 && (a[j - 1] == '"' || a[j - 1] == '\'')
        invariant
            j <= a@.len(),
            strip_quotes_end(a@.take(j as int)) == strip_quotes_end(a@),
        decreases j,
    {
        assert(a@.take(j as int).drop_last() =~= a@.take(j - 1));
        j -= 1;
    }
    take_chars(a.as_slice(), j)
}

fn message_with(rel: &str, mid: &str, s: &[char]) -> (m: String)
    ensures
        m@ == rel@ + mid@ + text::str_debug(s@),
{
    let mut m = String::from_str(rel);
    m.append(mid);
    let q = string_of(s);
    let d = debug_str(q.as_str());
    m.append(d.as_str());
    m
}

/// Parse the single-line `key: value` subset of YAML frontmatter, recording
/// lines that strict YAML hosts reject in `failures`.
pub fn parse_frontmatter(text: &str, rel: &str, failures: &mut Vec<String>) -> (f: Frontmatter)
    ensures
        ({
            let (es, fs) = frontmatter_of(text@, rel@);
            &&& f@ == es
            &&& text::strings(final(failures)@) == text::strings(old(failures)@) + fs
        }),
{
    let chars = chars_of(text);
    let lines = lines_of(chars.as_slice());
    let ghost ls = text::lines(text@);
    let ghost start = text::strings(failures@);
    let mut fm = Frontmatter::new();
    let mut i: usize = 0;
    while i < lines.len()
        invariant
            text::views(lines@) == ls,
            i <= lines@.len(),
            fm@ == frontmatter_prefix(ls, rel@, i as int).0,
            text::strings(failures@) == start + frontmatter_prefix(ls, rel@, i as int).1,
        decreases lines@.len() - i,
    {
        let line = lines[i].as_slice();
        assert(ls[i as int] == line@);
        let ghost es0 = fm@;
        let ghost fs0 = frontmatter_prefix(ls, rel@, i as int).1;
        let stripped = trim_chars(line);
        if stripped.len() == 0 || stripped[0] == '#' {
        } else {
            match split_once_str(line, ":") {
                None => {
                    let m = message_with(rel, ": unparseable frontmatter line: ", line);
                    push_message(failures, m);
                    assert(text::strings(failures@) =~= start + fs0.push(
                        rel@ + ": unparseable frontmatter line: "@ + text::str_debug(line@),
                    ));
                },
                Some((k0, v0)) => {
                    let key = trim_chars(k0.as_slice());
                    let value = trim_chars(v0.as_slice());
                    let n = value.len();
                    if n > 0 && (value[0] == '"' || value[0] == '\'') {
                        if n < 2 || value[n - 1] != value[0] {
                            let m = message_with(
                                rel,
                                ": unterminated quoted scalar for ",
                                key.as_slice(),
                            );
                            push_message(failures, m);
                            assert(text::strings(failures@) =~= start + fs0.push(
                                rel@ + ": unterminated quoted scalar for "@ + text::str_debug(
                                    key@,
                                ),
                            ));
                        } else {
                            let v = strip_quote_chars(value.as_slice());
                            fm.insert(string_of(key.as_slice()), string_of(v.as_slice()));
                        }
                    } else if n > 0 && (contains_str(value.as_slice(), ": ") || value[n - 1]
                        == ':') {
                        let mut m = message_with(rel, ": plain scalar for ", key.as_slice());
                        m.append(
                            " contains ':' — strict YAML hosts reject this; wrap the value in double quotes",
                        );
                        push_message(failures, m);
                    } else if n > 0 && (value[0] == '>' || value[0] == '|' || value[0] == '&'
                        || value[0] == '*' || value[0] == '!' || value[0] == '%' || value[0]
                        == '@' || value[0] == '`' || value[0] == '[' || value[0] == '{') {
                        let mut m = message_with(rel, ": value for ", key.as_slice());
                        m.append(
                            " starts with a YAML indicator — only single-line plain or quoted scalars are supported in SKILL.md frontmatter",
                        );
                        push_message(failures, m);
                    } else {
                        let v = strip_quote_chars(value.as_slice());
                        fm.insert(string_of(key.as_slice()), string_of(v.as_slice()));
                    }
                },
            }
        }
        i += 1;
        assert(text::strings(failures@) =~= start + frontmatter_prefix(ls, rel@, i as int).1);
    }
    fm
}

fn is_allowed_key(k: &[char]) -> (b: bool)
    ensures
        b == allowed_key(k@),
{
    let mut i: usize = 0;
    while i < 5
        invariant
            i <= 5,
            forall|j: int| 0 <= j < i ==> k@ != (#[trigger] ALLOWED_KEYS[j])@,
        decreases 5 - i,
    {
        if eq_str(k, ALLOWED_KEYS[i]) {
            return true;
        }
        i += 1;
    }
    false
}

/// The failures of one SKILL.md's text, `rel` being its path for messages
/// and `dir_name` the name of its directory.
pub fn check_skill_text(rel: &str, dir_name: &str, text: &str, failures: &mut Vec<String>)
    ensures
        text::strings(final(failures)@) == text::strings(old(failures)@) + skill_failures(
            rel@,
            dir_name@,
            text@,
        ),
{
    let ghost start = text::strings(failures@);
    let (front, body) = match split_frontmatter(text) {
        Ok(parts) => parts,
        Err(reason) => {
            let mut m = String::from_str(rel);
            m.append(": ");
            m.append(reason);
            push_message(failures, m);
            assert(text::strings(failures@) =~= start + skill_failures(rel@, dir_name@, text@));
            return;
        },
    };
    let fm = parse_frontmatter(front.as_str(), rel, failures);
    let ghost after_parse = text::strings(failures@);
    let keys = fm.keys();
    let mut unknown: Vec<String> = Vec::new();
    let mut i: usize = 0;
    let ghost ks = fm@.map_values(|e: (Seq<char>, Seq<char>)| e.0);
    assert(keys@.len() == text::strings(keys@).len());
    while i < keys.len()
        invariant
            keys@.len() == fm@.len(),
            text::strings(keys@) == ks,
            ks == fm@.map_values(|e: (Seq<char>, Seq<char>)| e.0),
            i <= keys@.len(),
            text::strings(unknown@) == unknown_keys(fm@.take(i as int)),
        decreases keys@.len() - i,
    {
        let k = chars_of(keys[i].as_str());
        assert(ks[i as int] == keys@[i as int]@);
        assert(fm@.take(i + 1).drop_last() =~= fm@.take(i as int));
        if !is_allowed_key(k.as_slice()) {
            let ghost before = text::strings(unknown@);
            unknown.push(string_of(k.as_slice()));
            assert(text::strings(unknown@) =~= before.push(k@));
        }
        i += 1;
    }
    assert(fm@.take(i as int) =~= fm@);
    if unknown.len() > 0 {
        let mut m = String::from_str(rel);
        m.append(": unsupported frontmatter keys ");
        push_debug_list(&mut m, &unknown);
        m.append(" — only ");
        m.append("[\"name\", \"description\", \"license\", \"allowed-tools\", \"metadata\"]");
        m.append(
            " are allowed; activation conditions belong in `description`, not custom fields",
        );
        push_message(failures, m);
    }
    let ghost after_unknown = text::strings(failures@);
    match fm.get("name") {
        None => {
            let mut m = String::from_str(rel);
            m.append(": frontmatter requires `name`");
            push_message(failures, m);
        },
        Some(name) => {
            let n = chars_of(name.as_str());
            let d = chars_of(dir_name);
            if !chars_eq(n.as_slice(), d.as_slice()) {
                let mut m = message_with(rel, ": name ", n.as_slice());
                m.append(" must equal directory name ");
                let dd = debug_str(dir_name);
                m.append(dd.as_str());
                push_message(failures, m);
            }
        },
    }
    let ghost after_name = text::strings(failures@);
    match fm.get("description") {
        None => {
            let mut m = String::from_str(rel);
            m.append(": frontmatter requires `description`");
            push_message(failures, m);
        },
        Some(d) => {
            let count = d.as_str().unicode_len();
            if !(1 <= count && count <= 1024) {
                let mut m = String::from_str(rel);
                m.append(": description must be 1..1024 chars (got ");
                push_decimal(&mut m, count as u64);
                m.append(")");
                push_message(failures, m);
            }
        },
    }
    let ghost after_desc = text::strings(failures@);
    let body_len = body.as_str().unicode_len();
    if body_len > SKILL_BODY_BUDGET_CHARS {
        let mut m = String::from_str(rel);
        m.append(": body is ");
        push_decimal(&mut m, body_len as u64);
        m.append(" chars, exceeding the ");
        push_decimal(&mut m, SKILL_BODY_BUDGET_CHARS as u64);
        m.append(
            "-char budget — move detail into reference files inside the skill directory",
        );
        push_message(failures, m);
    }
    assert(text::strings(failures@) =~= start + skill_failures(rel@, dir_name@, text@));
}

/// Appends `["a", "b", ...]`, the `Debug` form of the list.
fn push_debug_list(m: &mut String, ks: &Vec<String>)
    ensures
        final(m)@ == old(m)@ + debug_list(text::strings(ks@)),
{
    let ghost items = text::strings(ks@).map_values(|k: Seq<char>| text::str_debug(k));
    let ghost start = m@;
    m.append("[");
    let mut i: usize = 0;
    while i < ks.len()
        invariant
            items == text::strings(ks@).map_values(|k: Seq<char>| text::str_debug(k)),
            i <= ks@.len(),
            m@ == start + "["@ + text::join(items.take(i as int), ", "@),
        decreases ks@.len() - i,
    {
        if i > 0 {
            m.append(", ");
        }
        let d = debug_str(ks[i].as_str());
        m.append(d.as_str());
        proof {
            let ti = items.take(i + 1);
            assert(ti.drop_last() =~= items.take(i as int));
            assert(ti.last() == text::str_debug(ks@[i as int]@));
        }
        assert(m@ =~= start + "["@ + text::join(items.take(i + 1), ", "@));
        i += 1;
    }
    assert(items.take(i as int) =~= items);
    m.append("]");
}

/// The failures of AGENTS.md's text: the line budget and the freshness note.
pub fn check_agents_md_text(text: &str, failures: &mut Vec<String>)
    ensures
        text::strings(final(failures)@) == text::strings(old(failures)@) + agents_md_failures(
            text@,
        ),
{
    let ghost start = text::strings(failures@);
    let chars = chars_of(text);
    let lines = lines_of(chars.as_slice());
    let ghost ls = text::lines(text@);
    if lines.len() > AGENTS_LINE_BUDGET {
        let mut m = String::from_str("AGENTS.md: ");
        push_decimal(&mut m, lines.len() as u64);
        m.append(" lines exceeds the ");
        push_decimal(&mut m, AGENTS_LINE_BUDGET as u64);
        m.append("-line budget");
        push_message(failures, m);
    }
    let ghost mid = text::strings(failures@);
    let mut found = false;
    let mut i: usize = 0;
    while i < lines.len() && i < 5
        invariant
            text::views(lines@) == ls,
            i <= lines@.len(),
            i <= 5,
            found == exists|j: int| 0 <= j < i && text::contains(#[trigger] ls[j], "Last reviewed"@),
        decreases 5 - i,
    {
        assert(ls[i as int] == lines@[i as int]@);
        if contains_str(lines[i].as_slice(), "Last reviewed") {
            found = true;
        }
        i += 1;
    }
    assert(found == has_freshness_note(ls));
    if !found {
        push_message(
            failures,
            String::from_str("AGENTS.md: missing the freshness note (Last reviewed) in the header"),
        );
    }
    assert(text::strings(failures@) =~= start + agents_md_failures(text@));
}

/// The failures of the pointer file `file`: it must hold only the
/// `@<target>` reference.
pub fn check_pointer_text(file: &str, target: &str, text: &str, failures: &mut Vec<String>)
    ensures
        text::strings(final(failures)@) == text::strings(old(failures)@) + pointer_failures(
            file@,
            target@,
            text@,
        ),
{
    let chars = chars_of(text);
    let lines = lines_of(chars.as_slice());
    let ghost ls = text::lines(text@);
    let mut kept: Vec<Vec<char>> = Vec::new();
    let mut i: usize = 0;
    while i < lines.len()
        invariant
            text::views(lines@) == ls,
            i <= lines@.len(),
            text::views(kept@) == pointer_content(ls.take(i as int)),
        decreases lines@.len() - i,
    {
        assert(ls[i as int] == lines@[i as int]@);
        assert(ls.take(i + 1).drop_last() =~= ls.take(i as int));
        let t = trim_chars(lines[i].as_slice());
        if !(t.len() == 0 || has_prefix(t.as_slice(), "<!--")) {
            let ghost before = text::views(kept@);
            kept.push(t);
            assert(text::views(kept@) =~= before.push(kept@[kept@.len() - 1]@));
        }
        i += 1;
    }
    assert(ls.take(i as int) =~= ls);
    let mut reference = String::from_str("@");
    reference.append(target);
    let rv = chars_of(reference.as_str());
    let ok = kept.len() == 1 && chars_eq(kept[0].as_slice(), rv.as_slice());
    proof {
        if kept@.len() == 1 {
            assert(text::views(kept@)[0] == kept@[0]@);
            if kept@[0]@ == "@"@ + target@ {
                assert(text::views(kept@) =~= seq!["@"@ + target@]);
            }
        }
    }
    if !ok {
        let mut m = String::from_str(file);
        m.append(": must contain only the @");
        m.append(target);
        m.append(" reference (SSOT — never a copy)");
        push_message(failures, m);
    }
}

/// Where an agent host's skills link points: the shared skills directory.
pub const SKILLS_LINK_TARGET: &'static str = "../.agents/skills";

/// Whether a text file standing in for the skills link (git's fallback on
/// platforms without symlinks) names [`SKILLS_LINK_TARGET`], surrounding
/// whitespace aside.
pub fn skills_link_text_ok(content: &str) -> (b: bool)
    ensures
        b == (text::trim(content@) == SKILLS_LINK_TARGET@),
{
    let c = chars_of(content);
    let t = trim_chars(c.as_slice());
    eq_str(t.as_slice(), SKILLS_LINK_TARGET)
}

} // verus!
