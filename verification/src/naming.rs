//! Validation of crate names and GitHub owners.

use vstd::prelude::*;
use crate::text;
use crate::text::{chars_of, char_is_alnum, char_is_digit, char_is_lower};

verus! {

pub open spec fn is_kebab_char(c: char) -> bool {
    text::is_lower(c) || text::is_digit(c) || c == '-'
}

/// `^[a-z][a-z0-9]*(-[a-z0-9]+)*$`: lowercase letters, digits and single
/// hyphens between them, starting with a letter.
pub open spec fn kebab(s: Seq<char>) -> bool {
    &&& s.len() > 0
    &&& text::is_lower(s[0])
    &&& s.last() != '-'
    &&& forall|i: int| 0 <= i < s.len() ==> is_kebab_char(#[trigger] s[i])
    &&& forall|i: int| 0 <= i < s.len() - 1 ==> !(#[trigger] s[i] == '-' && s[i + 1] == '-')
}

/// `[A-Za-z0-9]([A-Za-z0-9-]*[A-Za-z0-9])?`: GitHub user and organization
/// names.
pub open spec fn github_owner(s: Seq<char>) -> bool {
    &&& s.len() > 0
    &&& text::is_alnum(s[0])
    &&& text::is_alnum(s.last())
    &&& forall|i: int| 0 <= i < s.len() ==> text::is_alnum(#[trigger] s[i]) || s[i] == '-'
}

/// Whether `name` is kebab-case, the shape of crate and binary names.
pub fn is_kebab_case(name: &str) -> (b: bool)
    ensures
        b == kebab(name@),
{
    let s = chars_of(name);
    let n = s.len();
    if n == 0 || !char_is_lower(s[0]) || s[n - 1] == '-' {
        return false;
    }
    let mut i: usize = 0;
    while i < n
        invariant
            n == s@.len(),
            s@ == name@,
            i <= n,
            forall|k: int| 0 <= k < i ==> is_kebab_char(#[trigger] s@[k]),
            forall|k: int| 0 <= k < i - 1 ==> !(#[trigger] s@[k] == '-' && s@[k + 1] == '-'),
        decreases n - i,
    {
        let c = s[i];
        if !(char_is_lower(c) || char_is_digit(c) || c == '-') {
            assert(!is_kebab_char(s@[i as int]));
            return false;
        }
        if i > 0 && c == '-' && s[i - 1] == '-' {
            let ghost k = i - 1;
            assert(0 <= k < s@.len() - 1 && s@[k] == '-' && s@[k + 1] == '-');
            assert(!kebab(s@));
            return false;
        }
        i += 1;
    }
    true
}

/// Whether `owner` is a valid GitHub user or organization name.
pub fn is_github_owner(owner: &str) -> (b: bool)
    ensures
        b == github_owner(owner@),
{
    let s = chars_of(owner);
    let n = s.len();
    if n == 0 || !char_is_alnum(s[0]) || !char_is_alnum(s[n - 1]) {
        return false;
    }
    let mut i: usize = 0;
    while i < n
        invariant
            n == s@.len(),
            s@ == owner@,
            i <= n,
            forall|k: int| 0 <= k < i ==> text::is_alnum(#[trigger] s@[k]) || s@[k] == '-',
        decreases n - i,
    {
        let c = s[i];
        if !(char_is_alnum(c) || c == '-') {
            assert(!(text::is_alnum(s@[i as int]) || s@[i as int] == '-'));
            return false;
        }
        i += 1;
    }
    true
}

/// Every kebab-case name is also a valid GitHub owner, so a project name
/// can always double as an owner.
pub proof fn kebab_names_are_github_owners(s: Seq<char>)
    requires
        kebab(s),
    ensures
        github_owner(s),
{
    assert(is_kebab_char(s[s.len() - 1]));
    assert forall|i: int| 0 <= i < s.len() implies text::is_alnum(#[trigger] s[i]) || s[i]
        == '-' by {
        assert(is_kebab_char(s[i]));
    }
}

/// An ASCII letter or digit, by code point ranges.
pub open spec fn ascii_letter_or_digit(c: char) -> bool {
    ('0' <= c && c <= '9') || ('a' <= c && c <= 'z') || ('A' <= c && c <= 'Z')
}

/// GitHub owners are exactly `[A-Za-z0-9]([A-Za-z0-9-]*[A-Za-z0-9])?`:
/// non-empty, only ASCII letters, digits and hyphens, and a letter or digit
/// (a leading digit included) at both ends.
pub proof fn github_owner_is_the_documented_shape(s: Seq<char>)
    ensures
        github_owner(s) <==> {
            &&& s.len() > 0
            &&& ascii_letter_or_digit(s[0])
            &&& ascii_letter_or_digit(s[s.len() - 1])
            &&& forall|i: int| 0 <= i < s.len() ==> ascii_letter_or_digit(#[trigger] s[i]) || s[i] == '-'
        },
{
}

/// A name made of ASCII letters and digits only, whatever its first
/// character, is a valid owner.
pub proof fn letters_and_digits_make_an_owner(s: Seq<char>)
    requires
        s.len() > 0,
        forall|i: int| 0 <= i < s.len() ==> ascii_letter_or_digit(#[trigger] s[i]),
    ensures
        github_owner(s),
{
    github_owner_is_the_documented_shape(s);
    assert(ascii_letter_or_digit(s[s.len() - 1]));
}

/// Kebab-case is exactly `^[a-z][a-z0-9]*(-[a-z0-9]+)*$`: non-empty,
/// starting with a lowercase ASCII letter, only lowercase letters, digits and
/// hyphens, no hyphen at the end and no two hyphens in a row.
pub proof fn kebab_case_is_the_documented_shape(s: Seq<char>)
    ensures
        kebab(s) <==> {
            &&& s.len() > 0
            &&& 'a' <= s[0] && s[0] <= 'z'
            &&& s[s.len() - 1] != '-'
            &&& forall|i: int|
                0 <= i < s.len() ==> ('a' <= #[trigger] s[i] && s[i] <= 'z') || ('0' <= s[i]
                    && s[i] <= '9') || s[i] == '-'
            &&& forall|i: int| 0 <= i < s.len() - 1 && #[trigger] s[i] == '-' ==> s[i + 1] != '-'
        },
{
}

} // verus!
