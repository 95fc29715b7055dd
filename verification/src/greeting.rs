//! The greeting library behind the command-line shell.

use vstd::prelude::*;
use crate::text;
use crate::text::{chars_of, push_chars, trim_chars};

verus! {

/// All failure modes of the greeting library.
#[derive(Debug, Clone, Copy, PartialEq, Eq)]
pub enum Error {
    /// The name was empty or whitespace-only.
    EmptyName,
}

/// `Hello, <name>!` for the trimmed name.
pub open spec fn greeting(name: Seq<char>) -> Seq<char> {
    "Hello, "@ + text::trim(name) + "!"@
}

/// Builds a greeting for `name`; fails with [`Error::EmptyName`] exactly when
/// `name` is empty or all whitespace.
pub fn greet(name: &str) -> (r: Result<String, Error>)
    ensures
        match r {
            Ok(g) => text::trim(name@).len() > 0 && g@ == greeting(name@),
            Err(e) => text::trim(name@).len() == 0 && e == Error::EmptyName,
        },
{
    let chars = chars_of(name);
    let trimmed = trim_chars(chars.as_slice());
    if trimmed.len() == 0 {
        return Err(Error::EmptyName);
    }
    let mut g = String::from_str("Hello, ");
    push_chars(&mut g, trimmed.as_slice());
    g.append("!");
    Ok(g)
}

} // verus!
