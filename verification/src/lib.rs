//! Text checks for a Rust project repository: commit-message conventions,
//! secret scanning of diffs, toolchain pinning, skill frontmatter and
//! project-name validation, plus the greeting library of the generated CLI.

pub mod text;
pub mod greeting;

pub use greeting::{greet, Error};
pub mod commit;

pub use commit::check;
pub mod naming;

pub use naming::is_kebab_case;
pub mod secrets;

pub use secrets::{scan_diff, Finding};
pub mod toolchain;
pub mod skills;
pub mod scaffold;
pub mod calendar;
