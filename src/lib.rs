//! Rewrites a command's argument list by expanding `@` patterns into the paths they match.
//!
//! A pattern reads `@[%|\][ENTRY_POINT/**/]GLOB[^SELECTORS]`: the glob is searched for below
//! the entry point (below the repository root with `%`), and the selectors, or the user
//! through a [`SelectorMenu`], narrow the matches down.
pub mod errors;
pub mod expander;
pub mod fetch;
pub mod outside;
pub mod pattern;
pub mod selector;

pub use errors::LaxError;
pub use expander::{apply_menu_answer, transform_path, Config, Expander, SelectorMenu};
pub use fetch::{
    collect_matches, join_path_text, keep_entry, repository_root, repository_step, RootSearch,
    WalkEntry,
};
pub use pattern::parse_pattern;
pub use selector::{
    parse_selector_list, parse_selectors, trim_whitespace, Selector, SelectorGroup,
};
