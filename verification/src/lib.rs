//! A MUD client core: ANSI-aware text handling, matchers, completions and
//! the daemon's request logic.
pub mod processing;
pub mod collections;
pub mod matchers;
pub mod notifications;
pub mod formatters;
pub mod completion;
pub mod ui;
pub mod history;
pub mod cli;
pub mod protocol;
pub mod connections;

use vstd::prelude::*;

verus! {

/// Identifies connections, handlers and prompt groups.
pub type Id = u64;

} // verus!
