//! Execution core of a make-like build tool: rule storage with colon-kind
//! validation, timestamp-based staleness decisions, and a depth-first build
//! driven one step at a time by the host, which performs the file lookups and
//! runs the recipe lines.
use vstd::prelude::*;

pub mod config;
pub mod engine;
pub mod error;
pub mod rule;
pub mod rule_map;
pub mod runs;

pub use config::{Config, PathStat};
pub use engine::{Action, Build, Event};
pub use error::MakeError;
pub use rule::{Context, Outcome, Rule};
pub use rule_map::RuleMap;

verus! {

} // verus!
