//! A minimal regular-expression engine over single lines of text.
//!
//! `parse_pattern` compiles the text of a pattern into a sequence of nodes,
//! and `match_pattern` looks for the leftmost match of a pattern in a line.
//! Patterns are made of literals, `.`, `\d`, `\w`, classes `[..]` and
//! `[^..]`, the anchors `^` and `$`, the quantifiers `?`, `*` and `+`,
//! groups with alternatives `(..|..)` and backreferences `\1` to `\9`.
//!
//! The search is greedy and gives back through the node directly before the
//! failing one only. All offsets count characters.

pub mod captures;
pub mod chars;
pub mod compile;
pub mod invariants;
pub mod laws;
pub mod matcher;
pub mod numbering;
pub mod pattern;
pub mod semantics;
pub mod syntax;

pub use crate::captures::Captures;
pub use crate::compile::parse_pattern;
pub use crate::matcher::{
    find_match_start, match_all_subpatterns, match_compiled, match_pattern, match_pattern_in,
    match_subpattern, match_subpattern_kind, BACKREF_DEPTH,
};
pub use crate::pattern::{Modifier, PatternKind, SubPattern};
pub use crate::semantics::MatchError;
pub use crate::syntax::CompileError;
