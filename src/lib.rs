//! Applying unified diffs whose context has drifted: a lenient parser and a
//! fuzzy hunk locator.
pub mod diff;
pub mod header;
pub mod lookup;
pub mod normalize;
pub mod parser;
pub mod patcher;
pub mod scoring;
pub mod session;
pub mod text;
