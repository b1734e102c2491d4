//! Character-by-character comparison of two texts.
//!
//! The comparison fills a table of longest-common-subsequence scores, walks it back into an
//! edit script of insertions and deletions, and offers the script two ways: as the list of
//! texts that it passes through, and as the first text with every insertion and deletion
//! marked in place.
//!
//! Every function carries its contract, and the laws of the edit script are proved beside
//! the definitions they speak of: replaying the script on the first text gives the second,
//! no other script is shorter, and the marked text holds each unit of both texts once.

pub mod diff;
pub mod grid;
pub mod lcs;
pub mod minimal;
pub mod replay;
pub mod script;
pub mod subsequence;
pub mod text;
pub mod unified;

pub use diff::Diff;
pub use grid::Grid;
