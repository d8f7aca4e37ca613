//! Spelling correction by symmetric deletion: dictionary words and queries are
//! both reduced to the strings left after deleting a few characters, and a
//! query is matched to the words that share such a string with it.

pub mod index;
pub mod rank;
pub mod resolve;
pub mod subsequence;

pub use index::{build, Index};
pub use rank::rank;
pub use resolve::{check_for_correct_spellings, resolve, Correction};
pub use subsequence::subsequences_from_n_deletions;
