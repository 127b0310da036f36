//! Combinatorial utilities on words: how many distinct arrangements a word
//! has, where anagrams of a pattern occur in a word, whether two words pass
//! the anagram checksum, and the next arrangement in lexicographic order.

pub mod arrange;
pub mod checksum;
pub mod permute;
pub mod text;
pub mod window;

pub use arrange::{count, factorial};
pub use checksum::is_anagram;
pub use permute::{get_next, next_arrangement, LastArrangement};
pub use window::occurences;
