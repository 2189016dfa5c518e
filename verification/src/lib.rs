//! Finds every set of five five-letter words whose letters are pairwise
//! disjoint, so that the five words together use 25 distinct letters.
//!
//! Words are encoded as 26-bit letter-set masks, anagrams are collapsed to
//! one mask each, a forward disjointness graph is built over the distinct
//! masks, and an exhaustive depth-5 search over that graph enumerates the
//! cliques, which are then expanded back to concrete words.

pub mod anagrams;
pub mod cache;
pub mod encode;
pub mod expand;
pub mod graph;
pub mod order;
pub mod search;
pub mod solve;
