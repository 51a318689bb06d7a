//! Core library of a small offline browser: tab and bookmark state, sidebar
//! navigation, URL-pattern ad filtering, and a local full-text search index
//! (tokenizer, inverted index, TF-IDF style ranking, snapshot codec).

pub mod text;
pub mod tokenizer;
pub mod browser;
pub mod sidebar;
pub mod index;
pub mod score;
pub mod search;
pub mod codec;
pub mod laws;
pub mod adblock;
pub mod tabs;

use vstd::prelude::*;

verus! {

/// The views of a sequence of strings.
pub open spec fn strs(s: Seq<String>) -> Seq<Seq<char>> {
    s.map_values(|x: String| x@)
}

/// Relies on std::time::SystemTime::now: the milliseconds since the Unix
/// epoch, or zero for a clock before it.  Nothing is promised of the value;
/// every caller copes with any result.
#[verifier::external_body]
pub(crate) fn now_unix_millis() -> u64 {
    std::time::SystemTime::now()
        .duration_since(std::time::UNIX_EPOCH)
        .map(|d| d.as_millis() as u64)
        .unwrap_or(0)
}

} // verus!
