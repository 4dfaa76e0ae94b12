//! Which changed files are indexed again.

use vstd::prelude::*;
use crate::text::{ends_with_str, ends_with_text};

verus! {

/// A changed file is indexed again when it is Rust source or Markdown.
pub open spec fn is_watched(path: Seq<char>) -> bool {
    ends_with_text(path, ".rs"@) || ends_with_text(path, ".md"@)
}

/// Whether a change to `path` leads to indexing it again.
pub fn should_reindex(path: &str) -> (b: bool)
    ensures
        b == is_watched(path@),
{
    ends_with_str(path, ".rs") || ends_with_str(path, ".md")
}

} // verus!
