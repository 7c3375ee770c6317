//! The failure taxonomy of a single book's edit.

use vstd::prelude::*;

verus! {

/// Why editing one archive failed. A missing patch target inside the
/// metadata document is deliberately *not* an error: the patch is a no-op.
#[derive(Debug)]
pub enum EditError {
    /// Reading or rebuilding the archive failed.
    IoError,
    /// The archive holds no metadata document (`content.opf`).
    MetadataNotFound,
    /// The format template names a placeholder that is not recognized.
    UnknownPlaceholder(String),
}

impl EditError {
    /// A short description for the interactive layer to display.
    pub fn message(&self) -> (r: String)
        ensures
            r@.len() > 0,
    {
        let r = match self {
            EditError::IoError => String::from_str("archive read or write failed"),
            EditError::MetadataNotFound => String::from_str("content.opf not found"),
            EditError::UnknownPlaceholder(_) => String::from_str("unknown placeholder in format"),
        };
        proof {
            reveal_strlit("archive read or write failed");
            reveal_strlit("content.opf not found");
            reveal_strlit("unknown placeholder in format");
        }
        r
    }
}

} // verus!
