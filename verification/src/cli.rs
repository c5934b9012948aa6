//! Command-line options of the Markdown renderer.
use vstd::prelude::*;

verus! {

/// `std::path::PathBuf`, carried through unread.
#[verifier::external_type_specification]
#[verifier::external_body]
pub struct ExPathBuf(std::path::PathBuf);

/// Options of the Markdown-to-HTML command: the file to render.
pub struct Options {
    /// The markdown file to render.
    pub filename: std::path::PathBuf,
}

} // verus!
