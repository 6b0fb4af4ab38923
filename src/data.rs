use vstd::prelude::*;

verus! {

/// How the children of a directory are ordered in its index.
#[derive(Debug, Clone, Copy, PartialEq, Eq)]
pub enum SortOrder {
    Alphabet,
    UpdateTime,
}

impl SortOrder {
    /// The name under which the order is shown to users.
    pub fn name(&self) -> (r: String)
        ensures
            *self == SortOrder::Alphabet ==> r@ == "alphabet"@,
            *self == SortOrder::UpdateTime ==> r@ == "update time"@,
    {
        proof {
            reveal_strlit("alphabet");
            reveal_strlit("update time");
        }
        match self {
            SortOrder::Alphabet => String::from_str("alphabet"),
            SortOrder::UpdateTime => String::from_str("update time"),
        }
    }
}

/// The settings of one run: the deepest heading level kept, whether the files of a
/// directory get their own table of contents, the order of directory children, and
/// the paths to work on.
pub struct Plugin {
    pub depth: usize,
    pub recursive: bool,
    pub sort: SortOrder,
    pub file_paths: Vec<String>,
}

/// Why an extraction failed.
#[derive(Debug, PartialEq, Eq)]
pub enum ExtractError {
    /// A file was given whose name does not end in `.md`.
    NotMarkdown,
    /// Reading, listing or writing failed; the message says what went wrong.
    Io(String),
    /// A name on disk is not valid text.
    Encoding,
    /// The heading pattern could not be compiled.
    Pattern,
}

} // verus!
