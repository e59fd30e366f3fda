use vstd::prelude::*;

verus! {

/// Failures reported by the scanner and the typed accessors.
#[derive(Debug)]
pub enum Error {
    /// A position probe ran past the end of the text.
    Eof,
    /// The text is structurally invalid at the cursor.
    Syntax(String),
    /// A comment skip was asked for where no comment opens.
    CommentIsntComment,
    /// An operation was called in a state that its caller should have ruled out.
    Programming(String),
    /// A typed accessor was called on a value of another type.
    InvalidType,
    /// The raw text of a value could not be converted to the requested type.
    ValueTypeParseError,
}

} // verus!
