//! What can go wrong.
use vstd::prelude::*;
use crate::path::display_text;
use crate::path::LogicalPath;
use crate::path::PartView;

verus! {

/// Why the requires of a script could not be resolved.
#[derive(Debug)]
pub enum ResolveError {
    /// The script's path has no parent directory.
    NoParentDirectory,
    /// A `.luaurc` file is there, but could not be read.
    LuaurcUnreadable(LogicalPath),
    /// A `.luaurc` file could not be understood.
    LuaurcMalformed(LogicalPath),
    /// The script is not Luau; with the text of the errors.
    LuauSyntax(String),
}

/// The model of a [`ResolveError`].
#[verifier::ext_equal]
pub enum ErrorView {
    NoParentDirectory,
    LuaurcUnreadable(Seq<PartView>),
    LuaurcMalformed(Seq<PartView>),
    LuauSyntax(Seq<char>),
}

impl View for ResolveError {
    type V = ErrorView;

    open spec fn view(&self) -> ErrorView {
        match *self {
            ResolveError::NoParentDirectory => ErrorView::NoParentDirectory,
            ResolveError::LuaurcUnreadable(path) => ErrorView::LuaurcUnreadable(path@),
            ResolveError::LuaurcMalformed(path) => ErrorView::LuaurcMalformed(path@),
            ResolveError::LuauSyntax(errors) => ErrorView::LuauSyntax(errors@),
        }
    }
}

/// An error in words.
pub open spec fn error_message(error: ErrorView) -> Seq<char> {
    match error {
        ErrorView::NoParentDirectory => "script file has no parent directory"@,
        ErrorView::LuaurcUnreadable(path) => "failed to read "@ + display_text(path),
        ErrorView::LuaurcMalformed(path) => "failed to parse "@ + display_text(path),
        ErrorView::LuauSyntax(errors) => "failed to parse Luau source: "@ + errors,
    }
}

impl ResolveError {
    /// The error in words.
    pub fn message(&self) -> (res: String)
        ensures
            res@ == error_message(self@),
    {
        match self {
            ResolveError::NoParentDirectory => "script file has no parent directory".to_owned(),
            ResolveError::LuaurcUnreadable(path) => {
                "failed to read ".to_owned().concat(path.display().as_str())
            },
            ResolveError::LuaurcMalformed(path) => {
                "failed to parse ".to_owned().concat(path.display().as_str())
            },
            ResolveError::LuauSyntax(errors) => {
                "failed to parse Luau source: ".to_owned().concat(errors.as_str())
            },
        }
    }
}

} // verus!
