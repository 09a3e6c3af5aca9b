//! Metadata blocks at the head of a doc comment: the declared fields,
//! the faults they can carry, and the rule deciding whether an import
//! replaces the comment's body.
//!
//! Reading the metadata syntax and the imported file belongs to outside
//! collaborators; this module owns the data model and the decision.

use vstd::prelude::*;
use vstd::string::*;

verus! {

/// The fields a metadata block may declare.
#[derive(Debug)]
pub struct Frontmatter {
    /// Another file, relative to the current one, whose contents replace
    /// the comment's body.
    pub doc_location: Option<String>,
}

/// The ways a metadata block can be at fault.  Each is fatal: a
/// malformed block means the emitted documentation would be silently
/// wrong, so no partial recovery is attempted.
#[derive(Debug, PartialEq, Eq, Structural)]
pub enum FrontmatterErrorKind {
    /// The metadata block does not parse.
    InvalidYaml,
    /// The file named by `doc_location` cannot be read.
    DocLocationFileNotFound,
    /// `doc_location` stands beside other body content in the same
    /// comment.
    DocLocationConflictWithContent,
    /// `doc_location` is not a relative path.
    DocLocationNotRelativePath,
}

/// A fault found in a metadata block, with enough context to locate it.
#[derive(Debug, PartialEq)]
pub struct FrontmatterError {
    pub message: String,
    pub kind: FrontmatterErrorKind,
}

impl FrontmatterError {
    /// The fault, rendered for the user.
    pub fn describe(&self) -> (r: String)
        ensures
            r@ == "FrontmatterError: "@ + self.message@,
    {
        let mut r = String::from_str("FrontmatterError: ");
        r.append(self.message.as_str());
        r
    }
}

/// Decides what a metadata block asks for: no `doc_location` field means
/// the comment stands as written; a `doc_location` beside other body
/// content is a conflict, reported as such and never silently resolved;
/// a `doc_location` alone names the file to import.
pub fn frontmatter_import_decision(doc_location: Option<String>, has_content: bool) -> (r: Result<
    Option<String>,
    FrontmatterErrorKind,
>)
    ensures
        doc_location.deep_view() is None ==> (r matches Ok(o) && o is None),
        doc_location.deep_view() is Some && has_content ==> r == Result::<
            Option<String>,
            FrontmatterErrorKind,
        >::Err(FrontmatterErrorKind::DocLocationConflictWithContent),
        doc_location.deep_view() is Some && !has_content ==> (r matches Ok(o)
            && o.deep_view() == doc_location.deep_view()),
{
    match doc_location {
        None => Ok(None),
        Some(loc) => {
            if has_content {
                Err(FrontmatterErrorKind::DocLocationConflictWithContent)
            } else {
                Ok(Some(loc))
            }
        },
    }
}

} // verus!
