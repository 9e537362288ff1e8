//! The ways in which building a dependency graph can fail.

use vstd::prelude::*;
use vstd::string::StringExecFns;

verus! {

/// A fatal error. Each one ends the run: no graph is produced.
#[derive(Debug, PartialEq, Eq)]
pub enum GraphError {
    /// The version of a package is not a semantic version. Holds the text.
    InvalidVersion(String),
    /// Two packages share an id. Holds the id.
    DuplicateId(String),
    /// An entry of the resolved edges names a package that is not in the
    /// list. Holds the id of the entry.
    ResolveIdNotFound(String),
    /// A resolved edge names the dependency but leads to no package of the
    /// list. Holds the edge's descriptor.
    DepIdNotFound(String),
    /// A second resolved edge names a dependency that already has its
    /// target. Holds the second edge's descriptor.
    AlreadyResolved(String),
    /// An excluded name matches no package. Holds the name.
    ExcludeNotFound(String),
}

/// The mathematical value of a [`GraphError`].
pub enum GraphErrorView {
    InvalidVersion(Seq<char>),
    DuplicateId(Seq<char>),
    ResolveIdNotFound(Seq<char>),
    DepIdNotFound(Seq<char>),
    AlreadyResolved(Seq<char>),
    ExcludeNotFound(Seq<char>),
}

impl DeepView for GraphError {
    type V = GraphErrorView;

    open spec fn deep_view(&self) -> GraphErrorView {
        match self {
            GraphError::InvalidVersion(s) => GraphErrorView::InvalidVersion(s@),
            GraphError::DuplicateId(s) => GraphErrorView::DuplicateId(s@),
            GraphError::ResolveIdNotFound(s) => GraphErrorView::ResolveIdNotFound(s@),
            GraphError::DepIdNotFound(s) => GraphErrorView::DepIdNotFound(s@),
            GraphError::AlreadyResolved(s) => GraphErrorView::AlreadyResolved(s@),
            GraphError::ExcludeNotFound(s) => GraphErrorView::ExcludeNotFound(s@),
        }
    }
}

impl GraphErrorView {
    /// The text that reports the error to a person.
    pub open spec fn message(self) -> Seq<char> {
        match self {
            GraphErrorView::InvalidVersion(s) => "Could not parse version `"@ + s + "`"@,
            GraphErrorView::DuplicateId(s) => "Duplicate key `"@ + s + "`"@,
            GraphErrorView::ResolveIdNotFound(s) => "Could not find resolve id `"@ + s + "`"@,
            GraphErrorView::DepIdNotFound(s) => "Could not find dep id `"@ + s + "`"@,
            GraphErrorView::AlreadyResolved(s) => "Dependency resolved twice, by `"@ + s + "`"@,
            GraphErrorView::ExcludeNotFound(s) => "Could not find exclude spec `"@ + s + "`."@,
        }
    }
}

/// The mathematical value of what a fallible step returned.
pub open spec fn outcome<T: DeepView>(r: Result<T, GraphError>) -> Result<T::V, GraphErrorView> {
    match r {
        Ok(value) => Ok(value.deep_view()),
        Err(error) => Err(error.deep_view()),
    }
}

/// `head`, then `subject`, then `tail`.
fn framed(head: &str, subject: &String, tail: &str) -> (text: String)
    ensures
        text@ == head@ + subject@ + tail@,
{
    let mut text = String::from_str(head);
    text.append(subject.as_str());
    text.append(tail);
    text
}

impl GraphError {
    /// The text that reports the error to a person.
    pub fn message(&self) -> (text: String)
        ensures
            text@ == self.deep_view().message(),
    {
        match self {
            GraphError::InvalidVersion(s) => framed("Could not parse version `", s, "`"),
            GraphError::DuplicateId(s) => framed("Duplicate key `", s, "`"),
            GraphError::ResolveIdNotFound(s) => framed("Could not find resolve id `", s, "`"),
            GraphError::DepIdNotFound(s) => framed("Could not find dep id `", s, "`"),
            GraphError::AlreadyResolved(s) => framed("Dependency resolved twice, by `", s, "`"),
            GraphError::ExcludeNotFound(s) => framed("Could not find exclude spec `", s, "`."),
        }
    }
}

} // verus!
