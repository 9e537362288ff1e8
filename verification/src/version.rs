//! Semantic versions as plain values.
//!
//! A [`Version`] holds the numbers and identifiers of one semantic version.
//! Reading a version out of its text is left to the `semver` crate; what this
//! module adds is the plain representation and the notion of two versions
//! being the same release.

use vstd::prelude::*;

verus! {

/// One dot-separated part of a pre-release or build tag.
#[derive(Debug)]
pub enum Identifier {
    /// A part made of digits only, without a leading zero.
    Numeric(u64),
    /// Any other part.
    AlphaNumeric(String),
}

/// The mathematical value of an [`Identifier`].
pub enum IdentifierView {
    Numeric(u64),
    AlphaNumeric(Seq<char>),
}

impl DeepView for Identifier {
    type V = IdentifierView;

    open spec fn deep_view(&self) -> IdentifierView {
        match self {
            Identifier::Numeric(n) => IdentifierView::Numeric(*n),
            Identifier::AlphaNumeric(s) => IdentifierView::AlphaNumeric(s@),
        }
    }
}

impl Identifier {
    /// Whether two identifiers are of the same kind and hold the same value.
    pub fn same_as(&self, other: &Identifier) -> (r: bool)
        ensures
            r == (self.deep_view() == other.deep_view()),
    {
        match self {
            Identifier::Numeric(a) => match other {
                Identifier::Numeric(b) => *a == *b,
                Identifier::AlphaNumeric(_) => false,
            },
            Identifier::AlphaNumeric(a) => match other {
                Identifier::Numeric(_) => false,
                Identifier::AlphaNumeric(b) => *a == *b,
            },
        }
    }
}

/// A semantic version: `major.minor.patch`, an optional pre-release tag and
/// optional build metadata.
#[derive(Debug)]
pub struct Version {
    pub major: u64,
    pub minor: u64,
    pub patch: u64,
    /// The parts of the pre-release tag; empty for a release.
    pub pre: Vec<Identifier>,
    /// The parts of the build metadata.
    pub build: Vec<Identifier>,
}

/// The mathematical value of a [`Version`].
pub struct VersionView {
    pub major: u64,
    pub minor: u64,
    pub patch: u64,
    pub pre: Seq<IdentifierView>,
    pub build: Seq<IdentifierView>,
}

impl VersionView {
    /// Two versions name the same release when their numbers and pre-release
    /// tags agree. Build metadata takes no part in the comparison.
    pub open spec fn same_release(self, other: VersionView) -> bool {
        &&& self.major == other.major
        &&& self.minor == other.minor
        &&& self.patch == other.patch
        &&& self.pre == other.pre
    }
}

impl DeepView for Version {
    type V = VersionView;

    open spec fn deep_view(&self) -> VersionView {
        VersionView {
            major: self.major,
            minor: self.minor,
            patch: self.patch,
            pre: self.pre.deep_view(),
            build: self.build.deep_view(),
        }
    }
}

/// What `semver` reads out of a version text: the version, or nothing where
/// the text is not a semantic version.
pub uninterp spec fn semver_parse(text: Seq<char>) -> Option<VersionView>;

/// The error that `semver` reports for a text that is no version.
#[verifier::external_type_specification]
#[verifier::external_body]
pub struct ExSemVerError(semver::SemVerError);

/// Calls `semver::Version::parse` and copies the fields of the version it
/// returns. The outcome depends on the text alone and is named by
/// [`semver_parse`]: a version exactly where that is `Some`, an error
/// exactly where it is `None`.
#[verifier::external_body]
fn parse_semver(text: &str) -> (r: Result<Version, semver::SemVerError>)
    ensures
        match r {
            Ok(v) => semver_parse(text@) == Some(v.deep_view()),
            Err(_) => semver_parse(text@) is None,
        },
{
    let v = semver::Version::parse(text)?;
    let part = |i| match i {
        semver::Identifier::Numeric(n) => Identifier::Numeric(n),
        semver::Identifier::AlphaNumeric(s) => Identifier::AlphaNumeric(s),
    };
    let pre = v.pre.into_iter().map(part).collect();
    let build = v.build.into_iter().map(part).collect();
    Ok(Version { major: v.major, minor: v.minor, patch: v.patch, pre, build })
}

/// Whether two lists of identifiers are equal, part by part.
fn same_identifiers(a: &Vec<Identifier>, b: &Vec<Identifier>) -> (r: bool)
    ensures
        r == (a.deep_view() == b.deep_view()),
{
    if a.len() != b.len() {
        assert(a.deep_view().len() != b.deep_view().len());
        return false;
    }
    let mut i: usize = 0;
    while i < a.len()
        invariant
            0 <= i <= a.len(),
            a.len() == b.len(),
            forall|k: int| 0 <= k < i ==> a.deep_view()[k] == b.deep_view()[k],
        decreases a.len() - i,
    {
        if !a[i].same_as(&b[i]) {
            assert(a.deep_view()[i as int] != b.deep_view()[i as int]);
            return false;
        }
        i += 1;
    }
    assert(a.deep_view() =~= b.deep_view());
    true
}

impl Version {
    /// Reads a version out of its text.
    ///
    /// Returns `None` exactly for the texts that are not semantic versions.
    pub fn parse(text: &str) -> (r: Option<Version>)
        ensures
            r.deep_view() == semver_parse(text@),
    {
        match parse_semver(text) {
            Ok(v) => Some(v),
            Err(_) => None,
        }
    }

    /// Whether `self` and `other` name the same release.
    pub fn same_release(&self, other: &Version) -> (r: bool)
        ensures
            r == self.deep_view().same_release(other.deep_view()),
    {
        self.major == other.major && self.minor == other.minor && self.patch == other.patch
            && same_identifiers(&self.pre, &other.pre)
    }
}

} // verus!
