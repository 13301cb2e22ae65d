//! The failures that a lookup or a change of the store reports.

use vstd::prelude::*;
use vstd::string::StringExecFns;

verus! {

/// The kinds of failure of a lookup or a change.
#[derive(Debug, Copy, PartialEq, Eq, Clone, Structural)]
pub enum FetchErrorKind {
    /// A requested section does not exist
    NoSuchSection,
    /// A requested option does not exist
    NoSuchOption,
    /// An attempt was made to add a section which already exists
    DuplicateSection,
    /// An interpolation refers to an option which does not exist
    InterpolationError,
    /// An interpolation chain is circular
    InterpolationCircularity,
    /// An attempt was made to read an invalid string as another type
    InvalidLiteral,
}

/// A failure: its kind, what it reads as, and a detail where there is one.
#[derive(PartialEq, Eq, Clone, Debug)]
pub struct FetchError {
    kind: FetchErrorKind,
    description: &'static str,
    detail: Option<String>,
}

/// The description that goes with each kind of failure.
pub open spec fn description_of(k: FetchErrorKind) -> Seq<char> {
    match k {
        FetchErrorKind::NoSuchSection => "No such configuration section"@,
        FetchErrorKind::NoSuchOption => "No such configuration option"@,
        FetchErrorKind::DuplicateSection => "Section already exists"@,
        FetchErrorKind::InterpolationError => "Interpolation into option failed"@,
        FetchErrorKind::InterpolationCircularity => "Interpolation is infinitely recursive"@,
        FetchErrorKind::InvalidLiteral => "Value cannot be parsed into desired type"@,
    }
}

/// How a failure reads: its description, and the detail in brackets where
/// there is one.
pub open spec fn message_of(description: Seq<char>, detail: Option<Seq<char>>) -> Seq<char> {
    match detail {
        Some(d) => description + " ("@ + d + ")"@,
        None => description,
    }
}

impl FetchError {
    /// The kind of the failure.
    pub closed spec fn spec_kind(&self) -> FetchErrorKind {
        self.kind
    }

    /// What the failure reads as.
    pub closed spec fn spec_description(&self) -> Seq<char> {
        self.description@
    }

    /// The detail of the failure, where it has one.
    pub closed spec fn spec_detail(&self) -> Option<Seq<char>> {
        match self.detail {
            Some(d) => Some(d@),
            None => None,
        }
    }

    /// Whether the failure reads as its kind does, with no detail.
    pub open spec fn is_plain(&self) -> bool {
        self.spec_description() == description_of(self.spec_kind()) && self.spec_detail() is None
    }

    /// A failure of kind `k` that reads as `desc`, with the detail `details`.
    pub fn new(k: FetchErrorKind, desc: &'static str, details: Option<String>) -> (e: FetchError)
        ensures
            e.spec_kind() == k,
            e.spec_description() == desc@,
            e.spec_detail() == match details {
                Some(d) => Some(d@),
                None => None,
            },
    {
        FetchError { kind: k, description: desc, detail: details }
    }

    #[verifier::when_used_as_spec(spec_kind)]
    pub fn kind(&self) -> (k: FetchErrorKind)
        ensures
            k == self.spec_kind(),
    {
        self.kind
    }

    /// What the failure reads as.
    pub fn description(&self) -> (d: &'static str)
        ensures
            d@ == self.spec_description(),
    {
        self.description
    }

    /// The detail of the failure, where it has one.
    pub fn detail(&self) -> (d: Option<String>)
        ensures
            match d {
                Some(s) => self.spec_detail() == Some(s@),
                None => self.spec_detail() is None,
            },
    {
        match &self.detail {
            Some(s) => Some(s.clone()),
            None => None,
        }
    }

    /// The failure as one line of text.
    pub fn to_string(&self) -> (s: String)
        ensures
            s@ == message_of(self.spec_description(), self.spec_detail()),
    {
        let mut s = String::from_str(self.description);
        match &self.detail {
            Some(d) => {
                s.append(" (");
                s.append(d.as_str());
                s.append(")");
            },
            None => {},
        }
        s
    }
}

/// The failure of kind `k`, with the description of that kind and no detail.
pub fn fe_error(k: FetchErrorKind) -> (e: FetchError)
    ensures
        e.kind() == k,
        e.is_plain(),
{
    match k {
        FetchErrorKind::NoSuchSection => FetchError::new(k, "No such configuration section", None),
        FetchErrorKind::NoSuchOption => FetchError::new(k, "No such configuration option", None),
        FetchErrorKind::DuplicateSection => FetchError::new(k, "Section already exists", None),
        FetchErrorKind::InterpolationError => FetchError::new(
            k,
            "Interpolation into option failed",
            None,
        ),
        FetchErrorKind::InterpolationCircularity => FetchError::new(
            k,
            "Interpolation is infinitely recursive",
            None,
        ),
        FetchErrorKind::InvalidLiteral => FetchError::new(
            k,
            "Value cannot be parsed into desired type",
            None,
        ),
    }
}

/// Why text could not be written out.
#[derive(Debug, Clone, Copy, PartialEq, Eq)]
pub struct WriteError {
    pub description: &'static str,
}

} // verus!
