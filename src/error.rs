//! Errors of the session token algebra.
use vstd::prelude::*;

verus! {

/// Errors that can occur when working with session tokens.
#[derive(Debug, Clone, PartialEq)]
pub enum Error {
    /// The input string is empty.
    EmptyInput,
    /// The input string does not contain the required minimum components.
    MissingComponents,
    /// The version component could not be parsed as a u64.
    InvalidVersion(String),
    /// The global LSN component could not be parsed as a u64.
    InvalidGlobalLsn(String),
    /// A region ID component could not be parsed as a u32.
    InvalidRegionId(String),
    /// A region LSN component could not be parsed as a u64.
    InvalidRegionLsn(String),
    /// A regional component lacks its '=' separator, its key or its value.
    MalformedRegionalComponent(String),
    /// Equal-version tokens with different region sets cannot be compared.
    InvalidRegions { current: String, other: String },
    /// Equal-version tokens with different region sets cannot be merged.
    TokensCannotBeMerged(String),
}

/// The mathematical value of an [`Error`]: its kind and its texts.
pub enum ErrorView {
    EmptyInput,
    MissingComponents,
    InvalidVersion(Seq<char>),
    InvalidGlobalLsn(Seq<char>),
    InvalidRegionId(Seq<char>),
    InvalidRegionLsn(Seq<char>),
    MalformedRegionalComponent(Seq<char>),
    InvalidRegions { current: Seq<char>, other: Seq<char> },
    TokensCannotBeMerged(Seq<char>),
}

impl View for Error {
    type V = ErrorView;

    open spec fn view(&self) -> ErrorView {
        match self {
            Error::EmptyInput => ErrorView::EmptyInput,
            Error::MissingComponents => ErrorView::MissingComponents,
            Error::InvalidVersion(s) => ErrorView::InvalidVersion(s@),
            Error::InvalidGlobalLsn(s) => ErrorView::InvalidGlobalLsn(s@),
            Error::InvalidRegionId(s) => ErrorView::InvalidRegionId(s@),
            Error::InvalidRegionLsn(s) => ErrorView::InvalidRegionLsn(s@),
            Error::MalformedRegionalComponent(s) => ErrorView::MalformedRegionalComponent(s@),
            Error::InvalidRegions { current, other } => ErrorView::InvalidRegions {
                current: current@,
                other: other@,
            },
            Error::TokensCannotBeMerged(s) => ErrorView::TokensCannotBeMerged(s@),
        }
    }
}

/// A result with its error replaced by the error's view.
pub open spec fn result_view<T>(r: Result<T, Error>) -> Result<T, ErrorView> {
    match r {
        Ok(t) => Ok(t),
        Err(e) => Err(e@),
    }
}

/// The human-readable description of an error.
pub open spec fn message_of(e: ErrorView) -> Seq<char> {
    match e {
        ErrorView::EmptyInput => "input string is empty"@,
        ErrorView::MissingComponents => "missing required components (version and global LSN)"@,
        ErrorView::InvalidVersion(s) => "invalid version: '"@ + s + "'"@,
        ErrorView::InvalidGlobalLsn(s) => "invalid global LSN: '"@ + s + "'"@,
        ErrorView::InvalidRegionId(s) => "invalid region ID: '"@ + s + "'"@,
        ErrorView::InvalidRegionLsn(s) => "invalid region LSN: '"@ + s + "'"@,
        ErrorView::MalformedRegionalComponent(s) => "malformed regional component: '"@ + s
            + "'"@,
        ErrorView::InvalidRegions { current, other } =>
            "invalid regions in session token comparison: current='"@ + current + "', other='"@
                + other + "'"@,
        ErrorView::TokensCannotBeMerged(s) => "incompatible tokens: "@ + s,
    }
}

fn quoted(prefix: &str, s: &String) -> (r: String)
    ensures
        r@ == prefix@ + s@ + "'"@,
{
    let mut r = String::from_str(prefix);
    r.append(s.as_str());
    r.append("'");
    r
}

impl Error {
    /// Describes the error in words.
    pub fn to_string(&self) -> (r: String)
        ensures
            r@ == message_of(self@),
    {
        match self {
            Error::EmptyInput => String::from_str("input string is empty"),
            Error::MissingComponents => String::from_str(
                "missing required components (version and global LSN)",
            ),
            Error::InvalidVersion(s) => quoted("invalid version: '", s),
            Error::InvalidGlobalLsn(s) => quoted("invalid global LSN: '", s),
            Error::InvalidRegionId(s) => quoted("invalid region ID: '", s),
            Error::InvalidRegionLsn(s) => quoted("invalid region LSN: '", s),
            Error::MalformedRegionalComponent(s) => quoted("malformed regional component: '", s),
            Error::InvalidRegions { current, other } => {
                let mut r = String::from_str(
                    "invalid regions in session token comparison: current='",
                );
                r.append(current.as_str());
                r.append("', other='");
                r.append(other.as_str());
                r.append("'");
                r
            },
            Error::TokensCannotBeMerged(s) => {
                let mut r = String::from_str("incompatible tokens: ");
                r.append(s.as_str());
                r
            },
        }
    }
}

} // verus!
