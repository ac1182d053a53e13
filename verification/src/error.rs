//! What can go wrong.
use crate::location::Location;
use vstd::prelude::*;
use vstd::string::*;

verus! {

/// Why CSS text could not be parsed.
#[derive(Debug)]
pub enum ParserError {
    /// The text ended where more was expected.
    EndOfInput,
    /// The token with this text stands where it may not.
    UnexpectedToken(String),
    /// Another reason, in words.
    Custom(String),
}

/// The mathematical form of a [`ParserError`].
pub enum ParserErrorView {
    EndOfInput,
    UnexpectedToken(Seq<char>),
    Custom(Seq<char>),
}

impl View for ParserError {
    type V = ParserErrorView;

    open spec fn view(&self) -> ParserErrorView {
        match self {
            ParserError::EndOfInput => ParserErrorView::EndOfInput,
            ParserError::UnexpectedToken(text) => ParserErrorView::UnexpectedToken(text@),
            ParserError::Custom(text) => ParserErrorView::Custom(text@),
        }
    }
}

/// The reason for a [`ParserError`], in words.
pub open spec fn parser_reason(e: ParserErrorView) -> Seq<char> {
    match e {
        ParserErrorView::EndOfInput => "Unexpected end of input"@,
        ParserErrorView::UnexpectedToken(text) => "Unexpected token "@ + text,
        ParserErrorView::Custom(text) => text,
    }
}

impl ParserError {
    /// The reason in words.
    pub fn reason(&self) -> (r: String)
        ensures
            r@ == parser_reason(self@),
    {
        match self {
            ParserError::EndOfInput => "Unexpected end of input".to_owned(),
            ParserError::UnexpectedToken(text) => {
                let mut reason = "Unexpected token ".to_owned();
                reason.append(text.as_str());
                reason
            },
            ParserError::Custom(text) => text.clone(),
        }
    }
}

/// A place in a source file, by the file's name.
#[derive(Debug)]
pub struct ErrorLocation {
    pub filename: String,
    pub line: u32,
    pub column: u32,
}

/// The mathematical form of an [`ErrorLocation`].
pub struct ErrorLocationView {
    pub filename: Seq<char>,
    pub line: u32,
    pub column: u32,
}

impl View for ErrorLocation {
    type V = ErrorLocationView;

    open spec fn view(&self) -> ErrorLocationView {
        ErrorLocationView { filename: self.filename@, line: self.line, column: self.column }
    }
}

impl ErrorLocation {
    /// The place `loc`, in the file `filename`.
    pub fn from(loc: Location, filename: String) -> (r: ErrorLocation)
        ensures
            r@ == (ErrorLocationView {
                filename: filename@,
                line: loc.line,
                column: loc.column,
            }),
    {
        ErrorLocation { filename, line: loc.line, column: loc.column }
    }
}

/// An error and, where it is known, its place.
#[derive(Debug)]
pub struct Error<T> {
    pub kind: T,
    pub loc: Option<ErrorLocation>,
}

/// The mathematical form of an [`Error`].
pub struct ErrorView<T> {
    pub kind: T,
    pub loc: Option<ErrorLocationView>,
}

impl<T: View> View for Error<T> {
    type V = ErrorView<T::V>;

    open spec fn view(&self) -> ErrorView<T::V> {
        ErrorView {
            kind: self.kind@,
            loc: match self.loc {
                Some(loc) => Some(loc@),
                None => None,
            },
        }
    }
}

/// Why a bundle could not be made.
#[derive(Debug)]
pub enum BundleErrorKind {
    /// A file could not be read, for the reason given.
    IOError(String),
    /// A file could not be parsed.
    ParserError(ParserError),
    /// A file is imported once under media queries and once under an `@supports` condition.
    UnsupportedImportCondition,
    /// The media queries of nested imports cannot be joined.
    UnsupportedMediaBooleanLogic,
    /// The layers of imports cannot be joined.
    UnsupportedLayerCombination,
    /// There are more files than indexes.
    TooManyFiles,
}

/// The mathematical form of a [`BundleErrorKind`].
pub enum BundleErrorView {
    IOError(Seq<char>),
    ParserError(ParserErrorView),
    UnsupportedImportCondition,
    UnsupportedMediaBooleanLogic,
    UnsupportedLayerCombination,
    TooManyFiles,
}

impl View for BundleErrorKind {
    type V = BundleErrorView;

    open spec fn view(&self) -> BundleErrorView {
        match self {
            BundleErrorKind::IOError(reason) => BundleErrorView::IOError(reason@),
            BundleErrorKind::ParserError(e) => BundleErrorView::ParserError(e@),
            BundleErrorKind::UnsupportedImportCondition => BundleErrorView::UnsupportedImportCondition,
            BundleErrorKind::UnsupportedMediaBooleanLogic => {
                BundleErrorView::UnsupportedMediaBooleanLogic
            },
            BundleErrorKind::UnsupportedLayerCombination => {
                BundleErrorView::UnsupportedLayerCombination
            },
            BundleErrorKind::TooManyFiles => BundleErrorView::TooManyFiles,
        }
    }
}

/// The reason for a [`BundleErrorKind`], in words.
pub open spec fn bundle_reason(e: BundleErrorView) -> Seq<char> {
    match e {
        BundleErrorView::IOError(reason) => reason,
        BundleErrorView::ParserError(e) => parser_reason(e),
        BundleErrorView::UnsupportedImportCondition => "Unsupported import condition"@,
        BundleErrorView::UnsupportedMediaBooleanLogic => {
            "Unsupported boolean logic in @import media query"@
        },
        BundleErrorView::UnsupportedLayerCombination => "Unsupported layer combination in @import"@,
        BundleErrorView::TooManyFiles => "Too many files"@,
    }
}

/// The words for what went wrong: those of the provider, where a file could not be read, those for
/// the error of the parser, with the text of a token that may not stand where it does, and
/// otherwise words for what cannot be joined.
pub proof fn law_reasons(text: Seq<char>, e: ParserErrorView)
    ensures
        bundle_reason(BundleErrorView::IOError(text)) == text,
        bundle_reason(BundleErrorView::ParserError(e)) == parser_reason(e),
        parser_reason(ParserErrorView::Custom(text)) == text,
        parser_reason(ParserErrorView::UnexpectedToken(text)) == "Unexpected token "@ + text,
        parser_reason(ParserErrorView::EndOfInput) == "Unexpected end of input"@,
        bundle_reason(BundleErrorView::UnsupportedImportCondition)
            == "Unsupported import condition"@,
        bundle_reason(BundleErrorView::UnsupportedMediaBooleanLogic)
            == "Unsupported boolean logic in @import media query"@,
        bundle_reason(BundleErrorView::UnsupportedLayerCombination)
            == "Unsupported layer combination in @import"@,
        bundle_reason(BundleErrorView::TooManyFiles) == "Too many files"@,
{
}

impl BundleErrorKind {
    /// The reason in words.
    pub fn reason(&self) -> (r: String)
        ensures
            r@ == bundle_reason(self@),
    {
        match self {
            BundleErrorKind::IOError(reason) => reason.clone(),
            BundleErrorKind::ParserError(e) => e.reason(),
            BundleErrorKind::UnsupportedImportCondition => "Unsupported import condition".to_owned(),
            BundleErrorKind::UnsupportedMediaBooleanLogic => {
                "Unsupported boolean logic in @import media query".to_owned()
            },
            BundleErrorKind::UnsupportedLayerCombination => {
                "Unsupported layer combination in @import".to_owned()
            },
            BundleErrorKind::TooManyFiles => "Too many files".to_owned(),
        }
    }
}

impl From<Error<ParserError>> for Error<BundleErrorKind> {
    fn from(err: Error<ParserError>) -> (r: Error<BundleErrorKind>) {
        Error { kind: BundleErrorKind::ParserError(err.kind), loc: err.loc }
    }
}

impl vstd::std_specs::convert::FromSpecImpl<Error<ParserError>> for Error<BundleErrorKind> {
    open spec fn obeys_from_spec() -> bool {
        true
    }

    open spec fn from_spec(err: Error<ParserError>) -> Error<BundleErrorKind> {
        Error { kind: BundleErrorKind::ParserError(err.kind), loc: err.loc }
    }
}

} // verus!
