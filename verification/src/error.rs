//! What a decoder reports when the input does not follow the grammar.

use vstd::prelude::*;

verus! {

/// Why a decoder gave up.
#[derive(Debug, Clone, Copy, PartialEq, Eq, Structural)]
pub enum ParseErrorKind {
    /// A byte is present but is not the one the grammar asks for: an unknown
    /// lead token, a wrong delimiter or terminator, a missing digit.
    Syntax,
    /// A declared size or count does not agree with what follows it: the
    /// payload is longer than the rest of the input, or the byte that must
    /// close a sized block is another one.
    LengthMismatch,
    /// A number is lexically fine but does not fit: an integer beyond 64 bits,
    /// a size beyond the machine word, a reference index of zero.
    OutOfRange,
    /// The input ends where the grammar asks for more.
    Incomplete,
    /// A whole-input decoder was left with bytes after the last item.
    TrailingData,
    /// Arrays and objects are nested deeper than the limit in force.
    TooDeep,
}

/// The part of an object that was being read when a decoder gave up.
#[derive(Debug, Clone, Copy, PartialEq, Eq, Structural)]
pub enum ErrorLabel {
    /// The class name of an object or of a custom object.
    ClassName,
    /// The counted block of an object: its property count, the opening brace
    /// and the properties; for a custom object, its sized data block.
    ObjectProperties,
    /// One property of an object: its name or its value.
    ObjectProperty,
}

/// A decoding failure: what went wrong, at which offset of the input, and
/// inside which part of an object, if inside any.
#[derive(Debug, Clone, Copy, PartialEq, Eq)]
pub struct ParseError {
    pub kind: ParseErrorKind,
    pub offset: usize,
    pub label: Option<ErrorLabel>,
}

impl ParseErrorKind {
    /// The text of `describe`.
    pub open spec fn spec_describe(self) -> Seq<char> {
        match self {
            ParseErrorKind::Syntax => "syntax error"@,
            ParseErrorKind::LengthMismatch => "length mismatch"@,
            ParseErrorKind::OutOfRange => "number out of range"@,
            ParseErrorKind::Incomplete => "incomplete input"@,
            ParseErrorKind::TrailingData => "trailing data"@,
            ParseErrorKind::TooDeep => "nesting too deep"@,
        }
    }

    /// A short name for the failure, for messages.
    pub fn describe(self) -> (text: &'static str)
        ensures
            text@ == self.spec_describe(),
    {
        match self {
            ParseErrorKind::Syntax => "syntax error",
            ParseErrorKind::LengthMismatch => "length mismatch",
            ParseErrorKind::OutOfRange => "number out of range",
            ParseErrorKind::Incomplete => "incomplete input",
            ParseErrorKind::TrailingData => "trailing data",
            ParseErrorKind::TooDeep => "nesting too deep",
        }
    }
}

impl ErrorLabel {
    /// The text of `describe`.
    pub open spec fn spec_describe(self) -> Seq<char> {
        match self {
            ErrorLabel::ClassName => "class name"@,
            ErrorLabel::ObjectProperties => "object properties"@,
            ErrorLabel::ObjectProperty => "object property"@,
        }
    }

    /// The name of the labelled part, for messages.
    pub fn describe(self) -> (text: &'static str)
        ensures
            text@ == self.spec_describe(),
    {
        match self {
            ErrorLabel::ClassName => "class name",
            ErrorLabel::ObjectProperties => "object properties",
            ErrorLabel::ObjectProperty => "object property",
        }
    }
}

impl ParseError {
    /// The failure `kind` at `offset`, outside any labelled part. An offset
    /// that no machine word holds cannot arise from a slice.
    pub open spec fn at(kind: ParseErrorKind, offset: int) -> ParseError {
        ParseError { kind, offset: offset as usize, label: None }
    }

    /// The same failure, attributed to `label` unless a part nested inside
    /// has already claimed it.
    pub open spec fn spec_within(self, label: ErrorLabel) -> ParseError {
        match self.label {
            Some(_) => self,
            None => ParseError { kind: self.kind, offset: self.offset, label: Some(label) },
        }
    }

    /// The failure `kind` at `offset`, outside any labelled part.
    pub fn new(kind: ParseErrorKind, offset: usize) -> (e: ParseError)
        ensures
            e == ParseError::at(kind, offset as int),
    {
        ParseError { kind, offset, label: None }
    }

    /// Attributes the failure to `label`; the innermost label wins.
    pub fn within(self, label: ErrorLabel) -> (e: ParseError)
        ensures
            e == self.spec_within(label),
    {
        match self.label {
            Some(_) => self,
            None => ParseError { kind: self.kind, offset: self.offset, label: Some(label) },
        }
    }
}

} // verus!
