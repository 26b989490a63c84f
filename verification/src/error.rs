//! Errors reported while parsing and while rendering a template.

use vstd::prelude::*;

use crate::ast::{SourcePosition, SpecPos};
use crate::text::{nat_text, push_usize_text, string_of};

verus! {

/// An error found while parsing a template.
#[derive(Debug, Clone, PartialEq)]
pub struct ParseError {
    /// What went wrong.
    pub kind: ParseErrorKind,
    /// The line of the offending tag (1-based).
    pub line: usize,
    /// The column of the offending tag (1-based).
    pub column: usize,
    /// A human-readable message.
    pub message: String,
}

/// The kind of a `ParseError`.
#[derive(Debug, Clone, PartialEq)]
pub enum ParseErrorKind {
    /// The template ended inside a tag.
    UnexpectedEof,
    /// A section's opening and closing tags do not match.
    UnbalancedSection {
        /// The name of the section that does not match.
        name: String,
    },
    /// A set-delimiter tag (`{{=...=}}`) is malformed.
    UnknownDelimiterSyntax,
    /// A tag has an empty name.
    EmptyTagName,
}

/// An error found while rendering a template.
#[derive(Debug, Clone, PartialEq)]
pub struct RenderError {
    /// What went wrong.
    pub kind: RenderErrorKind,
    /// The line of the offending tag (1-based).
    pub line: usize,
    /// The column of the offending tag (1-based).
    pub column: usize,
    /// A human-readable message.
    pub message: String,
}

/// The kind of a `RenderError`.
#[derive(Debug, Clone, PartialEq)]
pub enum RenderErrorKind {
    /// In strict mode, a variable tag named an undefined value.
    UndefinedVariable {
        /// The undefined name.
        name: String,
    },
    /// In strict mode, a partial could not be resolved.
    PartialNotFound {
        /// The partial's name.
        name: String,
    },
    /// Sections and partials nested deeper than the limit.
    MaxNestingDepthExceeded {
        /// The nesting depth reached.
        depth: usize,
    },
    /// A partial's text does not parse.
    PartialParseError {
        /// The partial's name.
        name: String,
        /// The parse error's message.
        message: String,
    },
}

/// The error `Mustache::render_str` reports: a parse or a render error.
#[derive(Debug, Clone, PartialEq)]
pub enum Error {
    /// The template did not parse.
    Parse(ParseError),
    /// The template did not render.
    Render(RenderError),
}

/// The model of a `ParseErrorKind`.
pub enum SpecParseErrorKind {
    UnexpectedEof,
    UnbalancedSection { name: Seq<char> },
    UnknownDelimiterSyntax,
    EmptyTagName,
}

/// The model of a `ParseError`.
pub struct SpecParseError {
    pub kind: SpecParseErrorKind,
    pub line: nat,
    pub column: nat,
    pub message: Seq<char>,
}

/// The model of a `RenderErrorKind`.
pub enum SpecRenderErrorKind {
    UndefinedVariable { name: Seq<char> },
    PartialNotFound { name: Seq<char> },
    MaxNestingDepthExceeded { depth: nat },
    PartialParseError { name: Seq<char>, message: Seq<char> },
}

/// The model of a `RenderError`.
pub struct SpecRenderError {
    pub kind: SpecRenderErrorKind,
    pub line: nat,
    pub column: nat,
    pub message: Seq<char>,
}

impl ParseErrorKind {
    pub open spec fn view(&self) -> SpecParseErrorKind {
        match self {
            ParseErrorKind::UnexpectedEof => SpecParseErrorKind::UnexpectedEof,
            ParseErrorKind::UnbalancedSection { name } => SpecParseErrorKind::UnbalancedSection {
                name: name@,
            },
            ParseErrorKind::UnknownDelimiterSyntax => SpecParseErrorKind::UnknownDelimiterSyntax,
            ParseErrorKind::EmptyTagName => SpecParseErrorKind::EmptyTagName,
        }
    }
}

impl ParseError {
    pub open spec fn view(&self) -> SpecParseError {
        SpecParseError {
            kind: self.kind.view(),
            line: self.line as nat,
            column: self.column as nat,
            message: self.message@,
        }
    }
}

impl RenderErrorKind {
    pub open spec fn view(&self) -> SpecRenderErrorKind {
        match self {
            RenderErrorKind::UndefinedVariable { name } => SpecRenderErrorKind::UndefinedVariable {
                name: name@,
            },
            RenderErrorKind::PartialNotFound { name } => SpecRenderErrorKind::PartialNotFound {
                name: name@,
            },
            RenderErrorKind::MaxNestingDepthExceeded { depth } =>
                SpecRenderErrorKind::MaxNestingDepthExceeded { depth: *depth as nat },
            RenderErrorKind::PartialParseError { name, message } =>
                SpecRenderErrorKind::PartialParseError { name: name@, message: message@ },
        }
    }
}

impl RenderError {
    pub open spec fn view(&self) -> SpecRenderError {
        SpecRenderError {
            kind: self.kind.view(),
            line: self.line as nat,
            column: self.column as nat,
            message: self.message@,
        }
    }
}

/// The message of a parse error of the given kind.
pub open spec fn parse_error_message(kind: SpecParseErrorKind) -> Seq<char> {
    match kind {
        SpecParseErrorKind::UnexpectedEof => "unexpected end of template while scanning a tag"@,
        SpecParseErrorKind::UnbalancedSection { name } => "unbalanced section: "@ + name,
        SpecParseErrorKind::UnknownDelimiterSyntax => "invalid delimiter change syntax"@,
        SpecParseErrorKind::EmptyTagName => "tag name must not be empty"@,
    }
}

/// The parse error of the given kind at the given position.
pub open spec fn spec_parse_error(kind: SpecParseErrorKind, pos: SpecPos) -> SpecParseError {
    SpecParseError {
        kind,
        line: pos.line,
        column: pos.column,
        message: parse_error_message(kind),
    }
}

/// The message of a render error of the given kind.
pub open spec fn render_error_message(kind: SpecRenderErrorKind) -> Seq<char> {
    match kind {
        SpecRenderErrorKind::UndefinedVariable { name } => "undefined variable: "@ + name,
        SpecRenderErrorKind::PartialNotFound { name } => "partial not found: "@ + name,
        SpecRenderErrorKind::MaxNestingDepthExceeded { depth } => "maximum nesting depth ("@
            + nat_text(depth) + ") exceeded"@,
        SpecRenderErrorKind::PartialParseError { name, message } => "failed to parse partial '"@
            + name + "': "@ + message,
    }
}

/// The render error of the given kind at the given position.
pub open spec fn spec_render_error(kind: SpecRenderErrorKind, pos: SpecPos) -> SpecRenderError {
    SpecRenderError {
        kind,
        line: pos.line,
        column: pos.column,
        message: render_error_message(kind),
    }
}

/// The text of a parse error: `parse error at line L, column C: message`.
pub open spec fn parse_error_text(e: SpecParseError) -> Seq<char> {
    "parse error at line "@ + nat_text(e.line) + ", column "@ + nat_text(e.column) + ": "@
        + e.message
}

/// The text of a render error: `render error at line L, column C: message`.
pub open spec fn render_error_text(e: SpecRenderError) -> Seq<char> {
    "render error at line "@ + nat_text(e.line) + ", column "@ + nat_text(e.column) + ": "@
        + e.message
}

/// The message for a parse error of kind `kind`.
pub fn describe_parse_error(kind: &ParseErrorKind) -> (s: String)
    ensures
        s@ == parse_error_message(kind.view()),
{
    match kind {
        ParseErrorKind::UnexpectedEof => string_of("unexpected end of template while scanning a tag"),
        ParseErrorKind::UnbalancedSection { name } => {
            let mut s = string_of("unbalanced section: ");
            s.append(name.as_str());
            s
        },
        ParseErrorKind::UnknownDelimiterSyntax => string_of("invalid delimiter change syntax"),
        ParseErrorKind::EmptyTagName => string_of("tag name must not be empty"),
    }
}

/// The parse error of kind `kind` at `pos`, with its message.
pub fn to_parse_error(kind: ParseErrorKind, pos: SourcePosition) -> (e: ParseError)
    ensures
        e.view() == spec_parse_error(kind.view(), pos.view()),
{
    let message = describe_parse_error(&kind);
    ParseError { kind, line: pos.line, column: pos.column, message }
}

/// The message for a render error of kind `kind`.
pub fn describe_render_error(kind: &RenderErrorKind) -> (s: String)
    ensures
        s@ == render_error_message(kind.view()),
{
    match kind {
        RenderErrorKind::UndefinedVariable { name } => {
            let mut s = string_of("undefined variable: ");
            s.append(name.as_str());
            s
        },
        RenderErrorKind::PartialNotFound { name } => {
            let mut s = string_of("partial not found: ");
            s.append(name.as_str());
            s
        },
        RenderErrorKind::MaxNestingDepthExceeded { depth } => {
            let mut s = string_of("maximum nesting depth (");
            push_usize_text(&mut s, *depth);
            s.append(") exceeded");
            s
        },
        RenderErrorKind::PartialParseError { name, message } => {
            let mut s = string_of("failed to parse partial '");
            s.append(name.as_str());
            s.append("': ");
            s.append(message.as_str());
            s
        },
    }
}

/// The render error of kind `kind` at `pos`, with its message.
pub fn mk_render_error(kind: RenderErrorKind, pos: SourcePosition) -> (e: RenderError)
    ensures
        e.view() == spec_render_error(kind.view(), pos.view()),
{
    let message = describe_render_error(&kind);
    RenderError { kind, line: pos.line, column: pos.column, message }
}

fn position_text(prefix: &str, line: usize, column: usize, message: &String) -> (s: String)
    ensures
        s@ == prefix@ + nat_text(line as nat) + ", column "@ + nat_text(column as nat) + ": "@
            + message@,
{
    let mut s = string_of(prefix);
    push_usize_text(&mut s, line);
    s.append(", column ");
    push_usize_text(&mut s, column);
    s.append(": ");
    s.append(message.as_str());
    s
}

impl ParseError {
    /// The error's text: `parse error at line L, column C: message`.
    pub fn to_string(&self) -> (s: String)
        ensures
            s@ == parse_error_text(self.view()),
    {
        position_text("parse error at line ", self.line, self.column, &self.message)
    }
}

impl RenderError {
    /// The error's text: `render error at line L, column C: message`.
    pub fn to_string(&self) -> (s: String)
        ensures
            s@ == render_error_text(self.view()),
    {
        position_text("render error at line ", self.line, self.column, &self.message)
    }
}

impl Error {
    /// The text of the parse or render error.
    pub fn to_string(&self) -> (s: String)
        ensures
            s@ == match self {
                Error::Parse(e) => parse_error_text(e.view()),
                Error::Render(e) => render_error_text(e.view()),
            },
    {
        match self {
            Error::Parse(e) => e.to_string(),
            Error::Render(e) => e.to_string(),
        }
    }
}

impl vstd::std_specs::convert::FromSpecImpl<ParseError> for Error {
    open spec fn obeys_from_spec() -> bool {
        true
    }

    open spec fn from_spec(e: ParseError) -> Self {
        Error::Parse(e)
    }
}

impl vstd::std_specs::convert::FromSpecImpl<RenderError> for Error {
    open spec fn obeys_from_spec() -> bool {
        true
    }

    open spec fn from_spec(e: RenderError) -> Self {
        Error::Render(e)
    }
}

impl From<ParseError> for Error {
    fn from(e: ParseError) -> (r: Self)
        ensures
            r == Error::Parse(e),
    {
        Error::Parse(e)
    }
}

impl From<RenderError> for Error {
    fn from(e: RenderError) -> (r: Self)
        ensures
            r == Error::Render(e),
    {
        Error::Render(e)
    }
}

} // verus!
