//! The error type shared by the URI, Address and message parsers.
use vstd::prelude::*;

verus! {

#[derive(Debug, Clone, Copy, PartialEq, Eq, Structural)]
pub enum ParseError {
    Empty,
    UnterminatedBracket,
    UnterminatedQuote,
    UnterminatedAngle,
    InvalidScheme,
    InvalidUtf8,
    InvalidHost,
    MessageTooLarge,
    EmptyMessage,
    InvalidStartLine,
    InvalidStatusCode,
    HeaderMissingColon,
    NegativeContentLength,
    OversizeContentLength,
    BadContentLength,
}

/// The description of each error.
pub open spec fn message_text(e: ParseError) -> Seq<char> {
    match e {
        ParseError::Empty => "empty input"@,
        ParseError::UnterminatedBracket => "unterminated '[' in host"@,
        ParseError::UnterminatedQuote => "unterminated quoted string"@,
        ParseError::UnterminatedAngle => "unterminated '<' in address"@,
        ParseError::InvalidScheme => "invalid SIP URI scheme"@,
        ParseError::InvalidUtf8 => "pct-decoded bytes are not valid UTF-8"@,
        ParseError::InvalidHost => "invalid byte in host, user or parameter"@,
        ParseError::MessageTooLarge => "message exceeds maximum size"@,
        ParseError::EmptyMessage => "empty message"@,
        ParseError::InvalidStartLine => "invalid start line"@,
        ParseError::InvalidStatusCode => "invalid status code"@,
        ParseError::HeaderMissingColon => "header line without name or colon"@,
        ParseError::NegativeContentLength => "negative Content-Length"@,
        ParseError::OversizeContentLength => "Content-Length exceeds maximum size"@,
        ParseError::BadContentLength => "malformed Content-Length"@,
    }
}

impl ParseError {
    /// A human-readable description of the error.
    pub fn message(&self) -> (r: &'static str)
        ensures
            r@ == message_text(*self),
    {
        match self {
            ParseError::Empty => "empty input",
            ParseError::UnterminatedBracket => "unterminated '[' in host",
            ParseError::UnterminatedQuote => "unterminated quoted string",
            ParseError::UnterminatedAngle => "unterminated '<' in address",
            ParseError::InvalidScheme => "invalid SIP URI scheme",
            ParseError::InvalidUtf8 => "pct-decoded bytes are not valid UTF-8",
            ParseError::InvalidHost => "invalid byte in host, user or parameter",
            ParseError::MessageTooLarge => "message exceeds maximum size",
            ParseError::EmptyMessage => "empty message",
            ParseError::InvalidStartLine => "invalid start line",
            ParseError::InvalidStatusCode => "invalid status code",
            ParseError::HeaderMissingColon => "header line without name or colon",
            ParseError::NegativeContentLength => "negative Content-Length",
            ParseError::OversizeContentLength => "Content-Length exceeds maximum size",
            ParseError::BadContentLength => "malformed Content-Length",
        }
    }

    /// The description as an owned string.
    pub fn to_string(&self) -> (r: String)
        ensures
            r@ == message_text(*self),
    {
        self.message().to_owned()
    }
}

} // verus!
