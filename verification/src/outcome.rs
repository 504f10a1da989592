//! What parsers hand out.

use crate::grammar::{Parse, Reason};
use crate::panic::Panic;
use crate::report::SyntaxError;
use crate::stream::texts;
use crate::trouble_laws::is_readable;
use proc_macro2::TokenStream;
use vstd::prelude::*;

verus! {

/// A value that was parsed, the tokens behind it and, where some group on the way held more
/// tokens than were read, the error that says so, at the first of them.
pub struct Parsed<T> {
    pub value: T,
    pub rest: TokenStream,
    pub unexpected: Option<SyntaxError>,
}

/// Why something was not parsed.
pub enum ParseError {
    /// It has a syntax error.
    Syntax(SyntaxError),
    /// The expansion is given up.
    Panic(Panic),
}

/// Whether an error says that there is a token too many.
pub open spec fn is_unexpected(error: SyntaxError) -> bool {
    error.wf() && error.message@ == "unexpected token"@
}

/// Whether a literal, if one is the reason why an expansion is given up, cannot be read.
pub open spec fn is_honest(reason: Reason) -> bool {
    reason matches Reason::UnknownLiteral(text) ==> !is_readable(text)
}

impl ParseError {
    /// Whether the code of a syntax error reports its message, and the expansion is not given up
    /// for a literal that can be read.
    pub open spec fn wf(self) -> bool {
        match self {
            ParseError::Syntax(error) => error.wf(),
            ParseError::Panic(panic) => is_honest(panic@),
        }
    }

    /// What parsing comes to.
    pub open spec fn outcome<V>(self) -> Parse<V> {
        match self {
            ParseError::Syntax(error) => Parse::Failed(error.message@),
            ParseError::Panic(panic) => Parse::Stopped(panic@),
        }
    }
}

/// What parsing comes to, where `value` stands for the value that was parsed.
pub open spec fn outcome<T, V>(parsed: Result<Parsed<T>, ParseError>, value: V) -> Parse<V> {
    match parsed {
        Ok(p) => Parse::Parsed {
            value,
            rest: texts(p.rest),
            unexpected: p.unexpected is Some,
        },
        Err(error) => error.outcome(),
    }
}

/// Whether the errors in a result are what they have to be.
pub open spec fn is_sound<T>(parsed: Result<Parsed<T>, ParseError>) -> bool {
    match parsed {
        Ok(p) => p.unexpected matches Some(error) ==> is_unexpected(error),
        Err(error) => error.wf(),
    }
}

/// The first of two errors that there is.
pub(crate) fn earlier(first: Option<SyntaxError>, second: Option<SyntaxError>) -> (error: Option<
    SyntaxError,
>)
    ensures
        error == (if first is Some {
            first
        } else {
            second
        }),
{
    match first {
        Some(error) => Some(error),
        None => second,
    }
}

} // verus!
