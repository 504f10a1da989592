//! Syntax errors, and how they are reported to the compiler.

use crate::stream::{texts, trees};
use crate::token::{erase_all, lemma_erase_all, Delimiter, Tree};
use proc_macro2::{Span, TokenStream};
use vstd::prelude::*;

verus! {

/// Whether a text is of printable ASCII characters, without a quote or a backslash.
pub open spec fn is_plain(text: Seq<char>) -> bool {
    forall|i: int|
        0 <= i < text.len() ==> ' ' <= #[trigger] text[i] <= '~' && text[i] != '"' && text[i]
            != '\\'
}

/// A text between quotes.
pub open spec fn quoted(text: Seq<char>) -> Seq<char> {
    seq!['"'] + text + seq!['"']
}

/// Whether `literal` is `text` as a string literal, as far as that is known: of a plain text.
pub open spec fn is_literal_of(literal: Seq<char>, text: Seq<char>) -> bool {
    is_plain(text) ==> literal == quoted(text)
}

/// A call of `compile_error!` with a string literal.
pub open spec fn error_call<S>(literal: Seq<char>, span: S) -> Seq<Tree<S>> {
    seq![
        Tree::Ident("compile_error"@, span),
        Tree::Punct('!', false, span),
        Tree::Group(Delimiter::Brace, seq![Tree::Literal(literal, span)], span),
    ]
}

/// Whether tokens are a call of `compile_error!` with a message.
pub open spec fn reports<S>(tokens: Seq<Tree<S>>, message: Seq<char>, span: S) -> bool {
    exists|literal: Seq<char>| #[trigger]
        is_literal_of(literal, message) && tokens == error_call(literal, span)
}

/// `Error::new` and `Error::to_compile_error` of `syn`: a call of `compile_error!` with a message,
/// all of it at a span. How a character that is not plain is escaped is left open.
#[verifier::external_body]
fn error_tokens(message: &str, span: Span) -> (report: TokenStream)
    ensures
        reports(trees(report), message@, span),
{
    syn::Error::new(span, message).to_compile_error()
}

/// A report of an error to the compiler.
pub fn report(message: &str, span: Span) -> (report: TokenStream)
    ensures
        reports(trees(report), message@, span),
        reports(texts(report), message@, ()),
{
    let report = error_tokens(message, span);
    proof {
        let literal = choose|literal: Seq<char>| #[trigger]
            is_literal_of(literal, message@) && trees(report) == error_call(literal, span);
        lemma_erase_all(trees(report));
        lemma_erase_all(seq![Tree::Literal(literal, span)]);
        assert(erase_all(seq![Tree::Literal(literal, span)]) =~= seq![
            Tree::<()>::Literal(literal, ()),
        ]);
        assert(texts(report) =~= error_call(literal, ()));
        assert(is_literal_of(literal, message@));
    }
    report
}

/// A syntax error: its message, and the code that reports it.
pub struct SyntaxError {
    pub message: String,
    pub report: TokenStream,
}

impl SyntaxError {
    /// Whether the code reports the message.
    pub open spec fn wf(self) -> bool {
        reports(texts(self.report), self.message@, ())
    }

    /// Whether the code reports the message at that span.
    pub open spec fn is_at(self, span: Span) -> bool {
        reports(trees(self.report), self.message@, span)
    }

    /// A syntax error at a span.
    pub fn new(message: String, span: Span) -> (error: SyntaxError)
        ensures
            error.message == message,
            error.wf(),
            error.is_at(span),
    {
        let report = report(message.as_str(), span);
        SyntaxError { message, report }
    }
}

} // verus!
