//! Why an expansion is given up.

use crate::grammar::Reason;
use crate::report::{is_literal_of, is_plain, quoted};
use vstd::prelude::*;

verus! {

/// Why an expansion is given up. The methods are named by the text of their identifier.
#[derive(Debug)]
pub enum Panic {
    /// A parameter of the method is no simple identifier.
    SimpleIdentifiers(String),
    /// The method comes with an implementation.
    Implementation(String),
    /// The method has more than one `call` attribute.
    MultipleCalls(String),
    /// The method has more than one `into` attribute.
    MultipleIntos(String),
    /// A method has the attribute `target_method`, which `call` has replaced.
    TargetMethod,
    /// A method or a `call` attribute has a syntax error with this message.
    Syntax(String),
    /// There is a literal of a kind that the parser does not know.
    UnknownLiteral(String),
    /// There is an attribute alone in an invisible group, in an expression or a type.
    LoneAttribute,
    /// There are parameters behind a `mut self` in a function pointer type.
    MutSelf,
}

impl View for Panic {
    type V = Reason;

    open spec fn view(&self) -> Reason {
        match self {
            Panic::SimpleIdentifiers(name) => Reason::SimpleIdentifiers(name@),
            Panic::Implementation(name) => Reason::Implementation(name@),
            Panic::MultipleCalls(name) => Reason::MultipleCalls(name@),
            Panic::MultipleIntos(name) => Reason::MultipleIntos(name@),
            Panic::TargetMethod => Reason::TargetMethod,
            Panic::Syntax(message) => Reason::Syntax(message@),
            Panic::UnknownLiteral(text) => Reason::UnknownLiteral(text@),
            Panic::LoneAttribute => Reason::LoneAttribute,
            Panic::MutSelf => Reason::MutSelf,
        }
    }
}

/// `format!` with `{:?}` on a text: the text as a string literal. A plain text is put between
/// quotes; how other characters are escaped is left open.
#[verifier::external_body]
fn debug_text(text: &str) -> (literal: String)
    ensures
        is_plain(text@) ==> literal@ == quoted(text@),
{
    format!("{:?}", text)
}

/// Whether `message` is what is said of a syntax error with the message `text`.
pub open spec fn says_syntax(message: Seq<char>, text: Seq<char>) -> bool {
    exists|literal: Seq<char>| #[trigger]
        is_literal_of(literal, text) && message
            == "called `Result::unwrap()` on an `Err` value: Error("@ + literal + ")"@
}

/// Whether `message` is what is said of the reason.
pub open spec fn says(message: Seq<char>, reason: Reason) -> bool {
    match reason {
        Reason::SimpleIdentifiers(name) => message
            == "You have to use simple identifiers for delegated method parameters ("@ + name
            + ")"@,
        Reason::Implementation(name) => message
            == "Do not include implementation of delegated functions ("@ + name + ")"@,
        Reason::MultipleCalls(name) => message == "Multiple call attributes specified for "@ + name,
        Reason::MultipleIntos(name) => message == "Multiple into attributes specified for "@ + name,
        Reason::TargetMethod => message
            == "You are using the old `target_method` attribute, which is deprecated. Please replace `target_method` with `call`."@,
        Reason::Syntax(text) => says_syntax(message, text),
        Reason::UnknownLiteral(text) => message == "Unrecognized literal: `"@ + text + "`"@,
        Reason::LoneAttribute => message == "Attribute without anything that it belongs to"@,
        Reason::MutSelf => message
            == "Punctuated::push_value: cannot push value if Punctuated is missing trailing punctuation"@,
    }
}

/// One text behind another, with a third behind both.
fn joined(first: &str, second: &str, third: &str) -> (text: String)
    ensures
        text@ == first@ + second@ + third@,
{
    let mut text: String = first.to_owned();
    text.append(second);
    text.append(third);
    text
}

impl Panic {
    /// What is said of the reason.
    pub fn message(&self) -> (message: String)
        ensures
            says(message@, self@),
    {
        match self {
            Panic::SimpleIdentifiers(name) => joined(
                "You have to use simple identifiers for delegated method parameters (",
                name.as_str(),
                ")",
            ),
            Panic::Implementation(name) => joined(
                "Do not include implementation of delegated functions (",
                name.as_str(),
                ")",
            ),
            Panic::MultipleCalls(name) => {
                let mut text: String = "Multiple call attributes specified for ".to_owned();
                text.append(name.as_str());
                text
            },
            Panic::MultipleIntos(name) => {
                let mut text: String = "Multiple into attributes specified for ".to_owned();
                text.append(name.as_str());
                text
            },
            Panic::TargetMethod => {
                "You are using the old `target_method` attribute, which is deprecated. Please replace `target_method` with `call`.".to_owned()
            },
            Panic::Syntax(message) => {
                let literal: String = debug_text(message.as_str());
                assert(is_literal_of(literal@, message@));
                let text: String = joined(
                    "called `Result::unwrap()` on an `Err` value: Error(",
                    literal.as_str(),
                    ")",
                );
                text
            },
            Panic::UnknownLiteral(text) => joined("Unrecognized literal: `", text.as_str(), "`"),
            Panic::LoneAttribute => "Attribute without anything that it belongs to".to_owned(),
            Panic::MutSelf => {
                "Punctuated::push_value: cannot push value if Punctuated is missing trailing punctuation".to_owned()
            },
        }
    }
}

} // verus!
