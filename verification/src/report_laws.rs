//! What is said of errors, and what the text of each value is.

use crate::block::{
    is_placed, is_placed_in, reports_start, segment_syntax, starts_wrong, without_braces,
    DelegationBlock, SegmentText,
};
use crate::expand::reports_in;
use crate::grammar::{Parse, Reason};
use crate::input::{entry_texts, DelegatedInput, InputText};
use crate::method::DelegatedMethod;
use crate::outcome::{outcome, ParseError, Parsed};
use crate::panic::{says, Panic};
use crate::piece::{in_front, Argument, Conditions, Delegator, Expression, Generics, Output, Piece};
use crate::reading_laws::{law_first_token, law_opening};
use crate::report::{reports, SyntaxError};
use crate::stream::{texts, trees};
use crate::syntax::{
    attribute_texts, Attribute, FnArg, Ident, Parameter, ParameterText, Reading, ReturnType,
};
use crate::token::{erase_all, flat, is_end_of, mark, unwrapped, Delimiter, Text, Tree};
use proc_macro2::{Span, TokenStream};
use vstd::prelude::*;

verus! {

/// A report is a call of `compile_error!` with one literal, all of it at one place. Where the
/// message is of printable ASCII without quotes and backslashes, the literal is the message in
/// quotes.
pub proof fn law_report_is_written_out<S>(tokens: Seq<Tree<S>>, message: Seq<char>, span: S)
    ensures
        reports(tokens, message, span) ==> {
            &&& tokens.len() == 3
            &&& tokens[0] == Tree::Ident("compile_error"@, span)
            &&& tokens[1] == Tree::Punct('!', false, span)
            &&& tokens[2] matches Tree::Group(Delimiter::Brace, inner, place) && place == span
                && inner.len() == 1 && (inner[0] matches Tree::Literal(literal, at) && at == span
                && ((forall|i: int|
                0 <= i < message.len() ==> ' ' <= #[trigger] message[i] <= '~' && message[i] != '"'
                    && message[i] != '\\') ==> literal == seq!['"'] + message + seq!['"']))
        },
{
    if reports(tokens, message, span) {
        let literal = choose|literal: Seq<char>| #[trigger]
            crate::report::is_literal_of(literal, message) && tokens == crate::report::error_call(
                literal,
                span,
            );
    }
}

/// What is said of each reason for which an expansion is given up.
pub proof fn law_what_is_said(message: Seq<char>, name: Seq<char>)
    ensures
        says(message, Reason::SimpleIdentifiers(name)) <==> message
            == "You have to use simple identifiers for delegated method parameters ("@ + name
            + ")"@,
        says(message, Reason::Implementation(name)) <==> message
            == "Do not include implementation of delegated functions ("@ + name + ")"@,
        says(message, Reason::MultipleCalls(name)) <==> message
            == "Multiple call attributes specified for "@ + name,
        says(message, Reason::MultipleIntos(name)) <==> message
            == "Multiple into attributes specified for "@ + name,
        says(message, Reason::TargetMethod) <==> message
            == "You are using the old `target_method` attribute, which is deprecated. Please replace `target_method` with `call`."@,
        says(message, Reason::UnknownLiteral(name)) <==> message == "Unrecognized literal: `"@
            + name + "`"@,
        says(message, Reason::LoneAttribute) <==> message
            == "Attribute without anything that it belongs to"@,
        says(message, Reason::MutSelf) <==> message
            == "Punctuated::push_value: cannot push value if Punctuated is missing trailing punctuation"@,
        (forall|i: int|
            0 <= i < name.len() ==> ' ' <= #[trigger] name[i] <= '~' && name[i] != '"' && name[i]
                != '\\') && says(message, Reason::Syntax(name)) ==> message
            == "called `Result::unwrap()` on an `Err` value: Error("@ + (seq!['"'] + name
            + seq!['"']) + ")"@,
{
}

/// What is said of a reason is that reason, and the name or the text that it comes with.
pub proof fn law_reason_of_panic(panic: Panic)
    ensures
        match panic {
            Panic::SimpleIdentifiers(name) => panic@ == Reason::SimpleIdentifiers(name@),
            Panic::Implementation(name) => panic@ == Reason::Implementation(name@),
            Panic::MultipleCalls(name) => panic@ == Reason::MultipleCalls(name@),
            Panic::MultipleIntos(name) => panic@ == Reason::MultipleIntos(name@),
            Panic::TargetMethod => panic@ is TargetMethod,
            Panic::Syntax(message) => panic@ == Reason::Syntax(message@),
            Panic::UnknownLiteral(text) => panic@ == Reason::UnknownLiteral(text@),
            Panic::LoneAttribute => panic@ is LoneAttribute,
            Panic::MutSelf => panic@ is MutSelf,
        },
{
}

/// An input starts wrong exactly if there is a first tree, and the first visible one is not `to`.
/// It is reported at an old `target`, or else at the first tree, if that is no group.
pub proof fn law_wrong_start_is_reported(
    report: Seq<Tree<Span>>,
    tokens: Seq<Tree<Span>>,
)
    ensures
        ({
            let text = erase_all(tokens);
            starts_wrong(text) <==> text.len() > 0 && !(flat(text).len() > 0 && flat(text)[0]
                == Tree::Ident("to"@, ()))
        }),
        reports_start(report, tokens) ==> {
            let text = erase_all(tokens);
            if flat(text).len() > 0 && flat(text)[0] == Tree::Ident("target"@, ()) {
                reports(
                    report,
                    "You are using the old `target` expression, which is deprecated. Please replace `target` with `to`."@,
                    mark(flat(tokens)[0]),
                )
            } else {
                tokens.len() > 0 && !(tokens[0] is Group) ==> reports(
                    report,
                    "expected `to`"@,
                    mark(tokens[0]),
                )
            }
        },
{
    let text = erase_all(tokens);
    law_first_token(text, "target"@, ',', Delimiter::Brace);
    law_first_token(text, "to"@, ',', Delimiter::Brace);
    law_opening(tokens);
    crate::grammar::lemma_first_is_there(tokens);
    law_opening(text);
    reveal_strlit("to");
    reveal_strlit("target");
    assert("to"@.len() != "target"@.len());
}

/// The error that braces are missing behind the expression of a segment is reported at the first
/// token behind the expression, if that is no group.
pub proof fn law_missing_braces_are_reported(
    error: SyntaxError,
    tokens: Seq<Tree<Span>>,
    behind: Text,
    value: Text,
    rest: Text,
    unexpected: bool,
)
    requires
        erase_all(tokens) == seq![Tree::Ident("to"@, ())] + behind,
        in_front::<Delegator>(behind, 0) == (Parse::Parsed { value, rest, unexpected }),
        !(flat(rest).len() > 0 && (flat(rest)[0] matches Tree::Group(Delimiter::Brace, _, _))),
        is_placed(error, tokens),
    ensures
        exists|left: Seq<Tree<Span>>| #[trigger]
            is_end_of(left, tokens) && erase_all(left) == rest && (left.len() > 0 && !(left[0] is Group)
                ==> reports(
                trees(error.report),
                "expected curly braces"@,
                mark(left[0]),
            )),
{
    let text = erase_all(tokens);
    reveal_strlit("to");
    reveal_strlit("target");
    assert("to"@.len() != "target"@.len());
    assert(text[0] == Tree::Ident("to"@, ()));
    assert(unwrapped(text) == text);
    assert(text.skip(1) =~= behind);
    law_first_token(rest, "to"@, ',', Delimiter::Brace);
    assert(without_braces(text) == Some(rest));
    let left = choose|left: Seq<Tree<Span>>| #[trigger]
        is_end_of(left, tokens) && Some(erase_all(left)) == without_braces(text)
            && crate::block::reports_first(
            trees(error.report),
            crate::grammar::expected(erase_all(left), "expected curly braces"@),
            left,
        );
    crate::token::lemma_erase_all(left);
}

/// The text of a method is that of its parts.
pub proof fn law_text_of_method(method: DelegatedMethod)
    ensures
        ({
            let text = method.text();
            let signature = method.signature;
            &&& text.attributes == attribute_texts(method.attributes@)
            &&& text.visibility == texts(method.visibility)
            &&& text.ident == signature.ident.text@
            &&& text.signature.constness == texts(signature.constness)
            &&& text.signature.asyncness == texts(signature.asyncness)
            &&& text.signature.unsafety == texts(signature.unsafety)
            &&& text.signature.abi == texts(signature.abi)
            &&& text.signature.fn_token == texts(signature.fn_token)
            &&& text.signature.ident == texts(signature.ident.token)
            &&& text.signature.generics == texts(signature.generics)
            &&& text.signature.inputs == texts(signature.inputs)
            &&& text.signature.output == texts(signature.output.tokens)
            &&& text.signature.where_clause == texts(signature.where_clause)
            &&& match signature.output.ty {
                Some(ty) => text.signature.ty == Some(texts(ty)),
                None => text.signature.ty is None,
            }
            &&& text.arguments.len() == method.arguments@.len()
            &&& forall|i: int|
                0 <= i < method.arguments@.len() ==> #[trigger] text.arguments[i] == texts(
                    method.arguments@[i],
                )
        }),
        method.wf() ==> method.text().signature.ident == seq![
            Tree::<()>::Ident(method.text().ident, ()),
        ],
{
}

/// The text of a segment or of an input is that of its parts, in order.
pub proof fn law_text_of_block(block: DelegationBlock)
    ensures
        block.text().len() == block.segments@.len(),
        forall|i: int|
            0 <= i < block.segments@.len() ==> {
                let segment = block.segments@[i];
                &&& (#[trigger] block.text()[i]).delegator == texts(segment.delegator)
                &&& block.text()[i].methods.len() == segment.methods@.len()
                &&& forall|j: int|
                    0 <= j < segment.methods@.len() ==> #[trigger] block.text()[i].methods[j]
                        == segment.methods@[j].text()
            },
{
}

/// The text of attributes is the name and the tokens of each, in order.
pub proof fn law_text_of_attributes(attributes: Seq<Attribute>)
    ensures
        attribute_texts(attributes).len() == attributes.len(),
        forall|i: int|
            0 <= i < attributes.len() ==> {
                &&& (#[trigger] attribute_texts(attributes)[i]).tokens == texts(
                    attributes[i].tokens,
                )
                &&& attribute_texts(attributes)[i].printed == texts(attributes[i].printed)
                &&& match attributes[i].name {
                    Some(name) => attribute_texts(attributes)[i].name == Some(name@),
                    None => attribute_texts(attributes)[i].name is None,
                }
            },
{
}

/// The text of the entries of a parameter list: the expressions, or the tokens of the parameters
/// with what they are known by, and whether a comma is behind each.
pub proof fn law_text_of_entries(entries: Seq<(DelegatedInput, Option<Span>)>)
    ensures
        entry_texts(entries).len() == entries.len(),
        forall|i: int|
            0 <= i < entries.len() ==> {
                &&& (#[trigger] entry_texts(entries)[i]).1 == (entries[i].1 is Some)
                &&& match entries[i].0 {
                    DelegatedInput::Argument(expr) => entry_texts(entries)[i].0
                        == InputText::Argument(texts(expr)),
                    DelegatedInput::Input(arg) => entry_texts(entries)[i].0 matches InputText::Input(
                        text,
                    ) && text.tokens == texts(arg.tokens) && match arg.parameter {
                        Parameter::Receiver => text.parameter is Receiver,
                        Parameter::Name(ident) => text.parameter == ParameterText::Name(
                            ident.text@,
                        ),
                        Parameter::Pattern => text.parameter is Pattern,
                    },
                }
            },
{
}

/// An identifier is one token with its text.
pub proof fn law_identifier_is_one_token(ident: Ident)
    ensures
        ident.wf() <==> texts(ident.token) == seq![Tree::<()>::Ident(ident.text@, ())],
{
}

/// What parsing comes to says all of the result: the value, the tokens behind it and whether a
/// group was left with tokens in it, or the message, or the reason.
pub proof fn law_outcome<T, V>(parsed: Result<Parsed<T>, ParseError>, value: V)
    ensures
        match parsed {
            Ok(p) => outcome(parsed, value) == (Parse::Parsed {
                value,
                rest: texts(p.rest),
                unexpected: p.unexpected is Some,
            }),
            Err(ParseError::Syntax(error)) => outcome(parsed, value) == Parse::Failed::<V>(
                error.message@,
            ),
            Err(ParseError::Panic(panic)) => outcome(parsed, value) == Parse::Stopped::<V>(
                panic@,
            ),
        },
{
}

/// The error in an input is that of one of its segments, which is an end of it: the message is that
/// with which the segment is refused, and a wrong start is reported at that start.
pub proof fn law_error_is_in_a_segment(error: SyntaxError, tokens: Seq<Tree<Span>>)
    requires
        is_placed_in(error, tokens),
    ensures
        exists|left: Seq<Tree<Span>>| #[trigger]
            is_end_of(left, tokens) && segment_syntax(erase_all(left)) == Parse::Failed::<
                SegmentText,
            >(error.message@) && is_placed(error, left) && (starts_wrong(erase_all(left))
                ==> reports_start(trees(error.report), left)),
{
}

/// What is reported of an input is the code of such an error.
pub proof fn law_report_is_of_an_error(code: TokenStream, input: TokenStream)
    requires
        reports_in(code, input),
    ensures
        exists|error: SyntaxError|
            error.report == code && #[trigger] is_placed_in(error, trees(input)),
{
}

/// The text of what is read of each piece is the text of its tokens.
pub proof fn law_text_of_pieces(stream: TokenStream, output: ReturnType, arg: FnArg)
    ensures
        <Expression as Piece>::text(stream) == texts(stream),
        <Delegator as Piece>::text(stream) == texts(stream),
        <Generics as Piece>::text(stream) == texts(stream),
        <Conditions as Piece>::text(stream) == texts(stream),
        <Output as Piece>::text(output).tokens == texts(output.tokens),
        match output.ty {
            Some(ty) => <Output as Piece>::text(output).ty == Some(texts(ty)),
            None => <Output as Piece>::text(output).ty is None,
        },
        <Argument as Piece>::text(arg).tokens == texts(arg.tokens),
        match arg.parameter {
            Parameter::Receiver => <Argument as Piece>::text(arg).parameter is Receiver,
            Parameter::Name(ident) => <Argument as Piece>::text(arg).parameter == ParameterText::Name(
                ident.text@,
            ),
            Parameter::Pattern => <Argument as Piece>::text(arg).parameter is Pattern,
        },
        match arg.parameter {
            Parameter::Name(ident) => <Argument as Piece>::taken(arg) == trees(ident.token),
            _ => <Argument as Piece>::taken(arg).len() == 0,
        },
{
}

/// What is read by `syn` comes to what was read, the tokens behind it and whether a group was left
/// with tokens in it, or to the message of the error.
pub proof fn law_reading<T, V>(reading: Reading<T>, value: V)
    ensures
        match reading.read {
            Some((_, rest)) => reading.outcome(value) == (Parse::Parsed {
                value,
                rest: texts(rest),
                unexpected: reading.error is Some,
            }),
            None => reading.error matches Some(error) ==> reading.outcome(value) == Parse::Failed::<
                V,
            >(error.message@),
        },
{
}

} // verus!
