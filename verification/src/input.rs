//! The parameter list of a delegated method.
//!
//! A parameter list may hold, besides the parameters of the method, expressions in square
//! brackets. These are no parameters: they are arguments of the call to which the method
//! delegates.

use crate::grammar::{
    after, followed_by, group, leftover, lemma_behind_first, lemma_prefixed, lemma_prefixed_empty,
    prefixed, punct, same_text, take_group, take_punct, unwrap_invisible, Parse, Reason,
};
use crate::outcome::{earlier, is_sound, is_unexpected, outcome, ParseError, Parsed};
use crate::panic::Panic;
use crate::piece::{in_front, read_in_front, Argument, Expression};
use crate::report::SyntaxError;
use crate::stream::{append, call_site, push_punct, split_first, texts, trees};
use crate::syntax::{optional_text, FnArg, FnArgText, Ident, Parameter, ParameterText};
use crate::token::{
    all_within, flat, is_end_of, lemma_covers_end, lemma_end_of_all, lemma_end_of_end,
    lemma_erase_add, lemma_erase_all, lemma_erase_one, unwrapped, Delimiter, Text, Tree,
};
use proc_macro2::{Span, TokenStream};
use vstd::prelude::*;

verus! {

/// An entry of the parameter list of a delegated method.
pub enum DelegatedInput {
    /// A parameter of the method.
    Input(FnArg),
    /// An expression in square brackets: an argument of the call.
    Argument(TokenStream),
}

/// An entry of a parameter list, as text.
pub enum InputText {
    Input(FnArgText),
    Argument(Text),
}

impl DelegatedInput {
    pub open spec fn wf(self) -> bool {
        self matches DelegatedInput::Input(arg) ==> arg.wf()
    }

    /// Whether the identifier that a parameter is known by is within some trees.
    pub open spec fn is_from(self, input: Seq<Tree<Span>>) -> bool {
        self matches DelegatedInput::Input(arg) ==> all_within(arg.parameter.taken(), input)
    }

    pub open spec fn text(self) -> InputText {
        match self {
            DelegatedInput::Input(arg) => InputText::Input(arg.text()),
            DelegatedInput::Argument(expr) => InputText::Argument(texts(expr)),
        }
    }
}

/// Parsing an entry of a parameter list: an expression in square brackets, or else a parameter.
pub open spec fn input_syntax(tokens: Text) -> Parse<InputText> {
    match group(tokens, Delimiter::Bracket) {
        Some((inner, rest)) => followed_by(
            in_front::<Expression>(inner, 0),
            |expr: Text, left: Text|
                Parse::Parsed {
                    value: InputText::Argument(expr),
                    rest,
                    unexpected: unwrapped(left).len() > 0,
                },
        ),
        None => followed_by(
            in_front::<Argument>(tokens, 0),
            |arg: FnArgText, rest: Text|
                Parse::Parsed { value: InputText::Input(arg), rest, unexpected: false },
        ),
    }
}

impl DelegatedInput {
    /// Parses an entry of a parameter list.
    pub fn parse(input: &TokenStream) -> (parsed: Result<Parsed<DelegatedInput>, ParseError>)
        ensures
            input_syntax(texts(*input)) == outcome(parsed, parsed->Ok_0.value.text()),
            is_sound(parsed),
            parsed matches Ok(p) ==> {
                &&& p.value.wf()
                &&& p.value.is_from(trees(*input))
                &&& is_end_of(trees(p.rest), trees(*input))
                &&& flat(texts(p.rest)).len() <= flat(texts(*input)).len()
            },
    {
        match take_group(input, Delimiter::Bracket) {
            Some(brackets) => {
                proof {
                    lemma_behind_first(texts(*input));
                }
                match read_in_front::<Expression>(&brackets.inner) {
                    Err(error) => Err(error),
                    Ok(expr) => Ok(
                        Parsed {
                            unexpected: earlier(expr.unexpected, leftover(&expr.rest)),
                            value: DelegatedInput::Argument(expr.value),
                            rest: brackets.rest,
                        },
                    ),
                }
            },
            None => match read_in_front::<Argument>(input) {
                Err(error) => Err(error),
                Ok(arg) => Ok(
                    Parsed {
                        value: DelegatedInput::Input(arg.value),
                        rest: arg.rest,
                        unexpected: arg.unexpected,
                    },
                ),
            },
        }
    }
}

/// Parsing a parameter list: entries with commas between them, and perhaps one behind the last.
/// Each comes with whether a comma is behind it.
///
/// The recursion ends because an entry and its comma leave fewer tokens than there were; that they
/// always do is shown where a list is parsed.
pub open spec fn inputs_syntax(tokens: Text) -> Parse<Seq<(InputText, bool)>>
    decreases flat(tokens).len(),
{
    if tokens.len() == 0 {
        Parse::Parsed { value: Seq::empty(), rest: tokens, unexpected: false }
    } else {
        followed_by(
            input_syntax(tokens),
            |input: InputText, rest: Text|
                if rest.len() == 0 {
                    Parse::Parsed { value: seq![(input, false)], rest, unexpected: false }
                } else {
                    match punct(rest, ',') {
                        Some(behind) => if flat(behind).len() < flat(tokens).len() {
                            prefixed(seq![(input, true)], inputs_syntax(behind))
                        } else {
                            Parse::Failed(Seq::empty())
                        },
                        None => Parse::Failed("expected `,`"@),
                    }
                },
        )
    }
}

/// An entry with the span of the comma behind it, as text.
pub open spec fn entry_text(entry: (DelegatedInput, Option<Span>)) -> (InputText, bool) {
    (entry.0.text(), entry.1 is Some)
}

/// Entries as text, in the same order.
pub open spec fn entry_texts(entries: Seq<(DelegatedInput, Option<Span>)>) -> Seq<
    (InputText, bool),
> {
    entries.map_values(|entry: (DelegatedInput, Option<Span>)| entry_text(entry))
}

/// Whether the parameters among the entries are well formed.
pub open spec fn entries_wf(entries: Seq<(DelegatedInput, Option<Span>)>) -> bool {
    forall|i: int| 0 <= i < entries.len() ==> (#[trigger] entries[i]).0.wf()
}

/// Whether the identifiers that the parameters among the entries are known by are within some
/// trees.
pub open spec fn entries_from(
    entries: Seq<(DelegatedInput, Option<Span>)>,
    input: Seq<Tree<Span>>,
) -> bool {
    forall|i: int| 0 <= i < entries.len() ==> (#[trigger] entries[i]).0.is_from(input)
}

/// Parses a parameter list.
pub fn parse_inputs(input: &TokenStream) -> (parsed: Result<
    Parsed<Vec<(DelegatedInput, Option<Span>)>>,
    ParseError,
>)
    ensures
        inputs_syntax(texts(*input)) == outcome(parsed, entry_texts(parsed->Ok_0.value@)),
        is_sound(parsed),
        parsed matches Ok(p) ==> entries_wf(p.value@) && entries_from(p.value@, trees(*input)),
{
    broadcast use lemma_erase_all;

    let mut entries: Vec<(DelegatedInput, Option<Span>)> = Vec::new();
    let mut rest: TokenStream = input.clone();
    let mut unexpected: Option<SyntaxError> = None;
    let ghost all = inputs_syntax(texts(*input));
    proof {
        assert(entry_texts(entries@) =~= Seq::empty());
        lemma_prefixed_empty(inputs_syntax(texts(rest)));
        lemma_end_of_all(trees(rest));
    }
    while !rest.is_empty()
        invariant
            all == after(
                unexpected is Some,
                prefixed(entry_texts(entries@), inputs_syntax(texts(rest))),
            ),
            all == inputs_syntax(texts(*input)),
            entries_wf(entries@),
            entries_from(entries@, trees(*input)),
            is_end_of(trees(rest), trees(*input)),
            unexpected matches Some(error) ==> is_unexpected(error),
        decreases flat(texts(rest)).len(),
    {
        let ghost before = entries@;
        match DelegatedInput::parse(&rest) {
            Err(error) => return Err(error),
            Ok(entry) => {
                unexpected = earlier(unexpected, entry.unexpected);
                proof {
                    lemma_covers_end(trees(rest), trees(*input));
                    assert(entry.value.is_from(trees(*input)));
                    lemma_end_of_end(trees(entry.rest), trees(rest), trees(*input));
                }
                if entry.rest.is_empty() {
                    entries.push((entry.value, None));
                    assert(entry_texts(entries@) =~= entry_texts(before) + seq![
                        entry_text(entries@.last()),
                    ]);
                    return Ok(Parsed { value: entries, rest: entry.rest, unexpected });
                }
                match take_punct(&entry.rest, ',') {
                    None => {
                        let span: Span = match split_first(&unwrap_invisible(&entry.rest)) {
                            Some(split) => split.head.span(),
                            None => call_site(),
                        };
                        return Err(
                            ParseError::Syntax(SyntaxError::new("expected `,`".to_owned(), span)),
                        );
                    },
                    Some(comma) => {
                        entries.push((entry.value, Some(comma.span)));
                        proof {
                            lemma_behind_first(texts(entry.rest));
                            lemma_end_of_end(
                                trees(comma.rest),
                                trees(entry.rest),
                                trees(*input),
                            );
                            lemma_prefixed(
                                entry_texts(before),
                                seq![entry_text(entries@.last())],
                                inputs_syntax(texts(comma.rest)),
                            );
                            assert(entry_texts(entries@) =~= entry_texts(before) + seq![
                                entry_text(entries@.last()),
                            ]);
                        }
                        rest = comma.rest;
                    },
                }
            },
        }
    }
    proof {
        assert(entry_texts(entries@) + Seq::empty() =~= entry_texts(entries@));
    }
    Ok(Parsed { value: entries, rest, unexpected })
}

/// The argument of the call that a parameter of the named method becomes: none if it is the
/// receiver.
pub open spec fn argument_of(parameter: ParameterText, method: Seq<char>) -> Result<
    Option<Text>,
    Reason,
> {
    match parameter {
        ParameterText::Receiver => Ok(None),
        ParameterText::Name(name) => if name == "self"@ {
            Ok(None)
        } else {
            Ok(Some(seq![Tree::Ident(name, ())]))
        },
        ParameterText::Pattern => Err(Reason::SimpleIdentifiers(method)),
    }
}

/// Makes of a parameter of a method the argument with which the method calls the one it delegates
/// to: the receiver is left out, and of another parameter the identifier is taken.
pub fn parse_input_into_argument_expression(function_name: &Ident, input: &FnArg) -> (argument:
    Result<Option<TokenStream>, Panic>)
    requires
        input.wf(),
    ensures
        match argument_of(input.text().parameter, function_name.text@) {
            Ok(text) => argument matches Ok(tokens) && optional_text(tokens) == text,
            Err(reason) => argument matches Err(panic) && panic@ == reason,
        },
        argument matches Ok(Some(tokens)) ==> (input.parameter matches Parameter::Name(ident)
            && trees(tokens) == trees(ident.token)),
{
    match &input.parameter {
        Parameter::Receiver => Ok(None),
        Parameter::Name(ident) => if same_text(&ident.text, "self") {
            Ok(None)
        } else {
            Ok(Some(ident.token.clone()))
        },
        Parameter::Pattern => Err(Panic::SimpleIdentifiers(function_name.text.clone())),
    }
}

/// A comma, or nothing.
pub open spec fn comma(there: bool) -> Text {
    if there {
        seq![Tree::Punct(',', false, ())]
    } else {
        Seq::empty()
    }
}

/// The parameters of the method: the entries that are not in square brackets, each with the comma
/// behind it.
pub open spec fn parameters(entries: Seq<(InputText, bool)>) -> Text
    decreases entries.len(),
{
    if entries.len() == 0 {
        Seq::empty()
    } else {
        let before = parameters(entries.drop_last());
        match entries.last().0 {
            InputText::Input(arg) => before + arg.tokens + comma(entries.last().1),
            InputText::Argument(_) => before,
        }
    }
}

/// The arguments of the call, in the order of the entries: the expressions in square brackets, and
/// what the parameters become.
pub open spec fn arguments(entries: Seq<(InputText, bool)>, method: Seq<char>) -> Result<
    Seq<Text>,
    Reason,
>
    decreases entries.len(),
{
    if entries.len() == 0 {
        Ok(Seq::empty())
    } else {
        match arguments(entries.drop_last(), method) {
            Err(reason) => Err(reason),
            Ok(before) => match entries.last().0 {
                InputText::Argument(expr) => Ok(before.push(expr)),
                InputText::Input(arg) => match argument_of(arg.parameter, method) {
                    Err(reason) => Err(reason),
                    Ok(None) => Ok(before),
                    Ok(Some(argument)) => Ok(before.push(argument)),
                },
            },
        }
    }
}

/// Entries whose arguments cannot be made stay so if more follow, for the same reason.
pub proof fn lemma_stays_complex(entries: Seq<(InputText, bool)>, n: int, method: Seq<char>)
    requires
        0 <= n <= entries.len(),
    ensures
        arguments(entries.take(n), method) is Err ==> arguments(entries, method) == arguments(
            entries.take(n),
            method,
        ),
    decreases entries.len(),
{
    if n == entries.len() {
        assert(entries.take(n) =~= entries);
    } else {
        lemma_stays_complex(entries.drop_last(), n, method);
        assert(entries.drop_last().take(n) =~= entries.take(n));
    }
}

/// Streams as text, in the same order.
pub open spec fn stream_texts(streams: Seq<TokenStream>) -> Seq<Text> {
    streams.map_values(|stream: TokenStream| texts(stream))
}

/// The tokens of streams.
pub open spec fn stream_trees(streams: Seq<TokenStream>) -> Seq<Seq<Tree<Span>>> {
    streams.map_values(|stream: TokenStream| trees(stream))
}

/// Whether a parameter is the receiver of the method.
pub open spec fn is_self(parameter: Parameter) -> bool {
    match parameter {
        Parameter::Receiver => true,
        Parameter::Name(ident) => ident.text@ == "self"@,
        Parameter::Pattern => false,
    }
}

/// The tokens of the arguments of the call, where they can be made: the expressions in square
/// brackets, and the identifiers of the parameters, but for the receiver.
pub open spec fn passed_trees(entries: Seq<(DelegatedInput, Option<Span>)>) -> Seq<Seq<Tree<Span>>>
    decreases entries.len(),
{
    if entries.len() == 0 {
        Seq::empty()
    } else {
        let before = passed_trees(entries.drop_last());
        match entries.last().0 {
            DelegatedInput::Argument(expr) => before.push(trees(expr)),
            DelegatedInput::Input(arg) => if is_self(arg.parameter) {
                before
            } else {
                before.push(arg.parameter.taken())
            },
        }
    }
}

/// The tokens of the parameters of the method: those of the entries that are not in square
/// brackets, each with the comma behind it.
pub open spec fn parameter_trees(entries: Seq<(DelegatedInput, Option<Span>)>) -> Seq<Tree<Span>>
    decreases entries.len(),
{
    if entries.len() == 0 {
        Seq::empty()
    } else {
        let before = parameter_trees(entries.drop_last());
        match entries.last().0 {
            DelegatedInput::Argument(_) => before,
            DelegatedInput::Input(arg) => match entries.last().1 {
                Some(span) => before + trees(arg.tokens) + seq![Tree::Punct(',', false, span)],
                None => before + trees(arg.tokens),
            },
        }
    }
}

/// Parts the entries of a parameter list into the parameters of the named method and the
/// arguments of the call.
pub fn split_inputs(entries: &Vec<(DelegatedInput, Option<Span>)>, method: &Ident) -> (split:
    Result<(TokenStream, Vec<TokenStream>), Panic>)
    requires
        entries_wf(entries@),
    ensures
        match arguments(entry_texts(entries@), method.text@) {
            Ok(args) => split matches Ok((inputs, calls)) && texts(inputs) == parameters(
                entry_texts(entries@),
            ) && stream_texts(calls@) == args && stream_trees(calls@) == passed_trees(entries@)
                && trees(inputs) == parameter_trees(entries@),
            Err(reason) => split matches Err(panic) && panic@ == reason,
        },
{
    let mut inputs: TokenStream = TokenStream::new();
    let mut calls: Vec<TokenStream> = Vec::new();
    let ghost all = entry_texts(entries@);
    let mut i: usize = 0;
    proof {
        assert(all.take(0) =~= Seq::empty());
        assert(stream_texts(calls@) =~= Seq::empty());
        assert(stream_trees(calls@) =~= Seq::empty());
        assert(entries@.take(0) =~= Seq::empty());
        lemma_erase_all(trees(inputs));
        assert(texts(inputs) =~= Seq::empty());
    }
    while i < entries.len()
        invariant
            i <= entries.len(),
            all == entry_texts(entries@),
            entries_wf(entries@),
            texts(inputs) == parameters(all.take(i as int)),
            arguments(all.take(i as int), method.text@) == Ok::<Seq<Text>, Reason>(
                stream_texts(calls@),
            ),
            stream_trees(calls@) == passed_trees(entries@.take(i as int)),
            trees(inputs) == parameter_trees(entries@.take(i as int)),
        decreases entries.len() - i,
    {
        proof {
            assert(all.take(i + 1).drop_last() =~= all.take(i as int));
            assert(all.take(i + 1).last() == entry_text(entries@[i as int]));
            assert(entries@.take(i + 1).drop_last() =~= entries@.take(i as int));
            assert(entries@.take(i + 1).last() == entries@[i as int]);
            lemma_stays_complex(all, i + 1, method.text@);
        }
        let ghost before = calls@;
        match &entries[i].0 {
            DelegatedInput::Argument(expr) => {
                calls.push(expr.clone());
                assert(stream_texts(calls@) =~= stream_texts(before).push(texts(*expr)));
                assert(stream_trees(calls@) =~= stream_trees(before).push(trees(*expr)));
            },
            DelegatedInput::Input(arg) => {
                match parse_input_into_argument_expression(method, arg) {
                    Err(panic) => return Err(panic),
                    Ok(None) => {},
                    Ok(Some(argument)) => {
                        calls.push(argument);
                        assert(stream_texts(calls@) =~= stream_texts(before).push(texts(argument)));
                        assert(stream_trees(calls@) =~= stream_trees(before).push(trees(argument)));
                    },
                }
                proof {
                    lemma_erase_add(trees(inputs), trees(arg.tokens));
                }
                append(&mut inputs, &arg.tokens);
                let ghost with_arg = trees(inputs);
                if let Some(span) = entries[i].1 {
                    push_punct(&mut inputs, ',', false, span);
                    proof {
                        lemma_erase_add(with_arg, seq![Tree::Punct(',', false, span)]);
                        lemma_erase_one(Tree::Punct(',', false, span));
                        assert(trees(inputs) =~= with_arg + seq![Tree::Punct(',', false, span)]);
                    }
                } else {
                    assert(texts(inputs) + comma(false) =~= texts(inputs));
                }
            },
        }
        i += 1;
    }
    proof {
        assert(all.take(all.len() as int) =~= all);
        assert(entries@.take(entries@.len() as int) =~= entries@);
    }
    Ok((inputs, calls))
}

} // verus!
