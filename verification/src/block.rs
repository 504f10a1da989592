//! The input of the macro: segments, each of which delegates methods to one expression.

use crate::grammar::{
    after, expected, expected_error, followed_by, group, keyword, lemma_behind_first,
    lemma_first_is_there, lemma_prefixed, lemma_prefixed_empty, prefixed, required_group,
    take_group, take_keyword, Parse, Reason,
};
use crate::method::{lemma_from_covered, method_syntax, DelegatedMethod, MethodText};
use crate::outcome::{earlier, is_sound, is_unexpected, outcome, ParseError, Parsed};
use crate::panic::Panic;
use crate::piece::{in_front, read_in_front, Delegator};
use crate::report::{reports, SyntaxError};
use crate::stream::{texts, trees};
use crate::token::{
    covers, erase_all, flat, is_end_of, lemma_covers_end, lemma_covers_inside, lemma_end_of_all,
    lemma_end_of_end, lemma_erase_all, lemma_first_within, mark, unwrapped, Delimiter, Text, Tree,
};
use proc_macro2::{Span, TokenStream};
use vstd::prelude::*;

verus! {

/// Methods that are delegated to one expression.
pub struct DelegatedSegment {
    pub delegator: TokenStream,
    pub methods: Vec<DelegatedMethod>,
}

/// A segment, as text.
pub struct SegmentText {
    pub delegator: Text,
    pub methods: Seq<MethodText>,
}

/// Methods as text, in the same order.
pub open spec fn method_texts(methods: Seq<DelegatedMethod>) -> Seq<MethodText> {
    methods.map_values(|method: DelegatedMethod| method.text())
}

/// Whether all the methods are well formed.
pub open spec fn methods_wf(methods: Seq<DelegatedMethod>) -> bool {
    forall|i: int| 0 <= i < methods.len() ==> (#[trigger] methods[i]).wf()
}

/// Whether what the methods have of their declarations is within some trees.
pub open spec fn methods_from(methods: Seq<DelegatedMethod>, input: Seq<Tree<Span>>) -> bool {
    forall|i: int| 0 <= i < methods.len() ==> (#[trigger] methods[i]).is_from(input)
}

impl DelegatedSegment {
    pub open spec fn wf(self) -> bool {
        methods_wf(self.methods@)
    }

    /// Whether what the methods have of their declarations is within some trees.
    pub open spec fn is_from(self, input: Seq<Tree<Span>>) -> bool {
        methods_from(self.methods@, input)
    }

    pub open spec fn text(self) -> SegmentText {
        SegmentText { delegator: texts(self.delegator), methods: method_texts(self.methods@) }
    }
}

/// What parsing comes to where a syntax error gives up the expansion.
pub open spec fn unwrap<V>(parse: Parse<V>) -> Parse<V> {
    match parse {
        Parse::Failed(message) => Parse::Stopped(Reason::Syntax(message)),
        _ => parse,
    }
}

/// Parsing the methods of a segment, up to the end of the tokens.
///
/// The recursion ends because a method leaves fewer tokens than there were; that it always does is
/// shown where one is parsed.
pub open spec fn methods_syntax(tokens: Text) -> Parse<Seq<MethodText>>
    decreases flat(tokens).len(),
{
    if tokens.len() == 0 {
        Parse::Parsed { value: Seq::empty(), rest: tokens, unexpected: false }
    } else {
        followed_by(
            unwrap(method_syntax(tokens)),
            |method: MethodText, rest: Text|
                if flat(rest).len() < flat(tokens).len() {
                    prefixed(seq![method], methods_syntax(rest))
                } else {
                    Parse::Failed(Seq::empty())
                },
        )
    }
}

/// The message of the error that a segment starts with `target`.
pub open spec fn old_target() -> Seq<char> {
    "You are using the old `target` expression, which is deprecated. Please replace `target` with `to`."@
}

/// Parsing a segment: `to`, an expression, and methods in braces.
pub open spec fn segment_syntax(tokens: Text) -> Parse<SegmentText> {
    match (keyword(tokens, "target"@), keyword(tokens, "to"@)) {
        (Some(_), _) => Parse::Failed(old_target()),
        (None, None) => Parse::Failed(expected(tokens, "expected `to`"@)),
        (None, Some(rest)) =>
            followed_by(in_front::<Delegator>(rest, 0), |delegator: Text, tokens: Text|
            followed_by(required_group(tokens, Delimiter::Brace, "expected curly braces"@),
                |inner: Text, tokens: Text|
            followed_by(methods_syntax(inner), |methods: Seq<MethodText>, left: Text|
                Parse::Parsed {
                    value: SegmentText { delegator, methods },
                    rest: tokens,
                    unexpected: false,
                }))),
    }
}

/// Whether tokens start with something else than `to`.
pub open spec fn starts_wrong(tokens: Text) -> bool {
    tokens.len() > 0 && (keyword(tokens, "target"@) is Some || keyword(tokens, "to"@) is None)
}

/// The message of the error that tokens start with something else than `to`.
pub open spec fn wrong_start(tokens: Text) -> Seq<char> {
    if keyword(tokens, "target"@) is Some {
        old_target()
    } else {
        "expected `to`"@
    }
}

/// Whether a report is at the first of some tokens. Of a group, that is its opening delimiter, the
/// place of which is left open.
pub open spec fn reports_first(
    report: Seq<Tree<Span>>,
    message: Seq<char>,
    tokens: Seq<Tree<Span>>,
) -> bool {
    tokens.len() > 0 && !(tokens[0] is Group) ==> reports(report, message, mark(tokens[0]))
}

/// Whether a report says that tokens start with something else than `to`, and says so at their
/// start: at an old `target`, or else at the first token.
pub open spec fn reports_start(report: Seq<Tree<Span>>, tokens: Seq<Tree<Span>>) -> bool {
    let text = erase_all(tokens);
    if keyword(text, "target"@) is Some {
        reports(report, wrong_start(text), mark(unwrapped(tokens)[0]))
    } else {
        reports_first(report, wrong_start(text), tokens)
    }
}

/// The tokens behind the expression of a segment, if braces are missing there.
pub open spec fn without_braces(tokens: Text) -> Option<Text> {
    match (keyword(tokens, "target"@), keyword(tokens, "to"@)) {
        (None, Some(rest)) => match in_front::<Delegator>(rest, 0) {
            Parse::Parsed { rest, .. } => if group(rest, Delimiter::Brace) is None {
                Some(rest)
            } else {
                None
            },
            _ => None,
        },
        _ => None,
    }
}

/// Whether a report is at the first of the tokens that are behind an expression and are no braces.
pub open spec fn reports_no_braces(report: Seq<Tree<Span>>, tokens: Seq<Tree<Span>>) -> bool {
    exists|left: Seq<Tree<Span>>| #[trigger]
        is_end_of(left, tokens) && Some(erase_all(left)) == without_braces(erase_all(tokens))
            && reports_first(report, expected(erase_all(left), "expected curly braces"@), left)
}

/// Whether the error in a segment is where it belongs: at the start if there is no `to`, or where
/// braces are missing. The place of an error in the expression is left open.
pub open spec fn is_placed(error: SyntaxError, tokens: Seq<Tree<Span>>) -> bool {
    let text = erase_all(tokens);
    &&& starts_wrong(text) ==> reports_start(trees(error.report), tokens)
    &&& without_braces(text) is Some ==> reports_no_braces(trees(error.report), tokens)
}

/// Whether an error in the input of the macro is the error in some segment, and is where it
/// belongs there.
pub open spec fn is_placed_in(error: SyntaxError, tokens: Seq<Tree<Span>>) -> bool {
    exists|left: Seq<Tree<Span>>| #[trigger]
        is_end_of(left, tokens) && segment_syntax(erase_all(left)) == Parse::Failed::<SegmentText>(
            error.message@,
        ) && is_placed(error, left)
}

/// Parses the methods of a segment.
fn parse_methods(input: &TokenStream) -> (parsed: Result<
    Parsed<Vec<DelegatedMethod>>,
    ParseError,
>)
    ensures
        methods_syntax(texts(*input)) == outcome(parsed, method_texts(parsed->Ok_0.value@)),
        is_sound(parsed),
        parsed matches Ok(p) ==> methods_wf(p.value@) && methods_from(p.value@, trees(*input)),
{
    broadcast use lemma_erase_all;

    let mut methods: Vec<DelegatedMethod> = Vec::new();
    let mut rest: TokenStream = input.clone();
    let mut unexpected: Option<SyntaxError> = None;
    proof {
        assert(method_texts(methods@) =~= Seq::empty());
        lemma_prefixed_empty(methods_syntax(texts(rest)));
    }
    while !rest.is_empty()
        invariant
            methods_syntax(texts(*input)) == after(
                unexpected is Some,
                prefixed(method_texts(methods@), methods_syntax(texts(rest))),
            ),
            methods_wf(methods@),
            methods_from(methods@, trees(*input)),
            covers(trees(*input), trees(rest)),
            unexpected matches Some(error) ==> is_unexpected(error),
        decreases flat(texts(rest)).len(),
    {
        let ghost before = methods@;
        match DelegatedMethod::parse(&rest) {
            Err(ParseError::Syntax(error)) => {
                return Err(ParseError::Panic(Panic::Syntax(error.message)));
            },
            Err(ParseError::Panic(panic)) => return Err(ParseError::Panic(panic)),
            Ok(method) => {
                proof {
                    lemma_from_covered(method.value, trees(rest), trees(*input));
                }
                methods.push(method.value);
                unexpected = earlier(unexpected, method.unexpected);
                proof {
                    lemma_prefixed(
                        method_texts(before),
                        seq![method.value.text()],
                        methods_syntax(texts(method.rest)),
                    );
                    assert(method_texts(methods@) =~= method_texts(before) + seq![
                        method.value.text(),
                    ]);
                }
                rest = method.rest;
            },
        }
    }
    proof {
        assert(method_texts(methods@) + Seq::empty() =~= method_texts(methods@));
    }
    Ok(Parsed { value: methods, rest, unexpected })
}

/// What methods have of their declarations is within all that covers these.
proof fn lemma_methods_covered(
    methods: Seq<DelegatedMethod>,
    inner: Seq<Tree<Span>>,
    outer: Seq<Tree<Span>>,
)
    requires
        methods_from(methods, inner),
        covers(outer, inner),
    ensures
        methods_from(methods, outer),
{
    assert forall|i: int| 0 <= i < methods.len() implies (#[trigger] methods[i]).is_from(outer) by {
        lemma_from_covered(methods[i], inner, outer);
    }
}

impl DelegatedSegment {
    /// Parses a segment.
    pub fn parse(input: &TokenStream) -> (parsed: Result<Parsed<DelegatedSegment>, ParseError>)
        ensures
            segment_syntax(texts(*input)) == outcome(parsed, parsed->Ok_0.value.text()),
            is_sound(parsed),
            parsed matches Err(ParseError::Syntax(error)) ==> is_placed(error, trees(*input)),
            parsed matches Ok(p) ==> {
                &&& p.value.wf()
                &&& p.value.is_from(trees(*input))
                &&& is_end_of(trees(p.rest), trees(*input))
                &&& flat(texts(p.rest)).len() < flat(texts(*input)).len()
            },
    {
        if let Some(old) = take_keyword(input, "target") {
            let message: String = "You are using the old `target` expression, which is deprecated. Please replace `target` with `to`.".to_owned();
            return Err(ParseError::Syntax(SyntaxError::new(message, old.span)));
        }
        let to = match take_keyword(input, "to") {
            Some(taken) => taken,
            None => return Err(ParseError::Syntax(expected_error(input, "expected `to`"))),
        };
        proof {
            lemma_behind_first(texts(*input));
        }
        let delegator = match read_in_front::<Delegator>(&to.rest) {
            Ok(parsed) => parsed,
            Err(error) => return Err(error),
        };
        let braces = match take_group(&delegator.rest, Delimiter::Brace) {
            Some(taken) => taken,
            None => {
                let error = expected_error(&delegator.rest, "expected curly braces");
                proof {
                    lemma_end_of_end(trees(delegator.rest), trees(to.rest), trees(*input));
                    assert(is_placed(error, trees(*input)));
                }
                return Err(ParseError::Syntax(error));
            },
        };
        proof {
            lemma_behind_first(texts(delegator.rest));
            lemma_end_of_end(trees(delegator.rest), trees(to.rest), trees(*input));
            lemma_end_of_end(trees(braces.rest), trees(delegator.rest), trees(*input));
        }
        match parse_methods(&braces.inner) {
            Err(error) => Err(error),
            Ok(methods) => {
                proof {
                    lemma_first_is_there(trees(delegator.rest));
                    lemma_first_within(trees(delegator.rest));
                    lemma_covers_end(trees(delegator.rest), trees(*input));
                    lemma_covers_inside(unwrapped(trees(delegator.rest))[0], trees(*input));
                    lemma_methods_covered(
                        methods.value@,
                        trees(braces.inner),
                        trees(*input),
                    );
                }
                Ok(
                    Parsed {
                        unexpected: earlier(delegator.unexpected, methods.unexpected),
                        value: DelegatedSegment {
                            delegator: delegator.value,
                            methods: methods.value,
                        },
                        rest: braces.rest,
                    },
                )
            },
        }
    }
}

/// The input of the macro.
pub struct DelegationBlock {
    pub segments: Vec<DelegatedSegment>,
}

/// Segments as text, in the same order.
pub open spec fn segment_texts(segments: Seq<DelegatedSegment>) -> Seq<SegmentText> {
    segments.map_values(|segment: DelegatedSegment| segment.text())
}

/// Whether all the segments are well formed.
pub open spec fn segments_wf(segments: Seq<DelegatedSegment>) -> bool {
    forall|i: int| 0 <= i < segments.len() ==> (#[trigger] segments[i]).wf()
}

/// Parsing the input of the macro: segments, up to the end of the tokens.
///
/// The recursion ends because a segment leaves fewer tokens than there were; that it always does
/// is shown where one is parsed.
pub open spec fn block_syntax(tokens: Text) -> Parse<Seq<SegmentText>>
    decreases flat(tokens).len(),
{
    if tokens.len() == 0 {
        Parse::Parsed { value: Seq::empty(), rest: tokens, unexpected: false }
    } else {
        followed_by(
            segment_syntax(tokens),
            |segment: SegmentText, rest: Text|
                if flat(rest).len() < flat(tokens).len() {
                    prefixed(seq![segment], block_syntax(rest))
                } else {
                    Parse::Failed(Seq::empty())
                },
        )
    }
}

/// Whether what the methods of segments have of their declarations is within some trees.
pub open spec fn segments_from(segments: Seq<DelegatedSegment>, input: Seq<Tree<Span>>) -> bool {
    forall|i: int| 0 <= i < segments.len() ==> (#[trigger] segments[i]).is_from(input)
}

impl DelegationBlock {
    pub open spec fn wf(self) -> bool {
        segments_wf(self.segments@)
    }

    /// Whether what the methods have of their declarations is within some trees.
    pub open spec fn is_from(self, input: Seq<Tree<Span>>) -> bool {
        segments_from(self.segments@, input)
    }

    pub open spec fn text(self) -> Seq<SegmentText> {
        segment_texts(self.segments@)
    }

    /// Parses the input of the macro.
    pub fn parse(input: &TokenStream) -> (parsed: Result<Parsed<DelegationBlock>, ParseError>)
        ensures
            block_syntax(texts(*input)) == outcome(parsed, parsed->Ok_0.value.text()),
            is_sound(parsed),
            parsed matches Err(ParseError::Syntax(error)) ==> is_placed_in(error, trees(*input)),
            starts_wrong(texts(*input)) ==> (parsed matches Err(ParseError::Syntax(error))
                && reports_start(trees(error.report), trees(*input))),
            parsed matches Ok(p) ==> {
                &&& p.value.wf()
                &&& p.value.is_from(trees(*input))
                &&& texts(p.rest).len() == 0
            },
    {
        broadcast use lemma_erase_all;

        let mut segments: Vec<DelegatedSegment> = Vec::new();
        let mut rest: TokenStream = input.clone();
        let mut unexpected: Option<SyntaxError> = None;
        proof {
            assert(segment_texts(segments@) =~= Seq::empty());
            lemma_prefixed_empty(block_syntax(texts(rest)));
            lemma_end_of_all(trees(rest));
        }
        while !rest.is_empty()
            invariant
                block_syntax(texts(*input)) == after(
                    unexpected is Some,
                    prefixed(segment_texts(segments@), block_syntax(texts(rest))),
                ),
                segments_wf(segments@),
                segments_from(segments@, trees(*input)),
                is_end_of(trees(rest), trees(*input)),
                starts_wrong(texts(*input)) ==> trees(rest) == trees(*input),
                unexpected matches Some(error) ==> is_unexpected(error),
            decreases flat(texts(rest)).len(),
        {
            let ghost before = segments@;
            match DelegatedSegment::parse(&rest) {
                Err(error) => {
                    proof {
                        if error is Syntax {
                            assert(is_placed_in(error->Syntax_0, trees(*input)));
                        }
                    }
                    return Err(error);
                },
                Ok(segment) => {
                    proof {
                        lemma_covers_end(trees(rest), trees(*input));
                        lemma_methods_covered(
                            segment.value.methods@,
                            trees(rest),
                            trees(*input),
                        );
                    }
                    segments.push(segment.value);
                    unexpected = earlier(unexpected, segment.unexpected);
                    proof {
                        lemma_end_of_end(trees(segment.rest), trees(rest), trees(*input));
                        lemma_prefixed(
                            segment_texts(before),
                            seq![segment.value.text()],
                            block_syntax(texts(segment.rest)),
                        );
                        assert(segment_texts(segments@) =~= segment_texts(before) + seq![
                            segment.value.text(),
                        ]);
                    }
                    rest = segment.rest;
                },
            }
        }
        proof {
            assert(segment_texts(segments@) + Seq::empty() =~= segment_texts(segments@));
        }
        Ok(Parsed { value: DelegationBlock { segments }, rest, unexpected })
    }
}

} // verus!
