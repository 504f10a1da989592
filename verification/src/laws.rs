//! What holds of every delegation.

use crate::attributes::{
    call_syntax, directives, has_inline, is_special, lemma_names_differ, named, Directives,
};
use crate::block::{block_syntax, methods_syntax, old_target, segment_syntax, unwrap, SegmentText};
use crate::declaration_laws::law_methods_are_read_in_front;
use crate::expand::{
    awaited, block_expansion, body, call, converted, expansion, function, inline_always,
    method_expansion, methods_expansion, printed_texts, text_parts, FunctionParts,
};
use crate::grammar::{
    after, keyword, lemma_prefixed, lemma_prefixed_empty, prefixed, punct, whole, Parse, Reason,
};
use crate::input::{arguments, input_syntax, inputs_syntax, parameters, InputText};
use crate::method::{
    declaration_len, lemma_declaration_len, method_syntax, signature_tokens, with_more, MethodText,
};
use crate::piece::{end_mark, guarded, in_front, is_stop, Delegator};
use crate::syntax::{AttributeText, ParameterText};
use crate::token::{flat, lemma_flat_add, unwrapped, Delimiter, Text, Tree};
use crate::trouble::is_symbol;
use vstd::prelude::*;

verus! {

/// A method keeps the attributes that ask nothing of the delegation, all of them and in their
/// order, and no other.
pub proof fn law_kept_attributes(attributes: Seq<AttributeText>, method: Seq<char>)
    ensures
        directives(attributes, method) matches Ok(asked) ==> asked.kept == attributes.filter(
            |attribute: AttributeText| !is_special(attribute),
        ),
    decreases attributes.len(),
{
    reveal(Seq::filter);
    if attributes.len() > 0 {
        law_kept_attributes(attributes.drop_last(), method);
    }
}

/// How many attributes have that name.
pub open spec fn count(attributes: Seq<AttributeText>, name: Seq<char>) -> nat {
    attributes.filter(|attribute: AttributeText| named(attribute, name)).len()
}

/// Whether every `call` attribute names a method, and nothing else.
pub open spec fn calls_are_read(attributes: Seq<AttributeText>) -> bool {
    forall|i: int|
        0 <= i < attributes.len() && named(#[trigger] attributes[i], "call"@) ==> whole(
            call_syntax(attributes[i].tokens),
        ) is Parsed
}

/// The attributes of a method can be followed exactly if each `call` names a method, there is at
/// most one `call` and at most one `into`, and no `target_method`.
///
/// The result is converted exactly if there is an `into`, and a method is named exactly if there
/// is a `call`.
pub proof fn law_directives(attributes: Seq<AttributeText>, method: Seq<char>)
    ensures
        directives(attributes, method) is Ok <==> {
            &&& calls_are_read(attributes)
            &&& count(attributes, "call"@) <= 1
            &&& count(attributes, "into"@) <= 1
            &&& count(attributes, "target_method"@) == 0
        },
        directives(attributes, method) matches Ok(asked) ==> {
            &&& asked.into <==> count(attributes, "into"@) == 1
            &&& asked.target is Some <==> count(attributes, "call"@) == 1
        },
    decreases attributes.len(),
{
    reveal(Seq::filter);
    lemma_names_differ();
    if attributes.len() > 0 {
        let before = attributes.drop_last();
        let last = attributes.last();
        law_directives(before, method);
        assert(calls_are_read(attributes) <==> calls_are_read(before) && (named(last, "call"@)
            ==> whole(call_syntax(last.tokens)) is Parsed)) by {
            assert(attributes =~= before.push(last));
        }
    }
}

/// The method that a `call` attribute names is the one that is called.
pub proof fn law_call_names_target(attributes: Seq<AttributeText>, method: Seq<char>, i: int)
    requires
        0 <= i < attributes.len(),
        named(attributes[i], "call"@),
    ensures
        directives(attributes, method) matches Ok(asked) ==> (whole(
            call_syntax(attributes[i].tokens),
        ) matches Parse::Parsed { value, .. } && asked.target == Some(value)),
    decreases attributes.len(),
{
    lemma_names_differ();
    if i < attributes.len() - 1 {
        law_call_names_target(attributes.drop_last(), method, i);
    }
}

/// A method has an `inline` attribute of its own exactly if it keeps one: `inline` asks nothing of
/// the delegation.
pub proof fn law_inline_is_kept(attributes: Seq<AttributeText>, method: Seq<char>)
    ensures
        directives(attributes, method) matches Ok(asked) ==> has_inline(asked.kept) == has_inline(
            attributes,
        ),
    decreases attributes.len(),
{
    lemma_names_differ();
    if attributes.len() > 0 {
        let before = attributes.drop_last();
        law_inline_is_kept(before, method);
        if directives(attributes, method) is Ok {
            let asked = directives(attributes, method)->Ok_0;
            let first = directives(before, method)->Ok_0;
            lemma_has_inline_push(before, attributes.last());
            assert(before.push(attributes.last()) =~= attributes);
            lemma_has_inline_push(first.kept, attributes.last());
        }
    }
}

/// One more attribute adds an `inline` if it is one.
proof fn lemma_has_inline_push(attributes: Seq<AttributeText>, attribute: AttributeText)
    ensures
        has_inline(attributes.push(attribute)) <==> has_inline(attributes) || named(
            attribute,
            "inline"@,
        ),
{
    let more = attributes.push(attribute);
    if has_inline(attributes) {
        let i = choose|i: int|
            0 <= i < attributes.len() && #[trigger] attributes[i].name == Some("inline"@);
        assert(more[i].name == Some("inline"@));
    }
    if named(attribute, "inline"@) {
        assert(more[attributes.len() as int].name == Some("inline"@));
    }
    if has_inline(more) {
        let i = choose|i: int| 0 <= i < more.len() && #[trigger] more[i].name == Some("inline"@);
        if i < attributes.len() {
            assert(attributes[i].name == Some("inline"@));
        }
    }
}

/// The code of a method is what it keeps of its attributes, `#[inline(always)]` unless one of its
/// attributes is `inline`, its visibility, its signature, and a body in braces.
pub proof fn law_code_of_method(delegator: Text, method: MethodText)
    ensures
        match directives(method.attributes, method.ident) {
            Err(reason) => method_expansion(delegator, method) == Err::<Text, Reason>(reason),
            Ok(asked) => {
                let parts = text_parts(delegator, method, asked);
                method_expansion(delegator, method) == Ok::<Text, Reason>(
                    printed_texts(
                        method.attributes.filter(
                            |attribute: AttributeText| !is_special(attribute),
                        ),
                    ) + (if has_inline(method.attributes) {
                        Seq::empty()
                    } else {
                        inline_always(())
                    }) + method.visibility + signature_tokens(method.signature) + seq![
                        Tree::Group(Delimiter::Brace, body(parts, ()), ()),
                    ],
                )
            },
        },
{
    law_kept_attributes(method.attributes, method.ident);
    law_inline_is_kept(method.attributes, method.ident);
}

/// The body of a method calls the method of the delegator that is named, or else the one with the
/// name of the method itself. The call is awaited if the method is `async`; its result is dropped
/// if the method returns nothing, converted if that is asked for, and returned as it is otherwise.
pub proof fn law_body(delegator: Text, method: MethodText, asked: Directives)
    ensures
        ({
            let parts = text_parts(delegator, method, asked);
            let result = awaited(call(parts, ()), method.signature.asyncness.len() > 0, ());
            &&& parts.target == seq![
                Tree::<()>::Ident(
                    if asked.target is Some {
                        asked.target->0
                    } else {
                        method.ident
                    },
                    (),
                ),
            ]
            &&& method.signature.ty is None ==> body(parts, ()) == result + seq![
                Tree::<()>::Punct(';', false, ()),
            ]
            &&& method.signature.ty matches Some(ty) ==> body(parts, ()) == if asked.into {
                converted(result, ty, ())
            } else {
                result
            }
        }),
{
}

/// To name the method itself in `call` is to name none.
pub proof fn law_call_of_own_name(delegator: Text, method: MethodText, asked: Directives)
    requires
        asked.target == Some(method.ident),
    ensures
        text_parts(delegator, method, asked) == text_parts(
            delegator,
            method,
            (Directives { target: None, ..asked }),
        ),
{
}

/// Attributes with one more among them.
pub open spec fn with_attribute(
    attributes: Seq<AttributeText>,
    at: int,
    attribute: AttributeText,
) -> Seq<AttributeText> {
    attributes.take(at) + seq![attribute] + attributes.skip(at)
}

/// A `call` attribute among others of which none is one asks for the method that it names, and
/// nothing else changes.
proof fn lemma_call_is_added(
    attributes: Seq<AttributeText>,
    at: int,
    attribute: AttributeText,
    method: Seq<char>,
)
    requires
        0 <= at <= attributes.len(),
        forall|i: int| 0 <= i < attributes.len() ==> !named(#[trigger] attributes[i], "call"@),
        named(attribute, "call"@),
        whole(call_syntax(attribute.tokens)) is Parsed,
    ensures
        directives(attributes, method) matches Ok(asked) ==> asked.target is None,
        directives(with_attribute(attributes, at, attribute), method) == match directives(
            attributes,
            method,
        ) {
            Ok(asked) => Ok(
                Directives { target: Some(whole(call_syntax(attribute.tokens))->value), ..asked },
            ),
            Err(reason) => Err(reason),
        },
    decreases attributes.len(),
{
    lemma_names_differ();
    let more = with_attribute(attributes, at, attribute);
    if attributes.len() == 0 {
        assert(more.drop_last() =~= attributes);
        assert(more.last() == attribute);
    } else {
        let before = attributes.drop_last();
        let last = attributes.last();
        assert forall|i: int| 0 <= i < before.len() implies !named(
            #[trigger] before[i],
            "call"@,
        ) by {
            assert(before[i] == attributes[i]);
        }
        assert(attributes[attributes.len() - 1] == last);
        if at == attributes.len() {
            lemma_call_is_added(before, 0, attribute, method);
            assert(more.drop_last() =~= attributes);
            assert(more.last() == attribute);
        } else {
            lemma_call_is_added(before, at, attribute, method);
            assert(more.drop_last() =~= with_attribute(before, at, attribute));
            assert(more.last() == last);
        }
    }
}

/// A `call` attribute changes nothing but the method that is called: put among the attributes of a
/// method of which none is a `call`, it makes of the code the same code with the name in it as that
/// of the method that is called, and a method that does not become code still does not, for the
/// same reason.
pub proof fn law_call_changes_the_target(
    delegator: Text,
    method: MethodText,
    at: int,
    attribute: AttributeText,
)
    requires
        0 <= at <= method.attributes.len(),
        forall|i: int|
            0 <= i < method.attributes.len() ==> !named(#[trigger] method.attributes[i], "call"@),
        named(attribute, "call"@),
        whole(call_syntax(attribute.tokens)) is Parsed,
    ensures
        method_expansion(
            delegator,
            (MethodText {
                attributes: with_attribute(method.attributes, at, attribute),
                ..method
            }),
        ) == match directives(method.attributes, method.ident) {
            Ok(asked) => Ok::<Text, Reason>(
                function(
                    (FunctionParts {
                        target: seq![
                            Tree::Ident(whole(call_syntax(attribute.tokens))->value, ()),
                        ],
                        ..text_parts(delegator, method, asked)
                    }),
                    (),
                ),
            ),
            Err(_) => method_expansion(delegator, method),
        },
{
    lemma_call_is_added(method.attributes, at, attribute, method.ident);
}

/// An `into` attribute does nothing to a method that returns nothing.
pub proof fn law_into_needs_a_type<S>(parts: FunctionParts<S>, call_site: S)
    requires
        parts.signature.ty is None,
    ensures
        function((FunctionParts { into: true, ..parts }), call_site) == function(
            (FunctionParts { into: false, ..parts }),
            call_site,
        ),
{
}

/// Whether an entry of a parameter list is a parameter, and not an expression in square brackets.
pub open spec fn is_parameter(entry: (InputText, bool)) -> bool {
    entry.0 is Input
}

/// Whether an entry of a parameter list is the receiver of the method.
pub open spec fn is_receiver(entry: (InputText, bool)) -> bool {
    entry.0 matches InputText::Input(arg) && (arg.parameter is Receiver || arg.parameter
        == ParameterText::Name("self"@))
}

/// Whether an entry of a parameter list is a parameter with a pattern that is no identifier.
pub open spec fn is_complex(entry: (InputText, bool)) -> bool {
    entry.0 matches InputText::Input(arg) && arg.parameter is Pattern
}

/// What an entry that is not the receiver is in the call: the expression in its brackets, or the
/// name of the parameter.
pub open spec fn passed(entry: (InputText, bool)) -> Text {
    match entry.0 {
        InputText::Argument(expr) => expr,
        InputText::Input(arg) => seq![Tree::Ident(arg.parameter->Name_0, ())],
    }
}

/// The expressions in square brackets leave no trace in the signature: it is that of the parameter
/// list without them.
pub proof fn law_brackets_are_no_parameters(entries: Seq<(InputText, bool)>)
    ensures
        parameters(entries) == parameters(
            entries.filter(|entry: (InputText, bool)| is_parameter(entry)),
        ),
    decreases entries.len(),
{
    reveal(Seq::filter);
    if entries.len() > 0 {
        let before = entries.drop_last();
        let filtered = before.filter(|entry: (InputText, bool)| is_parameter(entry));
        law_brackets_are_no_parameters(before);
        assert(filtered.push(entries.last()).drop_last() =~= filtered);
    }
}

/// The parameters of two lists are those of the first and then those of the second.
pub proof fn law_parameters_in_order(
    first: Seq<(InputText, bool)>,
    second: Seq<(InputText, bool)>,
)
    ensures
        parameters(first + second) == parameters(first) + parameters(second),
    decreases second.len(),
{
    if second.len() == 0 {
        assert(first + second =~= first);
    } else {
        law_parameters_in_order(first, second.drop_last());
        assert((first + second).drop_last() =~= first + second.drop_last());
        assert(parameters(first + second) =~= parameters(first) + parameters(second));
    }
}

/// The call gets an argument for each entry of the parameter list but the receiver, in the order
/// of the entries. Arguments can be made exactly if every parameter is a simple identifier.
pub proof fn law_arguments_in_order(entries: Seq<(InputText, bool)>, method: Seq<char>)
    ensures
        arguments(entries, method) == if exists|i: int|
            0 <= i < entries.len() && is_complex(#[trigger] entries[i]) {
            Err::<Seq<Text>, Reason>(Reason::SimpleIdentifiers(method))
        } else {
            Ok(
                entries.filter(|entry: (InputText, bool)| !is_receiver(entry)).map_values(
                    |entry: (InputText, bool)| passed(entry),
                ),
            )
        },
    decreases entries.len(),
{
    reveal(Seq::filter);
    let by_order = |entry: (InputText, bool)| passed(entry);
    if entries.len() == 0 {
        assert(entries.map_values(by_order) =~= Seq::empty());
    } else {
        let before = entries.drop_last();
        let last = entries.last();
        law_arguments_in_order(before, method);
        let kept = before.filter(|entry: (InputText, bool)| !is_receiver(entry));
        assert(kept.push(last).map_values(by_order) =~= kept.map_values(by_order).push(
            passed(last),
        ));
        if exists|i: int| 0 <= i < before.len() && is_complex(#[trigger] before[i]) {
            let i = choose|i: int| 0 <= i < before.len() && is_complex(#[trigger] before[i]);
            assert(is_complex(entries[i]));
        } else {
            assert(forall|i: int|
                0 <= i < before.len() ==> #[trigger] entries[i] == before[i]);
            assert(entries[entries.len() - 1] == last);
        }
    }
}

/// The methods of two lists become the code of the first and then that of the second.
pub proof fn law_methods_in_order(delegator: Text, first: Seq<MethodText>, second: Seq<MethodText>)
    ensures
        methods_expansion(delegator, first + second) == match methods_expansion(delegator, first) {
            Err(reason) => Err(reason),
            Ok(before) => match methods_expansion(delegator, second) {
                Err(reason) => Err(reason),
                Ok(behind) => Ok(before + behind),
            },
        },
    decreases second.len(),
{
    if second.len() == 0 {
        assert(first + second =~= first);
        if methods_expansion(delegator, first) is Ok {
            let before = methods_expansion(delegator, first)->Ok_0;
            assert(before + Seq::empty() =~= before);
        }
    } else {
        law_methods_in_order(delegator, first, second.drop_last());
        assert((first + second).drop_last() =~= first + second.drop_last());
        if methods_expansion(delegator, first) is Ok && methods_expansion(
            delegator,
            second,
        ) is Ok {
            let before = methods_expansion(delegator, first)->Ok_0;
            let middle = methods_expansion(delegator, second.drop_last())->Ok_0;
            let last = method_expansion(delegator, second.last())->Ok_0;
            assert(before + (middle + last) =~= before + middle + last);
        }
    }
}

/// Segments do not affect each other: those of two lists become the code of the first and then
/// that of the second, each with its own delegator.
pub proof fn law_segments_in_order(first: Seq<SegmentText>, second: Seq<SegmentText>)
    ensures
        block_expansion(first + second) == match block_expansion(first) {
            Err(reason) => Err(reason),
            Ok(before) => match block_expansion(second) {
                Err(reason) => Err(reason),
                Ok(behind) => Ok(before + behind),
            },
        },
    decreases second.len(),
{
    if second.len() == 0 {
        assert(first + second =~= first);
        if block_expansion(first) is Ok {
            let before = block_expansion(first)->Ok_0;
            assert(before + Seq::empty() =~= before);
        }
    } else {
        law_segments_in_order(first, second.drop_last());
        assert((first + second).drop_last() =~= first + second.drop_last());
        if block_expansion(first) is Ok && block_expansion(second) is Ok {
            let before = block_expansion(first)->Ok_0;
            let middle = block_expansion(second.drop_last())->Ok_0;
            let last = methods_expansion(second.last().delegator, second.last().methods)->Ok_0;
            assert(before + (middle + last) =~= before + middle + last);
        }
    }
}

/// Two segments with the same delegator are as one with the methods of both.
pub proof fn law_segments_can_be_joined(
    delegator: Text,
    first: Seq<MethodText>,
    second: Seq<MethodText>,
)
    ensures
        block_expansion(
            seq![
                SegmentText { delegator, methods: first },
                SegmentText { delegator, methods: second },
            ],
        ) == block_expansion(seq![SegmentText { delegator, methods: first + second }]),
{
    let one = seq![SegmentText { delegator, methods: first }];
    let other = seq![SegmentText { delegator, methods: second }];
    let joined = seq![SegmentText { delegator, methods: first + second }];
    lemma_single_segment(delegator, first);
    lemma_single_segment(delegator, second);
    lemma_single_segment(delegator, first + second);
    law_segments_in_order(one, other);
    law_methods_in_order(delegator, first, second);
    assert(one + other =~= seq![
        SegmentText { delegator, methods: first },
        SegmentText { delegator, methods: second },
    ]);
}

/// A single segment becomes what its methods become.
proof fn lemma_single_segment(delegator: Text, methods: Seq<MethodText>)
    ensures
        block_expansion(seq![SegmentText { delegator, methods }]) == methods_expansion(
            delegator,
            methods,
        ),
{
    reveal_with_fuel(block_expansion, 2);
    let segments = seq![SegmentText { delegator, methods }];
    assert(segments.drop_last() =~= Seq::empty());
    assert(segments.last() == SegmentText { delegator, methods });
    if methods_expansion(delegator, methods) is Ok {
        let code = methods_expansion(delegator, methods)->Ok_0;
        assert(Seq::empty() + code =~= code);
    }
}

/// Methods become code together or not at all: they do exactly if each of them can.
pub proof fn law_all_methods_or_none(delegator: Text, methods: Seq<MethodText>)
    ensures
        methods_expansion(delegator, methods) is Ok <==> forall|i: int|
            0 <= i < methods.len() ==> method_expansion(delegator, #[trigger] methods[i]) is Ok,
    decreases methods.len(),
{
    if methods.len() > 0 {
        let before = methods.drop_last();
        law_all_methods_or_none(delegator, before);
        assert(methods =~= before.push(methods.last()));
    }
}

/// Segments become code together or not at all: they do exactly if each of their methods can.
pub proof fn law_all_segments_or_none(segments: Seq<SegmentText>)
    ensures
        block_expansion(segments) is Ok <==> forall|i: int, j: int|
            0 <= i < segments.len() && 0 <= j < segments[i].methods.len() ==> method_expansion(
                segments[i].delegator,
                #[trigger] segments[i].methods[j],
            ) is Ok,
    decreases segments.len(),
{
    if segments.len() > 0 {
        let before = segments.drop_last();
        let last = segments.last();
        law_all_segments_or_none(before);
        law_all_methods_or_none(last.delegator, last.methods);
        assert(segments =~= before.push(last));
        if block_expansion(segments) is Ok {
            assert forall|i: int, j: int|
                0 <= i < segments.len() && 0 <= j
                    < segments[i].methods.len() implies method_expansion(
                segments[i].delegator,
                #[trigger] segments[i].methods[j],
            ) is Ok by {
                if i < before.len() {
                    assert(before[i].methods[j] == segments[i].methods[j]);
                }
            }
        }
        if forall|i: int, j: int|
            0 <= i < segments.len() && 0 <= j < segments[i].methods.len() ==> method_expansion(
                segments[i].delegator,
                #[trigger] segments[i].methods[j],
            ) is Ok {
            assert forall|i: int, j: int|
                0 <= i < before.len() && 0 <= j < before[i].methods.len() implies method_expansion(
                before[i].delegator,
                #[trigger] before[i].methods[j],
            ) is Ok by {
                assert(before[i] == segments[i]);
                assert(method_expansion(segments[i].delegator, segments[i].methods[j]) is Ok);
            }
            assert forall|j: int| 0 <= j < last.methods.len() implies method_expansion(
                last.delegator,
                #[trigger] last.methods[j],
            ) is Ok by {
                let i = segments.len() - 1;
                assert(method_expansion(segments[i].delegator, segments[i].methods[j]) is Ok);
            }
        }
    }
}

/// A parameter list is read to its end.
pub proof fn law_inputs_are_read_whole(tokens: Text)
    ensures
        inputs_syntax(tokens) matches Parse::Parsed { rest, .. } ==> rest.len() == 0,
    decreases flat(tokens).len(),
{
    if tokens.len() > 0 {
        if let Parse::Parsed { rest, .. } = input_syntax(tokens) {
            if let Some(behind) = punct(rest, ',') {
                if flat(behind).len() < flat(tokens).len() {
                    law_inputs_are_read_whole(behind);
                }
            }
        }
    }
}

/// The methods of a segment are read to the end of its braces.
pub proof fn law_methods_are_read_whole(tokens: Text)
    ensures
        methods_syntax(tokens) matches Parse::Parsed { rest, .. } ==> rest.len() == 0,
    decreases flat(tokens).len(),
{
    if tokens.len() > 0 {
        if let Parse::Parsed { rest, .. } = unwrap(method_syntax(tokens)) {
            if flat(rest).len() < flat(tokens).len() {
                law_methods_are_read_whole(rest);
            }
        }
    }
}

/// The input of the macro is read to its end.
pub proof fn law_input_is_read_whole(tokens: Text)
    ensures
        block_syntax(tokens) matches Parse::Parsed { rest, .. } ==> rest.len() == 0,
    decreases flat(tokens).len(),
{
    if tokens.len() > 0 {
        if let Parse::Parsed { rest, .. } = segment_syntax(tokens) {
            if flat(rest).len() < flat(tokens).len() {
                law_input_is_read_whole(rest);
            }
        }
    }
}

/// No input becomes no code.
pub proof fn law_nothing_becomes_nothing()
    ensures
        expansion(Seq::empty()) == (Parse::Parsed::<Text> {
            value: Seq::empty(),
            rest: Seq::empty(),
            unexpected: false,
        }),
{
}

/// An input that starts with `target`, the word that `to` has replaced, is refused, and the error
/// says how to replace it.
pub proof fn law_old_target_is_refused(tokens: Text)
    requires
        keyword(tokens, "target"@) is Some,
    ensures
        expansion(tokens) == Parse::Failed::<Text>(old_target()),
{
    assert(tokens.len() > 0);
}

/// An input that starts with neither `to` nor `target` is refused.
pub proof fn law_to_is_required(tokens: Text)
    requires
        tokens.len() > 0,
        keyword(tokens, "target"@) is None,
        keyword(tokens, "to"@) is None,
    ensures
        expansion(tokens) == Parse::Failed::<Text>("expected `to`"@),
{
}

/// Texts one behind the other.
pub open spec fn joined(texts: Seq<Text>) -> Text
    decreases texts.len(),
{
    if texts.len() == 0 {
        Seq::empty()
    } else {
        texts[0] + joined(texts.skip(1))
    }
}

/// Joining two lists of texts is joining what each is joined to.
proof fn lemma_joined(first: Seq<Text>, second: Seq<Text>)
    ensures
        joined(first + second) == joined(first) + joined(second),
    decreases first.len(),
{
    if first.len() == 0 {
        assert(first + second =~= second);
        assert(joined(first) + joined(second) =~= joined(second));
    } else {
        lemma_joined(first.skip(1), second);
        assert((first + second).skip(1) =~= first.skip(1) + second);
        assert(joined(first + second) =~= joined(first) + joined(second));
    }
}

/// Whether there is a semicolon among the tokens.
pub open spec fn has_semicolon(tokens: Text) -> bool {
    exists|i: int| 0 <= i < tokens.len() && is_symbol(#[trigger] tokens[i], ';')
}

/// The first semicolon stays the first if more tokens follow.
proof fn lemma_declaration_stays(tokens: Text, more: Text)
    requires
        has_semicolon(tokens),
    ensures
        declaration_len(tokens + more) == declaration_len(tokens),
        declaration_len(tokens) <= tokens.len(),
    decreases tokens.len(),
{
    let i = choose|i: int| 0 <= i < tokens.len() && is_symbol(#[trigger] tokens[i], ';');
    lemma_declaration_len(tokens);
    assert((tokens + more)[0] == tokens[0]);
    if !is_symbol(tokens[0], ';') {
        assert(tokens.skip(1)[i - 1] == tokens[i]);
        lemma_declaration_stays(tokens.skip(1), more);
        assert((tokens + more).skip(1) =~= tokens.skip(1) + more);
    }
}

/// A method is read up to its semicolon: more tokens behind a declaration are left, and do not
/// change how it is read.
pub proof fn law_declaration_ends(declaration: Text, more: Text)
    requires
        has_semicolon(declaration),
    ensures
        method_syntax(declaration + more) == with_more(method_syntax(declaration), more),
{
    let all = declaration + more;
    let n = declaration_len(declaration) as int;
    lemma_declaration_stays(declaration, more);
    assert(all.take(n) =~= declaration.take(n));
    assert(all.skip(n) =~= declaration.skip(n) + more);
    if let Parse::Parsed { rest, .. } = method_syntax(declaration) {
        let left = crate::method::declaration_syntax(declaration.take(n))->rest;
        assert(left + (declaration.skip(n) + more) =~= left + declaration.skip(n) + more);
    }
}

/// Whether tokens are the declaration of one method, and nothing else.
pub open spec fn is_declaration(tokens: Text) -> bool {
    has_semicolon(tokens) && (method_syntax(tokens) matches Parse::Parsed { rest, .. } && rest.len()
        == 0)
}

/// The method that a declaration declares.
pub open spec fn declared(tokens: Text) -> MethodText {
    method_syntax(tokens)->value
}

/// Declarations one behind the other are read as the methods that each declares alone: every one,
/// once, in order.
pub proof fn law_declarations_are_read_in_order(declarations: Seq<Text>)
    requires
        forall|i: int|
            0 <= i < declarations.len() ==> is_declaration(#[trigger] declarations[i]),
    ensures
        methods_syntax(joined(declarations)) == (Parse::Parsed {
            value: declarations.map_values(|tokens: Text| declared(tokens)),
            rest: Seq::empty(),
            unexpected: exists|i: int|
                0 <= i < declarations.len() && method_syntax(
                    #[trigger] declarations[i],
                )->unexpected,
        }),
{
    let nothing = Seq::<Tree<()>>::empty();
    let read = |tokens: Text| declared(tokens);
    law_methods_are_read_in_front(declarations, nothing);
    assert(joined(declarations) + nothing =~= joined(declarations));
    assert(declarations.map_values(read) + Seq::empty() =~= declarations.map_values(read));
}

/// A semicolon is a visible tree.
pub proof fn lemma_semicolon_counts(tokens: Text)
    requires
        has_semicolon(tokens),
    ensures
        flat(tokens).len() > 0,
    decreases tokens.len(),
{
    let i = choose|i: int| 0 <= i < tokens.len() && is_symbol(#[trigger] tokens[i], ';');
    if i > 0 {
        assert(tokens.skip(1)[i - 1] == tokens[i]);
        lemma_semicolon_counts(tokens.skip(1));
    }
}

/// The methods of two lists of declarations are those of the first and then those of the second.
pub proof fn law_method_lists_are_joined(first: Seq<Text>, second: Seq<Text>)
    requires
        forall|i: int| 0 <= i < first.len() ==> is_declaration(#[trigger] first[i]),
        forall|i: int| 0 <= i < second.len() ==> is_declaration(#[trigger] second[i]),
    ensures
        methods_syntax(joined(first) + joined(second)) matches Parse::Parsed { value: all, .. } && (
        methods_syntax(joined(first)) matches Parse::Parsed { value: before, .. } && (
        methods_syntax(joined(second)) matches Parse::Parsed { value: behind, .. } && all == before
            + behind)),
{
    let read = |tokens: Text| declared(tokens);
    law_declarations_are_read_in_order(first);
    law_declarations_are_read_in_order(second);
    law_declarations_are_read_in_order(first + second);
    lemma_joined(first, second);
    assert((first + second).map_values(read) =~= first.map_values(read) + second.map_values(read));
}

/// A group in braces.
pub open spec fn braces(inner: Text) -> Tree<()> {
    Tree::Group(Delimiter::Brace, inner, ())
}

/// How an expression in front of braces is read.
pub open spec fn delegator(tokens: Text) -> Parse<Text> {
    in_front::<Delegator>(tokens.push(braces(Seq::empty())), 0)
}

/// Whether tokens are an expression that methods can be delegated to: in front of braces, it is
/// read up to them.
pub open spec fn is_delegator(tokens: Text) -> bool {
    delegator(tokens) matches Parse::Parsed { rest, .. } && rest == seq![braces(Seq::empty())]
}

/// The tokens of a segment.
pub open spec fn segment(tokens: Text, methods: Text) -> Text {
    seq![Tree::Ident("to"@, ())] + tokens + seq![braces(methods)]
}

/// What is in the braces behind an expression, and behind them, does not change how it is read.
proof fn lemma_delegator_ends(tokens: Text, methods: Text, more: Text, from: nat)
    requires
        from <= tokens.len(),
        in_front::<Delegator>(
            tokens.push(braces(Seq::empty())),
            from,
        ) matches Parse::Parsed { rest, .. } && rest == seq![braces(Seq::empty())],
    ensures
        ({
            let alone = in_front::<Delegator>(
                tokens.push(braces(Seq::empty())),
                from,
            );
            in_front::<Delegator>(
                tokens + seq![braces(methods)] + more,
                from,
            ) == (Parse::Parsed {
                value: alone->value,
                rest: seq![braces(methods)] + more,
                unexpected: alone->unexpected,
            })
        }),
    decreases tokens.len() - from,
{
    let mark = braces(Seq::empty());
    let alone = tokens.push(mark);
    let all = tokens + seq![braces(methods)] + more;
    let probe = tokens.take(from as int).push(end_mark(alone[from as int]));
    assert(alone.take(from as int) =~= tokens.take(from as int));
    assert(all.take(from as int) =~= tokens.take(from as int));
    assert(end_mark(braces(methods)) == mark);
    if from == tokens.len() {
        assert(tokens.take(from as int) =~= tokens);
        assert(alone.skip(from as int) =~= seq![mark]);
        assert(all.skip(from as int) =~= seq![braces(methods)] + more);
        assert(in_front::<Delegator>(alone, from + 1) == guarded::<Delegator>(alone));
        if let Parse::Parsed { rest, .. } = guarded::<Delegator>(probe) {
            if rest.len() > 0 {
                let left = rest.drop_last();
                assert((left + seq![mark]).len() == left.len() + 1);
                assert(left.len() == 0);
                assert(left + (seq![braces(methods)] + more) =~= seq![braces(methods)] + more);
            }
        }
    } else {
        assert(alone[from as int] == tokens[from as int]);
        assert(all[from as int] == tokens[from as int]);
        if is_stop(tokens[from as int]) {
            if let Parse::Parsed { rest, .. } = guarded::<Delegator>(probe) {
                if rest.len() > 0 {
                    assert((rest.drop_last() + alone.skip(from as int)).len() >= 2);
                } else {
                    lemma_delegator_ends(tokens, methods, more, from + 1);
                }
            } else {
                lemma_delegator_ends(tokens, methods, more, from + 1);
            }
        } else {
            lemma_delegator_ends(tokens, methods, more, from + 1);
        }
    }
}

/// A segment is read up to its braces: more tokens behind it are left, and neither they nor the
/// methods change how the expression behind `to` is read.
pub proof fn law_segment_ends(tokens: Text, methods: Text, more: Text)
    requires
        is_delegator(tokens),
    ensures
        segment_syntax(segment(tokens, methods) + more) == match methods_syntax(methods) {
            Parse::Parsed { value, unexpected, .. } => Parse::Parsed {
                value: SegmentText { delegator: delegator(tokens)->value, methods: value },
                rest: more,
                unexpected: delegator(tokens)->unexpected || unexpected,
            },
            Parse::Failed(message) => Parse::Failed(message),
            Parse::Stopped(reason) => Parse::Stopped(reason),
        },
{
    let all = segment(tokens, methods) + more;
    let rest = tokens + seq![braces(methods)] + more;
    reveal_strlit("to");
    reveal_strlit("target");
    assert("to"@.len() != "target"@.len());
    assert(all[0] == Tree::Ident("to"@, ()));
    assert(unwrapped(all) == all);
    assert(all.skip(1) =~= rest);
    lemma_delegator_ends(tokens, methods, more, 0);
    let left = seq![braces(methods)] + more;
    assert(left[0] == braces(methods));
    assert(unwrapped(left) == left);
    assert(left.skip(1) =~= more);
}

/// The methods of a segment with two lists of declarations are those of a segment with the first
/// and then those of one with the second; the expression is the same in all three.
pub proof fn law_segment_joins_methods(tokens: Text, first: Seq<Text>, second: Seq<Text>)
    requires
        is_delegator(tokens),
        forall|i: int| 0 <= i < first.len() ==> is_declaration(#[trigger] first[i]),
        forall|i: int| 0 <= i < second.len() ==> is_declaration(#[trigger] second[i]),
    ensures
        ({
            let all = segment_syntax(segment(tokens, joined(first) + joined(second)));
            let one = segment_syntax(segment(tokens, joined(first)));
            let other = segment_syntax(segment(tokens, joined(second)));
            &&& all is Parsed && one is Parsed && other is Parsed
            &&& all->value.delegator == one->value.delegator
            &&& all->value.delegator == other->value.delegator
            &&& all->value.methods == one->value.methods + other->value.methods
        }),
{
    let nothing = Seq::<Tree<()>>::empty();
    law_method_lists_are_joined(first, second);
    law_segment_ends(tokens, joined(first) + joined(second), nothing);
    law_segment_ends(tokens, joined(first), nothing);
    law_segment_ends(tokens, joined(second), nothing);
    let all = segment(tokens, joined(first) + joined(second));
    assert(all + nothing =~= all);
    assert(segment(tokens, joined(first)) + nothing =~= segment(tokens, joined(first)));
    assert(segment(tokens, joined(second)) + nothing =~= segment(tokens, joined(second)));
}

/// Whether an expression and the tokens in braces behind it make a segment.
pub open spec fn is_segment(parts: (Text, Text)) -> bool {
    is_delegator(parts.0) && methods_syntax(parts.1) is Parsed
}

/// How a segment is read alone.
pub open spec fn read_alone(parts: (Text, Text)) -> Parse<SegmentText> {
    segment_syntax(segment(parts.0, parts.1))
}

/// The tokens of segments, one behind the other.
pub open spec fn written(segments: Seq<(Text, Text)>) -> Text {
    joined(segments.map_values(|parts: (Text, Text)| segment(parts.0, parts.1)))
}

/// What segments are read as, each alone.
pub open spec fn read_each(segments: Seq<(Text, Text)>) -> Seq<SegmentText> {
    segments.map_values(|parts: (Text, Text)| read_alone(parts)->value)
}

/// Whether some segment has a group that holds more tokens than are read.
pub open spec fn some_unexpected(segments: Seq<(Text, Text)>) -> bool {
    exists|i: int| 0 <= i < segments.len() && read_alone(#[trigger] segments[i])->unexpected
}

/// A segment in front of other tokens.
proof fn lemma_segment_in_front(parts: (Text, Text), more: Text)
    requires
        is_segment(parts),
    ensures
        read_alone(parts) is Parsed,
        block_syntax(segment(parts.0, parts.1) + more) == after(
            read_alone(parts)->unexpected,
            prefixed(seq![read_alone(parts)->value], block_syntax(more)),
        ),
{
    let tokens = segment(parts.0, parts.1);
    let nothing = Seq::<Tree<()>>::empty();
    law_segment_ends(parts.0, parts.1, more);
    law_segment_ends(parts.0, parts.1, nothing);
    assert(tokens + nothing =~= tokens);
    lemma_flat_add(tokens, more);
    assert(flat(tokens).len() > 0) by {
        assert(tokens[0] == Tree::Ident("to"@, ()));
    }
    assert((tokens + more).len() > 0);
}

/// Some segment has a group that holds too much if the first has, or one of the others.
proof fn lemma_some_unexpected(segments: Seq<(Text, Text)>)
    requires
        segments.len() > 0,
    ensures
        some_unexpected(segments) == (read_alone(segments[0])->unexpected || some_unexpected(
            segments.skip(1),
        )),
{
    let others = segments.skip(1);
    if some_unexpected(segments) {
        let i = choose|i: int|
            0 <= i < segments.len() && read_alone(#[trigger] segments[i])->unexpected;
        if i > 0 {
            assert(others[i - 1] == segments[i]);
        }
    }
    if some_unexpected(others) {
        let i = choose|i: int|
            0 <= i < others.len() && read_alone(#[trigger] others[i])->unexpected;
        assert(segments[i + 1] == others[i]);
    }
}

/// What is read first goes in front of what is read later, and what is left in a group on the way
/// counts whenever it was.
pub proof fn lemma_after_prefixed<V>(
    left: bool,
    first: Seq<V>,
    more: bool,
    second: Seq<V>,
    parse: Parse<Seq<V>>,
)
    ensures
        after(left, prefixed(first, after(more, prefixed(second, parse)))) == after(
            left || more,
            prefixed(first + second, parse),
        ),
{
    lemma_prefixed(first, second, parse);
}

/// Segments in front of other tokens are read as each is alone: every one, once, in order, and the
/// other tokens as if they were all there is.
///
/// A segment is an expression and the tokens of its methods.
#[verifier::spinoff_prover]
#[verifier::rlimit(50)]
pub proof fn law_segments_are_read_in_front(segments: Seq<(Text, Text)>, more: Text)
    requires
        forall|i: int| 0 <= i < segments.len() ==> is_segment(#[trigger] segments[i]),
    ensures
        block_syntax(written(segments) + more) == after(
            some_unexpected(segments),
            prefixed(read_each(segments), block_syntax(more)),
        ),
    decreases segments.len(),
{
    if segments.len() == 0 {
        assert(read_each(segments) =~= Seq::empty());
        assert(written(segments) + more =~= more);
        lemma_prefixed_empty(block_syntax(more));
    } else {
        let others = segments.skip(1);
        let first = segment(segments[0].0, segments[0].1);
        let value = read_alone(segments[0])->value;
        assert forall|i: int| 0 <= i < others.len() implies is_segment(#[trigger] others[i]) by {
            assert(others[i] == segments[i + 1]);
        }
        law_segments_are_read_in_front(others, more);
        assert(written(segments) + more == first + (written(others) + more)) by {
            let write = |parts: (Text, Text)| segment(parts.0, parts.1);
            assert(segments.map_values(write).skip(1) =~= others.map_values(write));
            assert(first + written(others) + more =~= first + (written(others) + more));
        }
        assert(is_segment(segments[0]));
        lemma_segment_in_front(segments[0], written(others) + more);
        lemma_some_unexpected(segments);
        lemma_after_prefixed(
            read_alone(segments[0])->unexpected,
            seq![value],
            some_unexpected(others),
            read_each(others),
            block_syntax(more),
        );
        assert(read_each(segments) =~= seq![value] + read_each(others));
    }
}

/// Segments one behind the other are read as each is alone: every one, once, in order.
pub proof fn law_segments_are_read_in_order(segments: Seq<(Text, Text)>)
    requires
        forall|i: int| 0 <= i < segments.len() ==> is_segment(#[trigger] segments[i]),
    ensures
        block_syntax(written(segments)) == (Parse::Parsed {
            value: read_each(segments),
            rest: Seq::empty(),
            unexpected: some_unexpected(segments),
        }),
{
    let nothing = Seq::<Tree<()>>::empty();
    law_segments_are_read_in_front(segments, nothing);
    assert(written(segments) + nothing =~= written(segments));
    assert(read_each(segments) + Seq::empty() =~= read_each(segments));
}

/// Inputs can be joined: segments that become code become the same code in front of any other
/// input, and that comes to what it comes to alone, behind this code.
pub proof fn law_inputs_can_be_joined(segments: Seq<(Text, Text)>, more: Text)
    requires
        forall|i: int| 0 <= i < segments.len() ==> is_segment(#[trigger] segments[i]),
        expansion(written(segments)) is Parsed,
    ensures
        expansion(written(segments) + more) == match expansion(more) {
            Parse::Parsed { value, rest, unexpected } => Parse::Parsed {
                value: expansion(written(segments))->value + value,
                rest,
                unexpected,
            },
            other => other,
        },
{
    law_segments_are_read_in_order(segments);
    law_segments_are_read_in_front(segments, more);
    if let Parse::Parsed { value, .. } = block_syntax(more) {
        law_segments_in_order(read_each(segments), value);
    }
}

} // verus!
