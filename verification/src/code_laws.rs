//! What the generated code is, token for token.

use crate::attributes::{
    call_syntax, call_token, directives, has_inline, kept_texts, lemma_names_differ, named, others,
    referred, target_token, Directives,
};
use crate::block::{DelegatedSegment, DelegationBlock, SegmentText};
use crate::expand::{
    attribute_trees, block_expansion, expands_to, function, is_code_of, method_code,
    method_expansion, methods_code, methods_expansion, printed_texts, segments_code, separated,
    FunctionParts,
};
use crate::grammar::{whole, Parse, Reason};
use crate::input::{
    argument_of, entry_texts, inputs_syntax, parameter_trees, parameters, passed_trees,
    DelegatedInput, InputText,
};
use crate::laws::{law_directives, law_inline_is_kept};
use crate::method::{DelegatedMethod, MethodText, SignatureParts};
use crate::panic::Panic;
use crate::stream::{texts, trees};
use crate::syntax::{attribute_texts, Attribute, AttributeText, Parameter, ParameterText};
use crate::token::{
    erase_all, flat, inside, lemma_unwrapped, lemma_unwrapped_skip, unwrapped, within, Delimiter,
    Text, Tree,
};
use crate::trouble::is_keyword;
use proc_macro2::{Span, TokenStream};
use vstd::prelude::*;

verus! {

/// Lists with commas between them: a comma in front of every list but the first, and nothing else.
pub proof fn law_lists_are_separated<S>(lists: Seq<Seq<Tree<S>>>, call_site: S)
    ensures
        separated(lists, call_site) == lists.map(
            |i: int, list: Seq<Tree<S>>|
                if i == 0 {
                    list
                } else {
                    seq![Tree::Punct(',', false, call_site)] + list
                },
        ).flatten(),
    decreases lists.len(),
{
    let marked = |i: int, list: Seq<Tree<S>>|
        if i == 0 {
            list
        } else {
            seq![Tree::Punct(',', false, call_site)] + list
        };
    let all = lists.map(marked);
    if lists.len() == 0 {
        assert(all =~= Seq::empty());
    } else {
        let before = lists.drop_last();
        law_lists_are_separated(before, call_site);
        assert(all =~= before.map(marked).push(all.last()));
        before.map(marked).lemma_flatten_push(all.last());
        if lists.len() == 1 {
            assert(before.map(marked) =~= Seq::empty());
            assert(separated(lists, call_site) =~= all.flatten());
        } else {
            assert(separated(lists, call_site) =~= all.flatten());
        }
    }
}

/// Attributes are printed one behind the other, every one of them.
pub proof fn law_attributes_are_printed(attributes: Seq<AttributeText>)
    ensures
        printed_texts(attributes) == attributes.map_values(
            |attribute: AttributeText| attribute.printed,
        ).flatten(),
    decreases attributes.len(),
{
    let print = |attribute: AttributeText| attribute.printed;
    let all = attributes.map_values(print);
    if attributes.len() == 0 {
        assert(all =~= Seq::empty());
    } else {
        let before = attributes.drop_last();
        law_attributes_are_printed(before);
        assert(all =~= before.map_values(print).push(attributes.last().printed));
        before.map_values(print).lemma_flatten_push(attributes.last().printed);
    }
}

/// Attributes are printed one behind the other, every one of them, with their spans.
pub proof fn law_attributes_are_printed_with_spans(attributes: Seq<Attribute>)
    ensures
        attribute_trees(attributes) == attributes.map_values(
            |attribute: Attribute| trees(attribute.printed),
        ).flatten(),
    decreases attributes.len(),
{
    let print = |attribute: Attribute| trees(attribute.printed);
    let all = attributes.map_values(print);
    if attributes.len() == 0 {
        assert(all =~= Seq::empty());
    } else {
        let before = attributes.drop_last();
        law_attributes_are_printed_with_spans(before);
        assert(all =~= before.map_values(print).push(trees(attributes.last().printed)));
        before.map_values(print).lemma_flatten_push(trees(attributes.last().printed));
    }
}

/// What is printed of two lists of attributes is what is printed of the first and then what is
/// printed of the second, and of a single attribute all its tokens are printed.
pub proof fn law_attribute_lists_are_joined(
    first: Seq<AttributeText>,
    second: Seq<AttributeText>,
    one: AttributeText,
)
    ensures
        printed_texts(first + second) == printed_texts(first) + printed_texts(second),
        printed_texts(seq![one]) == one.printed,
        printed_texts(Seq::empty()) == Seq::<Tree<()>>::empty(),
{
    let print = |attribute: AttributeText| attribute.printed;
    law_attributes_are_printed(first);
    law_attributes_are_printed(second);
    law_attributes_are_printed(first + second);
    law_attributes_are_printed(seq![one]);
    assert((first + second).map_values(print) =~= first.map_values(print) + second.map_values(
        print,
    ));
    vstd::seq_lib::lemma_flatten_concat(first.map_values(print), second.map_values(print));
    assert(seq![one].map_values(print) =~= seq![one.printed]);
    seq![one.printed].lemma_flatten_one_element();
}

/// The tokens in front of the body of a method: its attributes, `#[inline(always)]` unless it has
/// an `inline` of its own, its visibility, and all the parts of its signature, each as it is and in
/// this order.
pub open spec fn has_front<S>(code: Seq<Tree<S>>, parts: FunctionParts<S>, call_site: S) -> bool {
    let signature = parts.signature;
    code.drop_last() == parts.attributes + (if parts.inline {
        Seq::empty()
    } else {
        seq![
            Tree::Punct('#', false, call_site),
            Tree::Group(
                Delimiter::Bracket,
                seq![
                    Tree::Ident("inline"@, call_site),
                    Tree::Group(
                        Delimiter::Parenthesis,
                        seq![Tree::Ident("always"@, call_site)],
                        call_site,
                    ),
                ],
                call_site,
            ),
        ]
    }) + parts.visibility + signature.constness + signature.asyncness + signature.unsafety
        + signature.abi + signature.fn_token + signature.ident + signature.generics + seq![
        Tree::Group(Delimiter::Parenthesis, signature.inputs, signature.paren),
    ] + signature.output + signature.where_clause
}

/// Whether tokens are a call: the expression that is delegated to, a dot, the name of the method
/// that is called, and in parentheses the arguments with commas between them. Behind them is
/// `.await` in an `async` method, and nothing otherwise.
pub open spec fn is_call<S>(tokens: Seq<Tree<S>>, parts: FunctionParts<S>, call_site: S) -> bool {
    let arguments = parts.arguments.map(
        |i: int, list: Seq<Tree<S>>|
            if i == 0 {
                list
            } else {
                seq![Tree::Punct(',', false, call_site)] + list
            },
    ).flatten();
    let call = parts.delegator + seq![Tree::Punct('.', false, call_site)] + parts.target + seq![
        Tree::Group(Delimiter::Parenthesis, arguments, call_site),
    ];
    if parts.signature.asyncness.len() == 0 {
        tokens == call
    } else {
        tokens == call + seq![
            Tree::Punct('.', false, call_site),
            Tree::Ident("await"@, call_site),
        ]
    }
}

/// Whether tokens are `std::convert::Into::<T>::into` and an expression in parentheses.
pub open spec fn is_conversion<S>(
    tokens: Seq<Tree<S>>,
    expr: Seq<Tree<S>>,
    ty: Seq<Tree<S>>,
    call_site: S,
) -> bool {
    tokens == seq![
        Tree::Ident("std"@, call_site),
        Tree::Punct(':', true, call_site),
        Tree::Punct(':', false, call_site),
        Tree::Ident("convert"@, call_site),
        Tree::Punct(':', true, call_site),
        Tree::Punct(':', false, call_site),
        Tree::Ident("Into"@, call_site),
        Tree::Punct(':', true, call_site),
        Tree::Punct(':', false, call_site),
        Tree::Punct('<', false, call_site),
    ] + ty + seq![
        Tree::Punct('>', false, call_site),
        Tree::Punct(':', true, call_site),
        Tree::Punct(':', false, call_site),
        Tree::Ident("into"@, call_site),
        Tree::Group(Delimiter::Parenthesis, expr, call_site),
    ]
}

/// Whether tokens are the body of a method: the call with a semicolon if the method returns
/// nothing, the call converted if that is asked for, whatever the type is, and the call alone
/// otherwise.
pub open spec fn is_body<S>(tokens: Seq<Tree<S>>, parts: FunctionParts<S>, call_site: S) -> bool {
    exists|expr: Seq<Tree<S>>| #[trigger]
        is_call(expr, parts, call_site) && match parts.signature.ty {
            None => tokens == expr + seq![Tree::Punct(';', false, call_site)],
            Some(ty) => if parts.into {
                is_conversion(tokens, expr, ty, call_site)
            } else {
                tokens == expr
            },
        }
}

/// The code of a method, written out: what is in front of its body, and its body in braces.
pub proof fn law_function_is_written_out<S>(parts: FunctionParts<S>, call_site: S)
    ensures
        has_front(function(parts, call_site), parts, call_site),
        function(parts, call_site).last() matches Tree::Group(Delimiter::Brace, body, span) && span
            == parts.span && is_body(body, parts, call_site),
{
    let code = function(parts, call_site);
    let expr = crate::expand::awaited(
        crate::expand::call(parts, call_site),
        parts.signature.asyncness.len() > 0,
        call_site,
    );
    law_lists_are_separated(parts.arguments, call_site);
    assert(is_call(expr, parts, call_site));
    let body = crate::expand::body(parts, call_site);
    if parts.signature.ty is Some && parts.into {
        let ty = parts.signature.ty->0;
        assert(body =~= crate::expand::converted(expr, ty, call_site));
        assert(is_conversion(body, expr, ty, call_site)) by {
            assert(body =~= seq![
                Tree::Ident("std"@, call_site),
                Tree::Punct(':', true, call_site),
                Tree::Punct(':', false, call_site),
                Tree::Ident("convert"@, call_site),
                Tree::Punct(':', true, call_site),
                Tree::Punct(':', false, call_site),
                Tree::Ident("Into"@, call_site),
                Tree::Punct(':', true, call_site),
                Tree::Punct(':', false, call_site),
                Tree::Punct('<', false, call_site),
            ] + ty + seq![
                Tree::Punct('>', false, call_site),
                Tree::Punct(':', true, call_site),
                Tree::Punct(':', false, call_site),
                Tree::Ident("into"@, call_site),
                Tree::Group(Delimiter::Parenthesis, expr, call_site),
            ]);
        }
    }
    assert(is_body(body, parts, call_site));
    assert(code.last() == Tree::Group(Delimiter::Brace, body, parts.span));
    let signature = parts.signature;
    let front = parts.attributes + (if parts.inline {
        Seq::empty()
    } else {
        crate::expand::inline_always(call_site)
    }) + parts.visibility;
    assert(code.drop_last() =~= front + crate::method::signature_tokens(signature));
    assert(code.drop_last() =~= front + signature.constness + signature.asyncness
        + signature.unsafety + signature.abi + signature.fn_token + signature.ident
        + signature.generics + seq![
        Tree::Group(Delimiter::Parenthesis, signature.inputs, signature.paren),
    ] + signature.output + signature.where_clause);
}

/// Whether what an attribute holds is a name in parentheses and nothing else, where invisible
/// groups do not count.
pub open spec fn holds_name<S>(tokens: Seq<Tree<S>>, name: Seq<char>) -> bool {
    &&& flat(tokens).len() == 1
    &&& flat(tokens)[0] matches Tree::Group(Delimiter::Parenthesis, inner, _) && flat(inner).len()
        == 1 && (flat(inner)[0] matches Tree::Ident(text, _) && text == name)
}

/// A `call` attribute is read exactly if it holds a name in parentheses that is no keyword, and
/// nothing else, and that name is what is read.
pub proof fn law_call_holds_a_name(tokens: Text)
    ensures
        forall|name: Seq<char>|
            (#[trigger] holds_name(tokens, name) && !is_keyword(name)) <==> (whole(
                call_syntax(tokens),
            ) matches Parse::Parsed { value, .. } && value == name),
{
    lemma_unwrapped(tokens);
    if unwrapped(tokens).len() > 0 {
        lemma_unwrapped_skip(tokens);
        let rest = unwrapped(tokens).skip(1);
        lemma_unwrapped(rest);
        let inner = inside(unwrapped(tokens)[0]);
        lemma_unwrapped(inner);
        assert(flat(tokens)[0] == unwrapped(tokens)[0]);
        if unwrapped(inner).len() > 0 {
            lemma_unwrapped_skip(inner);
            lemma_unwrapped(unwrapped(inner).skip(1));
            assert(flat(inner)[0] == unwrapped(inner)[0]);
        }
    }
}

/// What a `call` attribute that is not read is refused for: the parentheses are missing, or the
/// name in them, or there is something else beside the name.
pub proof fn law_call_is_refused(tokens: Text)
    ensures
        whole(call_syntax(tokens)) matches Parse::Failed(message) ==> (if flat(tokens).len() == 0
            || !(flat(tokens)[0] matches Tree::Group(Delimiter::Parenthesis, _, _)) {
                message == if tokens.len() == 0 {
                    "unexpected end of input, expected parentheses"@
                } else {
                    "expected parentheses"@
                }
            } else {
                let inner = inside(flat(tokens)[0]);
                if flat(inner).len() > 0 && (flat(inner)[0] matches Tree::Ident(text, _)
                    && !is_keyword(text)) {
                    message == "unexpected token"@
                } else {
                    message == if inner.len() == 0 {
                        "unexpected end of input, expected identifier"@
                    } else {
                        "expected identifier"@
                    }
                }
            }),
        !(whole(call_syntax(tokens)) is Stopped),
{
    lemma_unwrapped(tokens);
    reveal_strlit("unexpected end of input, ");
    reveal_strlit("expected parentheses");
    reveal_strlit("expected identifier");
    reveal_strlit("unexpected end of input, expected parentheses");
    reveal_strlit("unexpected end of input, expected identifier");
    assert("unexpected end of input, "@ + "expected parentheses"@
        =~= "unexpected end of input, expected parentheses"@);
    assert("unexpected end of input, "@ + "expected identifier"@
        =~= "unexpected end of input, expected identifier"@);
    if unwrapped(tokens).len() > 0 {
        lemma_unwrapped_skip(tokens);
        lemma_unwrapped(unwrapped(tokens).skip(1));
        let inner = inside(unwrapped(tokens)[0]);
        lemma_unwrapped(inner);
        assert(flat(tokens)[0] == unwrapped(tokens)[0]);
        if unwrapped(inner).len() > 0 {
            lemma_unwrapped_skip(inner);
            assert(flat(inner)[0] == unwrapped(inner)[0]);
        }
    }
}

/// Whether one of the attributes has that name.
pub open spec fn has_named(attributes: Seq<AttributeText>, name: Seq<char>) -> bool {
    exists|i: int| 0 <= i < attributes.len() && #[trigger] attributes[i].name == Some(name)
}

/// Whether a name is that of the method to call: the one that a `call` attribute holds, or else the
/// name of the method itself.
pub open spec fn is_target(method: MethodText, target: Seq<char>) -> bool {
    if has_named(method.attributes, "call"@) {
        exists|i: int|
            0 <= i < method.attributes.len() && #[trigger] method.attributes[i].name == Some(
                "call"@,
            ) && holds_name(method.attributes[i].tokens, target)
    } else {
        target == method.ident
    }
}

/// What attributes ask for, attribute by attribute: all but `call`, `into` and `target_method` are
/// kept, the name that `call` holds is the target, and `into` converts.
pub proof fn law_attributes_ask(attributes: Seq<AttributeText>, method: Seq<char>)
    ensures
        directives(attributes, method) matches Ok(asked) ==> {
            &&& asked.kept == attributes.filter(
                |attribute: AttributeText|
                    attribute.name != Some("call"@) && attribute.name != Some("into"@)
                        && attribute.name != Some("target_method"@),
            )
            &&& asked.into <==> has_named(attributes, "into"@)
            &&& asked.target is None <==> !has_named(attributes, "call"@)
            &&& forall|i: int, name: Seq<char>|
                0 <= i < attributes.len() && attributes[i].name == Some("call"@)
                    && #[trigger] holds_name(attributes[i].tokens, name) ==> asked.target == Some(
                    name,
                )
            &&& asked.target matches Some(name) ==> !is_keyword(name) && exists|i: int|
                0 <= i < attributes.len() && #[trigger] attributes[i].name == Some("call"@)
                    && holds_name(attributes[i].tokens, name)
            &&& !has_named(attributes, "target_method"@)
        },
    decreases attributes.len(),
{
    reveal(Seq::filter);
    lemma_names_differ();
    if attributes.len() > 0 {
        let before = attributes.drop_last();
        let last = attributes.last();
        law_attributes_ask(before, method);
        law_call_holds_a_name(last.tokens);
        if directives(attributes, method) is Ok {
            let asked = directives(attributes, method)->Ok_0;
            let first = directives(before, method)->Ok_0;
            lemma_has_named_push(before, last, "call"@);
            lemma_has_named_push(before, last, "into"@);
            lemma_has_named_push(before, last, "target_method"@);
            assert(before.push(last) =~= attributes);
            assert forall|i: int, name: Seq<char>|
                0 <= i < attributes.len() && attributes[i].name == Some("call"@)
                    && #[trigger] holds_name(attributes[i].tokens, name) implies asked.target
                == Some(name) by {
                if i < before.len() {
                    assert(before[i] == attributes[i]);
                    assert(holds_name(before[i].tokens, name));
                    assert(has_named(before, "call"@));
                } else {
                    let read = whole(call_syntax(last.tokens))->value;
                    assert(holds_name(last.tokens, read));
                }
            }
            if asked.target is Some {
                let name = asked.target->0;
                if last.name == Some("call"@) {
                    assert(holds_name(last.tokens, name));
                    assert(attributes[attributes.len() - 1].name == Some("call"@));
                } else {
                    let i = choose|i: int|
                        0 <= i < before.len() && #[trigger] before[i].name == Some("call"@)
                            && holds_name(before[i].tokens, name);
                    assert(attributes[i].name == Some("call"@));
                }
            }
        }
    }
}

/// One more attribute adds a name if it has it.
proof fn lemma_has_named_push(
    attributes: Seq<AttributeText>,
    attribute: AttributeText,
    name: Seq<char>,
)
    ensures
        has_named(attributes.push(attribute), name) <==> {
            ||| has_named(attributes, name)
            ||| attribute.name == Some(name)
        },
{
    let more = attributes.push(attribute);
    if has_named(attributes, name) {
        let i = choose|i: int|
            0 <= i < attributes.len() && #[trigger] attributes[i].name == Some(name);
        assert(more[i].name == Some(name));
    }
    if attribute.name == Some(name) {
        assert(more[attributes.len() as int].name == Some(name));
    }
    if has_named(more, name) {
        let i = choose|i: int| 0 <= i < more.len() && #[trigger] more[i].name == Some(name);
        if i < attributes.len() {
            assert(attributes[i].name == Some(name));
        }
    }
}

/// The first attribute that cannot be followed decides why the method is refused: a `call` that
/// does not hold a name, a second `call`, a second `into`, or a `target_method`.
pub proof fn law_first_refused_attribute(
    attributes: Seq<AttributeText>,
    at: int,
    method: Seq<char>,
)
    requires
        0 <= at < attributes.len(),
        directives(attributes.take(at), method) is Ok,
    ensures
        ({
            let before = attributes.take(at);
            let attribute = attributes[at];
            &&& attribute.name == Some("target_method"@) ==> directives(attributes, method) == Err::<
                Directives,
                Reason,
            >(Reason::TargetMethod)
            &&& attribute.name == Some("into"@) && has_named(before, "into"@) ==> directives(
                attributes,
                method,
            ) == Err::<Directives, Reason>(Reason::MultipleIntos(method))
            &&& attribute.name == Some("call"@) ==> match whole(call_syntax(attribute.tokens)) {
                Parse::Failed(message) => directives(attributes, method) == Err::<
                    Directives,
                    Reason,
                >(Reason::Syntax(message)),
                _ => has_named(before, "call"@) ==> directives(attributes, method) == Err::<
                    Directives,
                    Reason,
                >(Reason::MultipleCalls(method)),
            }
            &&& attribute.name != Some("target_method"@) && !(attribute.name == Some("into"@)
                && has_named(before, "into"@)) && !(attribute.name == Some("call"@) && (has_named(
                before,
                "call"@,
            ) || !(whole(call_syntax(attribute.tokens)) is Parsed))) ==> directives(
                attributes.take(at + 1),
                method,
            ) is Ok
        }),
{
    lemma_names_differ();
    law_attributes_ask(attributes.take(at), method);
    law_call_is_refused(attributes[at].tokens);
    assert(attributes.take(at + 1).drop_last() =~= attributes.take(at));
    assert(attributes.take(at + 1).last() == attributes[at]);
    crate::attributes::lemma_stays_refused(attributes, at + 1, method);
}

/// Attributes are refused for one of four reasons: `call` or `into` twice, `target_method`, or a
/// syntax error.
pub proof fn law_why_attributes_are_refused(attributes: Seq<AttributeText>, method: Seq<char>)
    ensures
        directives(attributes, method) matches Err(reason) ==> {
            ||| reason == Reason::MultipleCalls(method)
            ||| reason == Reason::MultipleIntos(method)
            ||| reason == Reason::TargetMethod
            ||| reason is Syntax
        },
    decreases attributes.len(),
{
    if attributes.len() > 0 {
        law_why_attributes_are_refused(attributes.drop_last(), method);
        law_call_is_refused(attributes.last().tokens);
    }
}

/// No attributes ask for nothing.
pub proof fn law_no_attributes_ask_for_nothing(method: Seq<char>)
    ensures
        directives(Seq::empty(), method) == Ok::<Directives, Reason>(
            Directives { kept: Seq::empty(), target: None, into: false },
        ),
{
}

/// What the code of a method is made of, where `target` is the method that it calls.
pub open spec fn parts_of(delegator: Text, method: MethodText, target: Seq<char>) -> FunctionParts<
    (),
> {
    FunctionParts {
        attributes: method.attributes.filter(
            |attribute: AttributeText|
                attribute.name != Some("call"@) && attribute.name != Some("into"@) && attribute.name
                    != Some("target_method"@),
        ).map_values(|attribute: AttributeText| attribute.printed).flatten(),
        inline: has_named(method.attributes, "inline"@),
        visibility: method.visibility,
        signature: method.signature,
        delegator,
        target: seq![Tree::Ident(target, ())],
        arguments: method.arguments,
        into: has_named(method.attributes, "into"@),
        span: (),
    }
}

/// The code that a method becomes, written out. It starts with all the attributes but the special
/// ones, each printed in full; `#[inline(always)]` follows unless one of them is `inline`; and all
/// of the visibility and the signature comes as it was read. The body calls on the delegator the
/// method that `call` names, or else the one with the same name, with all the arguments in order.
///
/// The call is awaited exactly if the method is `async`. Its result is dropped if the method
/// returns nothing, converted to the returned type if there is an `into`, and returned otherwise.
pub proof fn law_code_is_written_out(delegator: Text, method: MethodText, target: Seq<char>)
    requires
        is_target(method, target),
    ensures
        method_expansion(delegator, method) matches Ok(code) ==> {
            &&& code.len() > 0
            &&& has_front(code, parts_of(delegator, method, target), ())
            &&& code.last() matches Tree::Group(Delimiter::Brace, body, _) && is_body(
                body,
                parts_of(delegator, method, target),
                (),
            )
        },
{
    if method_expansion(delegator, method) is Ok {
        let asked = directives(method.attributes, method.ident)->Ok_0;
        let parts = crate::expand::text_parts(delegator, method, asked);
        law_attributes_ask(method.attributes, method.ident);
        law_inline_is_kept(method.attributes, method.ident);
        law_attributes_are_printed(asked.kept);
        law_function_is_written_out(parts, ());
        if has_named(method.attributes, "call"@) {
            let i = choose|i: int|
                0 <= i < method.attributes.len() && #[trigger] method.attributes[i].name == Some(
                    "call"@,
                ) && holds_name(method.attributes[i].tokens, target);
            assert(asked.target == Some(target));
        }
        assert(has_inline(method.attributes) == has_named(method.attributes, "inline"@));
        assert(parts == parts_of(delegator, method, target));
        assert(function(parts, ()).len() > 0);
    }
}

/// Whether an attribute can be followed behind those in front of it: it is no `target_method`, a
/// `call` holds a name that is no keyword, and neither a `call` nor an `into` is the second one.
pub open spec fn can_be_followed(attributes: Seq<AttributeText>, at: int) -> bool {
    let before = attributes.take(at);
    let attribute = attributes[at];
    &&& attribute.name != Some("target_method"@)
    &&& attribute.name == Some("into"@) ==> !has_named(before, "into"@)
    &&& attribute.name == Some("call"@) ==> !has_named(before, "call"@) && exists|name: Seq<char>|
        #[trigger] holds_name(attribute.tokens, name) && !is_keyword(name)
}

/// A method becomes code exactly if each of its attributes can be followed.
pub proof fn law_when_there_is_code(delegator: Text, method: MethodText)
    ensures
        method_expansion(delegator, method) is Ok <==> forall|i: int|
            0 <= i < method.attributes.len() ==> #[trigger] can_be_followed(method.attributes, i),
{
    lemma_when_followed(method.attributes, method.ident);
}

/// Attributes ask for something exactly if each of them can be followed.
proof fn lemma_when_followed(attributes: Seq<AttributeText>, method: Seq<char>)
    ensures
        directives(attributes, method) is Ok <==> forall|i: int|
            0 <= i < attributes.len() ==> #[trigger] can_be_followed(attributes, i),
    decreases attributes.len(),
{
    if attributes.len() > 0 {
        let before = attributes.drop_last();
        let n = attributes.len() - 1;
        lemma_when_followed(before, method);
        assert(attributes.take(n) =~= before);
        assert(attributes.take(n + 1) =~= attributes);
        assert forall|i: int| 0 <= i < n implies #[trigger] can_be_followed(before, i)
            == can_be_followed(attributes, i) by {
            assert(before.take(i) =~= attributes.take(i));
            assert(before[i] == attributes[i]);
        }
        if directives(before, method) is Ok {
            lemma_last_followed(attributes, method);
            assert forall|i: int| 0 <= i < n implies #[trigger] can_be_followed(attributes, i) by {
                assert(can_be_followed(before, i));
            }
            if directives(attributes, method) is Err {
                assert(!can_be_followed(attributes, n));
            }
        } else {
            let i = choose|i: int| 0 <= i < n && !#[trigger] can_be_followed(before, i);
            assert(!can_be_followed(attributes, i));
        }
    }
}

/// The last attribute, behind others that can be followed.
proof fn lemma_last_followed(attributes: Seq<AttributeText>, method: Seq<char>)
    requires
        attributes.len() > 0,
        directives(attributes.drop_last(), method) is Ok,
    ensures
        directives(attributes, method) is Ok <==> can_be_followed(
            attributes,
            attributes.len() - 1,
        ),
{
    let last = attributes.last();
    let n = attributes.len() - 1;
    assert(attributes.take(n) =~= attributes.drop_last());
    assert(attributes.take(n + 1) =~= attributes);
    law_first_refused_attribute(attributes, n, method);
    law_call_holds_a_name(last.tokens);
    law_call_is_refused(last.tokens);
    if whole(call_syntax(last.tokens)) is Parsed {
        assert(holds_name(last.tokens, whole(call_syntax(last.tokens))->value));
    }
}

/// The code of methods is the code of each of them, one behind the other; and if there is none, it
/// is for the reason of the first that has none.
pub proof fn law_code_of_each_method(delegator: Text, methods: Seq<MethodText>)
    ensures
        match methods_expansion(delegator, methods) {
            Ok(code) => {
                &&& forall|i: int|
                    0 <= i < methods.len() ==> method_expansion(
                        delegator,
                        #[trigger] methods[i],
                    ) is Ok
                &&& code == methods.map_values(
                    |method: MethodText| method_expansion(delegator, method)->Ok_0,
                ).flatten()
            },
            Err(reason) => exists|i: int|
                0 <= i < methods.len() && method_expansion(delegator, #[trigger] methods[i]) == Err::<
                    Text,
                    Reason,
                >(reason) && forall|j: int|
                    0 <= j < i ==> method_expansion(delegator, #[trigger] methods[j]) is Ok,
        },
    decreases methods.len(),
{
    let expand = |method: MethodText| method_expansion(delegator, method)->Ok_0;
    let all = methods.map_values(expand);
    if methods.len() == 0 {
        assert(all =~= Seq::empty());
    } else {
        let before = methods.drop_last();
        let last = methods.last();
        law_code_of_each_method(delegator, before);
        assert(all =~= before.map_values(expand).push(expand(last)));
        before.map_values(expand).lemma_flatten_push(expand(last));
        assert(methods[methods.len() - 1] == last);
        assert(forall|i: int| 0 <= i < before.len() ==> #[trigger] methods[i] == before[i]);
        if methods_expansion(delegator, before) is Err {
            let reason = methods_expansion(delegator, before)->Err_0;
            let i = choose|i: int|
                0 <= i < before.len() && method_expansion(delegator, #[trigger] before[i]) == Err::<
                    Text,
                    Reason,
                >(reason) && forall|j: int|
                    0 <= j < i ==> method_expansion(delegator, #[trigger] before[j]) is Ok;
            assert(methods[i] == before[i]);
            assert forall|j: int| 0 <= j < i implies method_expansion(
                delegator,
                #[trigger] methods[j],
            ) is Ok by {
                assert(before[j] == methods[j]);
            }
        } else {
            assert forall|j: int| 0 <= j < before.len() implies method_expansion(
                delegator,
                #[trigger] methods[j],
            ) is Ok by {
                assert(before[j] == methods[j]);
            }
        }
    }
}

/// The code of segments is the code of each of them, one behind the other, each with its own
/// delegator; and if there is none, it is for the reason of the first that has none.
pub proof fn law_code_of_each_segment(segments: Seq<SegmentText>)
    ensures
        match block_expansion(segments) {
            Ok(code) => {
                &&& forall|i: int|
                    0 <= i < segments.len() ==> methods_expansion(
                        (#[trigger] segments[i]).delegator,
                        segments[i].methods,
                    ) is Ok
                &&& code == segments.map_values(
                    |segment: SegmentText|
                        methods_expansion(segment.delegator, segment.methods)->Ok_0,
                ).flatten()
            },
            Err(reason) => exists|i: int|
                0 <= i < segments.len() && methods_expansion(
                    (#[trigger] segments[i]).delegator,
                    segments[i].methods,
                ) == Err::<Text, Reason>(reason) && forall|j: int|
                    0 <= j < i ==> methods_expansion(
                        (#[trigger] segments[j]).delegator,
                        segments[j].methods,
                    ) is Ok,
        },
    decreases segments.len(),
{
    let expand = |segment: SegmentText|
        methods_expansion(segment.delegator, segment.methods)->Ok_0;
    let all = segments.map_values(expand);
    if segments.len() == 0 {
        assert(all =~= Seq::empty());
    } else {
        let before = segments.drop_last();
        let last = segments.last();
        law_code_of_each_segment(before);
        assert(all =~= before.map_values(expand).push(expand(last)));
        before.map_values(expand).lemma_flatten_push(expand(last));
        assert(segments[segments.len() - 1] == last);
        if block_expansion(before) is Err {
            let reason = block_expansion(before)->Err_0;
            let i = choose|i: int|
                0 <= i < before.len() && methods_expansion(
                    (#[trigger] before[i]).delegator,
                    before[i].methods,
                ) == Err::<Text, Reason>(reason) && forall|j: int|
                    0 <= j < i ==> methods_expansion(
                        (#[trigger] before[j]).delegator,
                        before[j].methods,
                    ) is Ok;
            assert(segments[i] == before[i]);
            assert forall|j: int| 0 <= j < i implies methods_expansion(
                (#[trigger] segments[j]).delegator,
                segments[j].methods,
            ) is Ok by {
                assert(before[j] == segments[j]);
            }
        } else {
            assert forall|j: int| 0 <= j < before.len() implies methods_expansion(
                (#[trigger] segments[j]).delegator,
                segments[j].methods,
            ) is Ok by {
                assert(before[j] == segments[j]);
            }
        }
    }
}

/// The code of methods with its spans is the code of each, one behind the other.
pub proof fn law_spans_of_each_method(
    methods: Seq<DelegatedMethod>,
    delegator: TokenStream,
    call_site: Span,
)
    ensures
        methods_code(methods, delegator, call_site) == methods.map_values(
            |method: DelegatedMethod| method_code(method, delegator, call_site),
        ).flatten(),
    decreases methods.len(),
{
    let expand = |method: DelegatedMethod| method_code(method, delegator, call_site);
    let all = methods.map_values(expand);
    if methods.len() == 0 {
        assert(all =~= Seq::empty());
    } else {
        let before = methods.drop_last();
        law_spans_of_each_method(before, delegator, call_site);
        assert(all =~= before.map_values(expand).push(expand(methods.last())));
        before.map_values(expand).lemma_flatten_push(expand(methods.last()));
    }
}

/// The code of the methods of a segment with its spans, one behind the other.
pub open spec fn spanned_code_of(segment: DelegatedSegment, call_site: Span) -> Seq<Tree<Span>> {
    segment.methods@.map_values(
        |method: DelegatedMethod| method_code(method, segment.delegator, call_site),
    ).flatten()
}

/// The code of segments with its spans is the code of the methods of each, one behind the other.
#[verifier::spinoff_prover]
#[verifier::rlimit(50)]
pub proof fn law_spans_of_each_segment(segments: Seq<DelegatedSegment>, call_site: Span)
    ensures
        segments_code(segments, call_site) == segments.map_values(
            |segment: DelegatedSegment| spanned_code_of(segment, call_site),
        ).flatten(),
    decreases segments.len(),
{
    let expand = |segment: DelegatedSegment| spanned_code_of(segment, call_site);
    let all = segments.map_values(expand);
    if segments.len() == 0 {
        assert(all =~= Seq::empty());
    } else {
        let before = segments.drop_last();
        let last = segments.last();
        law_spans_of_each_segment(before, call_site);
        law_spans_of_each_method(last.methods@, last.delegator, call_site);
        assert(all =~= before.map_values(expand).push(spanned_code_of(last, call_site)));
        before.map_values(expand).lemma_flatten_push(spanned_code_of(last, call_site));
    }
}

/// Whether tokens are those that name the method to call: the one in the parentheses that a `call`
/// attribute holds, or else the name of the method itself.
pub open spec fn is_target_token(method: DelegatedMethod, target: Seq<Tree<Span>>) -> bool {
    let attributes = method.attributes@;
    if has_named(attribute_texts(attributes), "call"@) {
        exists|i: int|
            0 <= i < attributes.len() && #[trigger] attribute_texts(attributes)[i].name == Some(
                "call"@,
            ) && target == seq![flat(inside(flat(trees(attributes[i].tokens))[0]))[0]]
    } else {
        target == trees(method.signature.ident.token)
    }
}

/// What the code of a method is made of, with its spans, where `target` names the method that it
/// calls.
pub open spec fn spanned_parts_of(
    method: DelegatedMethod,
    delegator: TokenStream,
    target: Seq<Tree<Span>>,
) -> FunctionParts<Span> {
    let attributes = method.attributes@;
    FunctionParts {
        attributes: attributes.filter(
            |attribute: Attribute|
                attribute.text().name != Some("call"@) && attribute.text().name != Some("into"@)
                    && attribute.text().name != Some("target_method"@),
        ).map_values(|attribute: Attribute| trees(attribute.printed)).flatten(),
        inline: has_named(attribute_texts(attributes), "inline"@),
        visibility: trees(method.visibility),
        signature: SignatureParts {
            constness: trees(method.signature.constness),
            asyncness: trees(method.signature.asyncness),
            unsafety: trees(method.signature.unsafety),
            abi: trees(method.signature.abi),
            fn_token: trees(method.signature.fn_token),
            ident: trees(method.signature.ident.token),
            generics: trees(method.signature.generics),
            inputs: trees(method.signature.inputs),
            paren: method.signature.paren,
            output: trees(method.signature.output.tokens),
            ty: match method.signature.output.ty {
                Some(ty) => Some(trees(ty)),
                None => None,
            },
            where_clause: trees(method.signature.where_clause),
        },
        delegator: trees(delegator),
        target,
        arguments: method.arguments@.map_values(|argument: TokenStream| trees(argument)),
        into: has_named(attribute_texts(attributes), "into"@),
        span: method.span,
    }
}

/// The code that a method becomes, written out with its spans: every token that was read keeps its
/// own, the braces of the body are at the span of the method, and all else is at the call site.
pub proof fn law_code_keeps_its_spans(
    method: DelegatedMethod,
    delegator: TokenStream,
    call_site: Span,
    target: Seq<Tree<Span>>,
)
    requires
        directives(method.text().attributes, method.text().ident) is Ok,
        is_target_token(method, target),
    ensures
        ({
            let code = method_code(method, delegator, call_site);
            let parts = spanned_parts_of(method, delegator, target);
            &&& code.len() > 0
            &&& has_front(code, parts, call_site)
            &&& code.last() matches Tree::Group(Delimiter::Brace, body, span) && span == method.span
                && is_body(body, parts, call_site)
        }),
{
    let attributes = method.attributes@;
    let texts = attribute_texts(attributes);
    let asked = directives(method.text().attributes, method.text().ident)->Ok_0;
    let kept = others(attributes);
    let parts = spanned_parts_of(method, delegator, target);
    law_attributes_ask(texts, method.text().ident);
    assert(kept =~= attributes.filter(
        |attribute: Attribute|
            attribute.text().name != Some("call"@) && attribute.text().name != Some("into"@)
                && attribute.text().name != Some("target_method"@),
    )) by {
        lemma_same_filter(
            attributes,
            |attribute: Attribute| !crate::attributes::is_special(attribute.text()),
            |attribute: Attribute|
                attribute.text().name != Some("call"@) && attribute.text().name != Some("into"@)
                    && attribute.text().name != Some("target_method"@),
        );
    }
    law_attributes_are_printed_with_spans(kept);
    lemma_inline_stays(attributes);
    lemma_target_token(attributes, method.text().ident);
    if has_named(texts, "call"@) {
        let i = choose|i: int|
            0 <= i < attributes.len() && #[trigger] texts[i].name == Some("call"@) && target
                == seq![flat(inside(flat(trees(attributes[i].tokens))[0]))[0]];
        assert(named(attributes[i].text(), "call"@));
        assert(target_token(attributes) == Some(target));
    } else {
        assert forall|i: int| 0 <= i < attributes.len() implies !named(
            #[trigger] attributes[i].text(),
            "call"@,
        ) by {
            assert(texts[i] == attributes[i].text());
        }
        assert(target_token(attributes) is None);
    }
    let made = crate::expand::method_parts(method, delegator, kept, target, asked.into);
    assert(crate::input::stream_trees(method.arguments@) =~= parts.arguments);
    assert(made == parts);
    law_function_is_written_out(parts, call_site);
    assert(function(parts, call_site).len() > 0);
}

/// Filters that say the same keep the same.
proof fn lemma_same_filter<A>(s: Seq<A>, p: spec_fn(A) -> bool, q: spec_fn(A) -> bool)
    requires
        forall|a: A| #[trigger] p(a) == q(a),
    ensures
        s.filter(p) == s.filter(q),
    decreases s.len(),
{
    reveal(Seq::filter);
    if s.len() > 0 {
        lemma_same_filter(s.drop_last(), p, q);
        assert(p(s.last()) == q(s.last()));
    }
}

/// An `inline` attribute is kept.
proof fn lemma_inline_stays(attributes: Seq<Attribute>)
    ensures
        has_inline(attribute_texts(others(attributes))) == has_named(
            attribute_texts(attributes),
            "inline"@,
        ),
    decreases attributes.len(),
{
    reveal(Seq::filter);
    lemma_names_differ();
    let kept = attribute_texts(others(attributes));
    assert(has_inline(kept) == has_named(kept, "inline"@));
    if attributes.len() > 0 {
        let before = attributes.drop_last();
        let last = attributes.last();
        lemma_inline_stays(before);
        assert(has_inline(attribute_texts(others(before))) == has_named(
            attribute_texts(others(before)),
            "inline"@,
        ));
        lemma_has_named_push(attribute_texts(before), last.text(), "inline"@);
        lemma_has_named_push(attribute_texts(others(before)), last.text(), "inline"@);
        assert(attribute_texts(attributes) =~= attribute_texts(before).push(last.text()));
        if !crate::attributes::is_special(last.text()) {
            assert(others(attributes) =~= others(before).push(last));
            assert(kept =~= attribute_texts(others(before)).push(last.text()));
        } else {
            assert(others(attributes) =~= others(before));
        }
    }
}

/// The token that names the method to call is the one in the parentheses of the `call` attribute.
proof fn lemma_target_token(attributes: Seq<Attribute>, method: Seq<char>)
    requires
        directives(attribute_texts(attributes), method) is Ok,
    ensures
        forall|i: int|
            0 <= i < attributes.len() && named(#[trigger] attributes[i].text(), "call"@)
                ==> target_token(attributes) == Some(
                seq![flat(inside(flat(trees(attributes[i].tokens))[0]))[0]],
            ),
        (forall|i: int|
            0 <= i < attributes.len() ==> !named(#[trigger] attributes[i].text(), "call"@))
            ==> target_token(attributes) is None,
    decreases attributes.len(),
{
    if attributes.len() > 0 {
        let before = attributes.drop_last();
        let last = attributes.last();
        let texts = attribute_texts(attributes);
        assert(texts.drop_last() =~= attribute_texts(before));
        assert(texts.last() == last.text());
        lemma_target_token(before, method);
        law_directives(texts, method);
        law_attributes_ask(attribute_texts(before), method);
        assert(attributes[attributes.len() - 1] == last);
        assert(forall|i: int| 0 <= i < before.len() ==> #[trigger] attributes[i] == before[i]);
        if named(last.text(), "call"@) {
            lemma_call_token(last.tokens);
            assert forall|i: int|
                0 <= i < attributes.len() && named(
                    #[trigger] attributes[i].text(),
                    "call"@,
                ) implies target_token(attributes) == Some(
                seq![flat(inside(flat(trees(attributes[i].tokens))[0]))[0]],
            ) by {
                if i < before.len() {
                    assert(attribute_texts(before)[i].name == Some("call"@));
                    assert(has_named(attribute_texts(before), "call"@));
                    assert(false);
                }
            }
        } else {
            assert forall|i: int|
                0 <= i < attributes.len() && named(
                    #[trigger] attributes[i].text(),
                    "call"@,
                ) implies target_token(attributes) == Some(
                seq![flat(inside(flat(trees(attributes[i].tokens))[0]))[0]],
            ) by {
                assert(named(before[i].text(), "call"@));
            }
            if forall|i: int|
                0 <= i < attributes.len() ==> !named(#[trigger] attributes[i].text(), "call"@) {
                assert forall|i: int| 0 <= i < before.len() implies !named(
                    #[trigger] before[i].text(),
                    "call"@,
                ) by {
                    assert(!named(attributes[i].text(), "call"@));
                }
            }
        }
    }
}

/// The token in the parentheses of a `call` attribute that is read.
proof fn lemma_call_token(stream: TokenStream)
    requires
        whole(call_syntax(crate::stream::texts(stream))) is Parsed,
    ensures
        call_token(trees(stream)) == seq![flat(inside(flat(trees(stream))[0]))[0]],
{
    let tokens = trees(stream);
    crate::token::lemma_unwrapped_erase(tokens);
    crate::grammar::lemma_first_is_there(tokens);
    lemma_unwrapped_skip(tokens);
    let first = unwrapped(tokens)[0];
    assert(flat(tokens)[0] == first);
    crate::token::lemma_erase_all(unwrapped(tokens));
    assert(unwrapped(crate::stream::texts(stream))[0] == crate::token::erase(first));
    crate::grammar::lemma_first_is_there(inside(first));
    lemma_unwrapped_skip(inside(first));
    assert(flat(inside(first))[0] == unwrapped(inside(first))[0]);
}

/// The parameters of the method are those in the list that are not in square brackets, each with
/// all its tokens and the comma behind it, if there is one.
pub proof fn law_parameters_are_written_out(entries: Seq<(InputText, bool)>)
    ensures
        parameters(entries) == entries.map_values(
            |entry: (InputText, bool)|
                match entry.0 {
                    InputText::Argument(_) => Seq::empty(),
                    InputText::Input(arg) => if entry.1 {
                        arg.tokens + seq![Tree::Punct(',', false, ())]
                    } else {
                        arg.tokens
                    },
                },
        ).flatten(),
    decreases entries.len(),
{
    let print = |entry: (InputText, bool)|
        match entry.0 {
            InputText::Argument(_) => Seq::empty(),
            InputText::Input(arg) => if entry.1 {
                arg.tokens + seq![Tree::Punct(',', false, ())]
            } else {
                arg.tokens
            },
        };
    let all = entries.map_values(print);
    if entries.len() == 0 {
        assert(all =~= Seq::empty());
    } else {
        let before = entries.drop_last();
        law_parameters_are_written_out(before);
        assert(all =~= before.map_values(print).push(print(entries.last())));
        before.map_values(print).lemma_flatten_push(print(entries.last()));
        assert(parameters(entries) =~= parameters(before) + print(entries.last()));
    }
}

/// The arguments of the call, with their spans: in order, the tokens of the expressions in square
/// brackets and the names of the parameters, but for the receiver.
pub proof fn law_arguments_keep_their_spans(entries: Seq<(DelegatedInput, Option<Span>)>)
    ensures
        passed_trees(entries) == entries.filter(
            |entry: (DelegatedInput, Option<Span>)|
                match entry.0 {
                    DelegatedInput::Argument(_) => true,
                    DelegatedInput::Input(arg) => match arg.parameter {
                        Parameter::Receiver => false,
                        Parameter::Name(ident) => ident.text@ != "self"@,
                        Parameter::Pattern => true,
                    },
                },
        ).map_values(
            |entry: (DelegatedInput, Option<Span>)|
                match entry.0 {
                    DelegatedInput::Argument(expr) => trees(expr),
                    DelegatedInput::Input(arg) => match arg.parameter {
                        Parameter::Name(ident) => trees(ident.token),
                        _ => Seq::empty(),
                    },
                },
        ),
    decreases entries.len(),
{
    reveal(Seq::filter);
    let keep = |entry: (DelegatedInput, Option<Span>)|
        match entry.0 {
            DelegatedInput::Argument(_) => true,
            DelegatedInput::Input(arg) => match arg.parameter {
                Parameter::Receiver => false,
                Parameter::Name(ident) => ident.text@ != "self"@,
                Parameter::Pattern => true,
            },
        };
    let pass = |entry: (DelegatedInput, Option<Span>)|
        match entry.0 {
            DelegatedInput::Argument(expr) => trees(expr),
            DelegatedInput::Input(arg) => match arg.parameter {
                Parameter::Name(ident) => trees(ident.token),
                _ => Seq::empty(),
            },
        };
    if entries.len() == 0 {
        assert(entries.filter(keep).map_values(pass) =~= Seq::empty());
    } else {
        let before = entries.drop_last();
        let last = entries.last();
        law_arguments_keep_their_spans(before);
        if keep(last) {
            assert(before.filter(keep).push(last).map_values(pass) =~= before.filter(
                keep,
            ).map_values(pass).push(pass(last)));
        }
    }
}

/// The tokens of the parameters, with their spans: all the tokens of each entry that is not in
/// square brackets, in order, with the comma behind it where that is.
pub proof fn law_parameters_keep_their_spans(entries: Seq<(DelegatedInput, Option<Span>)>)
    ensures
        parameter_trees(entries) == entries.map_values(
            |entry: (DelegatedInput, Option<Span>)|
                match entry.0 {
                    DelegatedInput::Argument(_) => Seq::empty(),
                    DelegatedInput::Input(arg) => match entry.1 {
                        Some(span) => trees(arg.tokens) + seq![Tree::Punct(',', false, span)],
                        None => trees(arg.tokens),
                    },
                },
        ).flatten(),
    decreases entries.len(),
{
    let print = |entry: (DelegatedInput, Option<Span>)|
        match entry.0 {
            DelegatedInput::Argument(_) => Seq::empty(),
            DelegatedInput::Input(arg) => match entry.1 {
                Some(span) => trees(arg.tokens) + seq![Tree::Punct(',', false, span)],
                None => trees(arg.tokens),
            },
        };
    let all = entries.map_values(print);
    if entries.len() == 0 {
        assert(all =~= Seq::empty());
    } else {
        let before = entries.drop_last();
        law_parameters_keep_their_spans(before);
        assert(all =~= before.map_values(print).push(print(entries.last())));
        before.map_values(print).lemma_flatten_push(print(entries.last()));
        assert(parameter_trees(entries) =~= parameter_trees(before) + print(entries.last()));
    }
}

/// What a parameter becomes in the call: nothing if it is the receiver, with a type or without,
/// its name if it has one, and a pattern is refused.
pub proof fn law_parameter_becomes_an_argument(name: Seq<char>, method: Seq<char>)
    ensures
        argument_of(ParameterText::Receiver, method) == Ok::<Option<Text>, Reason>(None),
        argument_of(ParameterText::Name(name), method) == Ok::<Option<Text>, Reason>(
            if name == "self"@ {
                None
            } else {
                Some(seq![Tree::Ident(name, ())])
            },
        ),
        argument_of(ParameterText::Pattern, method) == Err::<Option<Text>, Reason>(
            Reason::SimpleIdentifiers(method),
        ),
{
}

/// The attributes that are kept are kept by reference, every one, in order.
pub proof fn law_kept_by_reference(attributes: Seq<Attribute>, kept: Seq<&Attribute>)
    requires
        referred(kept) == others(attributes),
    ensures
        kept.len() == attributes.filter(
            |attribute: Attribute|
                attribute.text().name != Some("call"@) && attribute.text().name != Some("into"@)
                    && attribute.text().name != Some("target_method"@),
        ).len(),
        forall|i: int|
            0 <= i < kept.len() ==> *#[trigger] kept[i] == attributes.filter(
                |attribute: Attribute|
                    attribute.text().name != Some("call"@) && attribute.text().name != Some(
                        "into"@,
                    ) && attribute.text().name != Some("target_method"@),
            )[i],
        kept_texts(kept).len() == kept.len(),
        forall|i: int|
            0 <= i < kept.len() ==> #[trigger] kept_texts(kept)[i] == kept[i].text(),
{
    lemma_same_filter(
        attributes,
        |attribute: Attribute| !crate::attributes::is_special(attribute.text()),
        |attribute: Attribute|
            attribute.text().name != Some("call"@) && attribute.text().name != Some("into"@)
                && attribute.text().name != Some("target_method"@),
    );
    assert forall|i: int| 0 <= i < kept.len() implies *#[trigger] kept[i] == others(
        attributes,
    )[i] by {
        assert(referred(kept)[i] == *kept[i]);
    }
    assert(referred(kept).len() == kept.len());
}

/// There is an `inline` among attributes exactly if one of them has that name.
pub proof fn law_inline_is_found(attributes: Seq<AttributeText>)
    ensures
        has_inline(attributes) <==> exists|i: int|
            0 <= i < attributes.len() && #[trigger] attributes[i].name == Some("inline"@),
{
}

/// An expansion comes to the code, with these spans and this text, or to the reason why not.
pub proof fn law_expansion_is_what_it_says(
    expanded: Result<TokenStream, Panic>,
    text: Result<Text, Reason>,
    code: Seq<Tree<Span>>,
)
    ensures
        expands_to(expanded, text, code) <==> match (expanded, text) {
            (Ok(tokens), Ok(text)) => texts(tokens) == text && trees(tokens) == code,
            (Err(panic), Err(reason)) => panic@ == reason,
            _ => false,
        },
{
}

/// The code of an input is that of each method of each segment, in order, where what the methods
/// have of their declarations is within the input, and all that is new is at one place.
pub proof fn law_code_of_input(
    code: Seq<Tree<Span>>,
    segments: Seq<SegmentText>,
    input: Seq<Tree<Span>>,
)
    ensures
        is_code_of(code, segments, input) ==> exists|block: DelegationBlock, call_site: Span|
            block.text() == segments && (forall|i: int, j: int|
                0 <= i < block.segments@.len() && 0 <= j < block.segments@[i].methods@.len()
                    ==> (#[trigger] block.segments@[i].methods@[j]).is_from(input)) && code
                == #[trigger] spanned_code(block.segments@, call_site),
{
    if is_code_of(code, segments, input) {
        let (block, call_site) = choose|block: DelegationBlock, call_site: Span|
            block.text() == segments && block.is_from(input) && code == #[trigger] segments_code(
                block.segments@,
                call_site,
            );
        law_spans_of_each_segment(block.segments@, call_site);
        assert(code == spanned_code(block.segments@, call_site));
        assert forall|i: int, j: int|
            0 <= i < block.segments@.len() && 0 <= j
                < block.segments@[i].methods@.len() implies (
        #[trigger] block.segments@[i].methods@[j]).is_from(input) by {
            assert(block.segments@[i].is_from(input));
        }
    }
}

/// The code of segments with its spans, one behind the other.
pub open spec fn spanned_code(segments: Seq<DelegatedSegment>, call_site: Span) -> Seq<Tree<Span>> {
    segments.map_values(
        |segment: DelegatedSegment| spanned_code_of(segment, call_site),
    ).flatten()
}

/// What a method has of its declaration is within the trees that it was read from: the keywords and
/// the name, what its attributes hold, and the parentheses of the parameter list; what is in these
/// makes the parameters and the arguments.
pub proof fn law_method_is_from_its_declaration(method: DelegatedMethod, input: Seq<Tree<Span>>)
    requires
        method.is_from(input),
    ensures
        ({
            let signature = method.signature;
            let words = trees(signature.constness) + trees(signature.asyncness) + trees(
                signature.unsafety,
            ) + trees(signature.fn_token) + trees(signature.ident.token);
            forall|i: int| 0 <= i < words.len() ==> within(#[trigger] words[i], input)
        }),
        forall|i: int, j: int|
            0 <= i < method.attributes@.len() && 0 <= j < trees(method.attributes@[i].tokens).len()
                ==> within(#[trigger] trees(method.attributes@[i].tokens)[j], input),
        exists|list: Seq<Tree<Span>>, entries: Seq<(DelegatedInput, Option<Span>)>|
            #![trigger entry_texts(entries), erase_all(list)]
            within(
                Tree::Group(Delimiter::Parenthesis, list, method.signature.paren),
                input,
            ) && (inputs_syntax(erase_all(list)) matches Parse::Parsed { value, .. } && value
                == entry_texts(entries)) && trees(method.signature.inputs) == parameter_trees(
                entries,
            ) && method.arguments@.map_values(|argument: TokenStream| trees(argument))
                == passed_trees(entries) && (forall|i: int|
                0 <= i < entries.len() ==> ((#[trigger] entries[i]).0 matches DelegatedInput::Input(
                    arg,
                ) ==> (arg.parameter matches Parameter::Name(ident) ==> forall|j: int|
                    0 <= j < trees(ident.token).len() ==> within(
                        #[trigger] trees(ident.token)[j],
                        list,
                    )))),
{
    let signature = method.signature;
    let words = trees(signature.constness) + trees(signature.asyncness) + trees(
        signature.unsafety,
    ) + trees(signature.fn_token) + trees(signature.ident.token);
    assert forall|i: int| 0 <= i < words.len() implies within(#[trigger] words[i], input) by {
        let a = trees(signature.constness).len() as int;
        let b = a + trees(signature.asyncness).len();
        let c = b + trees(signature.unsafety).len();
        let d = c + trees(signature.fn_token).len();
        if i < a {
            assert(words[i] == trees(signature.constness)[i]);
        } else if i < b {
            assert(words[i] == trees(signature.asyncness)[i - a]);
        } else if i < c {
            assert(words[i] == trees(signature.unsafety)[i - b]);
        } else if i < d {
            assert(words[i] == trees(signature.fn_token)[i - c]);
        } else {
            assert(words[i] == trees(signature.ident.token)[i - d]);
        }
    }
    let group = choose|list: Tree<Span>| #[trigger]
        within(list, input) && crate::trouble::is_group(list, Delimiter::Parenthesis)
            && crate::token::mark(list) == signature.paren && crate::method::passes_on(
            signature.inputs,
            method.arguments@,
            inside(list),
        );
    let list = inside(group);
    assert(group == Tree::Group(Delimiter::Parenthesis, list, signature.paren));
    let entries = choose|entries: Seq<(DelegatedInput, Option<Span>)>| #[trigger]
        crate::input::entries_from(entries, list) && trees(signature.inputs) == parameter_trees(
            entries,
        ) && crate::input::stream_trees(method.arguments@) == passed_trees(entries) && (
        inputs_syntax(erase_all(list)) matches Parse::Parsed { value, .. } && value == entry_texts(
            entries,
        ));
    assert(crate::input::stream_trees(method.arguments@) =~= method.arguments@.map_values(
        |argument: TokenStream| trees(argument),
    ));
    assert forall|i: int| 0 <= i < entries.len() implies ((
    #[trigger] entries[i]).0 matches DelegatedInput::Input(arg) ==> (
    arg.parameter matches Parameter::Name(ident) ==> forall|j: int|
        0 <= j < trees(ident.token).len() ==> within(#[trigger] trees(ident.token)[j], list))) by {
        assert(entries[i].0.is_from(list));
    }
}

} // verus!
