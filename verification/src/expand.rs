//! The code that delegated methods become.

use crate::attributes::{
    directives, has_inline, has_inline_attribute, kept_texts, others, parse_attributes, referred,
    target_token, Directives,
};
use crate::block::{
    block_syntax, is_placed_in, method_texts, reports_start, segment_texts, starts_wrong,
    DelegatedSegment, DelegationBlock, SegmentText,
};
use crate::code_laws::{
    law_code_of_each_method, law_code_of_each_segment, law_why_attributes_are_refused,
};
use crate::grammar::{whole, Parse, Reason};
use crate::input::{stream_texts, stream_trees};
use crate::method::{erase_signature, signature_tokens, DelegatedMethod, MethodText, SignatureParts};
use crate::outcome::{is_honest, ParseError};
use crate::panic::Panic;
use crate::report::{reports, SyntaxError};
use crate::stream::{append, call_site, push_group, push_ident, push_punct, texts, trees};
use crate::syntax::{attribute_texts, Attribute, AttributeText};
use crate::token::{
    erase_all, lemma_erase_add, lemma_erase_all, lemma_erase_one, Delimiter, Text, Tree,
};
use proc_macro2::{Span, TokenStream};
use vstd::prelude::*;

verus! {

/// What the code of a delegated method is made of.
pub struct FunctionParts<S> {
    /// The attributes that the method keeps.
    pub attributes: Seq<Tree<S>>,
    /// Whether `inline` is one of them.
    pub inline: bool,
    pub visibility: Seq<Tree<S>>,
    pub signature: SignatureParts<S>,
    /// The expression that is delegated to.
    pub delegator: Seq<Tree<S>>,
    /// The name of the method that is called on it.
    pub target: Seq<Tree<S>>,
    /// The arguments that it is called with.
    pub arguments: Seq<Seq<Tree<S>>>,
    /// Whether the result is converted.
    pub into: bool,
    /// The span of the body.
    pub span: S,
}

/// Lists of tokens with commas between them.
pub open spec fn separated<S>(lists: Seq<Seq<Tree<S>>>, call_site: S) -> Seq<Tree<S>>
    decreases lists.len(),
{
    if lists.len() == 0 {
        Seq::empty()
    } else if lists.len() == 1 {
        lists[0]
    } else {
        separated(lists.drop_last(), call_site) + seq![Tree::Punct(',', false, call_site)]
            + lists.last()
    }
}

/// The tokens `::`.
pub open spec fn path_separator<S>(call_site: S) -> Seq<Tree<S>> {
    seq![Tree::Punct(':', true, call_site), Tree::Punct(':', false, call_site)]
}

/// The attribute `#[inline(always)]`.
pub open spec fn inline_always<S>(call_site: S) -> Seq<Tree<S>> {
    let always = seq![Tree::Ident("always"@, call_site)];
    let inline = seq![
        Tree::Ident("inline"@, call_site),
        Tree::Group(Delimiter::Parenthesis, always, call_site),
    ];
    seq![
        Tree::Punct('#', false, call_site),
        Tree::Group(Delimiter::Bracket, inline, call_site),
    ]
}

/// A call of the method that is delegated to.
pub open spec fn call<S>(parts: FunctionParts<S>, call_site: S) -> Seq<Tree<S>> {
    parts.delegator + seq![Tree::Punct('.', false, call_site)] + parts.target + seq![
        Tree::Group(
            Delimiter::Parenthesis,
            separated(parts.arguments, call_site),
            call_site,
        ),
    ]
}

/// An expression, awaited in an `async` method.
pub open spec fn awaited<S>(expr: Seq<Tree<S>>, asyncness: bool, call_site: S) -> Seq<Tree<S>> {
    if asyncness {
        expr + seq![Tree::Punct('.', false, call_site), Tree::Ident("await"@, call_site)]
    } else {
        expr
    }
}

/// An expression converted to a type.
pub open spec fn converted<S>(expr: Seq<Tree<S>>, ty: Seq<Tree<S>>, call_site: S) -> Seq<Tree<S>> {
    seq![Tree::Ident("std"@, call_site)] + path_separator(call_site) + seq![
        Tree::Ident("convert"@, call_site),
    ] + path_separator(call_site) + seq![Tree::Ident("Into"@, call_site)] + path_separator(
        call_site,
    ) + seq![Tree::Punct('<', false, call_site)] + ty + seq![Tree::Punct('>', false, call_site)]
        + path_separator(call_site) + seq![
        Tree::Ident("into"@, call_site),
        Tree::Group(Delimiter::Parenthesis, expr, call_site),
    ]
}

/// The body of a delegated method: the call, whose result is dropped if the method returns
/// nothing.
pub open spec fn body<S>(parts: FunctionParts<S>, call_site: S) -> Seq<Tree<S>> {
    let expr = awaited(call(parts, call_site), parts.signature.asyncness.len() > 0, call_site);
    match parts.signature.ty {
        None => expr + seq![Tree::Punct(';', false, call_site)],
        Some(ty) => if parts.into {
            converted(expr, ty, call_site)
        } else {
            expr
        },
    }
}

/// The code of a delegated method: inlined always, unless an `inline` attribute says otherwise.
pub open spec fn function<S>(parts: FunctionParts<S>, call_site: S) -> Seq<Tree<S>> {
    parts.attributes + (if parts.inline {
        Seq::empty()
    } else {
        inline_always(call_site)
    }) + parts.visibility + signature_tokens(parts.signature) + seq![
        Tree::Group(Delimiter::Brace, body(parts, call_site), parts.span),
    ]
}

/// The tokens of attributes, one behind the other.
pub open spec fn attribute_trees(attributes: Seq<Attribute>) -> Seq<Tree<Span>>
    decreases attributes.len(),
{
    if attributes.len() == 0 {
        Seq::empty()
    } else {
        attribute_trees(attributes.drop_last()) + trees(attributes.last().printed)
    }
}

/// What the code of a method is made of, where the special attributes have been taken out.
pub open spec fn method_parts(
    method: DelegatedMethod,
    delegator: TokenStream,
    kept: Seq<Attribute>,
    target: Seq<Tree<Span>>,
    into: bool,
) -> FunctionParts<Span> {
    FunctionParts {
        attributes: attribute_trees(kept),
        inline: has_inline(attribute_texts(kept)),
        visibility: trees(method.visibility),
        signature: method.signature.parts(),
        delegator: trees(delegator),
        target,
        arguments: stream_trees(method.arguments@),
        into,
        span: method.span,
    }
}

/// Appends `::`.
fn push_path_separator(tokens: &mut TokenStream, call_site: Span)
    ensures
        trees(*final(tokens)) == trees(*old(tokens)) + path_separator(call_site),
{
    let ghost before = trees(*tokens);
    push_punct(tokens, ':', true, call_site);
    push_punct(tokens, ':', false, call_site);
    assert(trees(*tokens) =~= before + path_separator(call_site));
}

/// Appends `#[inline(always)]`.
fn push_inline_always(tokens: &mut TokenStream, call_site: Span)
    ensures
        trees(*final(tokens)) == trees(*old(tokens)) + inline_always(call_site),
{
    let ghost before = trees(*tokens);
    proof {
        reveal_strlit("always");
        reveal_strlit("inline");
    }
    let mut always: TokenStream = TokenStream::new();
    push_ident(&mut always, "always", call_site);
    let mut inline: TokenStream = TokenStream::new();
    push_ident(&mut inline, "inline", call_site);
    push_group(&mut inline, Delimiter::Parenthesis, &always, call_site);
    push_punct(tokens, '#', false, call_site);
    push_group(tokens, Delimiter::Bracket, &inline, call_site);
    proof {
        assert(trees(always) =~= seq![Tree::Ident("always"@, call_site)]);
        assert(trees(inline) =~= seq![
            Tree::Ident("inline"@, call_site),
            Tree::Group(Delimiter::Parenthesis, trees(always), call_site),
        ]);
        assert(trees(*tokens) =~= before + inline_always(call_site));
    }
}

/// Streams with commas between them.
fn separate(streams: &Vec<TokenStream>, call_site: Span) -> (tokens: TokenStream)
    ensures
        trees(tokens) == separated(stream_trees(streams@), call_site),
{
    let mut tokens: TokenStream = TokenStream::new();
    let ghost lists = stream_trees(streams@);
    let mut i: usize = 0;
    while i < streams.len()
        invariant
            i <= streams.len(),
            lists == stream_trees(streams@),
            trees(tokens) == separated(lists.take(i as int), call_site),
        decreases streams.len() - i,
    {
        let ghost before = trees(tokens);
        if i > 0 {
            push_punct(&mut tokens, ',', false, call_site);
        }
        append(&mut tokens, &streams[i]);
        proof {
            assert(lists.take(i + 1).drop_last() =~= lists.take(i as int));
            assert(lists.take(i + 1).last() == trees(streams@[i as int]));
            if i > 0 {
                assert(trees(tokens) =~= before + seq![Tree::Punct(',', false, call_site)] + trees(
                    streams@[i as int],
                ));
            } else {
                assert(trees(tokens) =~= trees(streams@[0]));
            }
        }
        i += 1;
    }
    proof {
        assert(lists.take(lists.len() as int) =~= lists);
    }
    tokens
}

/// The expression `expr`, converted to the type `ty`.
fn convert(expr: &TokenStream, ty: &TokenStream, call_site: Span) -> (tokens: TokenStream)
    ensures
        trees(tokens) == converted(trees(*expr), trees(*ty), call_site),
{
    proof {
        reveal_strlit("std");
        reveal_strlit("convert");
        reveal_strlit("Into");
        reveal_strlit("into");
    }
    let mut tokens: TokenStream = TokenStream::new();
    push_ident(&mut tokens, "std", call_site);
    push_path_separator(&mut tokens, call_site);
    push_ident(&mut tokens, "convert", call_site);
    push_path_separator(&mut tokens, call_site);
    push_ident(&mut tokens, "Into", call_site);
    push_path_separator(&mut tokens, call_site);
    push_punct(&mut tokens, '<', false, call_site);
    append(&mut tokens, ty);
    push_punct(&mut tokens, '>', false, call_site);
    push_path_separator(&mut tokens, call_site);
    push_ident(&mut tokens, "into", call_site);
    push_group(&mut tokens, Delimiter::Parenthesis, expr, call_site);
    assert(trees(tokens) =~= converted(trees(*expr), trees(*ty), call_site));
    tokens
}

/// The code of a method that delegates to `target` of `delegator`, with the attributes in `kept`
/// and, if `into` is set, its result converted. What is generated anew is at `call_site`.
pub fn generate(
    method: &DelegatedMethod,
    delegator: &TokenStream,
    kept: &Vec<&Attribute>,
    target: &TokenStream,
    into: bool,
    call_site: Span,
) -> (tokens: TokenStream)
    ensures
        trees(tokens) == function(
            method_parts(*method, *delegator, referred(kept@), trees(*target), into),
            call_site,
        ),
{
    let ghost parts = method_parts(*method, *delegator, referred(kept@), trees(*target), into);
    let ghost values = referred(kept@);
    let mut tokens: TokenStream = TokenStream::new();
    let mut i: usize = 0;
    while i < kept.len()
        invariant
            i <= kept.len(),
            values == referred(kept@),
            trees(tokens) == attribute_trees(values.take(i as int)),
        decreases kept.len() - i,
    {
        append(&mut tokens, &kept[i].printed);
        proof {
            assert(values.take(i + 1).drop_last() =~= values.take(i as int));
        }
        i += 1;
    }
    assert(values.take(values.len() as int) =~= values);
    assert(kept_texts(kept@) =~= attribute_texts(values));
    assert(trees(tokens) == parts.attributes);
    if !has_inline_attribute(kept) {
        push_inline_always(&mut tokens, call_site);
    } else {
        assert(trees(tokens) =~= parts.attributes + Seq::empty());
    }
    append(&mut tokens, &method.visibility);
    append(&mut tokens, &method.signature.to_tokens());

    let arguments = separate(&method.arguments, call_site);
    let mut expr: TokenStream = delegator.clone();
    push_punct(&mut expr, '.', false, call_site);
    append(&mut expr, target);
    push_group(&mut expr, Delimiter::Parenthesis, &arguments, call_site);
    assert(trees(expr) =~= call(parts, call_site));
    if !method.signature.asyncness.is_empty() {
        proof {
            reveal_strlit("await");
        }
        push_punct(&mut expr, '.', false, call_site);
        push_ident(&mut expr, "await", call_site);
        assert(trees(expr) =~= awaited(call(parts, call_site), true, call_site));
    }
    let inner: TokenStream = match &method.signature.output.ty {
        None => {
            let ghost before = trees(expr);
            push_punct(&mut expr, ';', false, call_site);
            assert(trees(expr) =~= before + seq![Tree::Punct(';', false, call_site)]);
            expr
        },
        Some(ty) => if into {
            convert(&expr, ty, call_site)
        } else {
            expr
        },
    };
    let ghost before = trees(tokens);
    push_group(&mut tokens, Delimiter::Brace, &inner, method.span);
    assert(trees(tokens) =~= before + seq![
        Tree::Group(Delimiter::Brace, body(parts, call_site), parts.span),
    ]);
    tokens
}

/// Lists of tokens without their spans.
pub open spec fn erase_lists<S>(lists: Seq<Seq<Tree<S>>>) -> Seq<Text> {
    lists.map_values(|list: Seq<Tree<S>>| erase_all(list))
}

/// What the code of a method is made of, without the spans.
pub open spec fn erase_parts<S>(parts: FunctionParts<S>) -> FunctionParts<()> {
    FunctionParts {
        attributes: erase_all(parts.attributes),
        inline: parts.inline,
        visibility: erase_all(parts.visibility),
        signature: erase_signature(parts.signature),
        delegator: erase_all(parts.delegator),
        target: erase_all(parts.target),
        arguments: erase_lists(parts.arguments),
        into: parts.into,
        span: (),
    }
}

/// Commas between lists do not depend on spans.
proof fn lemma_erase_separated<S>(lists: Seq<Seq<Tree<S>>>, call_site: S)
    ensures
        erase_all(separated(lists, call_site)) == separated(erase_lists(lists), ()),
    decreases lists.len(),
{
    broadcast use {lemma_erase_add, lemma_erase_one};

    if lists.len() == 0 {
        lemma_erase_all(separated(lists, call_site));
        assert(erase_all(separated(lists, call_site)) =~= Seq::empty());
    } else if lists.len() > 1 {
        lemma_erase_separated(lists.drop_last(), call_site);
        assert(erase_lists(lists).drop_last() =~= erase_lists(lists.drop_last()));
    }
}

/// The tokens of a signature do not depend on spans but for their own.
proof fn lemma_erase_signature<S>(parts: SignatureParts<S>)
    ensures
        erase_all(signature_tokens(parts)) == signature_tokens(erase_signature(parts)),
{
    broadcast use {lemma_erase_add, lemma_erase_one};

}

/// The text of the code of a delegated method depends only on the text of what it is made of: not
/// on any span, nor on where the macro is called.
pub proof fn lemma_erase_function<S>(parts: FunctionParts<S>, call_site: S)
    ensures
        erase_all(function(parts, call_site)) == function(erase_parts(parts), ()),
{
    broadcast use {lemma_erase_all, lemma_erase_add, lemma_erase_one};

    lemma_erase_separated(parts.arguments, call_site);
    lemma_erase_signature(parts.signature);
    let always = seq![Tree::Ident("always"@, call_site)];
    let inline = seq![
        Tree::Ident("inline"@, call_site),
        Tree::Group(Delimiter::Parenthesis, always, call_site),
    ];
    assert(erase_all(inline) =~= seq![
        Tree::Ident("inline"@, ()),
        Tree::Group(Delimiter::Parenthesis, erase_all(always), ()),
    ]);
    assert(erase_all(inline_always(call_site)) =~= inline_always(()));
    assert(erase_all(path_separator(call_site)) =~= path_separator(()));
    assert(erase_all(call(parts, call_site)) == call(erase_parts(parts), ()));
    let asyncness = parts.signature.asyncness.len() > 0;
    let expr = call(parts, call_site);
    assert(erase_all(awaited(expr, asyncness, call_site)) =~= awaited(
        erase_all(expr),
        asyncness,
        (),
    ));
    let expr = awaited(expr, asyncness, call_site);
    if parts.signature.ty is Some {
        let ty = parts.signature.ty->0;
        let last = seq![
            Tree::Ident("into"@, call_site),
            Tree::Group(Delimiter::Parenthesis, expr, call_site),
        ];
        assert(erase_all(last) =~= seq![
            Tree::Ident("into"@, ()),
            Tree::Group(Delimiter::Parenthesis, erase_all(expr), ()),
        ]);
        assert(erase_all(converted(expr, ty, call_site)) == converted(
            erase_all(expr),
            erase_all(ty),
            (),
        ));
    }
    assert(erase_all(body(parts, call_site)) == body(erase_parts(parts), ()));
    assert(erase_all(Seq::<Tree<S>>::empty()) =~= Seq::empty());
}

/// The text of attributes, one behind the other.
pub open spec fn printed_texts(attributes: Seq<AttributeText>) -> Text
    decreases attributes.len(),
{
    if attributes.len() == 0 {
        Seq::empty()
    } else {
        printed_texts(attributes.drop_last()) + attributes.last().printed
    }
}

/// The text of attributes does not depend on spans.
proof fn lemma_erase_attributes(attributes: Seq<Attribute>)
    ensures
        erase_all(attribute_trees(attributes)) == printed_texts(attribute_texts(attributes)),
    decreases attributes.len(),
{
    broadcast use lemma_erase_add;

    if attributes.len() == 0 {
        lemma_erase_all(attribute_trees(attributes));
        assert(erase_all(attribute_trees(attributes)) =~= Seq::empty());
    } else {
        lemma_erase_attributes(attributes.drop_last());
        assert(attribute_texts(attributes).drop_last() =~= attribute_texts(attributes.drop_last()));
    }
}

/// What the code of a method is made of that delegates to an expression, where its attributes ask
/// for something.
pub open spec fn text_parts(
    delegator: Text,
    method: MethodText,
    asked: Directives,
) -> FunctionParts<()> {
    FunctionParts {
        attributes: printed_texts(asked.kept),
        inline: has_inline(asked.kept),
        visibility: method.visibility,
        signature: method.signature,
        delegator,
        target: seq![
            Tree::Ident(
                match asked.target {
                    Some(target) => target,
                    None => method.ident,
                },
                (),
            ),
        ],
        arguments: method.arguments,
        into: asked.into,
        span: (),
    }
}

/// The code that a delegated method becomes, as its attributes ask.
pub open spec fn method_expansion(delegator: Text, method: MethodText) -> Result<Text, Reason> {
    match directives(method.attributes, method.ident) {
        Ok(asked) => Ok(function(text_parts(delegator, method, asked), ())),
        Err(reason) => Err(reason),
    }
}

/// The code that delegated methods become, one behind the other.
pub open spec fn methods_expansion(delegator: Text, methods: Seq<MethodText>) -> Result<
    Text,
    Reason,
>
    decreases methods.len(),
{
    if methods.len() == 0 {
        Ok(Seq::empty())
    } else {
        match methods_expansion(delegator, methods.drop_last()) {
            Err(reason) => Err(reason),
            Ok(before) => match method_expansion(delegator, methods.last()) {
                Err(reason) => Err(reason),
                Ok(last) => Ok(before + last),
            },
        }
    }
}

/// The code that segments become, one behind the other.
pub open spec fn block_expansion(segments: Seq<SegmentText>) -> Result<Text, Reason>
    decreases segments.len(),
{
    if segments.len() == 0 {
        Ok(Seq::empty())
    } else {
        match block_expansion(segments.drop_last()) {
            Err(reason) => Err(reason),
            Ok(before) => match methods_expansion(
                segments.last().delegator,
                segments.last().methods,
            ) {
                Err(reason) => Err(reason),
                Ok(last) => Ok(before + last),
            },
        }
    }
}

/// Methods that cannot be expanded stay so if more follow, for the same reason.
proof fn lemma_methods_stay(delegator: Text, methods: Seq<MethodText>, n: int)
    requires
        0 <= n <= methods.len(),
    ensures
        methods_expansion(delegator, methods.take(n)) is Err ==> methods_expansion(
            delegator,
            methods,
        ) == methods_expansion(delegator, methods.take(n)),
    decreases methods.len(),
{
    if n == methods.len() {
        assert(methods.take(n) =~= methods);
    } else {
        lemma_methods_stay(delegator, methods.drop_last(), n);
        assert(methods.drop_last().take(n) =~= methods.take(n));
    }
}

/// Segments that cannot be expanded stay so if more follow, for the same reason.
proof fn lemma_segments_stay(segments: Seq<SegmentText>, n: int)
    requires
        0 <= n <= segments.len(),
    ensures
        block_expansion(segments.take(n)) is Err ==> block_expansion(segments) == block_expansion(
            segments.take(n),
        ),
    decreases segments.len(),
{
    if n == segments.len() {
        assert(segments.take(n) =~= segments);
    } else {
        lemma_segments_stay(segments.drop_last(), n);
        assert(segments.drop_last().take(n) =~= segments.take(n));
    }
}

/// The code of a method that is delegated to an expression, with its spans.
pub open spec fn method_code(
    method: DelegatedMethod,
    delegator: TokenStream,
    call_site: Span,
) -> Seq<Tree<Span>> {
    let asked = directives(method.text().attributes, method.text().ident)->Ok_0;
    let target = match target_token(method.attributes@) {
        Some(token) => token,
        None => trees(method.signature.ident.token),
    };
    function(
        method_parts(method, delegator, others(method.attributes@), target, asked.into),
        call_site,
    )
}

/// The code of methods, with its spans.
pub open spec fn methods_code(
    methods: Seq<DelegatedMethod>,
    delegator: TokenStream,
    call_site: Span,
) -> Seq<Tree<Span>>
    decreases methods.len(),
{
    if methods.len() == 0 {
        Seq::empty()
    } else {
        methods_code(methods.drop_last(), delegator, call_site) + method_code(
            methods.last(),
            delegator,
            call_site,
        )
    }
}

/// The code of segments, with its spans.
pub open spec fn segments_code(segments: Seq<DelegatedSegment>, call_site: Span) -> Seq<Tree<Span>>
    decreases segments.len(),
{
    if segments.len() == 0 {
        Seq::empty()
    } else {
        segments_code(segments.drop_last(), call_site) + methods_code(
            segments.last().methods@,
            segments.last().delegator,
            call_site,
        )
    }
}

/// Whether an expansion is what is expected: the code with its spans, of which `text` is the text,
/// or the reason why there is none.
pub open spec fn expands_to(
    expanded: Result<TokenStream, Panic>,
    text: Result<Text, Reason>,
    code: Seq<Tree<Span>>,
) -> bool {
    match text {
        Ok(text) => {
            &&& expanded matches Ok(tokens)
            &&& texts(tokens) == text
            &&& trees(tokens) == code
        },
        Err(reason) => expanded matches Err(panic) && panic@ == reason,
    }
}

impl DelegatedMethod {
    /// The code that the method becomes if it is delegated to an expression. What is generated
    /// anew is at `call_site`.
    pub fn expand(&self, delegator: &TokenStream, call_site: Span) -> (expanded: Result<
        TokenStream,
        Panic,
    >)
        requires
            self.wf(),
        ensures
            expands_to(
                expanded,
                method_expansion(texts(*delegator), self.text()),
                method_code(*self, *delegator, call_site),
            ),
    {
        let (kept, name, into) = match parse_attributes(&self.attributes, &self.signature.ident) {
            Ok(parsed) => parsed,
            Err(panic) => return Err(panic),
        };
        let target: TokenStream = match &name {
            Some(ident) => ident.token.clone(),
            None => self.signature.ident.token.clone(),
        };
        let tokens = generate(self, delegator, &kept, &target, into, call_site);
        proof {
            let values = referred(kept@);
            let parts = method_parts(*self, *delegator, values, trees(target), into);
            let asked = directives(self.text().attributes, self.text().ident)->Ok_0;
            lemma_erase_function(parts, call_site);
            lemma_erase_attributes(values);
            assert(kept_texts(kept@) =~= attribute_texts(values));
            assert(erase_lists(parts.arguments) =~= stream_texts(self.arguments@));
            assert(erase_parts(parts) == text_parts(texts(*delegator), self.text(), asked));
        }
        Ok(tokens)
    }
}

impl DelegatedSegment {
    /// The code that the methods of the segment become. What is generated anew is at `call_site`.
    pub fn expand(&self, call_site: Span) -> (expanded: Result<TokenStream, Panic>)
        requires
            self.wf(),
        ensures
            expands_to(
                expanded,
                methods_expansion(self.text().delegator, self.text().methods),
                methods_code(self.methods@, self.delegator, call_site),
            ),
    {
        let mut tokens: TokenStream = TokenStream::new();
        let ghost all = method_texts(self.methods@);
        let mut i: usize = 0;
        proof {
            lemma_erase_all(trees(tokens));
            assert(all.take(0) =~= Seq::empty());
            assert(texts(tokens) =~= Seq::empty());
        }
        while i < self.methods.len()
            invariant
                i <= self.methods.len(),
                self.wf(),
                all == method_texts(self.methods@),
                methods_expansion(texts(self.delegator), all.take(i as int)) == Ok::<Text, Reason>(
                    texts(tokens),
                ),
                trees(tokens) == methods_code(
                    self.methods@.take(i as int),
                    self.delegator,
                    call_site,
                ),
            decreases self.methods.len() - i,
        {
            proof {
                assert(all.take(i + 1).drop_last() =~= all.take(i as int));
                assert(all.take(i + 1).last() == self.methods@[i as int].text());
                assert(self.methods@.take(i + 1).drop_last() =~= self.methods@.take(i as int));
                assert(self.methods@.take(i + 1).last() == self.methods@[i as int]);
                lemma_methods_stay(texts(self.delegator), all, i + 1);
            }
            match self.methods[i].expand(&self.delegator, call_site) {
                Err(panic) => return Err(panic),
                Ok(function) => {
                    proof {
                        lemma_erase_add(trees(tokens), trees(function));
                    }
                    append(&mut tokens, &function);
                },
            }
            i += 1;
        }
        proof {
            assert(all.take(all.len() as int) =~= all);
            assert(self.methods@.take(all.len() as int) =~= self.methods@);
        }
        Ok(tokens)
    }
}

impl DelegationBlock {
    /// The code that the segments become. What is generated anew is at `call_site`.
    pub fn expand(&self, call_site: Span) -> (expanded: Result<TokenStream, Panic>)
        requires
            self.wf(),
        ensures
            expands_to(
                expanded,
                block_expansion(self.text()),
                segments_code(self.segments@, call_site),
            ),
    {
        let mut tokens: TokenStream = TokenStream::new();
        let ghost all = segment_texts(self.segments@);
        let mut i: usize = 0;
        proof {
            lemma_erase_all(trees(tokens));
            assert(all.take(0) =~= Seq::empty());
            assert(texts(tokens) =~= Seq::empty());
        }
        while i < self.segments.len()
            invariant
                i <= self.segments.len(),
                self.wf(),
                all == segment_texts(self.segments@),
                block_expansion(all.take(i as int)) == Ok::<Text, Reason>(texts(tokens)),
                trees(tokens) == segments_code(self.segments@.take(i as int), call_site),
            decreases self.segments.len() - i,
        {
            proof {
                assert(all.take(i + 1).drop_last() =~= all.take(i as int));
                assert(all.take(i + 1).last() == self.segments@[i as int].text());
                assert(self.segments@.take(i + 1).drop_last() =~= self.segments@.take(i as int));
                assert(self.segments@.take(i + 1).last() == self.segments@[i as int]);
                lemma_segments_stay(all, i + 1);
            }
            match self.segments[i].expand(call_site) {
                Err(panic) => return Err(panic),
                Ok(functions) => {
                    proof {
                        lemma_erase_add(trees(tokens), trees(functions));
                    }
                    append(&mut tokens, &functions);
                },
            }
            i += 1;
        }
        proof {
            assert(all.take(all.len() as int) =~= all);
            assert(self.segments@.take(all.len() as int) =~= self.segments@);
        }
        Ok(tokens)
    }
}

/// What the input of the macro comes to: the code that its segments become, a syntax error, or
/// nothing because the expansion is given up.
pub open spec fn expansion(tokens: Text) -> Parse<Text> {
    match whole(block_syntax(tokens)) {
        Parse::Failed(message) => Parse::Failed(message),
        Parse::Stopped(reason) => Parse::Stopped(reason),
        Parse::Parsed { value, rest, unexpected } => match block_expansion(value) {
            Ok(value) => Parse::Parsed { value, rest, unexpected },
            Err(reason) => Parse::Stopped(reason),
        },
    }
}

/// Whether code, with its spans, is what some segments with that text become: what they have of the
/// declarations is within the input, and what is generated anew is at one span.
pub open spec fn is_code_of(
    code: Seq<Tree<Span>>,
    segments: Seq<SegmentText>,
    input: Seq<Tree<Span>>,
) -> bool {
    exists|block: DelegationBlock, call_site: Span|
        block.text() == segments && block.is_from(input) && code == #[trigger] segments_code(
            block.segments@,
            call_site,
        )
}

/// Whether code reports an error in a segment of the input, and does so where it belongs.
pub open spec fn reports_in(code: TokenStream, input: TokenStream) -> bool {
    exists|error: SyntaxError|
        error.report == code && #[trigger] is_placed_in(error, trees(input))
}

/// Segments that are read are not given up for a literal.
proof fn lemma_honest(segments: Seq<SegmentText>)
    ensures
        block_expansion(segments) matches Err(reason) ==> is_honest(reason),
{
    if block_expansion(segments) is Err {
        let reason = block_expansion(segments)->Err_0;
        law_code_of_each_segment(segments);
        let i = choose|i: int|
            0 <= i < segments.len() && methods_expansion(
                (#[trigger] segments[i]).delegator,
                segments[i].methods,
            ) == Err::<Text, Reason>(reason) && forall|j: int|
                0 <= j < i ==> methods_expansion(
                    (#[trigger] segments[j]).delegator,
                    segments[j].methods,
                ) is Ok;
        let segment = segments[i];
        law_code_of_each_method(segment.delegator, segment.methods);
        let k = choose|k: int|
            0 <= k < segment.methods.len() && method_expansion(
                segment.delegator,
                #[trigger] segment.methods[k],
            ) == Err::<Text, Reason>(reason) && forall|j: int|
                0 <= j < k ==> method_expansion(
                    segment.delegator,
                    #[trigger] segment.methods[j],
                ) is Ok;
        let method = segment.methods[k];
        law_why_attributes_are_refused(method.attributes, method.ident);
    }
}

/// Expands the input of the macro: `to`, an expression and, in braces, the methods that are
/// delegated to it, as often as wanted.
///
/// A syntax error becomes a call of `compile_error!`. The expansion is given up where the input
/// asks for what cannot be done, and where `syn` cannot be given a part of it.
pub fn delegate(tokens: TokenStream) -> (expanded: Result<TokenStream, Panic>)
    ensures
        match expansion(texts(tokens)) {
            Parse::Parsed { value, .. } => {
                &&& expanded matches Ok(code)
                &&& texts(code) == value
                &&& block_syntax(texts(tokens)) matches Parse::Parsed { value: segments, .. }
                &&& is_code_of(trees(code), segments, trees(tokens))
            },
            Parse::Failed(message) => {
                &&& expanded matches Ok(code)
                &&& reports(texts(code), message, ())
                &&& block_syntax(texts(tokens)) is Failed ==> reports_in(code, tokens)
            },
            Parse::Stopped(reason) => expanded matches Err(panic) && panic@ == reason,
        },
        starts_wrong(texts(tokens)) ==> (expanded matches Ok(code) && reports_start(
            trees(code),
            trees(tokens),
        )),
        expanded matches Err(panic) ==> is_honest(panic@),
{
    match DelegationBlock::parse(&tokens) {
        Err(ParseError::Panic(panic)) => Err(panic),
        Err(ParseError::Syntax(error)) => Ok(error.report),
        Ok(block) => match block.unexpected {
            Some(error) => Ok(error.report),
            None => {
                let call_site = call_site();
                let expanded = block.value.expand(call_site);
                proof {
                    if expanded is Ok {
                        assert(trees(expanded->Ok_0) == segments_code(
                            block.value.segments@,
                            call_site,
                        ));
                    } else {
                        lemma_honest(block.value.text());
                    }
                }
                expanded
            },
        },
    }
}

} // verus!
