//! Delegated methods.

use crate::attributes::{identifier, take_ident};
use crate::grammar::{
    expected_error, followed_by, lemma_behind_first, lemma_first_is_there, optional_keyword,
    parse_optional_keyword, punct, required_group, required_keyword, take_group, take_keyword,
    take_punct, unwrap_invisible, Parse, Reason,
};
use crate::input::{
    arguments, entries_from, entry_texts, inputs_syntax, parameter_trees, parameters, parse_inputs,
    passed_trees, split_inputs, stream_texts, stream_trees, DelegatedInput, InputText,
};
use crate::laws::law_arguments_in_order;
use crate::outcome::{earlier, is_sound, outcome, ParseError, Parsed};
use crate::panic::Panic;
use crate::piece::{in_front, read_in_front, Conditions, Generics, Output};
use crate::stream::{append, covering_span, push_group, split_first, texts, trees, Head, Split};
use crate::syntax::{
    attribute_texts, attributes_from, read_abi, read_outer_attributes, read_visibility, syn_abi,
    syn_outer_attributes, syn_visibility, unknown_abi, Attribute, AttributeText, Ident, ReturnText,
    ReturnType,
};
use crate::token::{
    all_within, covers, erase, erase_all, flat, inside, is_end_of, lemma_covers_both,
    lemma_covers_end, lemma_covers_parts, lemma_end_of_end, lemma_erase_add, lemma_erase_all,
    lemma_erase_one, lemma_erase_skip, lemma_first_within, lemma_flat_add, lemma_unwrapped_erase,
    mark, unwrapped, within, Delimiter, Text, Tree,
};
use crate::trouble::{is_group, is_known_literal, is_symbol};
use crate::trouble_laws::law_known_literals;
use proc_macro2::{Span, TokenStream};
use vstd::prelude::*;

verus! {

/// The parts of a signature in front of its parameter list, and what stands in front of it.
pub struct Header {
    pub attributes: Vec<Attribute>,
    pub visibility: TokenStream,
    pub constness: TokenStream,
    pub asyncness: TokenStream,
    pub unsafety: TokenStream,
    pub abi: TokenStream,
    pub fn_token: TokenStream,
    pub ident: Ident,
    pub generics: TokenStream,
}

/// A header, as text.
pub struct HeaderText {
    pub attributes: Seq<AttributeText>,
    pub visibility: Text,
    pub constness: Text,
    pub asyncness: Text,
    pub unsafety: Text,
    pub abi: Text,
    pub fn_token: Text,
    pub ident: Seq<char>,
    pub generics: Text,
}

impl Header {
    /// Whether what is behind the paths of the attributes, and the keywords and the name, are
    /// within some trees.
    pub open spec fn is_from(self, input: Seq<Tree<Span>>) -> bool {
        &&& attributes_from(self.attributes@, input)
        &&& all_within(trees(self.constness), input)
        &&& all_within(trees(self.asyncness), input)
        &&& all_within(trees(self.unsafety), input)
        &&& all_within(trees(self.fn_token), input)
        &&& all_within(trees(self.ident.token), input)
    }

    pub open spec fn text(self) -> HeaderText {
        HeaderText {
            attributes: attribute_texts(self.attributes@),
            visibility: texts(self.visibility),
            constness: texts(self.constness),
            asyncness: texts(self.asyncness),
            unsafety: texts(self.unsafety),
            abi: texts(self.abi),
            fn_token: texts(self.fn_token),
            ident: self.ident.text@,
            generics: texts(self.generics),
        }
    }
}

/// Parsing a binary interface, if there is one, unless its name is a literal of an unknown kind.
pub open spec fn abi_syntax(tokens: Text) -> Parse<Text> {
    match unknown_abi(tokens) {
        Some(text) => Parse::Stopped(Reason::UnknownLiteral(text)),
        None => syn_abi(tokens),
    }
}

/// Parses a binary interface, if there is one.
fn parse_abi(input: &TokenStream) -> (parsed: Result<Parsed<TokenStream>, ParseError>)
    ensures
        abi_syntax(texts(*input)) == outcome(parsed, texts(parsed->Ok_0.value)),
        is_sound(parsed),
        parsed matches Ok(p) ==> {
            &&& is_end_of(trees(p.rest), trees(*input))
            &&& flat(texts(p.rest)).len() <= flat(texts(*input)).len()
        },
{
    broadcast use lemma_erase_all;

    if let Some(taken) = take_keyword(input, "extern") {
        let opened = unwrap_invisible(&taken.rest);
        match split_first(&opened) {
            Some(Split { head: Head::Literal { text, .. }, .. }) => {
                assert(texts(opened)[0] == erase(trees(opened)[0]));
                if !is_known_literal(text.as_str()) {
                    proof {
                        law_known_literals(text@);
                    }
                    return Err(ParseError::Panic(Panic::UnknownLiteral(text)));
                }
            },
            Some(_) => {
                assert(texts(opened)[0] == erase(trees(opened)[0]));
            },
            None => {},
        }
    }
    read_abi(input).parsed(input)
}

/// Parsing a header.
pub open spec fn header_syntax(tokens: Text) -> Parse<HeaderText> {
    followed_by(syn_outer_attributes(tokens), |attributes: Seq<AttributeText>, tokens: Text|
    followed_by(syn_visibility(tokens), |visibility: Text, tokens: Text|
    followed_by(optional_keyword(tokens, "const"@), |constness: Text, tokens: Text|
    followed_by(optional_keyword(tokens, "async"@), |asyncness: Text, tokens: Text|
    followed_by(optional_keyword(tokens, "unsafe"@), |unsafety: Text, tokens: Text|
    followed_by(abi_syntax(tokens), |abi: Text, tokens: Text|
    followed_by(required_keyword(tokens, "fn"@, "expected `fn`"@), |fn_token: Text, tokens: Text|
    followed_by(identifier(tokens), |ident: Seq<char>, tokens: Text|
    followed_by(in_front::<Generics>(tokens, 0), |generics: Text, tokens: Text|
        Parse::Parsed {
            value: HeaderText {
                attributes,
                visibility,
                constness,
                asyncness,
                unsafety,
                abi,
                fn_token,
                ident,
                generics,
            },
            rest: tokens,
            unexpected: false,
        })))))))))
}

/// Parses a header.
fn parse_header(input: &TokenStream) -> (parsed: Result<Parsed<Header>, ParseError>)
    ensures
        header_syntax(texts(*input)) == outcome(parsed, parsed->Ok_0.value.text()),
        is_sound(parsed),
        parsed matches Ok(p) ==> {
            &&& p.value.ident.wf()
            &&& p.value.is_from(trees(*input))
            &&& is_end_of(trees(p.rest), trees(*input))
            &&& flat(texts(p.rest)).len() < flat(texts(*input)).len()
        },
{
    let attributes = match read_outer_attributes(input).parsed(input) {
        Ok(parsed) => parsed,
        Err(error) => return Err(error),
    };
    let visibility = match read_visibility(&attributes.rest).parsed(&attributes.rest) {
        Ok(parsed) => parsed,
        Err(error) => return Err(error),
    };
    let constness = parse_optional_keyword(&visibility.rest, "const");
    let asyncness = parse_optional_keyword(&constness.rest, "async");
    let unsafety = parse_optional_keyword(&asyncness.rest, "unsafe");
    let abi = match parse_abi(&unsafety.rest) {
        Ok(parsed) => parsed,
        Err(error) => return Err(error),
    };
    let fn_token = match take_keyword(&abi.rest, "fn") {
        Some(taken) => taken,
        None => return Err(ParseError::Syntax(expected_error(&abi.rest, "expected `fn`"))),
    };
    proof {
        lemma_behind_first(texts(abi.rest));
        lemma_first_is_there(trees(abi.rest));
        lemma_first_within(trees(abi.rest));
    }
    let ident = match take_ident(&fn_token.rest) {
        Ok(parsed) => parsed,
        Err(error) => return Err(ParseError::Syntax(error)),
    };
    let generics = match read_in_front::<Generics>(&ident.rest) {
        Ok(parsed) => parsed,
        Err(error) => return Err(error),
    };
    proof {
        let all = trees(*input);
        lemma_covers_end(trees(attributes.rest), all);
        lemma_end_of_end(trees(visibility.rest), trees(attributes.rest), all);
        lemma_covers_end(trees(visibility.rest), all);
        lemma_end_of_end(trees(constness.rest), trees(visibility.rest), all);
        lemma_covers_end(trees(constness.rest), all);
        lemma_end_of_end(trees(asyncness.rest), trees(constness.rest), all);
        lemma_covers_end(trees(asyncness.rest), all);
        lemma_end_of_end(trees(unsafety.rest), trees(asyncness.rest), all);
        lemma_end_of_end(trees(abi.rest), trees(unsafety.rest), all);
        lemma_covers_end(trees(abi.rest), all);
        lemma_end_of_end(trees(fn_token.rest), trees(abi.rest), all);
        lemma_covers_end(trees(fn_token.rest), all);
        lemma_end_of_end(trees(ident.rest), trees(fn_token.rest), all);
        lemma_end_of_end(trees(generics.rest), trees(ident.rest), all);
    }
    let early = earlier(attributes.unexpected, visibility.unexpected);
    let unexpected = earlier(early, earlier(abi.unexpected, generics.unexpected));
    Ok(
        Parsed {
            value: Header {
                attributes: attributes.value,
                visibility: visibility.value,
                constness: constness.value,
                asyncness: asyncness.value,
                unsafety: unsafety.value,
                abi: abi.value,
                fn_token: fn_token.token,
                ident: ident.value,
                generics: generics.value,
            },
            rest: generics.rest,
            unexpected,
        },
    )
}

/// The parts of a signature, in the order in which they stand.
pub struct SignatureParts<S> {
    pub constness: Seq<Tree<S>>,
    pub asyncness: Seq<Tree<S>>,
    pub unsafety: Seq<Tree<S>>,
    pub abi: Seq<Tree<S>>,
    pub fn_token: Seq<Tree<S>>,
    pub ident: Seq<Tree<S>>,
    pub generics: Seq<Tree<S>>,
    pub inputs: Seq<Tree<S>>,
    pub paren: S,
    /// The arrow and the type that is returned, or nothing.
    pub output: Seq<Tree<S>>,
    /// The type that is returned, if there is one.
    pub ty: Option<Seq<Tree<S>>>,
    pub where_clause: Seq<Tree<S>>,
}

/// The tokens of a signature.
pub open spec fn signature_tokens<S>(parts: SignatureParts<S>) -> Seq<Tree<S>> {
    parts.constness + parts.asyncness + parts.unsafety + parts.abi + parts.fn_token + parts.ident
        + parts.generics + seq![Tree::Group(Delimiter::Parenthesis, parts.inputs, parts.paren)]
        + parts.output + parts.where_clause
}

/// The parts of a signature without their spans.
pub open spec fn erase_signature<S>(parts: SignatureParts<S>) -> SignatureParts<()> {
    SignatureParts {
        constness: erase_all(parts.constness),
        asyncness: erase_all(parts.asyncness),
        unsafety: erase_all(parts.unsafety),
        abi: erase_all(parts.abi),
        fn_token: erase_all(parts.fn_token),
        ident: erase_all(parts.ident),
        generics: erase_all(parts.generics),
        inputs: erase_all(parts.inputs),
        paren: (),
        output: erase_all(parts.output),
        ty: match parts.ty {
            Some(ty) => Some(erase_all(ty)),
            None => None,
        },
        where_clause: erase_all(parts.where_clause),
    }
}

/// The signature of a delegated method: of its parameter list, only the parameters.
pub struct Signature {
    pub constness: TokenStream,
    pub asyncness: TokenStream,
    pub unsafety: TokenStream,
    pub abi: TokenStream,
    pub fn_token: TokenStream,
    pub ident: Ident,
    pub generics: TokenStream,
    pub inputs: TokenStream,
    pub paren: Span,
    pub output: ReturnType,
    pub where_clause: TokenStream,
}

impl Signature {
    pub open spec fn parts(self) -> SignatureParts<Span> {
        SignatureParts {
            constness: trees(self.constness),
            asyncness: trees(self.asyncness),
            unsafety: trees(self.unsafety),
            abi: trees(self.abi),
            fn_token: trees(self.fn_token),
            ident: trees(self.ident.token),
            generics: trees(self.generics),
            inputs: trees(self.inputs),
            paren: self.paren,
            output: trees(self.output.tokens),
            ty: match self.output.ty {
                Some(ty) => Some(trees(ty)),
                None => None,
            },
            where_clause: trees(self.where_clause),
        }
    }

    /// The tokens of the signature.
    pub fn to_tokens(&self) -> (tokens: TokenStream)
        ensures
            trees(tokens) == signature_tokens(self.parts()),
    {
        let mut tokens: TokenStream = self.constness.clone();
        append(&mut tokens, &self.asyncness);
        append(&mut tokens, &self.unsafety);
        append(&mut tokens, &self.abi);
        append(&mut tokens, &self.fn_token);
        append(&mut tokens, &self.ident.token);
        append(&mut tokens, &self.generics);
        let ghost front = trees(tokens);
        push_group(&mut tokens, Delimiter::Parenthesis, &self.inputs, self.paren);
        assert(trees(tokens) =~= front + seq![
            Tree::Group(Delimiter::Parenthesis, trees(self.inputs), self.paren),
        ]);
        append(&mut tokens, &self.output.tokens);
        append(&mut tokens, &self.where_clause);
        tokens
    }
}

/// A delegated method.
pub struct DelegatedMethod {
    pub attributes: Vec<Attribute>,
    pub visibility: TokenStream,
    pub signature: Signature,
    /// The arguments of the call to which the method delegates.
    pub arguments: Vec<TokenStream>,
    /// A span that covers the method, from its signature on.
    pub span: Span,
}

/// Whether parameters and arguments are those that the entries of a parameter list become: the
/// parameters among them; and the expressions in square brackets and the names of the parameters,
/// each as it is in the list.
pub open spec fn passes_on(
    inputs: TokenStream,
    arguments: Seq<TokenStream>,
    list: Seq<Tree<Span>>,
) -> bool {
    exists|entries: Seq<(DelegatedInput, Option<Span>)>| #[trigger]
        entries_from(entries, list) && trees(inputs) == parameter_trees(entries) && stream_trees(
            arguments,
        ) == passed_trees(entries) && (
        inputs_syntax(erase_all(list)) matches Parse::Parsed { value, .. } && value == entry_texts(
            entries,
        ))
}

/// A delegated method, as text.
pub struct MethodText {
    pub attributes: Seq<AttributeText>,
    pub visibility: Text,
    pub ident: Seq<char>,
    pub signature: SignatureParts<()>,
    pub arguments: Seq<Text>,
}

impl DelegatedMethod {
    pub open spec fn wf(self) -> bool {
        self.signature.ident.wf()
    }

    /// Whether what the method has of its declaration is within some trees: what is behind the
    /// paths of its attributes, the keywords in front of its name, the name, the parentheses of
    /// its parameter list and, in these, the names of the parameters that it passes on.
    pub open spec fn is_from(self, input: Seq<Tree<Span>>) -> bool {
        &&& attributes_from(self.attributes@, input)
        &&& all_within(trees(self.signature.constness), input)
        &&& all_within(trees(self.signature.asyncness), input)
        &&& all_within(trees(self.signature.unsafety), input)
        &&& all_within(trees(self.signature.fn_token), input)
        &&& all_within(trees(self.signature.ident.token), input)
        &&& exists|list: Tree<Span>| #[trigger]
            within(list, input) && is_group(list, Delimiter::Parenthesis) && mark(list)
                == self.signature.paren && passes_on(
                self.signature.inputs,
                self.arguments@,
                inside(list),
            )
    }

    pub open spec fn text(self) -> MethodText {
        MethodText {
            attributes: attribute_texts(self.attributes@),
            visibility: texts(self.visibility),
            ident: self.signature.ident.text@,
            signature: erase_signature(self.signature.parts()),
            arguments: stream_texts(self.arguments@),
        }
    }
}

/// The method that a header, parameters, the arguments of the call and what follows the parameter
/// list make.
pub open spec fn method_text(
    header: HeaderText,
    inputs: Text,
    arguments: Seq<Text>,
    output: ReturnText,
    where_clause: Text,
) -> MethodText {
    MethodText {
        attributes: header.attributes,
        visibility: header.visibility,
        ident: header.ident,
        signature: SignatureParts {
            constness: header.constness,
            asyncness: header.asyncness,
            unsafety: header.unsafety,
            abi: header.abi,
            fn_token: header.fn_token,
            ident: seq![Tree::Ident(header.ident, ())],
            generics: header.generics,
            inputs,
            paren: (),
            output: output.tokens,
            ty: output.ty,
            where_clause,
        },
        arguments,
    }
}

/// Parsing the declaration of a method: a signature without a body, with its attributes and
/// visibility.
pub open spec fn declaration_syntax(tokens: Text) -> Parse<MethodText> {
    followed_by(header_syntax(tokens), |header: HeaderText, tokens: Text|
    followed_by(required_group(tokens, Delimiter::Parenthesis, "expected parentheses"@),
        |inner: Text, tokens: Text|
    followed_by(inputs_syntax(inner), |entries: Seq<(InputText, bool)>, left: Text|
        match arguments(entries, header.ident) {
            Err(reason) => Parse::Stopped(reason),
            Ok(arguments) =>
                followed_by(in_front::<Output>(tokens, 0),
                    |output: ReturnText, tokens: Text|
                followed_by(in_front::<Conditions>(tokens, 0),
                    |where_clause: Text, tokens: Text|
                    match punct(tokens, ';') {
                        Some(rest) => Parse::Parsed {
                            value: method_text(
                                header,
                                parameters(entries),
                                arguments,
                                output,
                                where_clause,
                            ),
                            rest,
                            unexpected: false,
                        },
                        None => Parse::Stopped(Reason::Implementation(header.ident)),
                    })),
        })))
}

/// The number of trees up to the first semicolon, and with it: no declaration goes on behind it.
/// All of them, if there is none.
pub open spec fn declaration_len(tokens: Text) -> nat
    decreases tokens.len(),
{
    if tokens.len() == 0 {
        0
    } else if is_symbol(tokens[0], ';') {
        1
    } else {
        1 + declaration_len(tokens.skip(1))
    }
}

/// A parse with more tokens behind those that it left.
pub open spec fn with_more<V>(parse: Parse<V>, more: Text) -> Parse<V> {
    match parse {
        Parse::Parsed { value, rest, unexpected } => Parse::Parsed {
            value,
            rest: rest + more,
            unexpected,
        },
        _ => parse,
    }
}

/// Parsing a delegated method: a declaration, up to the first semicolon. What is behind it does
/// not matter.
pub open spec fn method_syntax(tokens: Text) -> Parse<MethodText> {
    let n = declaration_len(tokens) as int;
    with_more(declaration_syntax(tokens.take(n)), tokens.skip(n))
}

/// A declaration is no longer than the tokens.
pub proof fn lemma_declaration_len(tokens: Text)
    ensures
        declaration_len(tokens) <= tokens.len(),
    decreases tokens.len(),
{
    if tokens.len() > 0 {
        lemma_declaration_len(tokens.skip(1));
    }
}

/// Parts a stream behind its first semicolon.
fn split_declaration(stream: &TokenStream) -> (split: (TokenStream, TokenStream))
    ensures
        ({
            let n = declaration_len(texts(*stream)) as int;
            &&& trees(split.0) == trees(*stream).take(n)
            &&& trees(split.1) == trees(*stream).skip(n)
            &&& texts(split.0) == texts(*stream).take(n)
            &&& texts(split.1) == texts(*stream).skip(n)
        }),
{
    let mut front: TokenStream = TokenStream::new();
    let mut behind: TokenStream = stream.clone();
    let ghost all = texts(*stream);
    let ghost mut n: int = 0;
    proof {
        lemma_erase_all(trees(*stream));
        lemma_erase_all(trees(front));
        assert(texts(front) =~= all.take(0));
        assert(all.skip(0) =~= all);
        assert(trees(front) =~= trees(*stream).take(0));
        assert(trees(behind) =~= trees(*stream).skip(0));
    }
    loop
        invariant
            all == texts(*stream),
            0 <= n <= all.len(),
            all.len() == trees(*stream).len(),
            trees(front) == trees(*stream).take(n),
            trees(behind) == trees(*stream).skip(n),
            texts(front) == all.take(n),
            texts(behind) == all.skip(n),
            declaration_len(all) == n + declaration_len(all.skip(n)),
        decreases all.len() - n,
    {
        proof {
            lemma_erase_all(trees(behind));
        }
        let split = match split_first(&behind) {
            None => {
                assert(declaration_len(all) == n);
                return (front, behind);
            },
            Some(split) => split,
        };
        proof {
            lemma_erase_skip(trees(behind), 1);
            lemma_erase_add(trees(front), trees(split.first));
            lemma_erase_one(trees(behind)[0]);
            assert(texts(behind)[0] == erase(split.head.tree()));
            assert(texts(split.rest) =~= all.skip(n + 1));
            assert(all.skip(n).skip(1) =~= all.skip(n + 1));
            assert(texts(front) + texts(split.first) =~= all.take(n + 1));
            assert(trees(split.rest) =~= trees(*stream).skip(n + 1));
            assert(trees(front) + trees(split.first) =~= trees(*stream).take(n + 1));
            n = n + 1;
        }
        append(&mut front, &split.first);
        behind = split.rest;
        if let Head::Punct { symbol: ';', .. } = split.head {
            assert(declaration_len(all) == n);
            return (front, behind);
        }
    }
}

/// What a method has of its declaration is within all that covers the declaration.
pub proof fn lemma_from_covered(
    method: DelegatedMethod,
    inner: Seq<Tree<Span>>,
    outer: Seq<Tree<Span>>,
)
    requires
        method.is_from(inner),
        covers(outer, inner),
    ensures
        method.is_from(outer),
{
    let list = choose|list: Tree<Span>| #[trigger]
        within(list, inner) && is_group(list, Delimiter::Parenthesis) && mark(list)
            == method.signature.paren && passes_on(
            method.signature.inputs,
            method.arguments@,
            inside(list),
        );
    assert(within(list, outer));
}

impl DelegatedMethod {
    /// Puts a method together: its header, the parameters, at `paren`, and the arguments of the
    /// call, and what follows the parameter list, up to the semicolon.
    pub fn assemble(
        header: Header,
        inputs: TokenStream,
        paren: Span,
        arguments: Vec<TokenStream>,
        output: ReturnType,
        where_clause: TokenStream,
        semi: &TokenStream,
    ) -> (method: DelegatedMethod)
        requires
            header.ident.wf(),
        ensures
            method.text() == method_text(
                header.text(),
                texts(inputs),
                stream_texts(arguments@),
                output.text(),
                texts(where_clause),
            ),
            method.wf(),
            method.attributes == header.attributes,
            method.visibility == header.visibility,
            method.arguments == arguments,
            method.signature == (Signature {
                constness: header.constness,
                asyncness: header.asyncness,
                unsafety: header.unsafety,
                abi: header.abi,
                fn_token: header.fn_token,
                ident: header.ident,
                generics: header.generics,
                inputs,
                paren,
                output,
                where_clause,
            }),
    {
        let signature = Signature {
            constness: header.constness,
            asyncness: header.asyncness,
            unsafety: header.unsafety,
            abi: header.abi,
            fn_token: header.fn_token,
            ident: header.ident,
            generics: header.generics,
            inputs,
            paren,
            output,
            where_clause,
        };
        let mut covered: TokenStream = signature.to_tokens();
        append(&mut covered, semi);
        let span = covering_span(&covered);
        DelegatedMethod {
            attributes: header.attributes,
            visibility: header.visibility,
            signature,
            arguments,
            span,
        }
    }

    /// Parses a declaration.
    fn parse_declaration(input: &TokenStream) -> (parsed: Result<
        Parsed<DelegatedMethod>,
        ParseError,
    >)
        ensures
            declaration_syntax(texts(*input)) == outcome(parsed, parsed->Ok_0.value.text()),
            is_sound(parsed),
            parsed matches Ok(p) ==> {
                &&& p.value.wf()
                &&& p.value.is_from(trees(*input))
                &&& is_end_of(trees(p.rest), trees(*input))
                &&& flat(texts(p.rest)).len() < flat(texts(*input)).len()
            },
    {
        let header = match parse_header(input) {
            Ok(parsed) => parsed,
            Err(error) => return Err(error),
        };
        let parens = match take_group(&header.rest, Delimiter::Parenthesis) {
            Some(taken) => taken,
            None => return Err(
                ParseError::Syntax(expected_error(&header.rest, "expected parentheses")),
            ),
        };
        proof {
            lemma_behind_first(texts(header.rest));
        }
        let entries = match parse_inputs(&parens.inner) {
            Ok(parsed) => parsed,
            Err(error) => return Err(error),
        };
        proof {
            law_arguments_in_order(entry_texts(entries.value@), header.value.ident.text@);
        }
        let (inputs, arguments) = match split_inputs(&entries.value, &header.value.ident) {
            Ok(split) => split,
            Err(panic) => return Err(ParseError::Panic(panic)),
        };
        let output = match read_in_front::<Output>(&parens.rest) {
            Ok(parsed) => parsed,
            Err(error) => return Err(error),
        };
        let where_clause = match read_in_front::<Conditions>(&output.rest) {
            Ok(parsed) => parsed,
            Err(error) => return Err(error),
        };
        let semi = match take_punct(&where_clause.rest, ';') {
            Some(taken) => taken,
            None => return Err(
                ParseError::Panic(Panic::Implementation(header.value.ident.text)),
            ),
        };
        proof {
            lemma_behind_first(texts(where_clause.rest));
            let all = trees(*input);
            let list = unwrapped(trees(header.rest))[0];
            lemma_first_is_there(trees(header.rest));
            lemma_first_within(trees(header.rest));
            lemma_covers_end(trees(header.rest), all);
            assert(within(list, all));
            lemma_erase_all(unwrapped(trees(header.rest)));
            lemma_unwrapped_erase(trees(header.rest));
            assert(erase(list) == unwrapped(texts(header.rest))[0]);
            assert(entries_from(entries.value@, inside(list)));
            assert(passes_on(inputs, arguments@, inside(list)));
            lemma_end_of_end(trees(parens.rest), trees(header.rest), all);
            lemma_end_of_end(trees(output.rest), trees(parens.rest), all);
            lemma_end_of_end(trees(where_clause.rest), trees(output.rest), all);
            lemma_end_of_end(trees(semi.rest), trees(where_clause.rest), all);
        }
        let early = earlier(header.unexpected, entries.unexpected);
        let unexpected = earlier(early, earlier(output.unexpected, where_clause.unexpected));
        let method = DelegatedMethod::assemble(
            header.value,
            inputs,
            parens.span,
            arguments,
            output.value,
            where_clause.value,
            &semi.token,
        );
        Ok(Parsed { value: method, rest: semi.rest, unexpected })
    }

    /// Parses a delegated method.
    pub fn parse(input: &TokenStream) -> (parsed: Result<Parsed<DelegatedMethod>, ParseError>)
        ensures
            method_syntax(texts(*input)) == outcome(parsed, parsed->Ok_0.value.text()),
            is_sound(parsed),
            parsed matches Ok(p) ==> {
                &&& p.value.wf()
                &&& p.value.is_from(trees(*input))
                &&& covers(trees(*input), trees(p.rest))
                &&& flat(texts(p.rest)).len() < flat(texts(*input)).len()
            },
    {
        let (declaration, behind) = split_declaration(input);
        match DelegatedMethod::parse_declaration(&declaration) {
            Err(error) => Err(error),
            Ok(method) => {
                let mut rest: TokenStream = method.rest;
                proof {
                    let all = texts(*input);
                    let n = declaration_len(all) as int;
                    lemma_declaration_len(all);
                    lemma_erase_add(trees(rest), trees(behind));
                    lemma_flat_add(texts(rest), texts(behind));
                    lemma_flat_add(all.take(n), all.skip(n));
                    assert(all.take(n) + all.skip(n) =~= all);
                    lemma_covers_parts(trees(declaration), trees(behind));
                    lemma_erase_all(trees(*input));
                    assert(trees(declaration) + trees(behind) =~= trees(*input));
                    lemma_from_covered(method.value, trees(declaration), trees(*input));
                    lemma_covers_end(trees(rest), trees(declaration));
                    lemma_covers_both(trees(rest), trees(behind), trees(*input));
                }
                append(&mut rest, &behind);
                Ok(Parsed { value: method.value, rest, unexpected: method.unexpected })
            },
        }
    }
}

} // verus!
