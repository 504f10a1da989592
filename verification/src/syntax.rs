//! The pieces of Rust syntax that a delegation is made of. `syn` parses them and prints them.
//!
//! `syn` reads a piece from the front of a stream, and may leave tokens unread in a group on the
//! way; it reports that only when the whole macro input has been read. So each function here
//! hands out what was read, printed again, the tokens behind it, and the error at the first token
//! left unread. Some tokens it must not be given: see [`crate::trouble`].

use crate::grammar::{expected, keyword, punct, Parse};
use crate::outcome::{is_sound, is_unexpected, outcome, ParseError, Parsed};
use crate::report::SyntaxError;
use crate::stream::{texts, trees};
use crate::token::{
    all_within, flat, is_end_of, is_read, lemma_end_erase, lemma_end_of, unwrapped, Text, Tree,
};
use crate::trouble::{behind_attributes, is_keyword, known_literal, trouble};
use proc_macro2::{Span, TokenStream};
use quote::ToTokens;
use syn::parse::{ParseStream, Parser};
use syn::{FnArg as Argument, Pat};
use vstd::prelude::*;

verus! {

/// What `syn` read, with the tokens behind it, and the error that it ended with. If something was
/// read and there is an error, some group on the way held more tokens than were read.
pub struct Reading<T> {
    pub read: Option<(T, TokenStream)>,
    pub error: Option<SyntaxError>,
}

impl<T> Reading<T> {
    /// Whether something was read, or there is an error; the tokens behind what was read are the
    /// end of those that it was read from, and the error, if there is one, is what it has to be.
    pub open spec fn wf(self, tokens: TokenStream) -> bool {
        &&& self.error matches Some(error) ==> error.wf()
        &&& match self.read {
            Some((_, rest)) => {
                &&& is_end_of(trees(rest), trees(tokens))
                &&& self.error matches Some(error) ==> is_unexpected(error)
            },
            None => self.error is Some,
        }
    }

    /// What was read.
    pub open spec fn value(self) -> T {
        match self.read {
            Some((value, _)) => value,
            None => arbitrary(),
        }
    }

    /// What the reading comes to, where `value` stands for what was read.
    pub open spec fn outcome<V>(self, value: V) -> Parse<V> {
        match self.read {
            Some((_, rest)) => Parse::Parsed {
                value,
                rest: texts(rest),
                unexpected: self.error is Some,
            },
            None => Parse::Failed(self.error->0.message@),
        }
    }

    /// What the reading of some tokens comes to.
    pub(crate) fn parsed(self, tokens: &TokenStream) -> (parsed: Result<Parsed<T>, ParseError>)
        requires
            self.wf(*tokens),
        ensures
            forall|value: T| #[trigger] outcome(parsed, value) == self.outcome(value),
            is_sound(parsed),
            match self.read {
                Some((value, rest)) => {
                    &&& parsed matches Ok(p)
                    &&& p.value == value
                    &&& p.rest == rest
                    &&& p.unexpected == self.error
                    &&& is_end_of(trees(p.rest), trees(*tokens))
                    &&& flat(texts(p.rest)).len() <= flat(texts(*tokens)).len()
                },
                None => parsed == Err::<Parsed<T>, ParseError>(
                    ParseError::Syntax(self.error->0),
                ),
            },
    {
        match (self.read, self.error) {
            (Some((value, rest)), error) => {
                proof {
                    lemma_end_erase(trees(rest), trees(*tokens));
                    lemma_end_of(texts(rest), texts(*tokens));
                }
                Ok(Parsed { value, rest, unexpected: error })
            },
            (None, Some(error)) => Err(ParseError::Syntax(error)),
            (None, None) => vstd::pervasive::unreached(),
        }
    }
}

/// How `syn` parses an expression and prints it.
pub uninterp spec fn syn_expr(tokens: Text) -> Parse<Text>;

/// `Expr::parse`: parses an expression.
#[verifier::external_body]
pub(crate) fn read_expr(tokens: &TokenStream) -> (reading: Reading<TokenStream>)
    requires
        trouble(texts(*tokens)) is None,
    ensures
        syn_expr(texts(*tokens)) == reading.outcome(texts(reading.value())),
        reading.wf(*tokens),
{
    let mut read = None;
    let error = Parser::parse2(|input: ParseStream| -> syn::Result<()> {
        let expr: syn::Expr = input.parse()?;
        read = Some((expr.to_token_stream(), input.parse()?));
        Ok(())
    }, tokens.clone()).err().map(|e| SyntaxError { message: e.to_string(), report: e.to_compile_error() });
    Reading { read, error }
}

/// How `syn` parses an expression that a brace ends, and prints it.
pub uninterp spec fn syn_delegator(tokens: Text) -> Parse<Text>;

/// `Expr::parse_without_eager_brace`: parses an expression up to a brace that could start a block.
#[verifier::external_body]
pub(crate) fn read_delegator(tokens: &TokenStream) -> (reading: Reading<TokenStream>)
    requires
        trouble(texts(*tokens)) is None,
    ensures
        syn_delegator(texts(*tokens)) == reading.outcome(texts(reading.value())),
        reading.wf(*tokens),
{
    let mut read = None;
    let error = Parser::parse2(|input: ParseStream| -> syn::Result<()> {
        let expr = input.call(syn::Expr::parse_without_eager_brace)?;
        read = Some((expr.to_token_stream(), input.parse()?));
        Ok(())
    }, tokens.clone()).err().map(|e| SyntaxError { message: e.to_string(), report: e.to_compile_error() });
    Reading { read, error }
}

/// How `syn` parses a visibility and prints it.
pub uninterp spec fn syn_visibility(tokens: Text) -> Parse<Text>;

/// `Visibility::parse`: parses a visibility, which may be empty.
#[verifier::external_body]
pub(crate) fn read_visibility(tokens: &TokenStream) -> (reading: Reading<TokenStream>)
    ensures
        syn_visibility(texts(*tokens)) == reading.outcome(texts(reading.value())),
        reading.wf(*tokens),
{
    let mut read = None;
    let error = Parser::parse2(|input: ParseStream| -> syn::Result<()> {
        let visibility: syn::Visibility = input.parse()?;
        read = Some((visibility.to_token_stream(), input.parse()?));
        Ok(())
    }, tokens.clone()).err().map(|e| SyntaxError { message: e.to_string(), report: e.to_compile_error() });
    Reading { read, error }
}

/// How `syn` parses a binary interface, or nothing, and prints it.
pub uninterp spec fn syn_abi(tokens: Text) -> Parse<Text>;

/// The name of a binary interface behind `extern`, if it is a literal of a kind that `syn` does not
/// know.
pub open spec fn unknown_abi(tokens: Text) -> Option<Seq<char>> {
    match keyword(tokens, "extern"@) {
        Some(rest) => if unwrapped(rest).len() > 0 {
            match unwrapped(rest)[0] {
                Tree::Literal(text, _) => if known_literal(text) {
                    None
                } else {
                    Some(text)
                },
                _ => None,
            }
        } else {
            None
        },
        None => None,
    }
}

/// `Option::<Abi>::parse`: parses the binary interface that a function is declared with, if any.
#[verifier::external_body]
pub(crate) fn read_abi(tokens: &TokenStream) -> (reading: Reading<TokenStream>)
    requires
        unknown_abi(texts(*tokens)) is None,
    ensures
        syn_abi(texts(*tokens)) == reading.outcome(texts(reading.value())),
        reading.wf(*tokens),
{
    let mut read = None;
    let error = Parser::parse2(|input: ParseStream| -> syn::Result<()> {
        let abi: Option<syn::Abi> = input.parse()?;
        read = Some((abi.to_token_stream(), input.parse()?));
        Ok(())
    }, tokens.clone()).err().map(|e| SyntaxError { message: e.to_string(), report: e.to_compile_error() });
    Reading { read, error }
}

/// How `syn` parses generic parameters and prints them.
pub uninterp spec fn syn_generics(tokens: Text) -> Parse<Text>;

/// `Generics::parse`: parses generic parameters, of which there may be none. Without a `<` in
/// front it reads nothing.
#[verifier::external_body]
pub(crate) fn read_generics(tokens: &TokenStream) -> (reading: Reading<TokenStream>)
    requires
        punct(texts(*tokens), '<') is Some ==> trouble(texts(*tokens)) is None,
    ensures
        syn_generics(texts(*tokens)) == reading.outcome(texts(reading.value())),
        reading.wf(*tokens),
{
    let mut read = None;
    let error = Parser::parse2(|input: ParseStream| -> syn::Result<()> {
        let generics: syn::Generics = input.parse()?;
        read = Some((generics.to_token_stream(), input.parse()?));
        Ok(())
    }, tokens.clone()).err().map(|e| SyntaxError { message: e.to_string(), report: e.to_compile_error() });
    Reading { read, error }
}

/// How `syn` parses a where clause, or nothing, and prints it.
pub uninterp spec fn syn_where_clause(tokens: Text) -> Parse<Text>;

/// `Option::<WhereClause>::parse`: parses a where clause, if there is one. Without a `where` in
/// front it reads nothing.
#[verifier::external_body]
pub(crate) fn read_where_clause(tokens: &TokenStream) -> (reading: Reading<TokenStream>)
    requires
        keyword(texts(*tokens), "where"@) is Some ==> trouble(texts(*tokens)) is None,
    ensures
        syn_where_clause(texts(*tokens)) == reading.outcome(texts(reading.value())),
        reading.wf(*tokens),
{
    let mut read = None;
    let error = Parser::parse2(|input: ParseStream| -> syn::Result<()> {
        let clause: Option<syn::WhereClause> = input.parse()?;
        read = Some((clause.to_token_stream(), input.parse()?));
        Ok(())
    }, tokens.clone()).err().map(|e| SyntaxError { message: e.to_string(), report: e.to_compile_error() });
    Reading { read, error }
}

/// What a function returns.
pub struct ReturnType {
    /// The arrow and the type, or nothing.
    pub tokens: TokenStream,
    /// The type, if there is one.
    pub ty: Option<TokenStream>,
}

/// What a function returns, as text.
pub struct ReturnText {
    pub tokens: Text,
    pub ty: Option<Text>,
}

/// A stream that may be missing, as text.
pub open spec fn optional_text(stream: Option<TokenStream>) -> Option<Text> {
    match stream {
        Some(tokens) => Some(texts(tokens)),
        None => None,
    }
}

impl ReturnType {
    pub open spec fn text(self) -> ReturnText {
        ReturnText { tokens: texts(self.tokens), ty: optional_text(self.ty) }
    }
}

/// How `syn` parses a return type, or nothing, and prints it and its type.
pub uninterp spec fn syn_return_type(tokens: Text) -> Parse<ReturnText>;

/// `ReturnType::parse`: parses a return type, if there is one. Without an arrow in front it reads
/// nothing.
#[verifier::external_body]
pub(crate) fn read_return_type(tokens: &TokenStream) -> (reading: Reading<ReturnType>)
    requires
        punct(texts(*tokens), '-') is Some ==> trouble(texts(*tokens)) is None,
    ensures
        syn_return_type(texts(*tokens)) == reading.outcome(reading.value().text()),
        reading.wf(*tokens),
{
    let mut read = None;
    let error = Parser::parse2(|input: ParseStream| -> syn::Result<()> {
        let output: syn::ReturnType = input.parse()?;
        let ty = match &output {
            syn::ReturnType::Default => None,
            syn::ReturnType::Type(_, ty) => Some(ty.to_token_stream()),
        };
        read = Some((ReturnType { tokens: output.to_token_stream(), ty }, input.parse()?));
        Ok(())
    }, tokens.clone()).err().map(|e| SyntaxError { message: e.to_string(), report: e.to_compile_error() });
    Reading { read, error }
}

/// An identifier: its text, and the one token that it is.
pub struct Ident {
    pub text: String,
    pub token: TokenStream,
}

impl Ident {
    /// Whether the token is the identifier of that text.
    pub open spec fn wf(self) -> bool {
        texts(self.token) == seq![Tree::<()>::Ident(self.text@, ())]
    }
}

/// `Ident::parse`: parses an identifier that is no keyword, the first visible token. It takes
/// every word for one but those that [`is_keyword`] lists.
#[verifier::external_body]
pub(crate) fn read_ident(tokens: &TokenStream) -> (reading: Reading<Ident>)
    ensures
        match reading.read {
            Some((ident, rest)) => {
                &&& unwrapped(trees(*tokens)).len() > 0
                &&& trees(ident.token) == seq![unwrapped(trees(*tokens))[0]]
                &&& trees(rest) == unwrapped(trees(*tokens)).skip(1)
                &&& ident.wf()
                &&& !is_keyword(ident.text@)
                &&& reading.error is None
            },
            None => {
                &&& reading.error matches Some(e)
                &&& e.message@ == expected(texts(*tokens), "expected identifier"@)
                &&& e.wf()
                &&& unwrapped(texts(*tokens)).len() > 0 ==> (unwrapped(
                    texts(*tokens),
                )[0] matches Tree::Ident(text, _) ==> is_keyword(text))
            },
        },
{
    let mut read = None;
    let error = Parser::parse2(|input: ParseStream| -> syn::Result<()> {
        let ident: syn::Ident = input.parse()?;
        let token = ident.to_token_stream();
        read = Some((Ident { text: ident.to_string(), token }, input.parse()?));
        Ok(())
    }, tokens.clone()).err().map(|e| SyntaxError { message: e.to_string(), report: e.to_compile_error() });
    Reading { read, error }
}

/// What a parameter of a function is known by.
pub enum Parameter {
    /// It is a `self` without a type.
    Receiver,
    /// It is an identifier with a type.
    Name(Ident),
    /// It is another pattern with a type.
    Pattern,
}

/// What a parameter of a function is known by, as text.
pub enum ParameterText {
    Receiver,
    Name(Seq<char>),
    Pattern,
}

/// A parameter of a function: its tokens, and what it is known by.
pub struct FnArg {
    pub tokens: TokenStream,
    pub parameter: Parameter,
}

/// A parameter of a function, as text.
pub struct FnArgText {
    pub tokens: Text,
    pub parameter: ParameterText,
}

impl Parameter {
    pub open spec fn wf(self) -> bool {
        self matches Parameter::Name(ident) ==> ident.wf()
    }

    /// The identifier that it is known by, if it is one.
    pub open spec fn taken(self) -> Seq<Tree<Span>> {
        match self {
            Parameter::Name(ident) => trees(ident.token),
            _ => Seq::empty(),
        }
    }

    pub open spec fn text(self) -> ParameterText {
        match self {
            Parameter::Receiver => ParameterText::Receiver,
            Parameter::Name(ident) => ParameterText::Name(ident.text@),
            Parameter::Pattern => ParameterText::Pattern,
        }
    }
}

impl FnArg {
    pub open spec fn wf(self) -> bool {
        self.parameter.wf()
    }

    pub open spec fn text(self) -> FnArgText {
        FnArgText { tokens: texts(self.tokens), parameter: self.parameter.text() }
    }
}

/// How `syn` parses a parameter, prints it and finds what it is known by.
pub uninterp spec fn syn_fn_arg(tokens: Text) -> Parse<FnArgText>;

/// `FnArg::parse`: parses a parameter of a function. The attributes in front of it are kept as they
/// are. The identifier that it is known by is one of the tokens that were read.
#[verifier::external_body]
pub(crate) fn read_fn_arg(tokens: &TokenStream) -> (reading: Reading<FnArg>)
    requires
        trouble(behind_attributes(texts(*tokens))) is None,
    ensures
        syn_fn_arg(texts(*tokens)) == reading.outcome(reading.value().text()),
        reading.read matches Some((arg, rest)) ==> {
            &&& arg.wf()
            &&& arg.parameter matches Parameter::Name(ident) ==> is_read(
                trees(ident.token)[0],
                trees(rest),
                trees(*tokens),
            )
        },
        reading.wf(*tokens),
{
    let mut read = None;
    let error = Parser::parse2(|input: ParseStream| -> syn::Result<()> {
        let arg: Argument = input.parse()?;
        let parameter = match &arg {
            Argument::Receiver(_) => Parameter::Receiver,
            Argument::Typed(typed) => match &*typed.pat {
                Pat::Ident(p) => Parameter::Name(
                    Ident { text: p.ident.to_string(), token: p.ident.to_token_stream() }),
                _ => Parameter::Pattern,
            },
        };
        read = Some((FnArg { tokens: arg.to_token_stream(), parameter }, input.parse()?));
        Ok(())
    }, tokens.clone()).err().map(|e| SyntaxError { message: e.to_string(), report: e.to_compile_error() });
    Reading { read, error }
}

/// An attribute: its path, if that is a single identifier, the tokens behind the path, and all
/// its tokens.
pub struct Attribute {
    pub name: Option<String>,
    pub tokens: TokenStream,
    pub printed: TokenStream,
}

/// An attribute, as text.
pub struct AttributeText {
    pub name: Option<Seq<char>>,
    pub tokens: Text,
    pub printed: Text,
}

impl Attribute {
    pub open spec fn text(self) -> AttributeText {
        AttributeText {
            name: match self.name {
                Some(name) => Some(name@),
                None => None,
            },
            tokens: texts(self.tokens),
            printed: texts(self.printed),
        }
    }
}

/// Attributes as text, in the same order.
pub open spec fn attribute_texts(attributes: Seq<Attribute>) -> Seq<AttributeText> {
    attributes.map_values(|attribute: Attribute| attribute.text())
}

/// Whether what is behind the paths of attributes is within some trees.
pub open spec fn attributes_from(
    attributes: Seq<Attribute>,
    input: Seq<Tree<Span>>,
) -> bool {
    forall|i: int|
        0 <= i < attributes.len() ==> all_within(trees((#[trigger] attributes[i]).tokens), input)
}

/// How `syn` parses the attributes in front of an item, takes them apart and prints them.
pub uninterp spec fn syn_outer_attributes(tokens: Text) -> Parse<Seq<AttributeText>>;

/// `Attribute::parse_outer`: parses the attributes in front of an item, of which there may be
/// none. What is behind the path of each is taken from the tokens as it is.
#[verifier::external_body]
pub(crate) fn read_outer_attributes(tokens: &TokenStream) -> (reading: Reading<Vec<Attribute>>)
    ensures
        syn_outer_attributes(texts(*tokens)) == reading.outcome(attribute_texts(reading.value()@)),
        reading.read matches Some((attributes, _)) ==> attributes_from(
            attributes@,
            trees(*tokens),
        ),
        reading.wf(*tokens),
{
    let mut read = None;
    let error = Parser::parse2(|input: ParseStream| -> syn::Result<()> {
        let attributes = input.call(syn::Attribute::parse_outer)?;
        read = Some((attributes.into_iter().map(|attribute| Attribute {
            name: attribute.path.get_ident().map(|ident| ident.to_string()),
            printed: attribute.to_token_stream(),
            tokens: attribute.tokens,
        }).collect(), input.parse()?));
        Ok(())
    }, tokens.clone()).err().map(|e| SyntaxError { message: e.to_string(), report: e.to_compile_error() });
    Reading { read, error }
}

} // verus!
