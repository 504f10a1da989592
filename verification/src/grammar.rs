//! What a parse can come to, and how single tokens are taken from the front of a stream.

use crate::outcome::{is_unexpected, Parsed};
use crate::report::SyntaxError;
use crate::stream::{append, call_site, split_first, texts, trees, Head, Split};
use crate::token::{
    all_within, erase, erase_all, flat, inside, is_end_of, lemma_end_behind_first, lemma_end_of_all,
    lemma_erase_all, lemma_erase_one, lemma_erase_skip, lemma_first_within, lemma_unwrapped_erase,
    lemma_unwrapped_skip, mark, unwrapped, Delimiter, Text, Tree,
};
use proc_macro2::{Span, TokenStream};
use vstd::prelude::*;

verus! {

/// What parsing tokens comes to.
pub enum Parse<V> {
    /// A value, the tokens behind it, and whether some group on the way held more tokens than
    /// were read.
    Parsed { value: V, rest: Text, unexpected: bool },
    /// No value: a syntax error with its message.
    Failed(Seq<char>),
    /// No value: the expansion is given up.
    Stopped(Reason),
}

/// Why an expansion is given up.
pub enum Reason {
    /// A parameter of the named method is no simple identifier.
    SimpleIdentifiers(Seq<char>),
    /// The named method comes with an implementation.
    Implementation(Seq<char>),
    /// The named method has more than one `call` attribute.
    MultipleCalls(Seq<char>),
    /// The named method has more than one `into` attribute.
    MultipleIntos(Seq<char>),
    /// A method has the attribute `target_method`, which `call` has replaced.
    TargetMethod,
    /// A method or an attribute has a syntax error with this message.
    Syntax(Seq<char>),
    /// There is a literal that the parser does not know.
    UnknownLiteral(Seq<char>),
    /// There is an attribute alone in an invisible group, in an expression or a type.
    LoneAttribute,
    /// There are parameters behind a `mut self` in a function pointer type.
    MutSelf,
}

/// What parsing comes to if some group has been left with tokens in it, or not, before it.
pub open spec fn after<V>(unexpected: bool, parse: Parse<V>) -> Parse<V> {
    match parse {
        Parse::Parsed { value, rest, unexpected: more } => Parse::Parsed {
            value,
            rest,
            unexpected: unexpected || more,
        },
        _ => parse,
    }
}

/// Parsing one thing and then, with its value, another in the tokens behind it.
pub open spec fn followed_by<V, W>(parse: Parse<V>, next: spec_fn(V, Text) -> Parse<W>) -> Parse<
    W,
> {
    match parse {
        Parse::Parsed { value, rest, unexpected } => after(unexpected, next(value, rest)),
        Parse::Failed(message) => Parse::Failed(message),
        Parse::Stopped(reason) => Parse::Stopped(reason),
    }
}

/// A parse with more values in front of those that it read.
pub open spec fn prefixed<V>(first: Seq<V>, parse: Parse<Seq<V>>) -> Parse<Seq<V>> {
    match parse {
        Parse::Parsed { value, rest, unexpected } => Parse::Parsed {
            value: first + value,
            rest,
            unexpected,
        },
        _ => parse,
    }
}

/// What was read so far goes in front of what is still to be read.
pub proof fn lemma_prefixed<V>(first: Seq<V>, second: Seq<V>, parse: Parse<Seq<V>>)
    ensures
        prefixed(first, prefixed(second, parse)) == prefixed(first + second, parse),
{
    match parse {
        Parse::Parsed { value, .. } => {
            assert(first + (second + value) =~= (first + second) + value);
        },
        _ => {},
    }
}

/// Nothing in front of what is read changes nothing.
pub proof fn lemma_prefixed_empty<V>(parse: Parse<Seq<V>>)
    ensures
        prefixed(Seq::empty(), parse) == parse,
{
    match parse {
        Parse::Parsed { value, .. } => {
            assert(Seq::empty() + value =~= value);
        },
        _ => {},
    }
}

/// The tokens behind an identifier or keyword at the front.
pub open spec fn keyword(tokens: Text, word: Seq<char>) -> Option<Text> {
    let opened = unwrapped(tokens);
    if opened.len() > 0 && opened[0] == Tree::Ident(word, ()) {
        Some(opened.skip(1))
    } else {
        None
    }
}

/// The tokens behind a punctuation character at the front.
pub open spec fn punct(tokens: Text, symbol: char) -> Option<Text> {
    let opened = unwrapped(tokens);
    if opened.len() > 0 && (opened[0] matches Tree::Punct(first, _, _) && first == symbol) {
        Some(opened.skip(1))
    } else {
        None
    }
}

/// The tokens inside a group at the front, and those behind it.
pub open spec fn group(tokens: Text, delimiter: Delimiter) -> Option<(Text, Text)> {
    let opened = unwrapped(tokens);
    if opened.len() > 0 && (opened[0] matches Tree::Group(first, _, _) && first == delimiter) {
        Some((inside(opened[0]), opened.skip(1)))
    } else {
        None
    }
}

/// The message of the error that something else was expected at the front of the tokens.
pub open spec fn expected(tokens: Text, message: Seq<char>) -> Seq<char> {
    if tokens.len() == 0 {
        "unexpected end of input, "@ + message
    } else {
        message
    }
}

/// Parsing a keyword or nothing: the keyword, if it is there.
pub open spec fn optional_keyword(tokens: Text, word: Seq<char>) -> Parse<Text> {
    match keyword(tokens, word) {
        Some(rest) => Parse::Parsed { value: seq![Tree::Ident(word, ())], rest, unexpected: false },
        None => Parse::Parsed { value: Seq::empty(), rest: tokens, unexpected: false },
    }
}

/// Parsing a keyword that has to be there.
pub open spec fn required_keyword(tokens: Text, word: Seq<char>, message: Seq<char>) -> Parse<
    Text,
> {
    match keyword(tokens, word) {
        Some(rest) => Parse::Parsed { value: seq![Tree::Ident(word, ())], rest, unexpected: false },
        None => Parse::Failed(expected(tokens, message)),
    }
}

/// Parsing a group that has to be there: the tokens inside it.
pub open spec fn required_group(
    tokens: Text,
    delimiter: Delimiter,
    message: Seq<char>,
) -> Parse<Text> {
    match group(tokens, delimiter) {
        Some((inner, rest)) => Parse::Parsed { value: inner, rest, unexpected: false },
        None => Parse::Failed(expected(tokens, message)),
    }
}

/// What parsing comes to if nothing but the value may be there: no token behind it, and none left
/// in a group.
pub open spec fn whole<V>(parse: Parse<V>) -> Parse<V> {
    match parse {
        Parse::Parsed { rest, unexpected, .. } => if unexpected || unwrapped(rest).len() > 0 {
            Parse::Failed("unexpected token"@)
        } else {
            parse
        },
        _ => parse,
    }
}

/// Taking the first visible tree leaves fewer trees.
pub proof fn lemma_behind_first(tokens: Text)
    requires
        unwrapped(tokens).len() > 0,
    ensures
        flat(unwrapped(tokens).skip(1)).len() < flat(tokens).len(),
{
    lemma_unwrapped_skip(tokens);
}

/// Whether there is a visible tree does not depend on spans.
pub proof fn lemma_first_is_there<S>(trees: Seq<Tree<S>>)
    ensures
        unwrapped(erase_all(trees)).len() == unwrapped(trees).len(),
{
    lemma_unwrapped_erase(trees);
    lemma_erase_all(unwrapped(trees));
}

/// A keyword or a punctuation character that was taken from the front of a stream.
pub struct Taken {
    pub token: TokenStream,
    pub span: Span,
    pub rest: TokenStream,
}

/// A group that was taken from the front of a stream.
pub struct TakenGroup {
    pub inner: TokenStream,
    pub span: Span,
    pub rest: TokenStream,
}

/// The error that something else was expected at the front of a stream: it is at the first token,
/// or where the macro is called if there is none.
pub(crate) fn expected_error(stream: &TokenStream, message: &str) -> (error: SyntaxError)
    ensures
        error.message@ == expected(texts(*stream), message@),
        error.wf(),
        trees(*stream).len() > 0 && !(trees(*stream)[0] is Group) ==> error.is_at(
            mark(trees(*stream)[0]),
        ),
{
    broadcast use lemma_erase_all;

    match split_first(stream) {
        None => {
            let mut text: String = "unexpected end of input, ".to_owned();
            text.append(message);
            SyntaxError::new(text, call_site())
        },
        Some(split) => {
            let span: Span = match &split.head {
                Head::Group { open, .. } => *open,
                head => head.span(),
            };
            SyntaxError::new(message.to_owned(), span)
        },
    }
}

/// The error that a stream holds a token too many, the first visible one, if there is one.
pub(crate) fn leftover(stream: &TokenStream) -> (error: Option<SyntaxError>)
    ensures
        error is Some <==> unwrapped(texts(*stream)).len() > 0,
        error matches Some(error) ==> is_unexpected(error) && error.is_at(
            mark(unwrapped(trees(*stream))[0]),
        ),
{
    broadcast use lemma_erase_all;

    let opened = unwrap_invisible(stream);
    match split_first(&opened) {
        None => None,
        Some(split) => {
            Some(SyntaxError::new("unexpected token".to_owned(), split.head.span()))
        },
    }
}

/// Whether two texts are the same.
pub(crate) fn same_text(text: &String, word: &str) -> (same: bool)
    ensures
        same == (text@ == word@),
{
    *text == word.to_owned()
}

/// Opens the invisible groups at the front of a stream.
pub fn unwrap_invisible(stream: &TokenStream) -> (opened: TokenStream)
    ensures
        trees(opened) == unwrapped(trees(*stream)),
        texts(opened) == unwrapped(texts(*stream)),
    decreases trees(*stream),
{
    proof {
        lemma_unwrapped_erase(trees(*stream));
    }
    match split_first(stream) {
        Some(
            Split { head: Head::Group { delimiter: Delimiter::Invisible, tokens, .. }, rest, .. },
        ) => {
            let mut opened = unwrap_invisible(&tokens);
            if opened.is_empty() {
                unwrap_invisible(&rest)
            } else {
                append(&mut opened, &rest);
                opened
            }
        },
        _ => stream.clone(),
    }
}

/// Takes a keyword from the front of a stream, if it is there.
pub fn take_keyword(stream: &TokenStream, word: &str) -> (taken: Option<Taken>)
    ensures
        match taken {
            Some(t) => {
                &&& keyword(texts(*stream), word@) == Some(texts(t.rest))
                &&& is_end_of(trees(t.rest), trees(*stream))
                &&& trees(t.token) == seq![unwrapped(trees(*stream))[0]]
                &&& t.span == mark(unwrapped(trees(*stream))[0])
                &&& texts(t.token) == seq![Tree::<()>::Ident(word@, ())]
            },
            None => keyword(texts(*stream), word@) is None,
        },
{
    broadcast use {lemma_erase_all, lemma_erase_skip, lemma_erase_one};

    let opened = unwrap_invisible(stream);
    match split_first(&opened) {
        Some(Split { head: Head::Ident { text, span }, first, rest }) => {
            assert(texts(opened)[0] == erase(trees(opened)[0]));
            if same_text(&text, word) {
                proof {
                    lemma_end_behind_first(trees(*stream));
                }
                Some(Taken { token: first, span, rest })
            } else {
                None
            }
        },
        Some(_) => {
            assert(texts(opened)[0] == erase(trees(opened)[0]));
            None
        },
        None => None,
    }
}

/// Parses a keyword or nothing.
pub fn parse_optional_keyword(stream: &TokenStream, word: &str) -> (parsed: Parsed<TokenStream>)
    ensures
        optional_keyword(texts(*stream), word@) == (Parse::Parsed {
            value: texts(parsed.value),
            rest: texts(parsed.rest),
            unexpected: false,
        }),
        parsed.unexpected is None,
        all_within(trees(parsed.value), trees(*stream)),
        is_end_of(trees(parsed.rest), trees(*stream)),
        flat(texts(parsed.rest)).len() <= flat(texts(*stream)).len(),
{
    match take_keyword(stream, word) {
        Some(taken) => {
            proof {
                lemma_behind_first(texts(*stream));
                lemma_first_is_there(trees(*stream));
                lemma_first_within(trees(*stream));
            }
            Parsed { value: taken.token, rest: taken.rest, unexpected: None }
        },
        None => {
            let nothing = TokenStream::new();
            proof {
                lemma_erase_all(trees(nothing));
                assert(texts(nothing) =~= Seq::empty());
                lemma_end_of_all(trees(*stream));
            }
            Parsed { value: nothing, rest: stream.clone(), unexpected: None }
        },
    }
}

/// Takes a punctuation character from the front of a stream, if it is there.
pub fn take_punct(stream: &TokenStream, symbol: char) -> (taken: Option<Taken>)
    ensures
        match taken {
            Some(t) => {
                &&& punct(texts(*stream), symbol) == Some(texts(t.rest))
                &&& is_end_of(trees(t.rest), trees(*stream))
                &&& trees(t.token) == seq![unwrapped(trees(*stream))[0]]
                &&& t.span == mark(unwrapped(trees(*stream))[0])
            },
            None => punct(texts(*stream), symbol) is None,
        },
{
    broadcast use {lemma_erase_all, lemma_erase_skip, lemma_erase_one};

    let opened = unwrap_invisible(stream);
    match split_first(&opened) {
        Some(Split { head: Head::Punct { symbol: found, span, .. }, first, rest }) => {
            assert(texts(opened)[0] == erase(trees(opened)[0]));
            if found == symbol {
                proof {
                    lemma_end_behind_first(trees(*stream));
                }
                Some(Taken { token: first, span, rest })
            } else {
                None
            }
        },
        Some(_) => {
            assert(texts(opened)[0] == erase(trees(opened)[0]));
            None
        },
        None => None,
    }
}

/// Takes a group from the front of a stream, if it is there.
pub fn take_group(stream: &TokenStream, delimiter: Delimiter) -> (taken: Option<TakenGroup>)
    ensures
        match taken {
            Some(t) => {
                &&& group(texts(*stream), delimiter) == Some((texts(t.inner), texts(t.rest)))
                &&& is_end_of(trees(t.rest), trees(*stream))
                &&& trees(t.inner) == inside(unwrapped(trees(*stream))[0])
                &&& t.span == mark(unwrapped(trees(*stream))[0])
            },
            None => group(texts(*stream), delimiter) is None,
        },
{
    broadcast use {lemma_erase_all, lemma_erase_skip, lemma_erase_one};

    let opened = unwrap_invisible(stream);
    match split_first(&opened) {
        Some(Split { head: Head::Group { delimiter: found, tokens, span, .. }, first, rest }) => {
            assert(texts(opened)[0] == erase(trees(opened)[0]));
            if found == delimiter {
                proof {
                    lemma_end_behind_first(trees(*stream));
                }
                Some(TakenGroup { inner: tokens, span, rest })
            } else {
                None
            }
        },
        Some(_) => {
            assert(texts(opened)[0] == erase(trees(opened)[0]));
            None
        },
        None => None,
    }
}

} // verus!
