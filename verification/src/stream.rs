//! Token streams of `proc_macro2`, and how they are read and built.

use crate::token::{erase_all, mark, Delimiter, Text, Tree};
use proc_macro2::{Group, Ident, Punct, Spacing, Span, TokenStream, TokenTree};
use quote::{ToTokens, TokenStreamExt};
use syn::spanned::Spanned;
use vstd::prelude::*;

verus! {

/// `TokenStream` of `proc_macro2`, a sequence of token trees. What it holds is [`trees`].
#[verifier::external_type_specification]
#[verifier::external_body]
pub struct ExTokenStream(proc_macro2::TokenStream);

/// `Span` of `proc_macro2`, a place in the source code. It is carried along, and never looked into.
#[verifier::external_type_specification]
#[verifier::external_body]
pub struct ExSpan(proc_macro2::Span);

/// The token trees that a stream holds, in order. Its identifiers, punctuation and literals are
/// those of Rust: a stream is lexed, or built of tokens that are.
pub uninterp spec fn trees(stream: TokenStream) -> Seq<Tree<Span>>;

/// The tokens of a stream without their spans.
pub open spec fn texts(stream: TokenStream) -> Text {
    erase_all(trees(stream))
}

/// `TokenStream::new`: a stream that holds nothing.
pub assume_specification[ TokenStream::new ]() -> (stream: TokenStream)
    ensures
        trees(stream) == Seq::<Tree<Span>>::empty(),
;

/// `TokenStream::is_empty`: whether a stream holds nothing.
pub assume_specification[ TokenStream::is_empty ](stream: &TokenStream) -> (empty: bool)
    ensures
        empty == (trees(*stream).len() == 0),
;

/// `TokenStream::clone`: a stream that holds the same trees.
pub assume_specification[ <TokenStream as Clone>::clone ](stream: &TokenStream) -> (copy:
    TokenStream)
    ensures
        trees(copy) == trees(*stream),
;

/// The first tree of a stream, opened.
pub enum Head {
    Ident { text: String, span: Span },
    Punct { symbol: char, joint: bool, span: Span },
    Literal { text: String, span: Span },
    /// A group with its tokens, its span and the span of its opening delimiter.
    Group { delimiter: Delimiter, tokens: TokenStream, span: Span, open: Span },
}

impl Head {
    /// The tree that was opened.
    pub open spec fn tree(self) -> Tree<Span> {
        match self {
            Head::Ident { text, span } => Tree::Ident(text@, span),
            Head::Punct { symbol, joint, span } => Tree::Punct(symbol, joint, span),
            Head::Literal { text, span } => Tree::Literal(text@, span),
            Head::Group { delimiter, tokens, span, .. } => Tree::Group(
                delimiter,
                trees(tokens),
                span,
            ),
        }
    }
}

impl Head {
    /// The span of the tree.
    pub fn span(&self) -> (span: Span)
        ensures
            span == mark(self.tree()),
    {
        match self {
            Head::Ident { span, .. } => *span,
            Head::Punct { span, .. } => *span,
            Head::Literal { span, .. } => *span,
            Head::Group { span, .. } => *span,
        }
    }
}

/// A stream taken apart: its first tree, opened and as a stream of its own, and the others.
pub struct Split {
    pub head: Head,
    pub first: TokenStream,
    pub rest: TokenStream,
}

/// `TokenStream::into_iter`: hands out the trees of a stream in order. The first comes as a stream
/// of its own, and the others as a stream again; an empty stream hands out nothing.
#[verifier::external_body]
fn next_tree(stream: &TokenStream) -> (next: Option<(TokenStream, TokenStream)>)
    ensures
        match next {
            None => trees(*stream).len() == 0,
            Some((first, rest)) => {
                &&& trees(*stream).len() > 0
                &&& trees(first) == seq![trees(*stream)[0]]
                &&& trees(rest) == trees(*stream).skip(1)
            },
        },
{
    let mut iter = stream.clone().into_iter();
    Some((TokenStream::from(iter.next()?), iter.collect()))
}

/// `Ident`, `Punct` and `Literal`, where the only tree of a stream is one of these: its text, as
/// `to_string` and `Punct::as_char` give it, `Punct::spacing`, and its span. A group gives nothing.
#[verifier::external_body]
fn open_token(stream: &TokenStream) -> (head: Option<Head>)
    requires
        trees(*stream).len() == 1,
    ensures
        match head {
            None => trees(*stream)[0] is Group,
            Some(head) => !(head is Group) && head.tree() == trees(*stream)[0],
        },
{
    match stream.clone().into_iter().next()? {
        TokenTree::Ident(t) => Some(Head::Ident { text: t.to_string(), span: t.span() }),
        TokenTree::Punct(t) => Some(Head::Punct {
            symbol: t.as_char(),
            joint: matches!(t.spacing(), Spacing::Joint),
            span: t.span(),
        }),
        TokenTree::Literal(t) => Some(Head::Literal { text: t.to_string(), span: t.span() }),
        TokenTree::Group(_) => None,
    }
}

/// `Group::delimiter`, `Group::stream`, `Group::span` and `Group::span_open`, where the only tree
/// of a stream is a group. Another tree gives nothing, and nothing is claimed of the span of the
/// opening delimiter.
#[verifier::external_body]
fn open_group(stream: &TokenStream) -> (head: Option<Head>)
    requires
        trees(*stream).len() == 1,
    ensures
        match head {
            None => !(trees(*stream)[0] is Group),
            Some(head) => head is Group && head.tree() == trees(*stream)[0],
        },
{
    match stream.clone().into_iter().next()? {
        TokenTree::Group(t) => Some(Head::Group {
            delimiter: match t.delimiter() {
                proc_macro2::Delimiter::Parenthesis => Delimiter::Parenthesis,
                proc_macro2::Delimiter::Brace => Delimiter::Brace,
                proc_macro2::Delimiter::Bracket => Delimiter::Bracket,
                proc_macro2::Delimiter::None => Delimiter::Invisible,
            },
            tokens: t.stream(),
            span: t.span(),
            open: t.span_open(),
        }),
        _ => None,
    }
}

/// Takes a stream apart: its first tree, and the others. An empty stream gives nothing.
pub fn split_first(stream: &TokenStream) -> (split: Option<Split>)
    ensures
        match split {
            None => trees(*stream).len() == 0,
            Some(s) => {
                &&& trees(*stream).len() > 0
                &&& s.head.tree() == trees(*stream)[0]
                &&& trees(s.first) == seq![trees(*stream)[0]]
                &&& trees(s.rest) == trees(*stream).skip(1)
            },
        },
{
    let (first, rest) = match next_tree(stream) {
        Some(next) => next,
        None => return None,
    };
    if let Some(head) = open_token(&first) {
        return Some(Split { head, first, rest });
    }
    match open_group(&first) {
        Some(head) => Some(Split { head, first, rest }),
        None => vstd::pervasive::unreached(),
    }
}

/// `ToTokens::to_tokens` on a stream: appends its trees to another.
#[verifier::external_body]
pub(crate) fn append(stream: &mut TokenStream, more: &TokenStream)
    ensures
        trees(*final(stream)) == trees(*old(stream)) + trees(*more),
{
    more.to_tokens(stream);
}

/// Whether a text is made of the letters of ASCII alone, one at least. Every such text is an
/// identifier or a keyword.
pub open spec fn is_word(text: Seq<char>) -> bool {
    &&& text.len() > 0
    &&& forall|i: int|
        0 <= i < text.len() ==> 'a' <= #[trigger] text[i] <= 'z' || 'A' <= text[i] <= 'Z'
}

/// `Ident::new` and `TokenStreamExt::append`: appends an identifier.
#[verifier::external_body]
pub(crate) fn push_ident(stream: &mut TokenStream, text: &str, span: Span)
    requires
        is_word(text@),
    ensures
        trees(*final(stream)) == trees(*old(stream)).push(Tree::Ident(text@, span)),
{
    stream.append(Ident::new(text, span));
}

/// Whether a character is one of the punctuation characters that the generated code has.
pub open spec fn is_punctuation(symbol: char) -> bool {
    symbol == '#' || symbol == '.' || symbol == ',' || symbol == ';' || symbol == ':' || symbol
        == '<' || symbol == '>'
}

/// `Punct::new`, `Punct::set_span` and `TokenStreamExt::append`: appends a punctuation character.
#[verifier::external_body]
pub(crate) fn push_punct(stream: &mut TokenStream, symbol: char, joint: bool, span: Span)
    requires
        is_punctuation(symbol),
    ensures
        trees(*final(stream)) == trees(*old(stream)).push(Tree::Punct(symbol, joint, span)),
{
    let mut punct = Punct::new(symbol, if joint { Spacing::Joint } else { Spacing::Alone });
    punct.set_span(span);
    stream.append(punct);
}

/// `Group::new`, `Group::set_span` and `TokenStreamExt::append`: appends a group.
#[verifier::external_body]
pub(crate) fn push_group(
    stream: &mut TokenStream,
    delimiter: Delimiter,
    inner: &TokenStream,
    span: Span,
)
    ensures
        trees(*final(stream)) == trees(*old(stream)).push(
            Tree::Group(delimiter, trees(*inner), span),
        ),
{
    let mut group = Group::new(match delimiter {
        Delimiter::Parenthesis => proc_macro2::Delimiter::Parenthesis,
        Delimiter::Brace => proc_macro2::Delimiter::Brace,
        Delimiter::Bracket => proc_macro2::Delimiter::Bracket,
        Delimiter::Invisible => proc_macro2::Delimiter::None,
    }, inner.clone());
    group.set_span(span);
    stream.append(group);
}

/// `Span::call_site`: the span of the macro call that is being expanded. Nothing is claimed of
/// it: it depends on the compilation in which the call stands.
#[verifier::external_body]
pub(crate) fn call_site() -> (span: Span) {
    Span::call_site()
}

/// `Spanned::span`: a span that covers a stream, as far as the compiler can join spans. Nothing
/// is claimed of it: it depends on the compiler that runs.
#[verifier::external_body]
pub(crate) fn covering_span(stream: &TokenStream) -> (span: Span) {
    stream.span()
}

} // verus!
