//! Pieces of Rust syntax, read so that what is behind them does not matter.
//!
//! A piece often ends in front of a group, such as the braces behind the expression that methods
//! are delegated to. `syn` stops there whatever is in the group and behind it, so it is given a
//! stream that ends with an empty group instead. The same goes for a literal that does not belong
//! to the piece, in the place of which a keyword stands, and for what is behind a comma.

use crate::grammar::{keyword, punct, take_keyword, take_punct, Parse};
use crate::outcome::{is_sound, outcome, ParseError, Parsed};
use crate::stream::{append, push_group, push_ident, push_punct, split_first, texts, trees, Head};
use crate::syntax::{
    read_delegator, read_expr, read_fn_arg, read_generics, read_return_type, read_where_clause,
    syn_delegator, syn_expr, syn_fn_arg, syn_generics, syn_return_type, syn_where_clause, FnArg,
    FnArgText, Reading, ReturnText, ReturnType,
};
use crate::token::{
    all_within, erase, erase_all, flat, is_end_of, is_invisible, is_read, lemma_covers_parts,
    lemma_end_erase, lemma_end_in_front, lemma_end_of, lemma_erase_add, lemma_erase_all,
    lemma_erase_skip, lemma_read_in_front, lemma_read_within, mark, within, Delimiter, Text, Tree,
};
use crate::trouble::{
    behind_attributes, find_trouble, is_symbol, is_visible_group, skip_attributes, trouble,
};
use proc_macro2::{Span, TokenStream};
use vstd::prelude::*;

verus! {

/// Whether trees were read, and `rest` is left of what is behind each of them.
pub open spec fn are_read<S>(
    taken: Seq<Tree<S>>,
    rest: Seq<Tree<S>>,
    trees: Seq<Tree<S>>,
) -> bool {
    forall|i: int| 0 <= i < taken.len() ==> is_read(#[trigger] taken[i], rest, trees)
}

/// A piece of Rust syntax that `syn` reads.
pub trait Piece {
    /// What is read.
    type Value;

    /// What is read, as text.
    type Shape;

    spec fn text(value: Self::Value) -> Self::Shape;

    spec fn wf(value: Self::Value) -> bool;

    /// The tokens in what is read that are taken from the input as they are.
    spec fn taken(value: Self::Value) -> Seq<Tree<Span>>;

    /// How `syn` reads the piece.
    spec fn syntax(tokens: Text) -> Parse<Self::Shape>;

    /// The tokens that `syn` may look into: none if it takes the piece for missing.
    spec fn looked_into(tokens: Text) -> Text;

    /// Finds the tokens that `syn` may look into.
    fn look_into(tokens: &TokenStream) -> (part: TokenStream)
        ensures
            texts(part) == Self::looked_into(texts(*tokens)),
    ;

    /// Reads the piece.
    fn read(tokens: &TokenStream) -> (reading: Reading<Self::Value>)
        requires
            trouble(Self::looked_into(texts(*tokens))) is None,
        ensures
            reading.wf(*tokens),
            Self::syntax(texts(*tokens)) == reading.outcome(Self::text(reading.value())),
            reading.read matches Some((value, rest)) ==> {
                &&& Self::wf(value)
                &&& are_read(Self::taken(value), trees(rest), trees(*tokens))
            },
    ;
}

/// A stream that holds nothing.
fn nothing() -> (stream: TokenStream)
    ensures
        texts(stream) == Seq::<Tree<()>>::empty(),
{
    let stream: TokenStream = TokenStream::new();
    proof {
        lemma_erase_all(trees(stream));
        assert(texts(stream) =~= Seq::empty());
    }
    stream
}

/// An expression.
pub struct Expression;

impl Piece for Expression {
    type Value = TokenStream;

    type Shape = Text;

    open spec fn text(value: TokenStream) -> Text {
        texts(value)
    }

    open spec fn wf(value: TokenStream) -> bool {
        true
    }

    open spec fn taken(value: TokenStream) -> Seq<Tree<Span>> {
        Seq::empty()
    }

    open spec fn syntax(tokens: Text) -> Parse<Text> {
        syn_expr(tokens)
    }

    open spec fn looked_into(tokens: Text) -> Text {
        tokens
    }

    fn look_into(tokens: &TokenStream) -> (part: TokenStream) {
        tokens.clone()
    }

    fn read(tokens: &TokenStream) -> (reading: Reading<TokenStream>) {
        read_expr(tokens)
    }
}

/// An expression that braces end.
pub struct Delegator;

impl Piece for Delegator {
    type Value = TokenStream;

    type Shape = Text;

    open spec fn text(value: TokenStream) -> Text {
        texts(value)
    }

    open spec fn wf(value: TokenStream) -> bool {
        true
    }

    open spec fn taken(value: TokenStream) -> Seq<Tree<Span>> {
        Seq::empty()
    }

    open spec fn syntax(tokens: Text) -> Parse<Text> {
        syn_delegator(tokens)
    }

    open spec fn looked_into(tokens: Text) -> Text {
        tokens
    }

    fn look_into(tokens: &TokenStream) -> (part: TokenStream) {
        tokens.clone()
    }

    fn read(tokens: &TokenStream) -> (reading: Reading<TokenStream>) {
        read_delegator(tokens)
    }
}

/// A parameter of a function.
pub struct Argument;

impl Piece for Argument {
    type Value = FnArg;

    type Shape = FnArgText;

    open spec fn text(value: FnArg) -> FnArgText {
        value.text()
    }

    open spec fn wf(value: FnArg) -> bool {
        value.wf()
    }

    open spec fn taken(value: FnArg) -> Seq<Tree<Span>> {
        value.parameter.taken()
    }

    open spec fn syntax(tokens: Text) -> Parse<FnArgText> {
        syn_fn_arg(tokens)
    }

    open spec fn looked_into(tokens: Text) -> Text {
        behind_attributes(tokens)
    }

    fn look_into(tokens: &TokenStream) -> (part: TokenStream) {
        skip_attributes(tokens)
    }

    fn read(tokens: &TokenStream) -> (reading: Reading<FnArg>) {
        proof {
            broadcast use lemma_erase_all;
        }
        read_fn_arg(tokens)
    }
}

/// Generic parameters, if there are any.
pub struct Generics;

impl Piece for Generics {
    type Value = TokenStream;

    type Shape = Text;

    open spec fn text(value: TokenStream) -> Text {
        texts(value)
    }

    open spec fn wf(value: TokenStream) -> bool {
        true
    }

    open spec fn taken(value: TokenStream) -> Seq<Tree<Span>> {
        Seq::empty()
    }

    open spec fn syntax(tokens: Text) -> Parse<Text> {
        syn_generics(tokens)
    }

    open spec fn looked_into(tokens: Text) -> Text {
        if punct(tokens, '<') is Some {
            tokens
        } else {
            Seq::empty()
        }
    }

    fn look_into(tokens: &TokenStream) -> (part: TokenStream) {
        if take_punct(tokens, '<').is_some() {
            tokens.clone()
        } else {
            nothing()
        }
    }

    fn read(tokens: &TokenStream) -> (reading: Reading<TokenStream>) {
        read_generics(tokens)
    }
}

/// A return type, if there is one.
pub struct Output;

impl Piece for Output {
    type Value = ReturnType;

    type Shape = ReturnText;

    open spec fn text(value: ReturnType) -> ReturnText {
        value.text()
    }

    open spec fn wf(value: ReturnType) -> bool {
        true
    }

    open spec fn taken(value: ReturnType) -> Seq<Tree<Span>> {
        Seq::empty()
    }

    open spec fn syntax(tokens: Text) -> Parse<ReturnText> {
        syn_return_type(tokens)
    }

    open spec fn looked_into(tokens: Text) -> Text {
        if punct(tokens, '-') is Some {
            tokens
        } else {
            Seq::empty()
        }
    }

    fn look_into(tokens: &TokenStream) -> (part: TokenStream) {
        if take_punct(tokens, '-').is_some() {
            tokens.clone()
        } else {
            nothing()
        }
    }

    fn read(tokens: &TokenStream) -> (reading: Reading<ReturnType>) {
        read_return_type(tokens)
    }
}

/// A where clause, if there is one.
pub struct Conditions;

impl Piece for Conditions {
    type Value = TokenStream;

    type Shape = Text;

    open spec fn text(value: TokenStream) -> Text {
        texts(value)
    }

    open spec fn wf(value: TokenStream) -> bool {
        true
    }

    open spec fn taken(value: TokenStream) -> Seq<Tree<Span>> {
        Seq::empty()
    }

    open spec fn syntax(tokens: Text) -> Parse<Text> {
        syn_where_clause(tokens)
    }

    open spec fn looked_into(tokens: Text) -> Text {
        if keyword(tokens, "where"@) is Some {
            tokens
        } else {
            Seq::empty()
        }
    }

    fn look_into(tokens: &TokenStream) -> (part: TokenStream) {
        if take_keyword(tokens, "where").is_some() {
            tokens.clone()
        } else {
            nothing()
        }
    }

    fn read(tokens: &TokenStream) -> (reading: Reading<TokenStream>) {
        read_where_clause(tokens)
    }
}

/// Reading a piece, unless the tokens are such that `syn` must not be given them.
pub open spec fn guarded<P: Piece>(tokens: Text) -> Parse<P::Shape> {
    match trouble(P::looked_into(tokens)) {
        Some(reason) => Parse::Stopped(reason),
        None => P::syntax(tokens),
    }
}

/// Reads a piece, unless the tokens are such that `syn` must not be given them.
pub fn read_guarded<P: Piece>(tokens: &TokenStream) -> (parsed: Result<
    Parsed<P::Value>,
    ParseError,
>)
    ensures
        guarded::<P>(texts(*tokens)) == outcome(parsed, P::text(parsed->Ok_0.value)),
        is_sound(parsed),
        parsed matches Ok(p) ==> {
            &&& P::wf(p.value)
            &&& are_read(P::taken(p.value), trees(p.rest), trees(*tokens))
            &&& is_end_of(trees(p.rest), trees(*tokens))
            &&& flat(texts(p.rest)).len() <= flat(texts(*tokens)).len()
        },
{
    if let Some(panic) = find_trouble(&P::look_into(tokens)) {
        return Err(ParseError::Panic(panic));
    }
    P::read(tokens).parsed(tokens)
}

/// Whether a piece may end in front of a tree: a visible group, a literal or a comma.
pub open spec fn is_stop<S>(tree: Tree<S>) -> bool {
    tree is Literal || is_visible_group(tree) || is_symbol(tree, ',')
}

/// What stands for a tree in front of which a piece may end: for a group, an empty one, for a
/// literal, a keyword with which nothing goes on either, and a comma for itself.
pub open spec fn end_mark<S>(tree: Tree<S>) -> Tree<S> {
    match tree {
        Tree::Group(delimiter, _, span) => Tree::Group(delimiter, Seq::empty(), span),
        Tree::Punct(..) => Tree::Punct(',', false, mark(tree)),
        _ => Tree::Ident("else"@, mark(tree)),
    }
}

/// Reading a piece in front of the first tree, from the one with number `from` on, where it may
/// end and does: the piece is read from the tokens in front of that tree, and what is in the tree
/// and behind it does not matter. Where it ends in front of none, it is read from all the tokens.
pub open spec fn in_front<P: Piece>(tokens: Text, from: nat) -> Parse<P::Shape>
    decreases tokens.len() - from,
{
    if from >= tokens.len() {
        guarded::<P>(tokens)
    } else if is_stop(tokens[from as int]) {
        match guarded::<P>(tokens.take(from as int).push(end_mark(tokens[from as int]))) {
            Parse::Stopped(reason) => Parse::Stopped(reason),
            Parse::Parsed { value, rest, unexpected } => if rest.len() > 0 {
                Parse::Parsed {
                    value,
                    rest: rest.drop_last() + tokens.skip(from as int),
                    unexpected,
                }
            } else {
                in_front::<P>(tokens, from + 1)
            },
            Parse::Failed(_) => in_front::<P>(tokens, from + 1),
        }
    } else {
        in_front::<P>(tokens, from + 1)
    }
}

/// Tells whether a piece may end in front of a tree.
fn may_end(head: &Head) -> (end: bool)
    ensures
        end == is_stop(head.tree()),
{
    match head {
        Head::Group { delimiter, .. } => *delimiter != Delimiter::Invisible,
        Head::Literal { .. } => true,
        Head::Punct { symbol, .. } => *symbol == ',',
        Head::Ident { .. } => false,
    }
}

/// Appends what stands for a tree in front of which a piece may end.
fn push_end_mark(tokens: &mut TokenStream, head: &Head)
    ensures
        trees(*final(tokens)) == trees(*old(tokens)).push(end_mark(head.tree())),
        texts(*final(tokens)) == texts(*old(tokens)).push(end_mark(erase(head.tree()))),
{
    let ghost before = trees(*tokens);
    match head {
        Head::Group { delimiter, span, .. } => push_group(
            tokens,
            *delimiter,
            &TokenStream::new(),
            *span,
        ),
        Head::Punct { span, .. } => push_punct(tokens, ',', false, *span),
        _ => {
            proof {
                reveal_strlit("else");
            }
            push_ident(tokens, "else", head.span())
        },
    }
    proof {
        assert(trees(*tokens) =~= before.push(end_mark(head.tree())));
        lemma_erase_push(before, end_mark(head.tree()));
        lemma_erase_all(Seq::<Tree<Span>>::empty());
        assert(erase_all(Seq::<Tree<Span>>::empty()) =~= Seq::empty());
        assert(erase(end_mark(head.tree())) == end_mark(erase(head.tree())));
    }
}

/// Erasing one tree more.
proof fn lemma_erase_push<S>(before: Seq<Tree<S>>, tree: Tree<S>)
    ensures
        erase_all(before.push(tree)) == erase_all(before).push(erase(tree)),
{
    assert(before.push(tree).drop_last() =~= before);
}

/// A stream without its last tree.
fn without_last(stream: &TokenStream) -> (front: TokenStream)
    requires
        trees(*stream).len() > 0,
    ensures
        trees(front) == trees(*stream).drop_last(),
{
    let mut front: TokenStream = TokenStream::new();
    let mut behind: TokenStream = stream.clone();
    let ghost mut n: int = 0;
    assert(trees(front) =~= trees(*stream).take(0));
    loop
        invariant
            0 <= n < trees(*stream).len(),
            trees(front) == trees(*stream).take(n),
            trees(behind) == trees(*stream).skip(n),
        decreases trees(*stream).len() - n,
    {
        match split_first(&behind) {
            None => vstd::pervasive::unreached(),
            Some(split) => {
                if split.rest.is_empty() {
                    assert(trees(front) =~= trees(*stream).drop_last());
                    return front;
                }
                proof {
                    assert(trees(split.rest) =~= trees(*stream).skip(n + 1));
                    assert(trees(front) + trees(split.first) =~= trees(*stream).take(n + 1));
                    n = n + 1;
                }
                append(&mut front, &split.first);
                behind = split.rest;
            },
        }
    }
}

/// Trees that were read are within the trees.
proof fn lemma_are_read<S>(taken: Seq<Tree<S>>, rest: Seq<Tree<S>>, trees: Seq<Tree<S>>)
    requires
        are_read(taken, rest, trees),
    ensures
        all_within(taken, trees),
{
    assert forall|i: int| 0 <= i < taken.len() implies within(#[trigger] taken[i], trees) by {
        lemma_read_within(taken[i], rest, trees);
    }
}

/// Trees that were read in front of a visible tree that is left are within what is in front of it,
/// whatever is behind.
proof fn lemma_are_read_in_front<S>(
    taken: Seq<Tree<S>>,
    rest: Seq<Tree<S>>,
    front: Seq<Tree<S>>,
    mark: Tree<S>,
    behind: Seq<Tree<S>>,
)
    requires
        are_read(taken, rest, front.push(mark)),
        rest.len() > 0,
        !is_invisible(mark),
    ensures
        all_within(taken, front + behind),
{
    lemma_covers_parts(front, behind);
    assert forall|i: int| 0 <= i < taken.len() implies within(
        #[trigger] taken[i],
        front + behind,
    ) by {
        lemma_read_in_front(taken[i], rest, front, mark);
    }
}

/// Reads a piece in front of the first tree where it may end and does.
pub fn read_in_front<P: Piece>(tokens: &TokenStream) -> (parsed: Result<
    Parsed<P::Value>,
    ParseError,
>)
    ensures
        in_front::<P>(texts(*tokens), 0) == outcome(parsed, P::text(parsed->Ok_0.value)),
        is_sound(parsed),
        parsed matches Ok(p) ==> {
            &&& P::wf(p.value)
            &&& all_within(P::taken(p.value), trees(*tokens))
            &&& is_end_of(trees(p.rest), trees(*tokens))
            &&& flat(texts(p.rest)).len() <= flat(texts(*tokens)).len()
        },
{
    let mut front: TokenStream = TokenStream::new();
    let mut behind: TokenStream = tokens.clone();
    let ghost mut n: nat = 0;
    proof {
        assert(trees(front) =~= trees(*tokens).take(0));
        assert(trees(behind) =~= trees(*tokens).skip(0));
    }
    loop
        invariant
            n <= trees(*tokens).len(),
            trees(front) == trees(*tokens).take(n as int),
            trees(behind) == trees(*tokens).skip(n as int),
            in_front::<P>(texts(*tokens), 0) == in_front::<P>(texts(*tokens), n),
        decreases trees(*tokens).len() - n,
    {
        let ghost all = texts(*tokens);
        proof {
            lemma_erase_all(trees(*tokens));
        }
        let split = match split_first(&behind) {
            None => {
                let parsed = read_guarded::<P>(tokens);
                proof {
                    if parsed is Ok {
                        let p = parsed->Ok_0;
                        lemma_are_read(P::taken(p.value), trees(p.rest), trees(*tokens));
                    }
                }
                return parsed;
            },
            Some(split) => split,
        };
        proof {
            assert(split.head.tree() == trees(*tokens)[n as int]);
            assert(all[n as int] == erase(split.head.tree()));
            lemma_erase_take(trees(*tokens), n as int);
            lemma_erase_skip(trees(*tokens), n as int);
        }
        if may_end(&split.head) {
            let mut probe: TokenStream = front.clone();
            push_end_mark(&mut probe, &split.head);
            assert(texts(probe) == all.take(n as int).push(end_mark(all[n as int])));
            match read_guarded::<P>(&probe) {
                Err(ParseError::Panic(panic)) => return Err(ParseError::Panic(panic)),
                Err(ParseError::Syntax(_)) => {},
                Ok(parsed) => {
                    proof {
                        lemma_erase_all(trees(parsed.rest));
                    }
                    if !parsed.rest.is_empty() {
                        let mut rest: TokenStream = without_last(&parsed.rest);
                        proof {
                            lemma_end_in_front(
                                trees(parsed.rest),
                                trees(front),
                                end_mark(split.head.tree()),
                                trees(behind),
                            );
                            assert(trees(front) + trees(behind) =~= trees(*tokens));
                            lemma_are_read_in_front(
                                P::taken(parsed.value),
                                trees(parsed.rest),
                                trees(front),
                                end_mark(split.head.tree()),
                                trees(behind),
                            );
                            lemma_end_erase(trees(rest) + trees(behind), trees(*tokens));
                            lemma_end_of(erase_all(trees(rest) + trees(behind)), all);
                            let left = texts(parsed.rest);
                            lemma_erase_take(trees(parsed.rest), left.len() - 1);
                            assert(trees(parsed.rest).take(left.len() - 1) =~= trees(
                                parsed.rest,
                            ).drop_last());
                            assert(left.take(left.len() - 1) =~= left.drop_last());
                            lemma_erase_add(trees(rest), trees(behind));
                        }
                        append(&mut rest, &behind);
                        return Ok(
                            Parsed { value: parsed.value, rest, unexpected: parsed.unexpected },
                        );
                    }
                },
            }
        }
        proof {
            assert(trees(split.rest) =~= trees(*tokens).skip(n as int + 1));
            assert(trees(front) + trees(split.first) =~= trees(*tokens).take(n as int + 1));
            n = n + 1;
        }
        append(&mut front, &split.first);
        behind = split.rest;
    }
}

/// Erasing commutes with taking trees from the front.
proof fn lemma_erase_take<S>(trees: Seq<Tree<S>>, n: int)
    requires
        0 <= n <= trees.len(),
    ensures
        erase_all(trees.take(n)) == erase_all(trees).take(n),
{
    lemma_erase_all(trees);
    lemma_erase_all(trees.take(n));
    assert(erase_all(trees.take(n)) =~= erase_all(trees).take(n));
}

} // verus!
