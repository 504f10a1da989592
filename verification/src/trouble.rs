//! Tokens that `syn` cannot be given: on some it panics, and on some it does not return.
//!
//! `syn` panics where it reads a literal of a kind that it does not know, and where a function
//! pointer type has more than one parameter behind a `mut self`. It does not return where an
//! expression starts with an invisible group that holds one attribute and nothing else.

use crate::bare_fn::{find_many_behind_mut_self, has_many_behind_mut_self};
use crate::grammar::{same_text, unwrap_invisible, Reason};
use crate::panic::Panic;
use crate::stream::{split_first, texts, trees, Head, Split};
use crate::token::{
    erase, flat, is_invisible, lemma_erase_all, lemma_erase_skip, lemma_flat_add,
    lemma_unwrapped_skip, unwrapped, Delimiter, Text, Tree,
};
use crate::trouble_laws::{is_there, law_refused_for_what_is_there};
use proc_macro2::TokenStream;
use vstd::prelude::*;

verus! {

/// Whether the text of a literal is of a kind that the parser of Rust syntax knows: a string, a
/// byte string, a character, a byte or a number. A C string is none of these. Every literal has a
/// valid form, so how it starts tells its kind.
pub open spec fn known_literal(text: Seq<char>) -> bool {
    text.len() > 0 && match text[0] {
        '"' | '\'' | 'r' | '-' => true,
        'b' => text.len() > 1 && (text[1] == '"' || text[1] == '\'' || text[1] == 'r'),
        first => '0' <= first <= '9',
    }
}

/// Whether a word is one that `syn` does not take for an identifier.
pub open spec fn is_keyword(text: Seq<char>) -> bool {
    text == "_"@ || text == "abstract"@ || text == "as"@ || text == "become"@ || text == "box"@
        || text == "break"@ || text == "const"@ || text == "continue"@ || text == "crate"@
        || text == "do"@ || text == "else"@ || text == "enum"@ || text == "extern"@
        || text == "false"@ || text == "final"@ || text == "fn"@ || text == "for"@ || text == "if"@
        || text == "impl"@ || text == "in"@ || text == "let"@ || text == "loop"@
        || text == "macro"@ || text == "match"@ || text == "mod"@ || text == "move"@
        || text == "mut"@ || text == "override"@ || text == "priv"@ || text == "pub"@
        || text == "ref"@ || text == "return"@ || text == "Self"@ || text == "self"@
        || text == "static"@ || text == "struct"@ || text == "super"@ || text == "trait"@
        || text == "true"@ || text == "type"@ || text == "typeof"@ || text == "unsafe"@
        || text == "unsized"@ || text == "use"@ || text == "virtual"@ || text == "where"@
        || text == "while"@ || text == "yield"@
}

/// Whether a tree is that punctuation character.
pub open spec fn is_symbol<S>(tree: Tree<S>, symbol: char) -> bool {
    tree matches Tree::Punct(found, _, _) && found == symbol
}

/// Whether a tree is a group in those delimiters.
pub open spec fn is_group<S>(tree: Tree<S>, delimiter: Delimiter) -> bool {
    tree matches Tree::Group(found, _, _) && found == delimiter
}

/// The number of trees of the attribute that the tokens start with, or 0: `#`, perhaps a `!`, and a
/// group in square brackets. What is in the brackets is kept as it is, behind a path.
pub open spec fn attribute_len(tokens: Text) -> nat {
    if tokens.len() == 0 || !is_symbol(tokens[0], '#') {
        0
    } else if tokens.len() >= 2 && is_group(tokens[1], Delimiter::Bracket) {
        2
    } else if tokens.len() >= 3 && is_symbol(tokens[1], '!') && is_group(
        tokens[2],
        Delimiter::Bracket,
    ) {
        3
    } else {
        0
    }
}

/// Whether a tree is a group in visible delimiters.
pub open spec fn is_visible_group<S>(tree: Tree<S>) -> bool {
    tree is Group && !is_invisible(tree)
}

/// The number of trees of the macro call that the tokens start with, or 0: a name that is no
/// keyword, `!`, perhaps a second name, and a group in visible delimiters. What is in the group is
/// kept as it is.
pub open spec fn macro_len(tokens: Text) -> nat {
    if tokens.len() < 3 || !(tokens[0] matches Tree::Ident(name, _) && !is_keyword(name))
        || !is_symbol(tokens[1], '!') {
        0
    } else if is_visible_group(tokens[2]) {
        3
    } else if tokens.len() >= 4 && tokens[2] is Ident && is_visible_group(tokens[3]) {
        4
    } else {
        0
    }
}

/// Whether the tokens are one attribute and nothing else, not even an empty group behind it.
pub open spec fn is_lone_attribute(tokens: Text) -> bool {
    let opened = unwrapped(tokens);
    let behind = unwrapped(opened.skip(1));
    &&& opened.len() > 0 && is_symbol(opened[0], '#')
    &&& behind.len() == 1 && is_group(behind[0], Delimiter::Bracket)
}

/// What is in front of a tree.
#[derive(Clone, Copy, PartialEq, Eq, Structural)]
pub enum Before {
    /// A quote: a name behind it is that of a lifetime.
    Quote,
    /// The word `fn`: parentheses behind it are the parameter list of a function pointer type.
    Fn,
    /// Something else, or nothing.
    Other,
}

/// What a visible tree is to the tree behind it.
pub open spec fn before_next(tree: Tree<()>) -> Before {
    if is_symbol(tree, '\'') {
        Before::Quote
    } else if tree == Tree::Ident("fn"@, ()) {
        Before::Fn
    } else {
        Before::Other
    }
}

/// What is in front of what is behind some tokens: the last visible tree, or what is in front of
/// them if there is none.
pub open spec fn before_rest(tokens: Text, before: Before) -> Before {
    if flat(tokens).len() == 0 {
        before
    } else {
        before_next(flat(tokens).last())
    }
}

/// What is wrong with a tree.
pub open spec fn trouble_in(tree: Tree<()>, before: Before) -> Option<Reason>
    decreases tree,
{
    match tree {
        Tree::Literal(text, _) => if known_literal(text) {
            None
        } else {
            Some(Reason::UnknownLiteral(text))
        },
        Tree::Group(Delimiter::Invisible, inner, _) => if is_lone_attribute(inner) {
            Some(Reason::LoneAttribute)
        } else {
            trouble_behind(inner, before)
        },
        Tree::Group(delimiter, inner, _) => if delimiter == Delimiter::Parenthesis && before
            == Before::Fn && has_many_behind_mut_self(inner) {
            Some(Reason::MutSelf)
        } else {
            trouble_behind(inner, Before::Other)
        },
        _ => None,
    }
}

/// The first thing in tokens that `syn` must not be given, at any depth: a literal of an unknown
/// kind, the parameter list of a function pointer type with more than one parameter behind a
/// `mut self`, or an invisible group with one attribute and nothing else. An attribute and the call
/// of a macro are passed over.
pub open spec fn trouble_behind(tokens: Text, before: Before) -> Option<Reason>
    decreases tokens,
{
    if tokens.len() == 0 {
        None
    } else if attribute_len(tokens) > 0 {
        trouble_behind(tokens.skip(attribute_len(tokens) as int), Before::Other)
    } else if macro_len(tokens) > 0 && before != Before::Quote {
        trouble_behind(tokens.skip(macro_len(tokens) as int), Before::Other)
    } else {
        match trouble_in(tokens[0], before) {
            Some(reason) => Some(reason),
            None => trouble_behind(tokens.skip(1), before_rest(seq![tokens[0]], before)),
        }
    }
}

/// The first thing in tokens that `syn` must not be given.
pub open spec fn trouble(tokens: Text) -> Option<Reason> {
    trouble_behind(tokens, Before::Other)
}

/// The tokens behind the attributes at their front, whether or not these are in invisible groups.
pub open spec fn behind_attributes(tokens: Text) -> Text
    decreases flat(tokens).len(),
{
    let opened = unwrapped(tokens);
    if opened.len() > 0 && is_symbol(opened[0], '#') {
        let behind = unwrapped(opened.skip(1));
        if behind.len() > 0 && is_group(behind[0], Delimiter::Bracket) {
            proof {
                lemma_unwrapped_skip(tokens);
                lemma_unwrapped_skip(opened.skip(1));
            }
            behind_attributes(behind.skip(1))
        } else {
            tokens
        }
    } else {
        tokens
    }
}

/// Whether the text of a literal is of a kind that the parser knows.
pub(crate) fn is_known_literal(text: &str) -> (known: bool)
    ensures
        known == known_literal(text@),
{
    let len: usize = text.unicode_len();
    if len == 0 {
        return false;
    }
    match text.get_char(0) {
        '"' | '\'' | 'r' | '-' => true,
        'b' => {
            if len == 1 {
                return false;
            }
            match text.get_char(1) {
                '"' | '\'' | 'r' => true,
                _ => false,
            }
        },
        first => '0' <= first && first <= '9',
    }
}

/// Whether a word is one that `syn` does not take for an identifier.
fn is_reserved(text: &String) -> (reserved: bool)
    ensures
        reserved == is_keyword(text@),
{
    same_text(text, "_") || same_text(text, "abstract") || same_text(text, "as")
        || same_text(text, "become") || same_text(text, "box") || same_text(text, "break")
        || same_text(text, "const") || same_text(text, "continue") || same_text(text, "crate")
        || same_text(text, "do") || same_text(text, "else") || same_text(text, "enum")
        || same_text(text, "extern") || same_text(text, "false") || same_text(text, "final")
        || same_text(text, "fn") || same_text(text, "for") || same_text(text, "if")
        || same_text(text, "impl") || same_text(text, "in") || same_text(text, "let")
        || same_text(text, "loop") || same_text(text, "macro") || same_text(text, "match")
        || same_text(text, "mod") || same_text(text, "move") || same_text(text, "mut")
        || same_text(text, "override") || same_text(text, "priv") || same_text(text, "pub")
        || same_text(text, "ref") || same_text(text, "return") || same_text(text, "Self")
        || same_text(text, "self") || same_text(text, "static") || same_text(text, "struct")
        || same_text(text, "super") || same_text(text, "trait") || same_text(text, "true")
        || same_text(text, "type") || same_text(text, "typeof") || same_text(text, "unsafe")
        || same_text(text, "unsized") || same_text(text, "use") || same_text(text, "virtual")
        || same_text(text, "where") || same_text(text, "while") || same_text(text, "yield")
}

/// Whether the first tree of a stream is that punctuation character, and what is behind it.
fn behind_symbol(stream: &TokenStream, symbol: char) -> (rest: Option<TokenStream>)
    ensures
        match rest {
            Some(rest) => {
                &&& texts(*stream).len() > 0
                &&& is_symbol(texts(*stream)[0], symbol)
                &&& trees(rest) == trees(*stream).skip(1)
                &&& texts(rest) == texts(*stream).skip(1)
            },
            None => texts(*stream).len() == 0 || !is_symbol(texts(*stream)[0], symbol),
        },
{
    proof {
        lemma_erase_all(trees(*stream));
        if trees(*stream).len() > 0 {
            lemma_erase_skip(trees(*stream), 1);
            assert(texts(*stream)[0] == erase(trees(*stream)[0]));
        }
    }
    match split_first(stream) {
        Some(Split { head: Head::Punct { symbol: found, .. }, rest, .. }) => if found == symbol {
            Some(rest)
        } else {
            None
        },
        _ => None,
    }
}

/// The delimiter of the group that is the first tree of a stream, and what is behind it.
fn behind_group(stream: &TokenStream) -> (group: Option<(Delimiter, TokenStream)>)
    ensures
        match group {
            Some((delimiter, rest)) => {
                &&& texts(*stream).len() > 0
                &&& is_group(texts(*stream)[0], delimiter)
                &&& trees(rest) == trees(*stream).skip(1)
                &&& texts(rest) == texts(*stream).skip(1)
            },
            None => texts(*stream).len() == 0 || !(texts(*stream)[0] is Group),
        },
{
    proof {
        lemma_erase_all(trees(*stream));
        if trees(*stream).len() > 0 {
            lemma_erase_skip(trees(*stream), 1);
            assert(texts(*stream)[0] == erase(trees(*stream)[0]));
        }
    }
    match split_first(stream) {
        Some(Split { head: Head::Group { delimiter, .. }, rest, .. }) => Some((delimiter, rest)),
        _ => None,
    }
}

/// Whether a stream is one attribute and nothing else.
fn is_only_attribute(stream: &TokenStream) -> (only: bool)
    ensures
        only == is_lone_attribute(texts(*stream)),
{
    let opened = unwrap_invisible(stream);
    let second = match behind_symbol(&opened, '#') {
        Some(rest) => rest,
        None => return false,
    };
    let behind = unwrap_invisible(&second);
    match behind_group(&behind) {
        Some((Delimiter::Bracket, rest)) => {
            proof {
                lemma_erase_all(trees(rest));
            }
            rest.is_empty()
        },
        _ => false,
    }
}

/// Passes over the attributes at the front of a stream.
pub(crate) fn skip_attributes(stream: &TokenStream) -> (rest: TokenStream)
    ensures
        texts(rest) == behind_attributes(texts(*stream)),
{
    let mut rest: TokenStream = stream.clone();
    loop
        invariant
            behind_attributes(texts(rest)) == behind_attributes(texts(*stream)),
        decreases flat(texts(rest)).len(),
    {
        let opened = unwrap_invisible(&rest);
        let second = match behind_symbol(&opened, '#') {
            Some(second) => second,
            None => return rest,
        };
        let behind = unwrap_invisible(&second);
        match behind_group(&behind) {
            Some((Delimiter::Bracket, next)) => {
                proof {
                    lemma_unwrapped_skip(texts(rest));
                    lemma_unwrapped_skip(texts(second));
                }
                rest = next;
            },
            _ => return rest,
        }
    }
}

/// The tokens behind an attribute at the front of a stream, if there is one.
fn behind_attribute(stream: &TokenStream) -> (rest: Option<TokenStream>)
    ensures
        match rest {
            Some(rest) => {
                &&& attribute_len(texts(*stream)) > 0
                &&& attribute_len(texts(*stream)) <= texts(*stream).len()
                &&& trees(rest) == trees(*stream).skip(attribute_len(texts(*stream)) as int)
            },
            None => attribute_len(texts(*stream)) == 0,
        },
{
    proof {
        lemma_erase_all(trees(*stream));
    }
    let second = match behind_symbol(stream, '#') {
        Some(rest) => rest,
        None => return None,
    };
    if let Some((Delimiter::Bracket, rest)) = behind_group(&second) {
        assert(trees(rest) =~= trees(*stream).skip(2));
        return Some(rest);
    }
    let third = match behind_symbol(&second, '!') {
        Some(rest) => rest,
        None => return None,
    };
    match behind_group(&third) {
        Some((Delimiter::Bracket, rest)) => {
            assert(trees(rest) =~= trees(*stream).skip(3));
            Some(rest)
        },
        _ => None,
    }
}

/// Whether the first tree of a stream is a name, its text, and what is behind it.
fn behind_name(stream: &TokenStream) -> (name: Option<(String, TokenStream)>)
    ensures
        match name {
            Some((text, rest)) => {
                &&& texts(*stream).len() > 0
                &&& texts(*stream)[0] == Tree::Ident(text@, ())
                &&& trees(rest) == trees(*stream).skip(1)
                &&& texts(rest) == texts(*stream).skip(1)
            },
            None => texts(*stream).len() == 0 || !(texts(*stream)[0] is Ident),
        },
{
    proof {
        lemma_erase_all(trees(*stream));
        if trees(*stream).len() > 0 {
            lemma_erase_skip(trees(*stream), 1);
            assert(texts(*stream)[0] == erase(trees(*stream)[0]));
        }
    }
    match split_first(stream) {
        Some(Split { head: Head::Ident { text, .. }, rest, .. }) => Some((text, rest)),
        _ => None,
    }
}

/// The tokens behind a visible group at the front of a stream, if there is one.
fn behind_visible_group(stream: &TokenStream) -> (rest: Option<TokenStream>)
    ensures
        match rest {
            Some(rest) => {
                &&& texts(*stream).len() > 0
                &&& is_visible_group(texts(*stream)[0])
                &&& trees(rest) == trees(*stream).skip(1)
            },
            None => texts(*stream).len() == 0 || !is_visible_group(texts(*stream)[0]),
        },
{
    match behind_group(stream) {
        Some((Delimiter::Invisible, _)) => None,
        Some((_, rest)) => Some(rest),
        None => None,
    }
}

/// The tokens behind the call of a macro at the front of a stream, if there is one.
fn behind_macro(stream: &TokenStream) -> (rest: Option<TokenStream>)
    ensures
        match rest {
            Some(rest) => {
                &&& macro_len(texts(*stream)) > 0
                &&& macro_len(texts(*stream)) <= texts(*stream).len()
                &&& trees(rest) == trees(*stream).skip(macro_len(texts(*stream)) as int)
            },
            None => macro_len(texts(*stream)) == 0,
        },
{
    proof {
        lemma_erase_all(trees(*stream));
    }
    let second = match behind_name(stream) {
        Some((text, rest)) => if is_reserved(&text) {
            return None;
        } else {
            rest
        },
        None => return None,
    };
    let third = match behind_symbol(&second, '!') {
        Some(rest) => rest,
        None => return None,
    };
    if let Some(rest) = behind_visible_group(&third) {
        assert(trees(rest) =~= trees(*stream).skip(3));
        return Some(rest);
    }
    let fourth = match behind_name(&third) {
        Some((_, rest)) => rest,
        None => return None,
    };
    match behind_visible_group(&fourth) {
        Some(rest) => {
            assert(trees(rest) =~= trees(*stream).skip(4));
            Some(rest)
        },
        None => None,
    }
}

/// What is behind one more tree has that tree in front of it.
proof fn lemma_before_rest(tokens: Text, more: Text, before: Before)
    ensures
        before_rest(tokens + more, before) == before_rest(more, before_rest(tokens, before)),
{
    lemma_flat_add(tokens, more);
    if flat(more).len() == 0 {
        assert(flat(tokens) + flat(more) =~= flat(tokens));
    } else {
        assert((flat(tokens) + flat(more)).last() == flat(more).last());
    }
}

/// What is behind a single tree.
pub proof fn lemma_before_rest_one(tree: Tree<()>, before: Before)
    ensures
        before_rest(seq![tree], before) == match tree {
            Tree::Group(Delimiter::Invisible, inner, _) => before_rest(inner, before),
            _ => before_next(tree),
        },
{
    let one = seq![tree];
    assert(one.skip(1) =~= Seq::empty());
    assert(flat(one.skip(1)) == one.skip(1));
    match tree {
        Tree::Group(Delimiter::Invisible, inner, _) => {
            assert(flat(one) =~= flat(inner));
        },
        _ => {
            assert(flat(one) =~= one);
        },
    }
}

/// Behind an attribute or the call of a macro is a group.
proof fn lemma_before_rest_group(tokens: Text, n: int, before: Before)
    requires
        0 < n <= tokens.len(),
        is_visible_group(tokens[n - 1]),
    ensures
        before_rest(tokens.take(n), before) == Before::Other,
{
    let last = tokens[n - 1];
    assert(tokens.take(n) =~= tokens.take(n - 1) + seq![last]);
    lemma_before_rest(tokens.take(n - 1), seq![last], before);
    lemma_before_rest_one(last, before_rest(tokens.take(n - 1), before));
}

/// Finds the first thing in a stream that `syn` must not be given, and tells what is in front of
/// what is behind the stream if there is none.
fn find_trouble_behind(stream: &TokenStream, before: Before) -> (found: Result<Before, Panic>)
    ensures
        match found {
            Ok(last) => trouble_behind(texts(*stream), before) is None && last == before_rest(
                texts(*stream),
                before,
            ),
            Err(panic) => trouble_behind(texts(*stream), before) == Some(panic@),
        },
    decreases trees(*stream),
{
    let mut rest: TokenStream = stream.clone();
    let mut last: Before = before;
    let ghost all = texts(*stream);
    let ghost mut n: int = 0;
    proof {
        lemma_erase_all(trees(*stream));
        assert(trees(*stream).skip(0) =~= trees(*stream));
        assert(all.take(0) =~= Seq::empty());
    }
    loop
        invariant
            all == texts(*stream),
            all.len() == trees(*stream).len(),
            0 <= n <= trees(*stream).len(),
            trees(rest) == trees(*stream).skip(n),
            last == before_rest(all.take(n), before),
            trouble_behind(all, before) == trouble_behind(texts(rest), last),
        decreases trees(*stream).len() - n,
    {
        proof {
            lemma_erase_all(trees(rest));
            lemma_erase_skip(trees(*stream), n);
        }
        if let Some(behind) = behind_attribute(&rest) {
            proof {
                let more = attribute_len(texts(rest)) as int;
                lemma_erase_skip(trees(rest), more);
                assert(trees(behind) =~= trees(*stream).skip(n + more));
                assert(all[n + more - 1] == texts(rest)[more - 1]);
                lemma_before_rest_group(all, n + more, before);
                n = n + more;
            }
            rest = behind;
            last = Before::Other;
            continue;
        }
        if last != Before::Quote {
            if let Some(behind) = behind_macro(&rest) {
                proof {
                    let more = macro_len(texts(rest)) as int;
                    lemma_erase_skip(trees(rest), more);
                    assert(trees(behind) =~= trees(*stream).skip(n + more));
                    assert(all[n + more - 1] == texts(rest)[more - 1]);
                    lemma_before_rest_group(all, n + more, before);
                    n = n + more;
                }
                rest = behind;
                last = Before::Other;
                continue;
            }
        }
        let split = match split_first(&rest) {
            None => {
                assert(all.take(n) =~= all);
                return Ok(last);
            },
            Some(split) => split,
        };
        let ghost first = texts(rest)[0];
        proof {
            lemma_erase_skip(trees(rest), 1);
            assert(first == erase(split.head.tree()));
            assert(all.take(n + 1) =~= all.take(n) + seq![first]);
            lemma_before_rest(all.take(n), seq![first], before);
            lemma_before_rest_one(first, last);
            assert(trouble_behind(texts(rest), last) == match trouble_in(first, last) {
                Some(reason) => Some(reason),
                None => trouble_behind(texts(split.rest), before_rest(seq![first], last)),
            });
            assert(trees(rest)[0] == trees(*stream)[n]);
            assert(trees(rest).skip(1) =~= trees(*stream).skip(n + 1));
        }
        let next: Before = match split.head {
            Head::Literal { text, .. } => {
                if !is_known_literal(text.as_str()) {
                    return Err(Panic::UnknownLiteral(text));
                }
                Before::Other
            },
            Head::Group { delimiter: Delimiter::Invisible, tokens, .. } => {
                if is_only_attribute(&tokens) {
                    return Err(Panic::LoneAttribute);
                }
                match find_trouble_behind(&tokens, last) {
                    Err(panic) => return Err(panic),
                    Ok(next) => next,
                }
            },
            Head::Group { delimiter, tokens, .. } => {
                if delimiter == Delimiter::Parenthesis && last == Before::Fn {
                    if find_many_behind_mut_self(&tokens) {
                        return Err(Panic::MutSelf);
                    }
                }
                if let Err(panic) = find_trouble_behind(&tokens, Before::Other) {
                    return Err(panic);
                }
                Before::Other
            },
            Head::Punct { symbol, .. } => if symbol == '\'' {
                Before::Quote
            } else {
                Before::Other
            },
            Head::Ident { text, .. } => if same_text(&text, "fn") {
                Before::Fn
            } else {
                Before::Other
            },
        };
        rest = split.rest;
        last = next;
        proof {
            n = n + 1;
        }
    }
}

/// Finds the first thing in a stream that `syn` must not be given.
pub fn find_trouble(stream: &TokenStream) -> (found: Option<Panic>)
    ensures
        found matches Some(panic) ==> is_there(panic@, texts(*stream)),
        trouble(texts(*stream)) == match found {
            Some(panic) => Some(panic@),
            None => None,
        },
{
    proof {
        law_refused_for_what_is_there(texts(*stream), Before::Other);
    }
    match find_trouble_behind(stream, Before::Other) {
        Ok(_) => None,
        Err(panic) => Some(panic),
    }
}

} // verus!
