//! The parameters of function pointer types, such as `fn(A, B) -> C`.
//!
//! `syn` reads a parameter list with a `mut self` in it too, but then puts no comma between the
//! parameters behind that, and panics at the second of these.

use crate::grammar::same_text;
use crate::stream::{split_first, texts, trees, Head};
use crate::token::{erase, flat, lemma_erase_all, lemma_flat_add, Delimiter, Text, Tree};
use proc_macro2::TokenStream;
use vstd::prelude::*;

verus! {

/// What a tree is in a parameter list.
#[derive(Clone, Copy, PartialEq, Eq, Structural)]
pub enum Sort {
    Mut,
    SelfWord,
    Word,
    Comma,
    Colon,
    Dot,
    Hash,
    Less,
    Greater,
    Minus,
    Brackets,
    Other,
}

/// What a punctuation character is in a parameter list.
pub open spec fn symbol_sort(symbol: char) -> Sort {
    match symbol {
        ',' => Sort::Comma,
        ':' => Sort::Colon,
        '.' => Sort::Dot,
        '#' => Sort::Hash,
        '<' => Sort::Less,
        '>' => Sort::Greater,
        '-' => Sort::Minus,
        _ => Sort::Other,
    }
}

/// What a visible tree is in a parameter list.
pub open spec fn sort(tree: Tree<()>) -> Sort {
    match tree {
        Tree::Ident(text, _) => if text == "mut"@ {
            Sort::Mut
        } else if text == "self"@ {
            Sort::SelfWord
        } else {
            Sort::Word
        },
        Tree::Punct(symbol, _, _) => symbol_sort(symbol),
        Tree::Group(Delimiter::Bracket, _, _) => Sort::Brackets,
        _ => Sort::Other,
    }
}

/// What the visible trees of a parameter list are.
pub open spec fn sorts(tokens: Text) -> Seq<Sort> {
    flat(tokens).map_values(|tree: Tree<()>| sort(tree))
}

/// How many `<` are open behind a tree, where `depth` are open in front of it. The `>` of an arrow
/// closes none.
pub open spec fn depth_behind(sorts: Seq<Sort>, at: int, depth: nat) -> nat {
    match sorts[at] {
        Sort::Less => depth + 1,
        Sort::Greater => if depth > 0 && !(at > 0 && sorts[at - 1] == Sort::Minus) {
            (depth - 1) as nat
        } else {
            depth
        },
        _ => depth,
    }
}

/// Where the comma is that ends a parameter, or the end of the list: from `at` on, where `depth`
/// `<` are open.
pub open spec fn parameter_end(sorts: Seq<Sort>, at: int, depth: nat) -> int
    decreases sorts.len() - at,
{
    if at >= sorts.len() {
        sorts.len() as int
    } else if sorts[at] == Sort::Comma && depth == 0 {
        at
    } else {
        parameter_end(sorts, at + 1, depth_behind(sorts, at, depth))
    }
}

/// Where a parameter starts behind its attributes.
pub open spec fn parameter_start(sorts: Seq<Sort>, at: int, end: int) -> int
    decreases end - at,
{
    if at + 1 < end && sorts[at] == Sort::Hash && sorts[at + 1] == Sort::Brackets {
        parameter_start(sorts, at + 2, end)
    } else {
        at
    }
}

/// Whether a parameter is `...`.
pub open spec fn is_variadic(sorts: Seq<Sort>, start: int, end: int) -> bool {
    start + 2 < end && sorts[start] == Sort::Dot && sorts[start + 1] == Sort::Dot && sorts[start
        + 2] == Sort::Dot
}

/// Whether a tree is a word.
pub open spec fn is_word(sort: Sort) -> bool {
    sort == Sort::Word || sort == Sort::SelfWord || sort == Sort::Mut
}

/// Whether a parameter is `mut self`, perhaps with a type behind it or a name in front of it.
pub open spec fn is_mut_self(sorts: Seq<Sort>, start: int, end: int) -> bool {
    ||| start + 1 < end && sorts[start] == Sort::Mut && sorts[start + 1] == Sort::SelfWord
    ||| start + 3 < end && is_word(sorts[start]) && sorts[start + 1] == Sort::Colon && sorts[start
        + 2] == Sort::Mut && sorts[start + 3] == Sort::SelfWord
}

/// How many other parameters are behind the first `mut self`: from `at` on, where `seen` is
/// whether there is a `mut self` in front, and `count` how many are behind that. Nothing is read
/// behind a missing parameter, nor behind a `...` that may end the list.
pub open spec fn behind_mut_self(sorts: Seq<Sort>, at: int, seen: bool, count: nat) -> nat
    decreases sorts.len() + 1 - at,
{
    if at >= sorts.len() {
        count
    } else {
        proof {
            lemma_parameter_end(sorts, at, 0);
        }
        let end = parameter_end(sorts, at, 0);
        let start = parameter_start(sorts, at, end);
        if start >= end || count == 0 && is_variadic(sorts, start, end) {
            count
        } else if is_mut_self(sorts, start, end) {
            behind_mut_self(sorts, end + 1, true, count)
        } else if seen {
            behind_mut_self(sorts, end + 1, true, count + 1)
        } else {
            behind_mut_self(sorts, end + 1, false, count)
        }
    }
}

/// Whether more than one parameter is behind a `mut self`, so that `syn` panics.
pub open spec fn has_many_behind_mut_self(tokens: Text) -> bool {
    behind_mut_self(sorts(tokens), 0, false, 0) > 1
}

/// A parameter ends behind its start.
pub proof fn lemma_parameter_end(sorts: Seq<Sort>, at: int, depth: nat)
    requires
        at <= sorts.len(),
    ensures
        at <= parameter_end(sorts, at, depth) <= sorts.len(),
    decreases sorts.len() - at,
{
    if at < sorts.len() && !(sorts[at] == Sort::Comma && depth == 0) {
        lemma_parameter_end(sorts, at + 1, depth_behind(sorts, at, depth));
    }
}

/// What a visible tree is in a parameter list.
fn sort_of(head: &Head) -> (found: Sort)
    ensures
        found == sort(erase(head.tree())),
{
    match head {
        Head::Ident { text, .. } => if same_text(text, "mut") {
            Sort::Mut
        } else if same_text(text, "self") {
            Sort::SelfWord
        } else {
            Sort::Word
        },
        Head::Punct { symbol, .. } => match *symbol {
            ',' => Sort::Comma,
            ':' => Sort::Colon,
            '.' => Sort::Dot,
            '#' => Sort::Hash,
            '<' => Sort::Less,
            '>' => Sort::Greater,
            '-' => Sort::Minus,
            _ => Sort::Other,
        },
        Head::Group { delimiter: Delimiter::Bracket, .. } => Sort::Brackets,
        Head::Group { .. } => Sort::Other,
        Head::Literal { .. } => Sort::Other,
    }
}

/// What the trees of one more list are.
proof fn lemma_sorts_add(left: Text, right: Text)
    ensures
        sorts(left + right) == sorts(left) + sorts(right),
{
    lemma_flat_add(left, right);
    assert(sorts(left + right) =~= sorts(left) + sorts(right));
}

/// What a single tree is.
proof fn lemma_sorts_one(tree: Tree<()>)
    ensures
        sorts(seq![tree]) == match tree {
            Tree::Group(Delimiter::Invisible, inner, _) => sorts(inner),
            _ => seq![sort(tree)],
        },
{
    let one = seq![tree];
    assert(one.skip(1) =~= Seq::empty());
    assert(flat(one.skip(1)) == one.skip(1));
    match tree {
        Tree::Group(Delimiter::Invisible, inner, _) => {
            assert(flat(one) =~= flat(inner));
        },
        _ => {
            assert(flat(one) =~= one);
            assert(sorts(one) =~= seq![sort(tree)]);
        },
    }
}

/// Appends what the visible trees of a stream are.
fn push_sorts(stream: &TokenStream, found: &mut Vec<Sort>)
    ensures
        final(found)@ == old(found)@ + sorts(texts(*stream)),
    decreases trees(*stream),
{
    let mut rest: TokenStream = stream.clone();
    let ghost all = texts(*stream);
    let ghost before = found@;
    let ghost mut n: int = 0;
    proof {
        lemma_erase_all(trees(*stream));
        assert(trees(*stream).skip(0) =~= trees(*stream));
        assert(all.take(0) =~= Seq::empty());
        assert(before + sorts(all.take(0)) =~= before);
    }
    loop
        invariant
            all == texts(*stream),
            all.len() == trees(*stream).len(),
            0 <= n <= all.len(),
            trees(rest) == trees(*stream).skip(n),
            found@ == before + sorts(all.take(n)),
            before == old(found)@,
        decreases all.len() - n,
    {
        let split = match split_first(&rest) {
            None => {
                assert(all.take(n) =~= all);
                return;
            },
            Some(split) => split,
        };
        proof {
            lemma_erase_all(trees(*stream));
            assert(split.head.tree() == trees(*stream)[n]);
            assert(all[n] == erase(split.head.tree()));
            assert(all.take(n + 1) =~= all.take(n) + seq![all[n]]);
            lemma_sorts_add(all.take(n), seq![all[n]]);
            lemma_sorts_one(all[n]);
            assert(trees(split.rest) =~= trees(*stream).skip(n + 1));
        }
        match &split.head {
            Head::Group { delimiter: Delimiter::Invisible, tokens, .. } => {
                assert(decreases_to!(trees(*stream) => trees(*stream)[n]));
                push_sorts(tokens, found);
            },
            head => {
                found.push(sort_of(head));
            },
        }
        assert(found@ =~= before + sorts(all.take(n + 1)));
        rest = split.rest;
        proof {
            n = n + 1;
        }
    }
}

/// Finds where a parameter ends.
fn find_end(sorts: &Vec<Sort>, from: usize) -> (end: usize)
    requires
        from <= sorts.len(),
    ensures
        end == parameter_end(sorts@, from as int, 0),
        from <= end <= sorts.len(),
{
    let mut at: usize = from;
    let mut depth: usize = 0;
    while at < sorts.len()
        invariant
            from <= at <= sorts.len(),
            depth <= at,
            parameter_end(sorts@, from as int, 0) == parameter_end(sorts@, at as int, depth as nat),
        decreases sorts.len() - at,
    {
        match sorts[at] {
            Sort::Comma => if depth == 0 {
                return at;
            },
            Sort::Less => {
                depth = depth + 1;
            },
            Sort::Greater => if depth > 0 && !(at > 0 && sorts[at - 1] == Sort::Minus) {
                depth = depth - 1;
            },
            _ => {},
        }
        at = at + 1;
    }
    at
}

/// Finds where a parameter starts behind its attributes.
fn find_start(sorts: &Vec<Sort>, from: usize, end: usize) -> (start: usize)
    requires
        from <= end <= sorts.len(),
    ensures
        start == parameter_start(sorts@, from as int, end as int),
        from <= start <= end,
{
    let mut at: usize = from;
    while end - at > 1 && sorts[at] == Sort::Hash && sorts[at + 1] == Sort::Brackets
        invariant
            from <= at <= end <= sorts.len(),
            parameter_start(sorts@, from as int, end as int) == parameter_start(
                sorts@,
                at as int,
                end as int,
            ),
        decreases end - at,
    {
        at = at + 2;
    }
    at
}

/// Whether a tree is a word.
fn is_any_word(sort: Sort) -> (word: bool)
    ensures
        word == is_word(sort),
{
    sort == Sort::Word || sort == Sort::SelfWord || sort == Sort::Mut
}

/// Tells whether more than one parameter is behind a `mut self`.
pub(crate) fn find_many_behind_mut_self(inner: &TokenStream) -> (many: bool)
    ensures
        many == has_many_behind_mut_self(texts(*inner)),
{
    let mut found: Vec<Sort> = Vec::new();
    push_sorts(inner, &mut found);
    assert(found@ =~= sorts(texts(*inner)));
    let mut at: usize = 0;
    let mut seen: bool = false;
    let mut count: usize = 0;
    while at < found.len()
        invariant
            count <= at <= found.len(),
            found@ == sorts(texts(*inner)),
            behind_mut_self(found@, 0, false, 0) == behind_mut_self(
                found@,
                at as int,
                seen,
                count as nat,
            ),
        decreases found.len() - at,
    {
        let end = find_end(&found, at);
        let start = find_start(&found, at, end);
        if start >= end || count == 0 && end - start > 2 && found[start] == Sort::Dot
            && found[start + 1] == Sort::Dot && found[start + 2] == Sort::Dot {
            assert(behind_mut_self(found@, at as int, seen, count as nat) == count);
            return count > 1;
        }
        let plain = end - start > 1 && found[start] == Sort::Mut && found[start + 1]
            == Sort::SelfWord;
        let after_name = end - start > 3 && is_any_word(found[start]) && found[start + 1]
            == Sort::Colon && found[start + 2] == Sort::Mut && found[start + 3] == Sort::SelfWord;
        if plain || after_name {
            seen = true;
        } else if seen {
            count = count + 1;
        }
        if end == found.len() {
            assert(behind_mut_self(found@, end + 1, seen, count as nat) == count);
            return count > 1;
        }
        at = end + 1;
    }
    count > 1
}

} // verus!
