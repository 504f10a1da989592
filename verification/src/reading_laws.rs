//! How tokens are read, said of the tokens themselves.

use crate::grammar::{after, group, keyword, lemma_prefixed_empty, prefixed, punct, Parse};
use crate::input::{input_syntax, inputs_syntax, InputText};
use crate::laws::lemma_after_prefixed;
use crate::piece::{
    end_mark, guarded, in_front, is_stop, Argument, Conditions, Delegator, Expression, Generics,
    Output, Piece,
};
use crate::syntax::{
    syn_delegator, syn_expr, syn_fn_arg, syn_generics, syn_return_type, syn_where_clause, FnArgText,
};
use crate::token::{
    erase_all, flat, inside, is_end_of, lemma_erase_all, lemma_flat_add, lemma_unwrapped,
    lemma_unwrapped_skip, lemma_within_add, mark, step, unwrapped, within, Delimiter, Text, Tree,
};
use crate::trouble::{behind_attributes, trouble};
use crate::trouble_laws::{is_readable, law_known_literals, lemma_no_mark};
use vstd::prelude::*;

verus! {

/// Erasing takes away the marks of trees, and nothing else, at every depth.
pub proof fn law_erasing_keeps_the_text<S>(trees: Seq<Tree<S>>)
    ensures
        erase_all(trees).len() == trees.len(),
        forall|i: int|
            0 <= i < trees.len() ==> match trees[i] {
                Tree::Ident(text, _) => #[trigger] erase_all(trees)[i] == Tree::Ident(text, ()),
                Tree::Punct(symbol, joint, _) => erase_all(trees)[i] == Tree::Punct(
                    symbol,
                    joint,
                    (),
                ),
                Tree::Literal(text, _) => erase_all(trees)[i] == Tree::Literal(text, ()),
                Tree::Group(delimiter, inner, _) => erase_all(trees)[i] == Tree::Group(
                    delimiter,
                    erase_all(inner),
                    (),
                ),
            },
{
    lemma_erase_all(trees);
}

/// The visible trees of two lists are those of the first and then those of the second; a visible
/// tree is one, and in the place of an invisible group are those in it.
pub proof fn law_visible_trees<S>(
    left: Seq<Tree<S>>,
    right: Seq<Tree<S>>,
    tree: Tree<S>,
)
    ensures
        flat(left + right) == flat(left) + flat(right),
        flat(seq![tree]) == match tree {
            Tree::Group(Delimiter::Invisible, inner, _) => flat(inner),
            _ => seq![tree],
        },
        flat(Seq::<Tree<S>>::empty()) == Seq::<Tree<S>>::empty(),
{
    lemma_flat_add(left, right);
    let one = seq![tree];
    assert(one.skip(1) =~= Seq::empty());
    assert(flat(one.skip(1)) == one.skip(1));
    match tree {
        Tree::Group(Delimiter::Invisible, inner, _) => {
            assert(flat(one) =~= flat(inner));
        },
        _ => {
            assert(flat(one) =~= one);
        },
    }
}

/// Opening the invisible groups at the front leaves the same visible trees, the first of them in
/// front, if there is one, and opens nothing behind that.
pub proof fn law_opening<S>(tokens: Seq<Tree<S>>)
    ensures
        flat(unwrapped(tokens)) == flat(tokens),
        flat(tokens).len() == 0 ==> unwrapped(tokens).len() == 0,
        flat(tokens).len() > 0 ==> unwrapped(tokens).len() > 0 && unwrapped(tokens)[0] == flat(
            tokens,
        )[0],
        tokens.len() > 0 && !(tokens[0] matches Tree::Group(Delimiter::Invisible, _, _))
            ==> unwrapped(tokens) == tokens,
{
    lemma_unwrapped(tokens);
    if unwrapped(tokens).len() > 0 {
        lemma_unwrapped_skip(tokens);
    }
}

/// A tree is within trees if it is one of them or in a group among them, and not otherwise.
pub proof fn law_within<S>(tree: Tree<S>, left: Seq<Tree<S>>, right: Seq<Tree<S>>, other: Tree<S>)
    ensures
        within(tree, left + right) <==> within(tree, left) || within(tree, right),
        !within(tree, Seq::empty()),
        within(tree, seq![other]) <==> tree == other || (other is Group && within(
            tree,
            inside(other),
        )),
{
    lemma_within_add(tree, left, right);
    let one = seq![other];
    assert(one.skip(1) =~= Seq::empty());
    assert(!within(tree, one.skip(1)));
}

/// What is behind the first tree is an end of the trees, an invisible group being opened, and an
/// end of that is one as well; nothing but such an end, or all the trees, is an end.
pub proof fn law_ends<S>(rest: Seq<Tree<S>>, trees: Seq<Tree<S>>)
    ensures
        is_end_of(rest, trees) <==> rest == trees || trees.len() > 0 && is_end_of(
            rest,
            match trees[0] {
                Tree::Group(Delimiter::Invisible, inner, _) => inner + trees.skip(1),
                _ => trees.skip(1),
            },
        ),
{
    if is_end_of(rest, trees) {
        let steps = choose|steps: nat| rest == #[trigger] crate::token::stepped(trees, steps);
        if steps > 0 && trees.len() > 0 {
            assert(rest == crate::token::stepped(step(trees), (steps - 1) as nat));
        } else if steps > 0 {
            crate::token::lemma_stepped_empty(trees, steps);
        }
    }
    if rest == trees {
        assert(rest == crate::token::stepped(trees, 0));
    }
    if trees.len() > 0 && is_end_of(rest, step(trees)) {
        let steps = choose|steps: nat|
            rest == #[trigger] crate::token::stepped(step(trees), steps);
        assert(crate::token::stepped(trees, steps + 1) == crate::token::stepped(
            step(trees),
            steps,
        ));
    }
}

/// A word, a punctuation character or a group is found at the front of tokens exactly if it is the
/// first visible tree, and then the other visible trees are left.
pub proof fn law_first_token(
    tokens: Text,
    word: Seq<char>,
    symbol: char,
    delimiter: Delimiter,
)
    requires
        delimiter != Delimiter::Invisible,
    ensures
        match keyword(tokens, word) {
            Some(rest) => flat(tokens).len() > 0 && flat(tokens)[0] == Tree::Ident(word, ())
                && flat(rest) == flat(tokens).skip(1),
            None => flat(tokens).len() == 0 || flat(tokens)[0] != Tree::Ident(word, ()),
        },
        match punct(tokens, symbol) {
            Some(rest) => flat(tokens).len() > 0 && (flat(tokens)[0] matches Tree::Punct(first, _, _)
                && first == symbol) && flat(rest) == flat(tokens).skip(1),
            None => flat(tokens).len() == 0 || !(flat(tokens)[0] matches Tree::Punct(first, _, _)
                && first == symbol),
        },
        match group(tokens, delimiter) {
            Some((inner, rest)) => flat(tokens).len() > 0 && flat(tokens)[0] == Tree::Group(
                delimiter,
                inner,
                (),
            ) && flat(rest) == flat(tokens).skip(1),
            None => flat(tokens).len() == 0 || !(flat(tokens)[0] matches Tree::Group(first, _, _)
                && first == delimiter),
        },
{
    law_opening(tokens);
    if unwrapped(tokens).len() > 0 {
        lemma_unwrapped_skip(tokens);
        lemma_no_mark(mark(unwrapped(tokens)[0]));
    }
}

/// Every piece is read by the parser of `syn` that is for it, unless `syn` must not be given what
/// is in it. Where a piece is missing, what is there does not matter.
pub proof fn law_pieces_are_read_by_syn(tokens: Text)
    ensures
        trouble(tokens) is None ==> {
            &&& guarded::<Expression>(tokens) == syn_expr(tokens)
            &&& guarded::<Delegator>(tokens) == syn_delegator(tokens)
            &&& guarded::<Generics>(tokens) == syn_generics(tokens)
            &&& guarded::<Output>(tokens) == syn_return_type(tokens)
            &&& guarded::<Conditions>(tokens) == syn_where_clause(tokens)
        },
        trouble(behind_attributes(tokens)) is None ==> guarded::<Argument>(tokens) == syn_fn_arg(
            tokens,
        ),
        !(flat(tokens).len() > 0 && (flat(tokens)[0] matches Tree::Punct('<', _, _)))
            ==> guarded::<Generics>(tokens) == syn_generics(tokens),
        !(flat(tokens).len() > 0 && (flat(tokens)[0] matches Tree::Punct('-', _, _)))
            ==> guarded::<Output>(tokens) == syn_return_type(tokens),
        !(flat(tokens).len() > 0 && flat(tokens)[0] == Tree::Ident("where"@, ())) ==> guarded::<
            Conditions,
        >(tokens) == syn_where_clause(tokens),
        trouble(tokens) matches Some(reason) ==> {
            &&& guarded::<Expression>(tokens) == Parse::Stopped::<Text>(reason)
            &&& guarded::<Delegator>(tokens) == Parse::Stopped::<Text>(reason)
        },
        trouble(behind_attributes(tokens)) matches Some(reason) ==> guarded::<Argument>(tokens)
            == Parse::Stopped::<FnArgText>(reason),
{
    law_first_token(tokens, "where"@, '<', Delimiter::Brace);
    law_first_token(tokens, "where"@, '-', Delimiter::Brace);
    let nothing = Seq::<Tree<()>>::empty();
    assert(trouble(nothing) is None);
}

/// Whether a piece may end in front of a tree: a literal, a comma or a visible group.
pub open spec fn may_end_at(tree: Tree<()>) -> bool {
    match tree {
        Tree::Literal(..) => true,
        Tree::Punct(symbol, _, _) => symbol == ',',
        Tree::Group(delimiter, _, _) => delimiter != Delimiter::Invisible,
        Tree::Ident(..) => false,
    }
}

/// The tokens in front of a tree, with what stands for the tree: a comma for a comma, an empty
/// group for a group, and `else` for a literal.
pub open spec fn cut_at(tokens: Text, at: int) -> Text {
    tokens.take(at).push(
        match tokens[at] {
            Tree::Group(delimiter, _, _) => Tree::Group(delimiter, Seq::empty(), ()),
            Tree::Punct(..) => Tree::Punct(',', false, ()),
            _ => Tree::Ident("else"@, ()),
        },
    )
}

/// Whether a piece does not end in front of a tree.
pub open spec fn goes_on<P: Piece>(tokens: Text, at: int) -> bool {
    may_end_at(tokens[at]) ==> match guarded::<P>(cut_at(tokens, at)) {
        Parse::Parsed { rest, .. } => rest.len() == 0,
        Parse::Failed(_) => true,
        Parse::Stopped(_) => false,
    }
}

/// A piece is read from the tokens in front of the first tree at which it ends, and what that tree
/// holds and what is behind it is left as it is. If it ends at none, it is read from all tokens.
pub proof fn law_piece_is_read_up_to_its_end<P: Piece>(tokens: Text, at: int)
    requires
        0 <= at <= tokens.len(),
        forall|i: int| 0 <= i < at ==> #[trigger] goes_on::<P>(tokens, i),
        at < tokens.len() ==> !goes_on::<P>(tokens, at),
    ensures
        at == tokens.len() ==> in_front::<P>(tokens, 0) == guarded::<P>(tokens),
        at < tokens.len() ==> in_front::<P>(tokens, 0) == match guarded::<P>(cut_at(tokens, at)) {
            Parse::Parsed { value, rest, unexpected } => Parse::Parsed {
                value,
                rest: rest.drop_last() + tokens.skip(at),
                unexpected,
            },
            other => other,
        },
{
    lemma_goes_on::<P>(tokens, 0, at);
    if at < tokens.len() {
        lemma_cut_at(tokens, at);
    }
}

/// What stands for a tree is an end mark.
proof fn lemma_cut_at(tokens: Text, at: int)
    requires
        0 <= at < tokens.len(),
    ensures
        may_end_at(tokens[at]) == is_stop(tokens[at]),
        is_stop(tokens[at]) ==> cut_at(tokens, at) == tokens.take(at).push(end_mark(tokens[at])),
{
    lemma_no_mark(mark(tokens[at]));
}

/// A piece that goes on at some trees is read behind them.
proof fn lemma_goes_on<P: Piece>(tokens: Text, from: int, at: int)
    requires
        0 <= from <= at <= tokens.len(),
        forall|i: int| from <= i < at ==> #[trigger] goes_on::<P>(tokens, i),
    ensures
        in_front::<P>(tokens, from as nat) == in_front::<P>(tokens, at as nat),
    decreases at - from,
{
    if from < at {
        lemma_goes_on::<P>(tokens, from + 1, at);
        lemma_cut_at(tokens, from);
        assert(goes_on::<P>(tokens, from));
    }
}

/// A piece that ends in front of a group or a comma ends there, whatever the group holds and
/// whatever is behind it.
pub proof fn law_piece_ends<P: Piece>(tokens: Text, stop: Tree<()>, more: Text)
    requires
        may_end_at(stop) && !(stop is Literal),
        in_front::<P>(
            tokens.push(end_mark(stop)),
            0,
        ) matches Parse::Parsed { rest, .. } && rest == seq![end_mark(stop)],
    ensures
        ({
            let alone = in_front::<P>(tokens.push(end_mark(stop)), 0);
            in_front::<P>(tokens + seq![stop] + more, 0) == (Parse::Parsed {
                value: alone->value,
                rest: seq![stop] + more,
                unexpected: alone->unexpected,
            })
        }),
{
    lemma_piece_ends::<P>(tokens, stop, more, 0);
}

/// The same, from a tree on.
proof fn lemma_piece_ends<P: Piece>(tokens: Text, stop: Tree<()>, more: Text, from: nat)
    requires
        from <= tokens.len(),
        may_end_at(stop) && !(stop is Literal),
        in_front::<P>(
            tokens.push(end_mark(stop)),
            from,
        ) matches Parse::Parsed { rest, .. } && rest == seq![end_mark(stop)],
    ensures
        ({
            let alone = in_front::<P>(tokens.push(end_mark(stop)), from);
            in_front::<P>(tokens + seq![stop] + more, from) == (Parse::Parsed {
                value: alone->value,
                rest: seq![stop] + more,
                unexpected: alone->unexpected,
            })
        }),
    decreases tokens.len() - from,
{
    let mark = end_mark(stop);
    let alone = tokens.push(mark);
    let all = tokens + seq![stop] + more;
    let probe = tokens.take(from as int).push(end_mark(alone[from as int]));
    assert(alone.take(from as int) =~= tokens.take(from as int));
    assert(all.take(from as int) =~= tokens.take(from as int));
    assert(is_stop(stop) && is_stop(mark) && end_mark(mark) == mark);
    if from == tokens.len() {
        assert(all[from as int] == stop);
        assert(tokens.take(from as int) =~= tokens);
        assert(alone.skip(from as int) =~= seq![mark]);
        assert(all.skip(from as int) =~= seq![stop] + more);
        assert(in_front::<P>(alone, from + 1) == guarded::<P>(alone));
        if let Parse::Parsed { rest, .. } = guarded::<P>(probe) {
            if rest.len() > 0 {
                let left = rest.drop_last();
                assert((left + seq![mark]).len() == left.len() + 1);
                assert(left.len() == 0);
                assert(left + (seq![stop] + more) =~= seq![stop] + more);
            }
        }
    } else {
        assert(alone[from as int] == tokens[from as int]);
        assert(all[from as int] == tokens[from as int]);
        if is_stop(tokens[from as int]) {
            if let Parse::Parsed { rest, .. } = guarded::<P>(probe) {
                if rest.len() > 0 {
                    assert((rest.drop_last() + alone.skip(from as int)).len() >= 2);
                } else {
                    lemma_piece_ends::<P>(tokens, stop, more, from + 1);
                }
            } else {
                lemma_piece_ends::<P>(tokens, stop, more, from + 1);
            }
        } else {
            lemma_piece_ends::<P>(tokens, stop, more, from + 1);
        }
    }
}

/// More trees behind those that are opened stay as they are, and a list is opened as the invisible
/// group that holds it.
pub proof fn law_opening_stops_at_the_first<S>(left: Seq<Tree<S>>, right: Seq<Tree<S>>, mark: S)
    ensures
        flat(left).len() > 0 ==> unwrapped(left + right) == unwrapped(left) + right,
        flat(left).len() == 0 ==> unwrapped(left + right) == unwrapped(right),
        unwrapped(seq![Tree::Group(Delimiter::Invisible, left, mark)]) == unwrapped(left),
    decreases left,
{
    law_opening(left);
    let one = seq![Tree::Group(Delimiter::Invisible, left, mark)];
    assert(one.skip(1) =~= Seq::empty());
    assert(unwrapped(one.skip(1)) == one.skip(1));
    if unwrapped(left).len() > 0 {
        assert(unwrapped(left) + one.skip(1) =~= unwrapped(left));
    } else {
        assert(unwrapped(left) =~= Seq::empty());
    }
    if left.len() == 0 {
        assert(left + right =~= right);
    } else {
        let rest = left.skip(1);
        assert((left + right).skip(1) =~= rest + right);
        assert((left + right)[0] == left[0]);
        law_opening_stops_at_the_first(rest, right, mark);
        if let Tree::Group(Delimiter::Invisible, inner, _) = left[0] {
            law_opening(inner);
            let opened = unwrapped(inner);
            assert(flat(left) == flat(inner) + flat(rest));
            if opened.len() > 0 {
                assert(opened + (rest + right) =~= opened + rest + right);
                lemma_unwrapped(inner);
            } else {
                lemma_unwrapped(inner);
                assert(flat(left) =~= flat(rest));
            }
        } else {
            assert(flat(left) == seq![left[0]] + flat(rest));
        }
    }
}

/// An entry in square brackets is the expression in them, whatever is behind it, and what the
/// expression leaves in the brackets is too much.
pub proof fn law_entry_in_brackets(tokens: Text, inner: Text)
    requires
        flat(tokens).len() > 0 && flat(tokens)[0] == Tree::Group(Delimiter::Bracket, inner, ()),
    ensures
        input_syntax(tokens) == match in_front::<Expression>(inner, 0) {
            Parse::Parsed { value, rest, unexpected } => Parse::Parsed {
                value: InputText::Argument(value),
                rest: unwrapped(tokens).skip(1),
                unexpected: unexpected || flat(rest).len() > 0,
            },
            Parse::Failed(message) => Parse::Failed(message),
            Parse::Stopped(reason) => Parse::Stopped(reason),
        },
{
    law_first_token(tokens, "self"@, ',', Delimiter::Bracket);
    law_opening(tokens);
    if let Parse::Parsed { rest, .. } = in_front::<Expression>(inner, 0) {
        lemma_unwrapped(rest);
    }
}

/// An entry that does not start with square brackets is a parameter.
pub proof fn law_entry_without_brackets(tokens: Text)
    requires
        flat(tokens).len() == 0 || !(flat(tokens)[0] matches Tree::Group(
            Delimiter::Bracket,
            _,
            _,
        )),
    ensures
        input_syntax(tokens) == match in_front::<Argument>(tokens, 0) {
            Parse::Parsed { value, rest, unexpected } => Parse::Parsed {
                value: InputText::Input(value),
                rest,
                unexpected,
            },
            Parse::Failed(message) => Parse::Failed(message),
            Parse::Stopped(reason) => Parse::Stopped(reason),
        },
{
    law_first_token(tokens, "self"@, ',', Delimiter::Bracket);
}

/// A literal in square brackets is an argument of the call, such as a number with any digit in
/// front: `syn` is given it, and what `syn` makes of it is the argument.
pub proof fn law_literal_in_brackets(text: Seq<char>, more: Text)
    requires
        is_readable(text),
        syn_expr(seq![Tree::Ident("else"@, ())]) is Failed,
        syn_expr(seq![Tree::Literal(text, ())]) == (Parse::Parsed::<Text> {
            value: seq![Tree::Literal(text, ())],
            rest: Seq::empty(),
            unexpected: false,
        }),
    ensures
        input_syntax(
            seq![
                Tree::Group(Delimiter::Bracket, seq![Tree::Literal(text, ())], ()),
            ] + more,
        ) == (Parse::Parsed {
            value: InputText::Argument(seq![Tree::Literal(text, ())]),
            rest: more,
            unexpected: false,
        }),
{
    let inner = seq![Tree::<()>::Literal(text, ())];
    let probe = seq![Tree::<()>::Ident("else"@, ())];
    let all = seq![Tree::Group(Delimiter::Bracket, inner, ())] + more;
    assert(all[0] == Tree::Group(Delimiter::Bracket, inner, ()));
    assert(unwrapped(all) == all);
    assert(all.skip(1) =~= more);
    law_opening(all);
    lemma_unwrapped(all);
    law_entry_in_brackets(all, inner);
    law_known_literals(text);
    let nothing = Seq::<Tree<()>>::empty();
    lemma_one_tree(inner[0]);
    lemma_one_tree(probe[0]);
    law_pieces_are_read_by_syn(inner);
    law_pieces_are_read_by_syn(probe);
    assert(cut_at(inner, 0) =~= probe);
    assert(goes_on::<Expression>(inner, 0));
    law_piece_is_read_up_to_its_end::<Expression>(inner, 1);
    assert(flat(nothing).len() == 0);
}

/// A single tree is refused for what is wrong with it alone.
proof fn lemma_one_tree(tree: Tree<()>)
    ensures
        trouble(seq![tree]) == crate::trouble::trouble_in(tree, crate::trouble::Before::Other),
{
    let one = seq![tree];
    let before = crate::trouble::Before::Other;
    assert(one.skip(1).len() == 0);
    let next = crate::trouble::before_rest(seq![one[0]], before);
    assert(crate::trouble::trouble_behind(one.skip(1), next) is None);
}

/// A comma.
pub open spec fn comma() -> Tree<()> {
    Tree::Punct(',', false, ())
}

/// Whether tokens are an entry of a parameter list: in front of a comma, they are read up to it.
pub open spec fn is_entry(tokens: Text) -> bool {
    flat(tokens).len() > 0 && (input_syntax(tokens.push(comma())) matches Parse::Parsed {
        rest,
        ..
    } && rest == seq![comma()])
}

/// An entry is read up to the comma behind it, whatever follows that.
pub proof fn law_entry_ends(tokens: Text, more: Text)
    requires
        is_entry(tokens),
    ensures
        ({
            let alone = input_syntax(tokens.push(comma()));
            input_syntax(tokens + seq![comma()] + more) == (Parse::Parsed {
                value: alone->value,
                rest: seq![comma()] + more,
                unexpected: alone->unexpected,
            })
        }),
{
    let alone = tokens.push(comma());
    let all = tokens + seq![comma()] + more;
    assert(alone =~= tokens + seq![comma()]);
    assert(all =~= tokens + (seq![comma()] + more));
    law_opening_stops_at_the_first(tokens, seq![comma()], ());
    law_opening_stops_at_the_first(tokens, seq![comma()] + more, ());
    law_opening(tokens);
    let opened = unwrapped(tokens);
    assert(unwrapped(alone)[0] == opened[0]);
    assert(unwrapped(all)[0] == opened[0]);
    if opened[0] matches Tree::Group(Delimiter::Bracket, _, _) {
        assert(unwrapped(alone).skip(1) =~= opened.skip(1) + seq![comma()]);
        assert((opened.skip(1) + seq![comma()]).len() == opened.skip(1).len() + 1);
        assert(opened.skip(1).len() == 0);
        assert(unwrapped(all).skip(1) =~= seq![comma()] + more);
    } else {
        assert(group(alone, Delimiter::Bracket) is None);
        assert(group(all, Delimiter::Bracket) is None);
        assert(end_mark(comma()) == comma());
        law_piece_ends::<Argument>(tokens, comma(), more);
    }
}

/// What an entry is read as.
pub open spec fn entry_alone(tokens: Text) -> Parse<InputText> {
    input_syntax(tokens.push(comma()))
}

/// The tokens of entries, with a comma behind each.
pub open spec fn with_commas(entries: Seq<Text>) -> Text {
    entries.map_values(|tokens: Text| tokens.push(comma())).flatten()
}

/// Whether one of the entries has a group that is left with tokens in it.
pub open spec fn some_entry_left(entries: Seq<Text>) -> bool {
    exists|i: int| 0 <= i < entries.len() && entry_alone(#[trigger] entries[i])->unexpected
}

/// One of the entries has such a group if the first has, or one of the others.
proof fn lemma_some_entry_left(entries: Seq<Text>)
    requires
        entries.len() > 0,
    ensures
        some_entry_left(entries) == (entry_alone(entries[0])->unexpected || some_entry_left(
            entries.skip(1),
        )),
{
    let others = entries.skip(1);
    if some_entry_left(entries) {
        let i = choose|i: int|
            0 <= i < entries.len() && entry_alone(#[trigger] entries[i])->unexpected;
        if i > 0 {
            assert(others[i - 1] == entries[i]);
        }
    }
    if some_entry_left(others) {
        let i = choose|i: int|
            0 <= i < others.len() && entry_alone(#[trigger] others[i])->unexpected;
        assert(entries[i + 1] == others[i]);
    }
}

/// An entry and its comma in front of other tokens.
proof fn lemma_entry_in_front(tokens: Text, more: Text)
    requires
        is_entry(tokens),
    ensures
        inputs_syntax(tokens + seq![comma()] + more) == after(
            entry_alone(tokens)->unexpected,
            prefixed(seq![(entry_alone(tokens)->value, true)], inputs_syntax(more)),
        ),
{
    let all = tokens + seq![comma()] + more;
    law_entry_ends(tokens, more);
    lemma_flat_add(tokens + seq![comma()], more);
    lemma_flat_add(tokens, seq![comma()]);
    let left = seq![comma()] + more;
    assert(left[0] == comma());
    assert(unwrapped(left) == left);
    assert(left.skip(1) =~= more);
    assert(punct(left, ',') == Some(more));
    assert(flat(more).len() < flat(all).len());
}

/// Entries with a comma behind each are read as each is alone: every one, once, in order, and what
/// is behind them as if it were all there is.
pub proof fn law_entries_are_read_in_order(entries: Seq<Text>, more: Text)
    requires
        forall|i: int| 0 <= i < entries.len() ==> is_entry(#[trigger] entries[i]),
    ensures
        inputs_syntax(with_commas(entries) + more) == after(
            some_entry_left(entries),
            prefixed(
                entries.map_values(|tokens: Text| (entry_alone(tokens)->value, true)),
                inputs_syntax(more),
            ),
        ),
    decreases entries.len(),
{
    let write = |tokens: Text| tokens.push(comma());
    let read = |tokens: Text| (entry_alone(tokens)->value, true);
    if entries.len() == 0 {
        assert(entries.map_values(write) =~= Seq::empty());
        assert(with_commas(entries) + more =~= more);
        assert(entries.map_values(read) =~= Seq::empty());
        lemma_prefixed_empty(inputs_syntax(more));
    } else {
        let first = entries[0];
        let others = entries.skip(1);
        let behind = with_commas(others) + more;
        assert forall|i: int| 0 <= i < others.len() implies is_entry(#[trigger] others[i]) by {
            assert(others[i] == entries[i + 1]);
        }
        law_entries_are_read_in_order(others, more);
        assert(with_commas(entries) + more == first + seq![comma()] + behind) by {
            assert(entries.map_values(write).drop_first() =~= others.map_values(write));
            assert(entries.map_values(write).first() == first.push(comma()));
            assert(with_commas(entries) == first.push(comma()) + with_commas(others));
            assert(first.push(comma()) + with_commas(others) + more =~= first + seq![comma()]
                + behind);
        }
        assert(is_entry(first));
        lemma_entry_in_front(first, behind);
        lemma_some_entry_left(entries);
        let value = (entry_alone(first)->value, true);
        lemma_after_prefixed(
            entry_alone(first)->unexpected,
            seq![value],
            some_entry_left(others),
            others.map_values(read),
            inputs_syntax(more),
        );
        assert(entries.map_values(read) =~= seq![value] + others.map_values(read));
    }
}

/// An entry at the end of a parameter list needs no comma; one that is not at the end does, and the
/// list goes on behind that. An entry that is not read stops the list.
pub proof fn law_last_entry(tokens: Text)
    requires
        tokens.len() > 0,
    ensures
        match input_syntax(tokens) {
            Parse::Parsed { value, rest, unexpected } => {
                &&& rest.len() == 0 ==> inputs_syntax(tokens) == (Parse::Parsed {
                    value: seq![(value, false)],
                    rest: Seq::empty(),
                    unexpected,
                })
                &&& rest.len() > 0 && (flat(rest).len() == 0 || !(flat(
                    rest,
                )[0] matches Tree::Punct(',', _, _))) ==> inputs_syntax(tokens) == Parse::Failed::<
                    Seq<(InputText, bool)>,
                >("expected `,`"@)
                &&& 0 < flat(rest).len() <= flat(tokens).len() && (flat(
                    rest,
                )[0] matches Tree::Punct(',', _, _)) ==> inputs_syntax(tokens) == after(
                    unexpected,
                    prefixed(seq![(value, true)], inputs_syntax(unwrapped(rest).skip(1))),
                )
            },
            Parse::Failed(message) => inputs_syntax(tokens) == Parse::Failed::<
                Seq<(InputText, bool)>,
            >(message),
            Parse::Stopped(reason) => inputs_syntax(tokens) == Parse::Stopped::<
                Seq<(InputText, bool)>,
            >(reason),
        },
        inputs_syntax(Seq::empty()) == (Parse::Parsed::<Seq<(InputText, bool)>> {
            value: Seq::empty(),
            rest: Seq::empty(),
            unexpected: false,
        }),
{
    if let Parse::Parsed { rest, .. } = input_syntax(tokens) {
        law_first_token(rest, "self"@, ',', Delimiter::Bracket);
        law_opening(rest);
        if flat(rest).len() > 0 {
            lemma_unwrapped_skip(rest);
        }
        if rest.len() == 0 {
            assert(rest =~= Seq::empty());
        }
    }
}

} // verus!
