//! Token trees as mathematical values, and what the grammar asks of them.

use vstd::prelude::*;

verus! {

/// What a group of tokens is enclosed in.
#[derive(Clone, Copy, PartialEq, Eq, Structural, Debug)]
pub enum Delimiter {
    Parenthesis,
    Brace,
    Bracket,
    /// No visible delimiter: a fragment that a `macro_rules!` macro passed on.
    Invisible,
}

/// A token tree whose tokens each carry a mark of type `S`: their span, or nothing where only
/// the text matters.
pub enum Tree<S> {
    Ident(Seq<char>, S),
    /// A punctuation character, and whether the next one is joined to it.
    Punct(char, bool, S),
    Literal(Seq<char>, S),
    Group(Delimiter, Seq<Tree<S>>, S),
}

/// The mark of a tree, such as its span.
pub open spec fn mark<S>(tree: Tree<S>) -> S {
    match tree {
        Tree::Ident(_, mark) => mark,
        Tree::Punct(_, _, mark) => mark,
        Tree::Literal(_, mark) => mark,
        Tree::Group(_, _, mark) => mark,
    }
}

/// Tokens without their spans.
pub type Text = Seq<Tree<()>>;

/// A token tree without its spans.
pub open spec fn erase<S>(tree: Tree<S>) -> Tree<()>
    decreases tree,
{
    match tree {
        Tree::Ident(text, _) => Tree::Ident(text, ()),
        Tree::Punct(symbol, joint, _) => Tree::Punct(symbol, joint, ()),
        Tree::Literal(text, _) => Tree::Literal(text, ()),
        Tree::Group(delimiter, inner, _) => Tree::Group(delimiter, erase_all(inner), ()),
    }
}

/// Token trees without their spans, in the same order.
pub open spec fn erase_all<S>(trees: Seq<Tree<S>>) -> Text
    decreases trees,
{
    if trees.len() == 0 {
        Seq::empty()
    } else {
        erase_all(trees.drop_last()).push(erase(trees.last()))
    }
}

/// Whether the tokens start with a group that has no visible delimiter.
pub open spec fn starts_invisible<S>(trees: Seq<Tree<S>>) -> bool {
    trees.len() > 0 && (trees[0] matches Tree::Group(Delimiter::Invisible, _, _))
}

/// The trees inside a group.
pub open spec fn inside<S>(tree: Tree<S>) -> Seq<Tree<S>> {
    match tree {
        Tree::Group(_, inner, _) => inner,
        _ => Seq::empty(),
    }
}

/// The tokens with the invisible groups at their start opened, so that the first tree, if there
/// is one, is no invisible group.
pub open spec fn unwrapped<S>(trees: Seq<Tree<S>>) -> Seq<Tree<S>>
    decreases trees,
{
    if trees.len() == 0 {
        trees
    } else {
        match trees[0] {
            Tree::Group(Delimiter::Invisible, inner, _) => {
                let opened = unwrapped(inner);
                if opened.len() > 0 {
                    opened + trees.skip(1)
                } else {
                    unwrapped(trees.skip(1))
                }
            },
            _ => trees,
        }
    }
}

/// The tokens with every invisible group opened, except inside a visible one.
pub open spec fn flat<S>(trees: Seq<Tree<S>>) -> Seq<Tree<S>>
    decreases trees,
{
    if trees.len() == 0 {
        trees
    } else {
        match trees[0] {
            Tree::Group(Delimiter::Invisible, inner, _) => flat(inner) + flat(trees.skip(1)),
            _ => seq![trees[0]] + flat(trees.skip(1)),
        }
    }
}

/// The tokens behind the first tree. An invisible group is not passed over: it is opened.
pub open spec fn step<S>(trees: Seq<Tree<S>>) -> Seq<Tree<S>> {
    if trees.len() == 0 {
        trees
    } else {
        match trees[0] {
            Tree::Group(Delimiter::Invisible, inner, _) => inner + trees.skip(1),
            _ => trees.skip(1),
        }
    }
}

/// The tokens behind some steps.
pub open spec fn stepped<S>(trees: Seq<Tree<S>>, steps: nat) -> Seq<Tree<S>>
    decreases steps,
{
    if steps == 0 {
        trees
    } else {
        stepped(step(trees), (steps - 1) as nat)
    }
}

/// Whether `rest` is what some steps leave of `trees`.
pub open spec fn is_end_of<S>(rest: Seq<Tree<S>>, trees: Seq<Tree<S>>) -> bool {
    exists|steps: nat| rest == #[trigger] stepped(trees, steps)
}

/// Whether a tree is the first at some step, and `rest` is left of what is behind it.
pub open spec fn is_read<S>(tree: Tree<S>, rest: Seq<Tree<S>>, trees: Seq<Tree<S>>) -> bool {
    exists|from: Seq<Tree<S>>| #[trigger]
        is_end_of(from, trees) && from.len() > 0 && from[0] == tree && is_end_of(rest, step(from))
}

/// Whether a tree is one of the trees, or in a group among them, at any depth.
pub open spec fn within<S>(tree: Tree<S>, trees: Seq<Tree<S>>) -> bool
    decreases trees,
{
    trees.len() > 0 && (trees[0] == tree || (match trees[0] {
        Tree::Group(_, inner, _) => within(tree, inner),
        _ => false,
    }) || within(tree, trees.skip(1)))
}

/// Whether each of the trees in `part` is within `trees`.
pub open spec fn all_within<S>(part: Seq<Tree<S>>, trees: Seq<Tree<S>>) -> bool {
    forall|i: int| 0 <= i < part.len() ==> within(#[trigger] part[i], trees)
}

/// Whether all that is within `inner` is within `outer`.
pub open spec fn covers<S>(outer: Seq<Tree<S>>, inner: Seq<Tree<S>>) -> bool {
    forall|tree: Tree<S>| #[trigger] within(tree, inner) ==> within(tree, outer)
}

/// Whether a tree is an invisible group.
pub open spec fn is_invisible<S>(tree: Tree<S>) -> bool {
    tree matches Tree::Group(Delimiter::Invisible, _, _)
}

/// Erasing keeps the number and the order of the trees.
pub broadcast proof fn lemma_erase_all<S>(trees: Seq<Tree<S>>)
    ensures
        #![trigger erase_all(trees)]
        erase_all(trees).len() == trees.len(),
        forall|i: int|
            0 <= i < trees.len() ==> #[trigger] erase_all(trees)[i] == erase(trees[i]),
    decreases trees.len(),
{
    if trees.len() > 0 {
        lemma_erase_all(trees.drop_last());
        assert forall|i: int| 0 <= i < trees.len() implies #[trigger] erase_all(trees)[i] == erase(
            trees[i],
        ) by {
            if i < trees.len() - 1 {
                assert(erase_all(trees.drop_last())[i] == erase(trees.drop_last()[i]));
            }
        }
    }
}

/// Erasing a concatenation is concatenating what was erased.
pub broadcast proof fn lemma_erase_add<S>(left: Seq<Tree<S>>, right: Seq<Tree<S>>)
    ensures
        #[trigger] erase_all(left + right) == erase_all(left) + erase_all(right),
{
    broadcast use lemma_erase_all;

    assert(erase_all(left + right) =~= erase_all(left) + erase_all(right));
}

/// Erasing commutes with dropping trees from the front.
pub broadcast proof fn lemma_erase_skip<S>(trees: Seq<Tree<S>>, n: int)
    requires
        0 <= n <= trees.len(),
    ensures
        #[trigger] erase_all(trees.skip(n)) == erase_all(trees).skip(n),
{
    broadcast use lemma_erase_all;

    assert(erase_all(trees.skip(n)) =~= erase_all(trees).skip(n));
}

/// Erasing a single tree.
pub broadcast proof fn lemma_erase_one<S>(tree: Tree<S>)
    ensures
        #[trigger] erase_all(seq![tree]) == seq![erase(tree)],
{
    broadcast use lemma_erase_all;

    assert(erase_all(seq![tree]) =~= seq![erase(tree)]);
}

/// The invisible groups of a concatenation are those of its parts.
pub proof fn lemma_flat_add<S>(left: Seq<Tree<S>>, right: Seq<Tree<S>>)
    ensures
        flat(left + right) == flat(left) + flat(right),
    decreases left.len(),
{
    if left.len() == 0 {
        assert(left + right =~= right);
    } else {
        assert((left + right).skip(1) =~= left.skip(1) + right);
        lemma_flat_add(left.skip(1), right);
        assert(flat(left + right) =~= flat(left) + flat(right));
    }
}

/// Opening the invisible groups at the start changes nothing but those groups, and leaves none.
pub proof fn lemma_unwrapped<S>(trees: Seq<Tree<S>>)
    ensures
        flat(unwrapped(trees)) == flat(trees),
        !starts_invisible(unwrapped(trees)),
        unwrapped(trees).len() == 0 <==> flat(trees).len() == 0,
    decreases trees,
{
    if trees.len() > 0 {
        match trees[0] {
            Tree::Group(Delimiter::Invisible, inner, _) => {
                lemma_unwrapped(inner);
                lemma_unwrapped(trees.skip(1));
                lemma_flat_add(unwrapped(inner), trees.skip(1));
                assert(flat(inner).len() == 0 ==> flat(inner) + flat(trees.skip(1)) =~= flat(
                    trees.skip(1),
                ));
            },
            _ => {},
        }
    }
}

/// Taking the first visible tree takes the first tree of the flat tokens.
pub proof fn lemma_unwrapped_skip<S>(trees: Seq<Tree<S>>)
    requires
        unwrapped(trees).len() > 0,
    ensures
        flat(trees) == seq![unwrapped(trees)[0]] + flat(unwrapped(trees).skip(1)),
        flat(unwrapped(trees).skip(1)) == flat(trees).skip(1),
        flat(unwrapped(trees).skip(1)).len() + 1 == flat(trees).len(),
{
    lemma_unwrapped(trees);
    assert(flat(trees).skip(1) =~= flat(unwrapped(trees).skip(1)));
}

/// Opening the invisible groups at the start does not look at spans.
pub proof fn lemma_unwrapped_erase<S>(trees: Seq<Tree<S>>)
    ensures
        erase_all(unwrapped(trees)) == unwrapped(erase_all(trees)),
    decreases trees,
{
    broadcast use {lemma_erase_all, lemma_erase_add, lemma_erase_skip};

    if trees.len() > 0 {
        assert(erase_all(trees)[0] == erase(trees[0]));
        match trees[0] {
            Tree::Group(Delimiter::Invisible, inner, _) => {
                lemma_unwrapped_erase(inner);
                lemma_unwrapped_erase(trees.skip(1));
            },
            _ => {},
        }
    } else {
        assert(erase_all(trees) =~= Seq::<Tree<()>>::empty());
    }
}

/// Steps leave no more than there was.
pub proof fn lemma_end_of<S>(rest: Seq<Tree<S>>, trees: Seq<Tree<S>>)
    requires
        is_end_of(rest, trees),
    ensures
        flat(rest).len() <= flat(trees).len(),
{
    let steps = choose|steps: nat| rest == #[trigger] stepped(trees, steps);
    lemma_stepped(trees, steps);
}

/// The same, of so many steps.
proof fn lemma_stepped<S>(trees: Seq<Tree<S>>, steps: nat)
    ensures
        flat(stepped(trees, steps)).len() <= flat(trees).len(),
    decreases steps,
{
    if steps > 0 {
        lemma_stepped(step(trees), (steps - 1) as nat);
        if trees.len() > 0 {
            if let Tree::Group(Delimiter::Invisible, inner, _) = trees[0] {
                lemma_flat_add(inner, trees.skip(1));
            }
        }
    }
}

/// Nothing is left of nothing.
pub proof fn lemma_stepped_empty<S>(trees: Seq<Tree<S>>, steps: nat)
    requires
        trees.len() == 0,
    ensures
        stepped(trees, steps) == trees,
    decreases steps,
{
    if steps > 0 {
        lemma_stepped_empty(trees, (steps - 1) as nat);
    }
}

/// Steps in front of more trees.
proof fn lemma_stepped_add<S>(trees: Seq<Tree<S>>, more: Seq<Tree<S>>, steps: nat)
    requires
        stepped(trees, steps).len() > 0,
    ensures
        stepped(trees + more, steps) == stepped(trees, steps) + more,
    decreases steps,
{
    if steps > 0 {
        if trees.len() == 0 {
            lemma_stepped_empty(trees, steps);
        }
        assert(step(trees + more) =~= step(trees) + more);
        lemma_stepped_add(step(trees), more, (steps - 1) as nat);
    }
}

/// Steps one after the other.
proof fn lemma_stepped_twice<S>(trees: Seq<Tree<S>>, first: nat, second: nat)
    ensures
        stepped(stepped(trees, first), second) == stepped(trees, first + second),
    decreases first,
{
    if first > 0 {
        lemma_stepped_twice(step(trees), (first - 1) as nat, second);
    }
}

/// All trees are an end of themselves.
pub proof fn lemma_end_of_all<S>(trees: Seq<Tree<S>>)
    ensures
        is_end_of(trees, trees),
{
    assert(trees == stepped(trees, 0));
}

/// What is behind the first tree is an end.
pub proof fn lemma_end_of_step<S>(trees: Seq<Tree<S>>)
    ensures
        is_end_of(step(trees), trees),
{
    assert(stepped(step(trees), 0) == stepped(trees, 1));
}

/// The end of an end is an end.
pub proof fn lemma_end_of_end<S>(last: Seq<Tree<S>>, rest: Seq<Tree<S>>, trees: Seq<Tree<S>>)
    requires
        is_end_of(last, rest),
        is_end_of(rest, trees),
    ensures
        is_end_of(last, trees),
{
    let first = choose|steps: nat| rest == #[trigger] stepped(trees, steps);
    let second = choose|steps: nat| last == #[trigger] stepped(rest, steps);
    lemma_stepped_twice(trees, first, second);
}

/// What is behind some trees is an end.
proof fn lemma_end_behind<S>(trees: Seq<Tree<S>>, more: Seq<Tree<S>>)
    ensures
        is_end_of(more, trees + more),
    decreases trees,
{
    if trees.len() == 0 {
        assert(trees + more =~= more);
        lemma_end_of_all(more);
    } else {
        let rest = trees.skip(1);
        lemma_end_behind(rest, more);
        lemma_end_of_step(trees + more);
        assert((trees + more).skip(1) =~= rest + more);
        if let Tree::Group(Delimiter::Invisible, inner, _) = trees[0] {
            lemma_end_behind(inner, rest + more);
            lemma_end_of_end(rest + more, inner + (rest + more), trees + more);
        }
        lemma_end_of_end(more, rest + more, trees + more);
    }
}

/// Opening the invisible groups at the start leaves an end.
pub proof fn lemma_end_unwrapped<S>(trees: Seq<Tree<S>>)
    ensures
        is_end_of(unwrapped(trees), trees),
    decreases trees,
{
    lemma_end_of_all(trees);
    if trees.len() > 0 {
        let rest = trees.skip(1);
        if let Tree::Group(Delimiter::Invisible, inner, _) = trees[0] {
            lemma_end_of_step(trees);
            lemma_end_unwrapped(inner);
            let opened = unwrapped(inner);
            if opened.len() > 0 {
                let steps = choose|steps: nat| opened == #[trigger] stepped(inner, steps);
                lemma_stepped_add(inner, rest, steps);
                assert(stepped(inner + rest, steps) == opened + rest);
                lemma_end_of_end(opened + rest, inner + rest, trees);
            } else {
                lemma_end_behind(inner, rest);
                lemma_end_unwrapped(rest);
                lemma_end_of_end(unwrapped(rest), rest, inner + rest);
                lemma_end_of_end(unwrapped(rest), inner + rest, trees);
            }
        }
    }
}

/// What is behind the first visible tree is an end.
pub proof fn lemma_end_behind_first<S>(trees: Seq<Tree<S>>)
    requires
        unwrapped(trees).len() > 0,
    ensures
        is_end_of(unwrapped(trees).skip(1), trees),
{
    lemma_unwrapped(trees);
    lemma_end_unwrapped(trees);
    lemma_end_of_step(unwrapped(trees));
    lemma_end_of_end(unwrapped(trees).skip(1), unwrapped(trees), trees);
}

/// What is left in front of a visible tree, and what is really behind it, are an end together.
pub proof fn lemma_end_in_front<S>(
    rest: Seq<Tree<S>>,
    front: Seq<Tree<S>>,
    mark: Tree<S>,
    behind: Seq<Tree<S>>,
)
    requires
        is_end_of(rest, front.push(mark)),
        rest.len() > 0,
        !is_invisible(mark),
    ensures
        rest.last() == mark,
        is_end_of(rest.drop_last() + behind, front + behind),
{
    let steps = choose|steps: nat| rest == #[trigger] stepped(front.push(mark), steps);
    lemma_stepped_push(front, mark, steps);
    let left = stepped(front, steps);
    assert(rest.drop_last() =~= left);
    if left.len() > 0 {
        lemma_stepped_add(front, behind, steps);
        assert(left + behind == stepped(front + behind, steps));
    } else {
        assert(left + behind =~= behind);
        lemma_end_behind(front, behind);
    }
}

/// Steps in front of a visible tree that is left.
proof fn lemma_stepped_push<S>(front: Seq<Tree<S>>, mark: Tree<S>, steps: nat)
    requires
        stepped(front.push(mark), steps).len() > 0,
        !is_invisible(mark),
    ensures
        stepped(front.push(mark), steps) == stepped(front, steps).push(mark),
    decreases steps,
{
    if steps > 0 {
        if front.len() == 0 {
            assert(step(front.push(mark)) =~= Seq::empty());
            lemma_stepped_empty(step(front.push(mark)), (steps - 1) as nat);
        } else {
            assert(step(front.push(mark)) =~= step(front).push(mark));
            lemma_stepped_push(step(front), mark, (steps - 1) as nat);
        }
    }
}

/// What is within a concatenation is within one of its parts.
pub proof fn lemma_within_add<S>(tree: Tree<S>, left: Seq<Tree<S>>, right: Seq<Tree<S>>)
    ensures
        within(tree, left + right) <==> within(tree, left) || within(tree, right),
    decreases left.len(),
{
    if left.len() == 0 {
        assert(left + right =~= right);
    } else {
        assert((left + right).skip(1) =~= left.skip(1) + right);
        lemma_within_add(tree, left.skip(1), right);
    }
}

/// Trees cover their parts.
pub proof fn lemma_covers_parts<S>(left: Seq<Tree<S>>, right: Seq<Tree<S>>)
    ensures
        covers(left + right, left),
        covers(left + right, right),
{
    assert forall|tree: Tree<S>| #[trigger] within(tree, left) implies within(
        tree,
        left + right,
    ) by {
        lemma_within_add(tree, left, right);
    }
    assert forall|tree: Tree<S>| #[trigger] within(tree, right) implies within(
        tree,
        left + right,
    ) by {
        lemma_within_add(tree, left, right);
    }
}

/// What covers two parts covers them together.
pub proof fn lemma_covers_both<S>(left: Seq<Tree<S>>, right: Seq<Tree<S>>, trees: Seq<Tree<S>>)
    requires
        covers(trees, left),
        covers(trees, right),
    ensures
        covers(trees, left + right),
{
    assert forall|tree: Tree<S>| #[trigger] within(tree, left + right) implies within(
        tree,
        trees,
    ) by {
        lemma_within_add(tree, left, right);
    }
}

/// Trees cover what steps leave of them.
pub proof fn lemma_covers_end<S>(rest: Seq<Tree<S>>, trees: Seq<Tree<S>>)
    requires
        is_end_of(rest, trees),
    ensures
        covers(trees, rest),
{
    let steps = choose|steps: nat| rest == #[trigger] stepped(trees, steps);
    lemma_covers_stepped(trees, steps);
}

/// The same, of so many steps.
proof fn lemma_covers_stepped<S>(trees: Seq<Tree<S>>, steps: nat)
    ensures
        covers(trees, stepped(trees, steps)),
    decreases steps,
{
    if steps > 0 {
        lemma_covers_stepped(step(trees), (steps - 1) as nat);
        assert forall|tree: Tree<S>| #[trigger] within(tree, step(trees)) implies within(
            tree,
            trees,
        ) by {
            if trees.len() > 0 {
                if let Tree::Group(Delimiter::Invisible, inner, _) = trees[0] {
                    lemma_within_add(tree, inner, trees.skip(1));
                }
            }
        }
    }
}

/// Trees cover what is in a group that is within them.
pub proof fn lemma_covers_inside<S>(group: Tree<S>, trees: Seq<Tree<S>>)
    requires
        within(group, trees),
    ensures
        covers(trees, inside(group)),
    decreases trees,
{
    if let Tree::Group(_, inner, _) = trees[0] {
        if within(group, inner) {
            lemma_covers_inside(group, inner);
        }
    }
    if within(group, trees.skip(1)) {
        lemma_covers_inside(group, trees.skip(1));
    }
    assert forall|tree: Tree<S>| #[trigger] within(tree, inside(group)) implies within(
        tree,
        trees,
    ) by {
        if trees[0] == group {
        } else if !within(group, trees.skip(1)) {
            assert(within(tree, inside(trees[0])));
        }
    }
}

/// The first visible tree is within the trees.
pub proof fn lemma_first_within<S>(trees: Seq<Tree<S>>)
    requires
        unwrapped(trees).len() > 0,
    ensures
        within(unwrapped(trees)[0], trees),
{
    lemma_end_unwrapped(trees);
    lemma_covers_end(unwrapped(trees), trees);
    assert(within(unwrapped(trees)[0], unwrapped(trees)));
}

/// A tree that was read is within the trees.
pub proof fn lemma_read_within<S>(tree: Tree<S>, rest: Seq<Tree<S>>, trees: Seq<Tree<S>>)
    requires
        is_read(tree, rest, trees),
    ensures
        within(tree, trees),
{
    let from = choose|from: Seq<Tree<S>>| #[trigger]
        is_end_of(from, trees) && from.len() > 0 && from[0] == tree && is_end_of(rest, step(from));
    lemma_covers_end(from, trees);
    assert(within(tree, from));
}

/// A tree that was read in front of a visible tree that is left is in front of that tree.
pub proof fn lemma_read_in_front<S>(
    tree: Tree<S>,
    rest: Seq<Tree<S>>,
    front: Seq<Tree<S>>,
    mark: Tree<S>,
)
    requires
        is_read(tree, rest, front.push(mark)),
        rest.len() > 0,
        !is_invisible(mark),
    ensures
        within(tree, front),
{
    let all = front.push(mark);
    let from = choose|from: Seq<Tree<S>>| #[trigger]
        is_end_of(from, all) && from.len() > 0 && from[0] == tree && is_end_of(rest, step(from));
    let steps = choose|steps: nat| from == #[trigger] stepped(all, steps);
    lemma_stepped_push(front, mark, steps);
    let left = stepped(front, steps);
    if left.len() == 0 {
        assert(step(from) =~= Seq::empty());
        let more = choose|more: nat| rest == #[trigger] stepped(step(from), more);
        lemma_stepped_empty(step(from), more);
    }
    lemma_covers_stepped(front, steps);
    assert(within(tree, left));
}

/// Steps do not look at spans.
pub proof fn lemma_end_erase<S>(rest: Seq<Tree<S>>, trees: Seq<Tree<S>>)
    requires
        is_end_of(rest, trees),
    ensures
        is_end_of(erase_all(rest), erase_all(trees)),
{
    let steps = choose|steps: nat| rest == #[trigger] stepped(trees, steps);
    lemma_stepped_erase(trees, steps);
    assert(erase_all(rest) == stepped(erase_all(trees), steps));
}

/// The same, of so many steps.
proof fn lemma_stepped_erase<S>(trees: Seq<Tree<S>>, steps: nat)
    ensures
        erase_all(stepped(trees, steps)) == stepped(erase_all(trees), steps),
    decreases steps,
{
    if steps > 0 {
        lemma_stepped_erase(step(trees), (steps - 1) as nat);
        lemma_erase_all(trees);
        if trees.len() > 0 {
            lemma_erase_skip(trees, 1);
            assert(erase_all(trees)[0] == erase(trees[0]));
            if let Tree::Group(Delimiter::Invisible, inner, _) = trees[0] {
                lemma_erase_add(inner, trees.skip(1));
            }
        }
        assert(erase_all(step(trees)) == step(erase_all(trees)));
    }
}

} // verus!
