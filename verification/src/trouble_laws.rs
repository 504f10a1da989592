//! What `syn` can be given and what not, said of the tokens themselves.

use crate::bare_fn::{has_many_behind_mut_self, sort, sorts, Sort};
use crate::grammar::Reason;
use crate::token::{
    covers, flat, inside, lemma_unwrapped, lemma_unwrapped_skip, lemma_within_add, mark, unwrapped,
    within, Delimiter, Text, Tree,
};
use crate::trouble::{
    attribute_len, before_rest, behind_attributes, is_keyword, is_lone_attribute, is_symbol,
    known_literal, macro_len, trouble, trouble_behind, trouble_in, Before,
};
use vstd::prelude::*;

verus! {

/// Whether a literal is one that `syn` reads, by how it starts: a number, whatever its first digit
/// is, a string, a raw string, a character, a byte, or a byte string, raw or not.
pub open spec fn is_readable(text: Seq<char>) -> bool {
    text.len() > 0 && {
        ||| text[0] == '0' || text[0] == '1' || text[0] == '2' || text[0] == '3' || text[0] == '4'
        ||| text[0] == '5' || text[0] == '6' || text[0] == '7' || text[0] == '8' || text[0] == '9'
        ||| text[0] == '-' || text[0] == '"' || text[0] == '\'' || text[0] == 'r'
        ||| text[0] == 'b' && text.len() > 1 && (text[1] == '"' || text[1] == '\'' || text[1]
            == 'r')
    }
}

/// Every literal that `syn` reads is known, and no other: a C string is not.
pub proof fn law_known_literals(text: Seq<char>)
    ensures
        known_literal(text) <==> is_readable(text),
        text.len() > 0 && text[0] == 'c' ==> !known_literal(text),
{
}

/// The words that are no identifiers.
pub proof fn law_keywords(text: Seq<char>)
    ensures
        is_keyword(text) <==> seq![
            "_"@, "abstract"@, "as"@, "become"@, "box"@, "break"@, "const"@, "continue"@,
            "crate"@, "do"@, "else"@, "enum"@, "extern"@, "false"@, "final"@, "fn"@, "for"@,
            "if"@, "impl"@, "in"@, "let"@, "loop"@, "macro"@, "match"@, "mod"@, "move"@, "mut"@,
            "override"@, "priv"@, "pub"@, "ref"@, "return"@, "Self"@, "self"@, "static"@,
            "struct"@, "super"@, "trait"@, "true"@, "type"@, "typeof"@, "unsafe"@, "unsized"@,
            "use"@, "virtual"@, "where"@, "while"@, "yield"@,
        ].contains(text),
{
    let words = seq![
        "_"@, "abstract"@, "as"@, "become"@, "box"@, "break"@, "const"@, "continue"@, "crate"@,
        "do"@, "else"@, "enum"@, "extern"@, "false"@, "final"@, "fn"@, "for"@, "if"@, "impl"@,
        "in"@, "let"@, "loop"@, "macro"@, "match"@, "mod"@, "move"@, "mut"@, "override"@,
        "priv"@, "pub"@, "ref"@, "return"@, "Self"@, "self"@, "static"@, "struct"@, "super"@,
        "trait"@, "true"@, "type"@, "typeof"@, "unsafe"@, "unsized"@, "use"@, "virtual"@,
        "where"@, "while"@, "yield"@,
    ];
    assert(words.len() == 48);
    assert(words[0] == "_"@ && words[1] == "abstract"@ && words[2] == "as"@ && words[3]
        == "become"@ && words[4] == "box"@ && words[5] == "break"@ && words[6] == "const"@
        && words[7] == "continue"@ && words[8] == "crate"@ && words[9] == "do"@ && words[10]
        == "else"@ && words[11] == "enum"@ && words[12] == "extern"@ && words[13] == "false"@
        && words[14] == "final"@ && words[15] == "fn"@ && words[16] == "for"@ && words[17]
        == "if"@ && words[18] == "impl"@ && words[19] == "in"@ && words[20] == "let"@
        && words[21] == "loop"@ && words[22] == "macro"@ && words[23] == "match"@);
    assert(words[24] == "mod"@ && words[25] == "move"@ && words[26] == "mut"@ && words[27]
        == "override"@ && words[28] == "priv"@ && words[29] == "pub"@ && words[30] == "ref"@
        && words[31] == "return"@ && words[32] == "Self"@ && words[33] == "self"@ && words[34]
        == "static"@ && words[35] == "struct"@ && words[36] == "super"@ && words[37] == "trait"@
        && words[38] == "true"@ && words[39] == "type"@ && words[40] == "typeof"@ && words[41]
        == "unsafe"@ && words[42] == "unsized"@ && words[43] == "use"@ && words[44]
        == "virtual"@ && words[45] == "where"@ && words[46] == "while"@ && words[47]
        == "yield"@);
}

/// Whether a group holds an attribute and no other visible tree.
pub open spec fn holds_attribute(inner: Text) -> bool {
    flat(inner).len() == 2 && (flat(inner)[0] matches Tree::Punct('#', _, _)) && (flat(
        inner,
    )[1] matches Tree::Group(Delimiter::Bracket, _, _))
}

/// Whether `mut` and `self` are at a place, and a comma at another behind that.
pub open spec fn is_mut_self_at(trees: Text, i: int, j: int) -> bool {
    0 <= i < i + 1 < j < trees.len() && trees[i] == Tree::Ident("mut"@, ()) && trees[i + 1]
        == Tree::Ident("self"@, ()) && (trees[j] matches Tree::Punct(',', _, _))
}

/// Whether among the visible trees of a group `mut` is in front of `self`, and a comma behind that.
pub open spec fn holds_mut_self(inner: Text) -> bool {
    exists|i: int, j: int| is_mut_self_at(flat(inner), i, j)
}

/// The same, of what the trees are in a parameter list.
spec fn is_sorted_at(all: Seq<Sort>, i: int, j: int) -> bool {
    0 <= i < i + 1 < j < all.len() && all[i] == Sort::Mut && all[i + 1] == Sort::SelfWord && all[j]
        == Sort::Comma
}

/// Whether tokens hold what they would be refused for: a literal that `syn` does not read, an
/// invisible group with an attribute and nothing else visible, or a parameter list with more behind
/// a `mut self`.
pub open spec fn is_there(reason: Reason, tokens: Text) -> bool {
    match reason {
        Reason::UnknownLiteral(text) => !is_readable(text) && within(
            Tree::Literal(text, ()),
            tokens,
        ),
        Reason::LoneAttribute => exists|inner: Text| #[trigger]
            holds_attribute(inner) && within(
                Tree::Group(Delimiter::Invisible, inner, ()),
                tokens,
            ),
        Reason::MutSelf => exists|inner: Text| #[trigger]
            holds_mut_self(inner) && within(
                Tree::Group(Delimiter::Parenthesis, inner, ()),
                tokens,
            ),
        _ => false,
    }
}

/// What is in a part is in the whole.
proof fn lemma_is_there(reason: Reason, part: Text, tokens: Text)
    requires
        is_there(reason, part),
        covers(tokens, part),
    ensures
        is_there(reason, tokens),
{
}

/// Tokens are refused only for what is in them.
pub proof fn law_refused_for_what_is_there(tokens: Text, before: Before)
    ensures
        trouble_behind(tokens, before) matches Some(reason) ==> is_there(reason, tokens),
    decreases tokens, 1int,
{
    if tokens.len() > 0 {
        let n = if attribute_len(tokens) > 0 {
            attribute_len(tokens) as int
        } else if macro_len(tokens) > 0 && before != Before::Quote {
            macro_len(tokens) as int
        } else {
            1
        };
        let next = if n == 1 {
            before_rest(seq![tokens[0]], before)
        } else {
            Before::Other
        };
        let rest = tokens.skip(n);
        law_refused_for_what_is_there(rest, next);
        lemma_within_skip(tokens, n);
        if trouble_behind(rest, next) is Some {
            lemma_is_there(trouble_behind(rest, next)->0, rest, tokens);
        }
        if n == 1 {
            assert(trouble_behind(tokens, before) == match trouble_in(tokens[0], before) {
                Some(reason) => Some(reason),
                None => trouble_behind(rest, next),
            });
            lemma_tree_refused(tokens, before);
        }
    }
}

/// The first tree is refused only for what is in it.
proof fn lemma_tree_refused(tokens: Text, before: Before)
    requires
        tokens.len() > 0,
    ensures
        trouble_in(tokens[0], before) matches Some(reason) ==> is_there(reason, tokens),
    decreases tokens, 0int,
{
    let tree = tokens[0];
    assert(within(tree, tokens));
    match tree {
        Tree::Literal(text, mark) => {
            lemma_no_mark(mark);
            law_known_literals(text);
        },
        Tree::Group(delimiter, inner, mark) => {
            lemma_no_mark(mark);
            assert(covers(tokens, inner));
            let inside = if delimiter == Delimiter::Invisible {
                before
            } else {
                Before::Other
            };
            law_refused_for_what_is_there(inner, inside);
            if trouble_behind(inner, inside) is Some {
                lemma_is_there(trouble_behind(inner, inside)->0, inner, tokens);
            }
            if delimiter == Delimiter::Invisible && is_lone_attribute(inner) {
                lemma_lone_attribute(inner);
                assert(is_there(Reason::LoneAttribute, tokens));
            }
            if delimiter == Delimiter::Parenthesis && has_many_behind_mut_self(inner) {
                lemma_many_behind_mut_self(inner);
                assert(is_there(Reason::MutSelf, tokens));
            }
        },
        _ => {},
    }
}

/// There is but one mark that says nothing.
pub proof fn lemma_no_mark(mark: ())
    ensures
        mark == (),
{
}

/// What is within what is behind some trees is within all of them.
proof fn lemma_within_skip(tokens: Text, n: int)
    requires
        0 <= n <= tokens.len(),
    ensures
        covers(tokens, tokens.skip(n)),
{
    assert forall|tree: Tree<()>| #[trigger] within(tree, tokens.skip(n)) implies within(
        tree,
        tokens,
    ) by {
        lemma_within_add(tree, tokens.take(n), tokens.skip(n));
        assert(tokens.take(n) + tokens.skip(n) =~= tokens);
    }
}

/// A lone attribute is an attribute and no other visible tree.
proof fn lemma_lone_attribute(inner: Text)
    requires
        is_lone_attribute(inner),
    ensures
        holds_attribute(inner),
{
    let second = unwrapped(inner).skip(1);
    lemma_unwrapped_skip(inner);
    lemma_unwrapped_skip(second);
    lemma_unwrapped(second);
    assert(unwrapped(second).skip(1) =~= Seq::empty());
    assert(flat(unwrapped(second).skip(1)) =~= Seq::empty());
    assert(flat(inner)[0] == unwrapped(inner)[0]);
    assert(flat(inner)[1] == flat(second)[0]);
}

/// If many parameters are behind a `mut self`, there is one, and a comma behind it.
proof fn lemma_many_behind_mut_self(inner: Text)
    requires
        has_many_behind_mut_self(inner),
    ensures
        holds_mut_self(inner),
{
    let all = sorts(inner);
    lemma_counted(all, 0, false, 0);
    let (i, j) = choose|i: int, j: int| is_sorted_at(all, i, j);
    assert(all[i] == sort(flat(inner)[i]));
    assert(all[i + 1] == sort(flat(inner)[i + 1]));
    assert(all[j] == sort(flat(inner)[j]));
    lemma_no_mark(mark(flat(inner)[i]));
    lemma_no_mark(mark(flat(inner)[i + 1]));
    assert(flat(inner)[i] == Tree::Ident("mut"@, ()));
    assert(flat(inner)[i + 1] == Tree::Ident("self"@, ()));
    assert(is_mut_self_at(flat(inner), i, j));
}

/// Parameters are counted only behind a `mut self` and the comma that ends it.
proof fn lemma_counted(all: Seq<Sort>, at: int, seen: bool, count: nat)
    requires
        0 <= at,
    ensures
        !seen && crate::bare_fn::behind_mut_self(all, at, seen, count) > count ==> exists|
            i: int,
            j: int,
        | is_sorted_at(all, i, j),
    decreases all.len() + 1 - at,
{
    if at < all.len() && !seen {
        let end = crate::bare_fn::parameter_end(all, at, 0);
        let start = crate::bare_fn::parameter_start(all, at, end);
        crate::bare_fn::lemma_parameter_end(all, at, 0);
        lemma_end_is_comma(all, at, 0);
        lemma_start_behind(all, at, end);
        if start < end && crate::bare_fn::is_mut_self(all, start, end) {
            if end < all.len() {
                lemma_mut_self(all, start, end);
            } else {
                assert(crate::bare_fn::behind_mut_self(all, end + 1, true, count) == count);
            }
        } else {
            lemma_counted(all, end + 1, false, count);
        }
    }
}

/// A `mut self` in front of a comma.
proof fn lemma_mut_self(all: Seq<Sort>, start: int, end: int)
    requires
        0 <= start < end < all.len(),
        crate::bare_fn::is_mut_self(all, start, end),
        all[end] == Sort::Comma,
    ensures
        exists|i: int, j: int| is_sorted_at(all, i, j),
{
    let first = if start + 1 < end && all[start] == Sort::Mut && all[start + 1]
        == Sort::SelfWord {
        start
    } else {
        start + 2
    };
    assert(is_sorted_at(all, first, end));
}

/// A parameter ends at a comma or at the end.
proof fn lemma_end_is_comma(all: Seq<Sort>, at: int, depth: nat)
    requires
        0 <= at <= all.len(),
    ensures
        crate::bare_fn::parameter_end(all, at, depth) < all.len()
            ==> all[crate::bare_fn::parameter_end(all, at, depth)] == Sort::Comma,
    decreases all.len() - at,
{
    if at < all.len() && !(all[at] == Sort::Comma && depth == 0) {
        lemma_end_is_comma(all, at + 1, crate::bare_fn::depth_behind(all, at, depth));
    }
}

/// A parameter starts no earlier than its attributes.
proof fn lemma_start_behind(all: Seq<Sort>, at: int, end: int)
    ensures
        at <= crate::bare_fn::parameter_start(all, at, end),
    decreases end - at,
{
    if at + 1 < end && all[at] == Sort::Hash && all[at + 1] == Sort::Brackets {
        lemma_start_behind(all, at + 2, end);
    }
}

/// Whether a group is kept as it is, because of what is in front of it: it is that of an attribute
/// or of the call of a macro.
pub open spec fn may_be_kept(tokens: Text, at: int) -> bool {
    ||| at > 0 && (tokens[at - 1] matches Tree::Punct('#', _, _))
    ||| at > 0 && (tokens[at - 1] matches Tree::Punct('!', _, _))
    ||| at > 1 && tokens[at - 1] is Ident && (tokens[at - 2] matches Tree::Punct('!', _, _))
}

/// Whether a tree is one that `syn` can be given: a literal is readable, an invisible group is no
/// attribute alone, and all that is in a group that is not kept can be given as well; if it is the
/// parameter list behind `fn`, there are not many behind a `mut self`.
pub open spec fn is_clean_at(tokens: Text, at: int, before: Before) -> bool {
    match tokens[at] {
        Tree::Literal(text, _) => is_readable(text),
        Tree::Group(Delimiter::Invisible, inner, _) => {
            &&& !(inner.len() == 2 && (inner[0] matches Tree::Punct('#', _, _)) && (
            inner[1] matches Tree::Group(Delimiter::Bracket, _, _)))
            &&& exists|inside: Before| trouble_behind(inner, inside) is None
        },
        Tree::Group(delimiter, inner, _) => !may_be_kept(tokens, at) ==> {
            &&& trouble(inner) is None
            &&& delimiter == Delimiter::Parenthesis && (if at == 0 {
                before == Before::Fn
            } else {
                tokens[at - 1] matches Tree::Ident(word, _) && word == "fn"@
            }) ==> !has_many_behind_mut_self(inner)
        },
        _ => true,
    }
}

/// Tokens that are not refused hold nothing that `syn` must not be given.
pub proof fn law_accepted_tokens_are_clean(tokens: Text, before: Before)
    ensures
        trouble_behind(tokens, before) is None ==> forall|i: int|
            0 <= i < tokens.len() ==> #[trigger] is_clean_at(tokens, i, before),
    decreases tokens,
{
    if tokens.len() > 0 && trouble_behind(tokens, before) is None {
        let n = if attribute_len(tokens) > 0 {
            attribute_len(tokens) as int
        } else if macro_len(tokens) > 0 && before != Before::Quote {
            macro_len(tokens) as int
        } else {
            1
        };
        let next = if n == 1 {
            before_rest(seq![tokens[0]], before)
        } else {
            Before::Other
        };
        let rest = tokens.skip(n);
        law_accepted_tokens_are_clean(rest, next);
        if n == 1 {
            crate::trouble::lemma_before_rest_one(tokens[0], before);
            lemma_first_is_clean(tokens, before);
        }
        assert forall|i: int| 0 <= i < tokens.len() implies #[trigger] is_clean_at(
            tokens,
            i,
            before,
        ) by {
            if i >= n {
                assert(is_clean_at(rest, i - n, next));
                lemma_clean_behind(tokens, n, i, before, next);
            } else if n > 1 {
                assert(i < n);
                assert(tokens[i] is Group ==> may_be_kept(tokens, i));
            }
        }
    }
}

/// A first tree that is not refused is clean.
proof fn lemma_first_is_clean(tokens: Text, before: Before)
    requires
        tokens.len() > 0,
        trouble_in(tokens[0], before) is None,
    ensures
        is_clean_at(tokens, 0, before),
{
    match tokens[0] {
        Tree::Literal(text, _) => {
            law_known_literals(text);
        },
        Tree::Group(Delimiter::Invisible, inner, _) => {
            assert(trouble_behind(inner, before) is None);
            if inner.len() == 2 && (inner[0] matches Tree::Punct('#', _, _)) && (
            inner[1] matches Tree::Group(Delimiter::Bracket, _, _)) {
                assert(unwrapped(inner) == inner);
                assert(inner.skip(1)[0] == inner[1]);
                assert(unwrapped(inner.skip(1)) == inner.skip(1));
            }
        },
        _ => {},
    }
}

/// What is clean behind some trees is clean among all of them.
proof fn lemma_clean_behind(tokens: Text, n: int, i: int, before: Before, next: Before)
    requires
        0 < n <= i < tokens.len(),
        is_clean_at(tokens.skip(n), i - n, next),
        n == 1 ==> next == before_rest(seq![tokens[0]], before),
        n > 1 ==> tokens[n - 1] is Group,
    ensures
        is_clean_at(tokens, i, before),
{
    let rest = tokens.skip(n);
    assert(rest[i - n] == tokens[i]);
    if i - n > 0 {
        assert(rest[i - n - 1] == tokens[i - 1]);
    }
    if i - n > 1 {
        assert(rest[i - n - 2] == tokens[i - 2]);
    }
    if i == n && n == 1 {
        crate::trouble::lemma_before_rest_one(tokens[0], before);
        if let Tree::Ident(word, mark) = tokens[0] {
            lemma_no_mark(mark);
            assert(!is_symbol(tokens[0], '\''));
        }
    }
}

/// What is in an attribute or in the call of a macro does not matter, and neither does that it is
/// there.
pub proof fn law_kept_groups_do_not_matter(
    name: Seq<char>,
    second: Seq<char>,
    joint: bool,
    delimiter: Delimiter,
    inner: Text,
    more: Text,
)
    requires
        !is_keyword(name),
        delimiter != Delimiter::Invisible,
    ensures
        trouble(
            seq![Tree::Punct('#', joint, ()), Tree::Group(Delimiter::Bracket, inner, ())] + more,
        ) == trouble(more),
        trouble(
            seq![
                Tree::Punct('#', joint, ()),
                Tree::Punct('!', false, ()),
                Tree::Group(Delimiter::Bracket, inner, ()),
            ] + more,
        ) == trouble(more),
        trouble(
            seq![
                Tree::Ident(name, ()),
                Tree::Punct('!', joint, ()),
                Tree::Group(delimiter, inner, ()),
            ] + more,
        ) == trouble(more),
        trouble(
            seq![
                Tree::Ident(name, ()),
                Tree::Punct('!', joint, ()),
                Tree::Ident(second, ()),
                Tree::Group(delimiter, inner, ()),
            ] + more,
        ) == trouble(more),
{
    let first = seq![Tree::Punct('#', joint, ()), Tree::Group(Delimiter::Bracket, inner, ())];
    assert((first + more).skip(2) =~= more);
    assert(attribute_len(first + more) == 2);
    let first = seq![
        Tree::Punct('#', joint, ()),
        Tree::Punct('!', false, ()),
        Tree::Group(Delimiter::Bracket, inner, ()),
    ];
    assert((first + more).skip(3) =~= more);
    assert(attribute_len(first + more) == 3);
    let first = seq![
        Tree::Ident(name, ()),
        Tree::Punct('!', joint, ()),
        Tree::Group(delimiter, inner, ()),
    ];
    assert((first + more).skip(3) =~= more);
    assert(macro_len(first + more) == 3);
    let first = seq![
        Tree::Ident(name, ()),
        Tree::Punct('!', joint, ()),
        Tree::Ident(second, ()),
        Tree::Group(delimiter, inner, ()),
    ];
    assert((first + more).skip(4) =~= more);
    assert(macro_len(first + more) == 4);
}

/// The attributes in front of a parameter are passed over, each of them, whether or not it is in an
/// invisible group, and nothing else is.
pub proof fn law_attributes_are_passed_over(joint: bool, inner: Text, more: Text)
    ensures
        ({
            let attribute = seq![
                Tree::Punct('#', joint, ()),
                Tree::Group(Delimiter::Bracket, inner, ()),
            ];
            &&& behind_attributes(attribute + more) == behind_attributes(more)
            &&& behind_attributes(
                seq![Tree::Group(Delimiter::Invisible, attribute, ())] + more,
            ) == behind_attributes(more)
        }),
        flat(more).len() == 0 || !(flat(more)[0] matches Tree::Punct('#', _, _))
            ==> behind_attributes(more) == more,
{
    let attribute = seq![
        Tree::Punct('#', joint, ()),
        Tree::Group(Delimiter::Bracket, inner, ()),
    ];
    let all = attribute + more;
    assert(all[0] == attribute[0] && all[1] == attribute[1]);
    assert(unwrapped(all) == all);
    assert(all.skip(1)[0] == attribute[1]);
    assert(unwrapped(all.skip(1)) == all.skip(1));
    assert(all.skip(1).skip(1) =~= more);
    let group = seq![Tree::Group(Delimiter::Invisible, attribute, ())] + more;
    assert(unwrapped(attribute) == attribute);
    assert(group[0] == Tree::Group(Delimiter::Invisible, attribute, ()));
    assert(group.skip(1) =~= more);
    assert(unwrapped(group) == all);
    lemma_unwrapped(more);
    if unwrapped(more).len() > 0 {
        lemma_unwrapped_skip(more);
        assert(flat(more)[0] == unwrapped(more)[0]);
    }
}

/// Whether tokens are a plain type, such as `A::B` or `u8`: a word that is not `mut` in front, no
/// name with a colon, and neither a comma nor a `<`.
pub open spec fn is_plain_type(tokens: Text) -> bool {
    &&& tokens.len() > 0 && (tokens[0] matches Tree::Ident(word, _) && word != "mut"@)
    &&& tokens.len() > 1 ==> !(tokens[1] matches Tree::Punct(':', _, _))
    &&& forall|i: int|
        0 <= i < tokens.len() ==> !(#[trigger] tokens[i] matches Tree::Punct(',', _, _)) && !(
        tokens[i] matches Tree::Punct('<', _, _)) && !(tokens[i] matches Tree::Group(
            Delimiter::Invisible,
            _,
            _,
        ))
}

/// Two plain types behind a `mut self` are many, and one is not.
pub proof fn law_two_behind_mut_self_are_many(first: Text, second: Text)
    requires
        is_plain_type(first),
        is_plain_type(second),
    ensures
        ({
            let start = seq![
                Tree::Ident("mut"@, ()),
                Tree::Ident("self"@, ()),
                Tree::Punct(',', false, ()),
            ];
            let comma = seq![Tree::Punct(',', false, ())];
            &&& has_many_behind_mut_self(start + first + comma + second)
            &&& !has_many_behind_mut_self(start + first)
            &&& !has_many_behind_mut_self(first + comma + second)
        }),
{
    reveal_strlit("mut");
    reveal_strlit("self");
    assert("mut"@.len() != "self"@.len());
    let start = seq![
        Tree::Ident("mut"@, ()),
        Tree::Ident("self"@, ()),
        Tree::Punct(',', false, ()),
    ];
    let comma = seq![Tree::Punct(',', false, ())];
    let a = first.len() as int;
    let b = second.len() as int;
    let many = start + first + comma + second;
    lemma_plain_sorts(many);
    let all = sorts(many);
    assert(many[0] == start[0] && many[1] == start[1] && many[2] == start[2]);
    assert(many[3 + a] == comma[0]);
    assert forall|i: int| 3 <= i < 3 + a implies #[trigger] many[i] == first[i - 3] by {}
    assert forall|i: int| 4 + a <= i < 4 + a + b implies #[trigger] many[i] == second[i - 4
        - a] by {}
    lemma_parameter(all, 0, 2);
    lemma_parameter(all, 3, 3 + a);
    lemma_parameter(all, 4 + a, 4 + a + b);
    assert(all[0] == Sort::Mut && all[1] == Sort::SelfWord);
    assert(crate::bare_fn::parameter_start(all, 0, 2) == 0);
    assert(crate::bare_fn::is_mut_self(all, 0, 2));
    assert(crate::bare_fn::parameter_start(all, 3, 3 + a) == 3);
    assert(crate::bare_fn::parameter_start(all, 4 + a, 4 + a + b) == 4 + a);
    assert(crate::bare_fn::behind_mut_self(all, 5 + a + b, true, 2) == 2);
    assert(crate::bare_fn::behind_mut_self(all, 4 + a, true, 1) == 2);
    assert(crate::bare_fn::behind_mut_self(all, 3, true, 0) == 2);
    assert(crate::bare_fn::behind_mut_self(all, 0, false, 0) == 2);

    let one = start + first;
    lemma_plain_sorts(one);
    let all = sorts(one);
    assert(one[0] == start[0] && one[1] == start[1] && one[2] == start[2]);
    assert forall|i: int| 3 <= i < 3 + a implies #[trigger] one[i] == first[i - 3] by {}
    lemma_parameter(all, 0, 2);
    lemma_parameter(all, 3, 3 + a);
    assert(all[0] == Sort::Mut && all[1] == Sort::SelfWord);
    assert(crate::bare_fn::parameter_start(all, 0, 2) == 0);
    assert(crate::bare_fn::is_mut_self(all, 0, 2));
    assert(crate::bare_fn::parameter_start(all, 3, 3 + a) == 3);
    assert(crate::bare_fn::behind_mut_self(all, 4 + a, true, 1) == 1);
    assert(crate::bare_fn::behind_mut_self(all, 3, true, 0) == 1);
    assert(crate::bare_fn::behind_mut_self(all, 0, false, 0) == 1);

    let none = first + comma + second;
    lemma_plain_sorts(none);
    let all = sorts(none);
    assert(none[a] == comma[0]);
    assert forall|i: int| 0 <= i < a implies #[trigger] none[i] == first[i] by {}
    assert forall|i: int| a + 1 <= i < a + 1 + b implies #[trigger] none[i] == second[i - a
        - 1] by {}
    lemma_parameter(all, 0, a);
    lemma_parameter(all, a + 1, a + 1 + b);
    assert(crate::bare_fn::parameter_start(all, 0, a) == 0);
    assert(crate::bare_fn::parameter_start(all, a + 1, a + 1 + b) == a + 1);
    assert(crate::bare_fn::behind_mut_self(all, a + 2 + b, false, 0) == 0);
    assert(crate::bare_fn::behind_mut_self(all, a + 1, false, 0) == 0);
    assert(crate::bare_fn::behind_mut_self(all, 0, false, 0) == 0);
}

/// Visible trees are what they are.
proof fn lemma_plain_sorts(tokens: Text)
    requires
        forall|i: int|
            0 <= i < tokens.len() ==> !(#[trigger] tokens[i] matches Tree::Group(
                Delimiter::Invisible,
                _,
                _,
            )),
    ensures
        sorts(tokens) == tokens.map_values(|tree: Tree<()>| sort(tree)),
{
    lemma_visible_is_flat(tokens);
}

/// Visible trees are flat.
pub proof fn lemma_visible_is_flat<S>(tokens: Seq<Tree<S>>)
    requires
        forall|i: int|
            0 <= i < tokens.len() ==> !(#[trigger] tokens[i] matches Tree::Group(
                Delimiter::Invisible,
                _,
                _,
            )),
    ensures
        flat(tokens) == tokens,
    decreases tokens.len(),
{
    if tokens.len() > 0 {
        let rest = tokens.skip(1);
        assert forall|i: int| 0 <= i < rest.len() implies !(#[trigger] rest[i] matches Tree::Group(
            Delimiter::Invisible,
            _,
            _,
        )) by {
            assert(rest[i] == tokens[i + 1]);
        }
        lemma_visible_is_flat(rest);
        assert(seq![tokens[0]] + rest =~= tokens);
    }
}

/// A parameter without `<` ends at the first comma.
proof fn lemma_parameter(all: Seq<Sort>, at: int, end: int)
    requires
        0 <= at <= end <= all.len(),
        forall|i: int| at <= i < end ==> #[trigger] all[i] != Sort::Comma && all[i] != Sort::Less,
        end < all.len() ==> all[end] == Sort::Comma,
    ensures
        crate::bare_fn::parameter_end(all, at, 0) == end,
    decreases end - at,
{
    if at < end {
        lemma_parameter(all, at + 1, end);
    }
}

/// Tokens that start neither with an attribute nor with the call of a macro are looked at tree by
/// tree.
proof fn lemma_one_step(tokens: Text, before: Before)
    requires
        tokens.len() > 0,
        !is_symbol(tokens[0], '#'),
        before == Before::Quote || macro_len(tokens) == 0,
    ensures
        trouble_behind(tokens, before) == match trouble_in(tokens[0], before) {
            Some(reason) => Some(reason),
            None => trouble_behind(tokens.skip(1), before_rest(seq![tokens[0]], before)),
        },
{
    assert(attribute_len(tokens) == 0);
}

/// The name of a lifetime is not that of a macro: what is in the group behind it is looked into.
pub proof fn law_lifetimes_are_no_macros(
    joint: bool,
    name: Seq<char>,
    delimiter: Delimiter,
    inner: Text,
    more: Text,
)
    requires
        delimiter != Delimiter::Invisible,
    ensures
        trouble(inner) is Some ==> trouble(
            seq![
                Tree::Punct('\'', joint, ()),
                Tree::Ident(name, ()),
                Tree::Punct('!', false, ()),
                Tree::Group(delimiter, inner, ()),
            ] + more,
        ) is Some,
{
    let all = seq![
        Tree::Punct('\'', joint, ()),
        Tree::Ident(name, ()),
        Tree::Punct('!', false, ()),
        Tree::Group(delimiter, inner, ()),
    ] + more;
    let second = all.skip(1);
    let third = second.skip(1);
    let fourth = third.skip(1);
    assert(all[0] == Tree::Punct('\'', joint, ()));
    assert(second[0] == Tree::Ident(name, ()) && second[1] == Tree::Punct('!', false, ()));
    assert(third[0] == Tree::Punct('!', false, ()));
    assert(fourth[0] == Tree::Group(delimiter, inner, ()));
    crate::trouble::lemma_before_rest_one(all[0], Before::Other);
    crate::trouble::lemma_before_rest_one(second[0], Before::Quote);
    let behind = crate::trouble::before_rest(seq![second[0]], Before::Quote);
    crate::trouble::lemma_before_rest_one(third[0], behind);
    lemma_one_step(all, Before::Other);
    lemma_one_step(second, Before::Quote);
    lemma_one_step(third, behind);
    lemma_one_step(fourth, Before::Other);
    assert(trouble_in(fourth[0], Before::Other) == trouble(inner));
}

/// A function pointer type with many parameters behind a `mut self` is refused, also if `fn` or the
/// parameter list comes in an invisible group.
pub proof fn law_function_pointers_are_looked_into(inner: Text, more: Text)
    requires
        has_many_behind_mut_self(inner),
    ensures
        ({
            let word = seq![Tree::Ident("fn"@, ())];
            let list = seq![Tree::Group(Delimiter::Parenthesis, inner, ())];
            &&& trouble(word + list + more) == Some(Reason::MutSelf)
            &&& trouble(seq![Tree::Group(Delimiter::Invisible, word, ())] + list + more) == Some(
                Reason::MutSelf,
            )
            &&& trouble(word + seq![Tree::Group(Delimiter::Invisible, list, ())] + more) == Some(
                Reason::MutSelf,
            )
        }),
{
    let word = seq![Tree::Ident("fn"@, ())];
    let list = seq![Tree::Group(Delimiter::Parenthesis, inner, ())];
    let nothing = Seq::<Tree<()>>::empty();
    law_keywords("fn"@);
    lemma_fn_is_kept_in_mind(word[0], list + more);
    lemma_list_is_refused(inner, more);
    assert(word + list + more =~= word + (list + more));

    let hidden = seq![Tree::Group(Delimiter::Invisible, word, ())];
    assert(hidden + list + more =~= hidden + (list + more));
    let all = hidden + (list + more);
    assert(all[0] == hidden[0]);
    assert(all.skip(1) =~= list + more);
    assert(word.skip(1) =~= nothing);
    crate::trouble::lemma_before_rest_one(word[0], Before::Other);
    crate::trouble::lemma_before_rest_one(hidden[0], Before::Other);
    assert(unwrapped(word) == word);
    assert(!is_lone_attribute(word));
    assert(trouble_behind(nothing, Before::Fn) is None);
    lemma_one_step(word, Before::Other);
    assert(trouble_behind(word, Before::Other) is None);
    assert(trouble_in(hidden[0], Before::Other) is None);
    lemma_one_step(all, Before::Other);

    let wrapped = seq![Tree::Group(Delimiter::Invisible, list, ())];
    assert(word + wrapped + more =~= word + (wrapped + more));
    lemma_fn_is_kept_in_mind(word[0], wrapped + more);
    let behind = wrapped + more;
    assert(behind[0] == wrapped[0]);
    assert(unwrapped(list) == list);
    assert(!is_lone_attribute(list));
    lemma_list_is_refused(inner, nothing);
    assert(list + nothing =~= list);
    assert(trouble_in(wrapped[0], Before::Fn) == Some(Reason::MutSelf));
    assert(trouble_behind(behind, Before::Fn) == Some(Reason::MutSelf));
}

/// What is behind `fn` is behind `fn`.
proof fn lemma_fn_is_kept_in_mind(word: Tree<()>, more: Text)
    requires
        word == Tree::Ident("fn"@, ()),
    ensures
        trouble(seq![word] + more) == trouble_behind(more, Before::Fn),
{
    let all = seq![word] + more;
    law_keywords("fn"@);
    crate::trouble::lemma_before_rest_one(word, Before::Other);
    assert(all[0] == word);
    assert(all.skip(1) =~= more);
    assert(is_keyword("fn"@));
    assert(trouble_in(word, Before::Other) is None);
}

/// A parameter list behind `fn`.
proof fn lemma_list_is_refused(inner: Text, more: Text)
    requires
        has_many_behind_mut_self(inner),
    ensures
        trouble_behind(
            seq![Tree::Group(Delimiter::Parenthesis, inner, ())] + more,
            Before::Fn,
        ) == Some(Reason::MutSelf),
{
    let all = seq![Tree::Group(Delimiter::Parenthesis, inner, ())] + more;
    assert(all[0] == Tree::Group(Delimiter::Parenthesis, inner, ()));
    assert(trouble_in(all[0], Before::Fn) == Some(Reason::MutSelf));
}

/// Whether trees are visible, and none is a `<` or a `>`.
pub open spec fn has_no_angles(tokens: Text) -> bool {
    forall|i: int|
        0 <= i < tokens.len() ==> !(#[trigger] tokens[i] matches Tree::Punct('<', _, _)) && !(
        tokens[i] matches Tree::Punct('>', _, _)) && !(tokens[i] matches Tree::Group(
            Delimiter::Invisible,
            _,
            _,
        ))
}

/// Commas between `<` and `>` part no parameters, also behind the `>` of an arrow; those behind the
/// last `>` do.
pub proof fn law_commas_in_angles_part_nothing(
    first: Text,
    inner: Text,
    last: Text,
    second: Text,
)
    requires
        is_plain_type(first),
        is_plain_type(second),
        has_no_angles(inner),
        has_no_angles(last),
        last.len() > 0 && !(last.last() matches Tree::Punct('-', _, _)),
    ensures
        ({
            let start = seq![
                Tree::Ident("mut"@, ()),
                Tree::Ident("self"@, ()),
                Tree::Punct(',', false, ()),
            ];
            let arrow = seq![Tree::Punct('-', true, ()), Tree::Punct('>', false, ())];
            let ty = first + seq![Tree::Punct('<', false, ())] + inner + arrow + last + seq![
                Tree::Punct('>', false, ()),
            ];
            &&& !has_many_behind_mut_self(start + ty)
            &&& has_many_behind_mut_self(start + ty + seq![Tree::Punct(',', false, ())] + second)
        }),
{
    reveal_strlit("mut");
    reveal_strlit("self");
    assert("mut"@.len() != "self"@.len());
    let start = seq![
        Tree::Ident("mut"@, ()),
        Tree::Ident("self"@, ()),
        Tree::Punct(',', false, ()),
    ];
    let arrow = seq![Tree::Punct('-', true, ()), Tree::Punct('>', false, ())];
    let ty = first + seq![Tree::Punct('<', false, ())] + inner + arrow + last + seq![
        Tree::Punct('>', false, ()),
    ];
    let nothing = Seq::<Tree<()>>::empty();
    let comma = seq![Tree::Punct(',', false, ())];
    let end = 3 + ty.len() as int;
    lemma_angles(first, inner, last, nothing);
    assert(start + ty + nothing =~= start + ty);
    let all = sorts(start + ty);
    lemma_mut_self_in_front(all);
    assert(crate::bare_fn::behind_mut_self(all, end + 1, true, 1) == 1);
    assert(crate::bare_fn::behind_mut_self(all, 3, true, 0) == 1);

    lemma_angles(first, inner, last, comma + second);
    let many = start + ty + comma + second;
    assert(start + ty + (comma + second) =~= many);
    let all = sorts(many);
    lemma_plain_sorts(many);
    lemma_mut_self_in_front(all);
    let n = many.len() as int;
    assert forall|i: int| end < i < n implies #[trigger] many[i] == second[i - end - 1] by {}
    lemma_parameter(all, end + 1, n);
    assert(all[end + 1] == Sort::Word || all[end + 1] == Sort::SelfWord);
    assert(crate::bare_fn::parameter_start(all, end + 1, n) == end + 1);
    assert(end + 2 < n ==> all[end + 2] != Sort::Colon);
    assert(!crate::bare_fn::is_mut_self(all, end + 1, n));
    assert(crate::bare_fn::behind_mut_self(all, n + 1, true, 2) == 2);
    assert(crate::bare_fn::behind_mut_self(all, end + 1, true, 1) == 2);
    assert(crate::bare_fn::behind_mut_self(all, 3, true, 0) == 2);
}

/// A `mut self` in front of a comma is the first parameter.
proof fn lemma_mut_self_in_front(all: Seq<Sort>)
    requires
        all.len() > 3,
        all[0] == Sort::Mut,
        all[1] == Sort::SelfWord,
        all[2] == Sort::Comma,
    ensures
        crate::bare_fn::parameter_end(all, 0, 0) == 2,
        crate::bare_fn::parameter_start(all, 0, 2) == 0,
        crate::bare_fn::is_mut_self(all, 0, 2),
        crate::bare_fn::behind_mut_self(all, 0, false, 0) == crate::bare_fn::behind_mut_self(
            all,
            3,
            true,
            0,
        ),
{
    lemma_parameter(all, 0, 2);
}

/// A type with something in angles ends behind them.
proof fn lemma_angles(first: Text, inner: Text, last: Text, more: Text)
    requires
        is_plain_type(first),
        has_no_angles(inner),
        has_no_angles(last),
        last.len() > 0 && !(last.last() matches Tree::Punct('-', _, _)),
        more.len() > 0 ==> more[0] == Tree::<()>::Punct(',', false, ()),
        forall|i: int|
            0 <= i < more.len() ==> !(#[trigger] more[i] matches Tree::Group(
                Delimiter::Invisible,
                _,
                _,
            )),
    ensures
        ({
            let start = seq![
                Tree::<()>::Ident("mut"@, ()),
                Tree::Ident("self"@, ()),
                Tree::Punct(',', false, ()),
            ];
            let arrow = seq![Tree::Punct('-', true, ()), Tree::Punct('>', false, ())];
            let ty = first + seq![Tree::Punct('<', false, ())] + inner + arrow + last + seq![
                Tree::Punct('>', false, ()),
            ];
            let tokens = start + ty + more;
            let all = sorts(tokens);
            let end = 3 + ty.len() as int;
            &&& forall|i: int|
                0 <= i < tokens.len() ==> !(#[trigger] tokens[i] matches Tree::Group(
                    Delimiter::Invisible,
                    _,
                    _,
                ))
            &&& all.len() == tokens.len()
            &&& all[0] == Sort::Mut && all[1] == Sort::SelfWord && all[2] == Sort::Comma
            &&& crate::bare_fn::parameter_end(all, 3, 0) == end
            &&& crate::bare_fn::parameter_start(all, 3, end) == 3
            &&& !crate::bare_fn::is_mut_self(all, 3, end)
            &&& !crate::bare_fn::is_variadic(all, 3, end)
        }),
{
    reveal_strlit("mut");
    reveal_strlit("self");
    assert("mut"@.len() != "self"@.len());
    let start = seq![
        Tree::<()>::Ident("mut"@, ()),
        Tree::Ident("self"@, ()),
        Tree::Punct(',', false, ()),
    ];
    let arrow = seq![Tree::<()>::Punct('-', true, ()), Tree::Punct('>', false, ())];
    let ty = first + seq![Tree::Punct('<', false, ())] + inner + arrow + last + seq![
        Tree::Punct('>', false, ()),
    ];
    let tokens = start + ty + more;
    let a = 3 + first.len() as int;
    let b = a + 1 + inner.len();
    let c = b + 2 + last.len();
    let n = tokens.len() as int;
    assert(tokens[0] == start[0] && tokens[1] == start[1] && tokens[2] == start[2]);
    assert forall|i: int| 3 <= i < a implies #[trigger] tokens[i] == first[i - 3] by {}
    assert(tokens[a] == Tree::<()>::Punct('<', false, ()));
    assert forall|i: int| a < i < b implies #[trigger] tokens[i] == inner[i - a - 1] by {}
    assert(tokens[b] == arrow[0] && tokens[b + 1] == arrow[1]);
    assert forall|i: int| b + 2 <= i < c implies #[trigger] tokens[i] == last[i - b - 2] by {}
    assert(tokens[c] == Tree::<()>::Punct('>', false, ()));
    assert forall|i: int| c < i < n implies #[trigger] tokens[i] == more[i - c - 1] by {}
    assert forall|i: int| 0 <= i < n implies !(#[trigger] tokens[i] matches Tree::Group(
        Delimiter::Invisible,
        _,
        _,
    )) by {
        if i < 3 {
        } else if i < a {
            assert(tokens[i] == first[i - 3]);
        } else if i == a {
        } else if i < b {
            assert(tokens[i] == inner[i - a - 1]);
        } else if i < b + 2 {
        } else if i < c {
            assert(tokens[i] == last[i - b - 2]);
        } else if i > c {
            assert(tokens[i] == more[i - c - 1]);
        }
    }
    lemma_plain_sorts(tokens);
    let all = sorts(tokens);
    assert(tokens[c - 1] == last.last());
    assert(all[c - 1] != Sort::Minus);
    assert forall|i: int| 3 <= i < a implies #[trigger] all[i] != Sort::Less && all[i]
        != Sort::Comma by {
        assert(tokens[i] == first[i - 3]);
    }
    assert forall|i: int| a < i < b implies #[trigger] all[i] != Sort::Less && all[i]
        != Sort::Greater by {
        assert(tokens[i] == inner[i - a - 1]);
    }
    assert forall|i: int| b + 2 <= i < c implies #[trigger] all[i] != Sort::Less && all[i]
        != Sort::Greater by {
        assert(tokens[i] == last[i - b - 2]);
    }
    if c + 1 < n {
        assert(tokens[c + 1] == more[0]);
    }
    lemma_angle_ends(all, a, b, c);
    assert(tokens[3] == first[0]);
    if first.len() > 1 {
        assert(tokens[4] == first[1]);
    }
    assert(all[3] == Sort::Word || all[3] == Sort::SelfWord);
    assert(all[4] != Sort::Colon);
    assert(crate::bare_fn::parameter_start(all, 3, c + 1) == 3);
}

/// The same, of what the trees are in a parameter list.
proof fn lemma_angle_ends(all: Seq<Sort>, a: int, b: int, c: int)
    requires
        3 < a < b < b + 2 < c < all.len(),
        forall|i: int| 3 <= i < a ==> #[trigger] all[i] != Sort::Less && all[i] != Sort::Comma,
        all[a] == Sort::Less,
        forall|i: int| a < i < b ==> #[trigger] all[i] != Sort::Less && all[i] != Sort::Greater,
        all[b] == Sort::Minus && all[b + 1] == Sort::Greater,
        forall|i: int| b + 2 <= i < c ==> #[trigger] all[i] != Sort::Less && all[i]
            != Sort::Greater,
        all[c - 1] != Sort::Minus && all[c] == Sort::Greater,
        c + 1 < all.len() ==> all[c + 1] == Sort::Comma,
    ensures
        crate::bare_fn::parameter_end(all, 3, 0) == c + 1,
{
    lemma_walk(all, 3, a, 0);
    assert(crate::bare_fn::depth_behind(all, a, 0) == 1);
    assert(crate::bare_fn::parameter_end(all, a, 0) == crate::bare_fn::parameter_end(
        all,
        a + 1,
        1,
    ));
    lemma_walk(all, a + 1, b, 1);
    assert(crate::bare_fn::parameter_end(all, b, 1) == crate::bare_fn::parameter_end(
        all,
        b + 1,
        1,
    ));
    assert(crate::bare_fn::depth_behind(all, b + 1, 1) == 1);
    assert(crate::bare_fn::parameter_end(all, b + 1, 1) == crate::bare_fn::parameter_end(
        all,
        b + 2,
        1,
    ));
    lemma_walk(all, b + 2, c, 1);
    assert(crate::bare_fn::depth_behind(all, c, 1) == 0);
    assert(crate::bare_fn::parameter_end(all, c, 1) == crate::bare_fn::parameter_end(
        all,
        c + 1,
        0,
    ));
    lemma_parameter(all, c + 1, c + 1);
}

/// Nothing changes over trees that are neither commas nor angles: inside angles commas do not
/// matter, and outside of them a `>` does not.
proof fn lemma_walk(all: Seq<Sort>, at: int, end: int, depth: nat)
    requires
        0 <= at <= end <= all.len(),
        forall|i: int|
            at <= i < end ==> #[trigger] all[i] != Sort::Less && (depth == 0 ==> all[i]
                != Sort::Comma) && (depth > 0 ==> all[i] != Sort::Greater),
    ensures
        crate::bare_fn::parameter_end(all, at, depth) == crate::bare_fn::parameter_end(
            all,
            end,
            depth,
        ),
    decreases end - at,
{
    if at < end {
        lemma_walk(all, at + 1, end, depth);
    }
}

/// An attribute in front of a parameter, a type behind a `mut self` and a name in front of one
/// change nothing.
pub proof fn law_forms_of_mut_self(
    inner: Text,
    name: Seq<char>,
    ty: Text,
    first: Text,
    second: Text,
)
    requires
        is_plain_type(ty),
        is_plain_type(first),
        is_plain_type(second),
    ensures
        ({
            let comma = seq![Tree::Punct(',', false, ())];
            let types = comma + first + comma + second;
            let word = seq![Tree::Ident("mut"@, ()), Tree::Ident("self"@, ())];
            let attribute = seq![
                Tree::Punct('#', false, ()),
                Tree::Group(Delimiter::Bracket, inner, ()),
            ];
            let colon = seq![Tree::Punct(':', false, ())];
            &&& has_many_behind_mut_self(attribute + word + types)
            &&& has_many_behind_mut_self(word + colon + ty + types)
            &&& has_many_behind_mut_self(seq![Tree::Ident(name, ())] + colon + word + types)
        }),
{
    reveal_strlit("mut");
    reveal_strlit("self");
    assert("mut"@.len() != "self"@.len());
    let comma = seq![Tree::<()>::Punct(',', false, ())];
    let types = comma + first + comma + second;
    let word = seq![Tree::<()>::Ident("mut"@, ()), Tree::Ident("self"@, ())];
    let attribute = seq![
        Tree::Punct('#', false, ()),
        Tree::Group(Delimiter::Bracket, inner, ()),
    ];
    let colon = seq![Tree::<()>::Punct(':', false, ())];
    let front = attribute + word;
    lemma_types_behind(front, first, second);
    let all = sorts(front + types);
    lemma_plain_sorts(front + types);
    assert(front + comma + first + comma + second =~= front + types);
    assert((front + types)[0] == attribute[0] && (front + types)[1] == attribute[1] && (front
        + types)[2] == word[0] && (front + types)[3] == word[1]);
    assert(crate::bare_fn::parameter_start(all, 2, 4) == 2);
    assert(crate::bare_fn::parameter_start(all, 0, 4) == 2);
    assert(crate::bare_fn::is_mut_self(all, 2, 4));
    assert(crate::bare_fn::behind_mut_self(all, 0, false, 0) == 2);

    let front = word + colon + ty;
    lemma_types_behind(front, first, second);
    let all = sorts(front + types);
    lemma_plain_sorts(front + types);
    assert(front + comma + first + comma + second =~= front + types);
    assert((front + types)[0] == word[0] && (front + types)[1] == word[1]);
    assert(crate::bare_fn::parameter_start(all, 0, front.len() as int) == 0);
    assert(crate::bare_fn::is_mut_self(all, 0, front.len() as int));
    assert(crate::bare_fn::behind_mut_self(all, 0, false, 0) == 2);

    let front = seq![Tree::Ident(name, ())] + colon + word;
    lemma_types_behind(front, first, second);
    let all = sorts(front + types);
    lemma_plain_sorts(front + types);
    assert(front + comma + first + comma + second =~= front + types);
    assert((front + types)[0] == Tree::<()>::Ident(name, ()) && (front + types)[1] == colon[0] && (
    front + types)[2] == word[0] && (front + types)[3] == word[1]);
    assert(crate::bare_fn::parameter_start(all, 0, 4) == 0);
    assert(crate::bare_fn::is_mut_self(all, 0, 4));
    assert(crate::bare_fn::behind_mut_self(all, 0, false, 0) == 2);
}

/// Two plain types behind a first parameter.
proof fn lemma_types_behind(front: Text, first: Text, second: Text)
    requires
        is_plain_type(first),
        is_plain_type(second),
        forall|i: int|
            0 <= i < front.len() ==> !(#[trigger] front[i] matches Tree::Punct(',', _, _)) && !(
            front[i] matches Tree::Punct('<', _, _)) && !(front[i] matches Tree::Group(
                Delimiter::Invisible,
                _,
                _,
            )),
    ensures
        ({
            let comma = seq![Tree::Punct(',', false, ())];
            let tokens = front + comma + first + comma + second;
            let all = sorts(tokens);
            &&& forall|i: int|
                0 <= i < tokens.len() ==> !(#[trigger] tokens[i] matches Tree::Group(
                    Delimiter::Invisible,
                    _,
                    _,
                ))
            &&& crate::bare_fn::parameter_end(all, 0, 0) == front.len()
            &&& crate::bare_fn::behind_mut_self(all, front.len() as int + 1, true, 0) == 2
        }),
{
    let comma = seq![Tree::<()>::Punct(',', false, ())];
    let tokens = front + comma + first + comma + second;
    let f = front.len() as int;
    let a = f + 1 + first.len();
    let n = tokens.len() as int;
    assert forall|i: int| 0 <= i < f implies #[trigger] tokens[i] == front[i] by {}
    assert(tokens[f] == comma[0]);
    assert forall|i: int| f < i < a implies #[trigger] tokens[i] == first[i - f - 1] by {}
    assert(tokens[a] == comma[0]);
    assert forall|i: int| a < i < n implies #[trigger] tokens[i] == second[i - a - 1] by {}
    lemma_plain_sorts(tokens);
    let all = sorts(tokens);
    lemma_parameter(all, 0, f);
    lemma_parameter(all, f + 1, a);
    lemma_parameter(all, a + 1, n);
    reveal_strlit("mut");
    reveal_strlit("self");
    assert(crate::bare_fn::parameter_start(all, f + 1, a) == f + 1);
    assert(crate::bare_fn::parameter_start(all, a + 1, n) == a + 1);
    assert(crate::bare_fn::behind_mut_self(all, n + 1, true, 2) == 2);
    assert(crate::bare_fn::behind_mut_self(all, a + 1, true, 1) == 2);
    assert(crate::bare_fn::behind_mut_self(all, f + 1, true, 0) == 2);
}

} // verus!
