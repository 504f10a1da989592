//! The attributes of a delegated method, and what some of them ask for.

use crate::grammar::{
    expected, expected_error, followed_by, leftover, lemma_behind_first, required_group, same_text,
    take_group, whole, Parse, Reason,
};
use crate::outcome::{is_unexpected, Parsed};
use crate::panic::Panic;
use crate::report::SyntaxError;
use crate::stream::{texts, trees};
use crate::syntax::{attribute_texts, read_ident, Attribute, AttributeText, Ident};
use crate::token::{
    all_within, erase, flat, inside, is_end_of, lemma_end_behind_first, lemma_erase_all,
    lemma_erase_skip, lemma_first_within, lemma_unwrapped_erase, unwrapped, Delimiter, Text, Tree,
};
use crate::trouble::is_keyword;
use proc_macro2::{Span, TokenStream};
use vstd::prelude::*;

verus! {

/// Parsing an identifier that is no keyword.
pub open spec fn identifier(tokens: Text) -> Parse<Seq<char>> {
    let opened = unwrapped(tokens);
    if opened.len() > 0 && (opened[0] matches Tree::Ident(text, _) && !is_keyword(text)) {
        Parse::Parsed {
            value: opened[0]->Ident_0,
            rest: opened.skip(1),
            unexpected: false,
        }
    } else {
        Parse::Failed(expected(tokens, "expected identifier"@))
    }
}

/// Parses an identifier that is no keyword.
pub fn take_ident(tokens: &TokenStream) -> (parsed: Result<Parsed<Ident>, SyntaxError>)
    ensures
        match parsed {
            Ok(p) => {
                &&& identifier(texts(*tokens)) == (Parse::Parsed {
                    value: p.value.text@,
                    rest: texts(p.rest),
                    unexpected: false,
                })
                &&& p.value.wf()
                &&& trees(p.value.token) == seq![unwrapped(trees(*tokens))[0]]
                &&& all_within(trees(p.value.token), trees(*tokens))
                &&& is_end_of(trees(p.rest), trees(*tokens))
                &&& p.unexpected is None
                &&& flat(texts(p.rest)).len() < flat(texts(*tokens)).len()
            },
            Err(e) => {
                &&& identifier(texts(*tokens)) == Parse::Failed::<Seq<char>>(e.message@)
                &&& e.wf()
            },
        },
{
    broadcast use {lemma_erase_all, lemma_erase_skip};

    let reading = read_ident(tokens);
    proof {
        lemma_unwrapped_erase(trees(*tokens));
        if reading.read is Some {
            let ident = reading.value();
            lemma_erase_all(trees(ident.token));
            lemma_erase_all(unwrapped(trees(*tokens)));
            assert(texts(ident.token)[0] == erase(trees(ident.token)[0]));
            assert(unwrapped(texts(*tokens))[0] == erase(unwrapped(trees(*tokens))[0]));
            lemma_behind_first(texts(*tokens));
            lemma_first_within(trees(*tokens));
            lemma_end_behind_first(trees(*tokens));
        }
    }
    match (reading.read, reading.error) {
        (Some((value, rest)), _) => Ok(Parsed { value, rest, unexpected: None }),
        (None, Some(error)) => Err(error),
        (None, None) => vstd::pervasive::unreached(),
    }
}

/// What the attribute `call` holds: the name of the method to call.
pub struct CallMethodAttribute {
    pub name: Ident,
}

/// Parsing what the attribute `call` holds: an identifier in parentheses.
pub open spec fn call_syntax(tokens: Text) -> Parse<Seq<char>> {
    followed_by(
        required_group(tokens, Delimiter::Parenthesis, "expected parentheses"@),
        |inner: Text, rest: Text|
            followed_by(
                identifier(inner),
                |name: Seq<char>, left: Text|
                    Parse::Parsed { value: name, rest, unexpected: unwrapped(left).len() > 0 },
            ),
    )
}

/// The token that names the method in what the attribute `call` holds: the first one in the
/// parentheses.
pub open spec fn call_token<S>(tokens: Seq<Tree<S>>) -> Seq<Tree<S>> {
    seq![unwrapped(inside(unwrapped(tokens)[0]))[0]]
}

impl CallMethodAttribute {
    /// Parses what the attribute `call` holds.
    pub fn parse(input: &TokenStream) -> (parsed: Result<Parsed<CallMethodAttribute>, SyntaxError>)
        ensures
            match parsed {
                Ok(p) => {
                    &&& call_syntax(texts(*input)) == (Parse::Parsed {
                        value: p.value.name.text@,
                        rest: texts(p.rest),
                        unexpected: p.unexpected is Some,
                    })
                    &&& p.value.name.wf()
                    &&& trees(p.value.name.token) == call_token(trees(*input))
                    &&& p.unexpected matches Some(error) ==> is_unexpected(error)
                },
                Err(e) => {
                    &&& call_syntax(texts(*input)) == Parse::Failed::<Seq<char>>(e.message@)
                    &&& e.wf()
                },
            },
    {
        match take_group(input, Delimiter::Parenthesis) {
            None => Err(expected_error(input, "expected parentheses")),
            Some(group) => match take_ident(&group.inner) {
                Err(error) => Err(error),
                Ok(name) => Ok(
                    Parsed {
                        unexpected: leftover(&name.rest),
                        value: CallMethodAttribute { name: name.value },
                        rest: group.rest,
                    },
                ),
            },
        }
    }
}

/// What the attributes of a method ask for.
pub struct Directives {
    /// The attributes that ask for nothing, in order: they belong to the generated method.
    pub kept: Seq<AttributeText>,
    /// The method to call, if it is named.
    pub target: Option<Seq<char>>,
    /// Whether the result is converted.
    pub into: bool,
}

/// What attributes ask for, together with one more of the method with that name.
pub open spec fn directive(
    before: Directives,
    attribute: AttributeText,
    method: Seq<char>,
) -> Result<Directives, Reason> {
    if attribute.name == Some("call"@) {
        match whole(call_syntax(attribute.tokens)) {
            Parse::Failed(message) => Err(Reason::Syntax(message)),
            Parse::Stopped(reason) => Err(reason),
            Parse::Parsed { value, .. } => if before.target is Some {
                Err(Reason::MultipleCalls(method))
            } else {
                Ok(Directives { target: Some(value), ..before })
            },
        }
    } else if attribute.name == Some("target_method"@) {
        Err(Reason::TargetMethod)
    } else if attribute.name == Some("into"@) {
        if before.into {
            Err(Reason::MultipleIntos(method))
        } else {
            Ok(Directives { into: true, ..before })
        }
    } else {
        Ok(Directives { kept: before.kept.push(attribute), ..before })
    }
}

/// What the attributes of the method with that name ask for: the first that cannot be followed
/// decides why.
pub open spec fn directives(attributes: Seq<AttributeText>, method: Seq<char>) -> Result<
    Directives,
    Reason,
>
    decreases attributes.len(),
{
    if attributes.len() == 0 {
        Ok(Directives { kept: Seq::empty(), target: None, into: false })
    } else {
        match directives(attributes.drop_last(), method) {
            Err(reason) => Err(reason),
            Ok(before) => directive(before, attributes.last(), method),
        }
    }
}

/// Whether an attribute has that name.
pub open spec fn named(attribute: AttributeText, name: Seq<char>) -> bool {
    attribute.name == Some(name)
}

/// Whether an attribute asks something of the delegation.
pub open spec fn is_special(attribute: AttributeText) -> bool {
    named(attribute, "call"@) || named(attribute, "into"@) || named(attribute, "target_method"@)
}

/// The attributes that ask nothing of the delegation, in order.
pub open spec fn others(attributes: Seq<Attribute>) -> Seq<Attribute> {
    attributes.filter(|attribute: Attribute| !is_special(attribute.text()))
}

/// The token that names the method to call, if a `call` attribute does.
pub open spec fn target_token(attributes: Seq<Attribute>) -> Option<Seq<Tree<Span>>>
    decreases attributes.len(),
{
    if attributes.len() == 0 {
        None
    } else if named(attributes.last().text(), "call"@) {
        Some(call_token(trees(attributes.last().tokens)))
    } else {
        target_token(attributes.drop_last())
    }
}

/// What references refer to.
pub open spec fn referred(attributes: Seq<&Attribute>) -> Seq<Attribute> {
    attributes.map_values(|attribute: &Attribute| *attribute)
}

/// Whether one of the attributes is `inline`.
pub open spec fn has_inline(attributes: Seq<AttributeText>) -> bool {
    exists|i: int| 0 <= i < attributes.len() && #[trigger] attributes[i].name == Some("inline"@)
}

/// References to attributes as text, in the same order.
pub open spec fn kept_texts(attributes: Seq<&Attribute>) -> Seq<AttributeText> {
    attributes.map_values(|attribute: &Attribute| attribute.text())
}

/// Whether the path of an attribute is that identifier.
fn is_named(attribute: &Attribute, name: &str) -> (named: bool)
    ensures
        named == (attribute.text().name == Some(name@)),
{
    match &attribute.name {
        Some(found) => same_text(found, name),
        None => false,
    }
}

/// Parses what the attribute `call` of a method holds, where nothing else may be there.
fn parse_call(tokens: &TokenStream) -> (parsed: Result<Ident, Panic>)
    ensures
        match whole(call_syntax(texts(*tokens))) {
            Parse::Parsed { value, .. } => parsed matches Ok(ident) && ident.text@ == value
                && ident.wf() && trees(ident.token) == call_token(trees(*tokens)),
            Parse::Failed(message) => parsed matches Err(panic) && panic@ == Reason::Syntax(
                message,
            ),
            Parse::Stopped(_) => false,
        },
{
    match CallMethodAttribute::parse(tokens) {
        Err(error) => Err(Panic::Syntax(error.message)),
        Ok(parsed) => if parsed.unexpected.is_some() || leftover(&parsed.rest).is_some() {
            Err(Panic::Syntax("unexpected token".to_owned()))
        } else {
            Ok(parsed.value.name)
        },
    }
}

/// The method to call, where a `call` attribute of a method has been parsed and perhaps another
/// one before: there may be only one.
pub fn only_target(before: &Option<Ident>, parsed: Result<Ident, Panic>, method: &Ident) -> (target:
    Result<Ident, Panic>)
    ensures
        match parsed {
            Err(panic) => target == Err::<Ident, Panic>(panic),
            Ok(ident) => if before is Some {
                target matches Err(panic) && panic@ == Reason::MultipleCalls(method.text@)
            } else {
                target == Ok::<Ident, Panic>(ident)
            },
        },
{
    match parsed {
        Err(panic) => Err(panic),
        Ok(ident) => if before.is_some() {
            Err(Panic::MultipleCalls(method.text.clone()))
        } else {
            Ok(ident)
        },
    }
}

/// Goes through the attributes of a method and takes out the special ones: `call` sets the name of
/// the method to call, and `into` converts the returned value.
///
/// Returns the other attributes, the name, and whether to convert.
pub fn parse_attributes<'a>(attrs: &'a Vec<Attribute>, method: &Ident) -> (parsed: Result<
    (Vec<&'a Attribute>, Option<Ident>, bool),
    Panic,
>)
    ensures
        match directives(attribute_texts(attrs@), method.text@) {
            Ok(asked) => {
                &&& parsed matches Ok((kept, name, into))
                &&& referred(kept@) == others(attrs@)
                &&& kept_texts(kept@) == asked.kept
                &&& into == asked.into
                &&& match asked.target {
                    Some(target) => {
                        &&& name matches Some(ident)
                        &&& ident.text@ == target
                        &&& ident.wf()
                        &&& target_token(attrs@) == Some(trees(ident.token))
                    },
                    None => name is None && target_token(attrs@) is None,
                }
            },
            Err(reason) => parsed matches Err(panic) && panic@ == reason,
        },
{
    let mut kept: Vec<&'a Attribute> = Vec::new();
    let mut name: Option<Ident> = None;
    let mut into: bool = false;
    let ghost all = attribute_texts(attrs@);
    let mut i: usize = 0;
    proof {
        assert(all.take(0) =~= Seq::empty());
        assert(kept_texts(kept@) =~= Seq::empty());
        assert(attrs@.take(0) =~= Seq::empty());
        reveal(Seq::filter);
        assert(referred(kept@) =~= Seq::empty());
    }
    while i < attrs.len()
        invariant
            i <= attrs.len(),
            all == attribute_texts(attrs@),
            directives(all.take(i as int), method.text@) matches Ok(asked) && {
                &&& referred(kept@) == others(attrs@.take(i as int))
                &&& kept_texts(kept@) == asked.kept
                &&& into == asked.into
                &&& match asked.target {
                    Some(target) => {
                        &&& name matches Some(ident)
                        &&& ident.text@ == target
                        &&& ident.wf()
                        &&& target_token(attrs@.take(i as int)) == Some(trees(ident.token))
                    },
                    None => name is None && target_token(attrs@.take(i as int)) is None,
                }
            },
        decreases attrs.len() - i,
    {
        let attr: &'a Attribute = &attrs[i];
        proof {
            assert(all.take(i + 1).drop_last() =~= all.take(i as int));
            assert(all.take(i + 1).last() == attr.text());
            lemma_stays_refused(all, i + 1, method.text@);
            reveal(Seq::filter);
            lemma_names_differ();
            assert(attrs@.take(i + 1).drop_last() =~= attrs@.take(i as int));
            assert(attrs@.take(i + 1).last() == *attr);
        }
        if is_named(attr, "call") {
            match only_target(&name, parse_call(&attr.tokens), method) {
                Err(panic) => return Err(panic),
                Ok(target) => {
                    name = Some(target);
                },
            }
        } else if is_named(attr, "target_method") {
            return Err(Panic::TargetMethod);
        } else if is_named(attr, "into") {
            if into {
                return Err(Panic::MultipleIntos(method.text.clone()));
            }
            into = true;
        } else {
            let ghost before = kept@;
            kept.push(attr);
            assert(kept_texts(kept@) =~= kept_texts(before).push(attr.text()));
            assert(referred(kept@) =~= referred(before).push(*attr));
        }
        i += 1;
    }
    proof {
        assert(all.take(all.len() as int) =~= all);
        assert(attrs@.take(attrs@.len() as int) =~= attrs@);
    }
    Ok((kept, name, into))
}

/// The names of the special attributes, and `inline`, are all different.
pub proof fn lemma_names_differ()
    ensures
        "call"@ != "into"@,
        "call"@ != "target_method"@,
        "into"@ != "target_method"@,
        "inline"@ != "call"@,
        "inline"@ != "into"@,
        "inline"@ != "target_method"@,
{
    reveal_strlit("call");
    reveal_strlit("into");
    reveal_strlit("target_method");
    reveal_strlit("inline");
    assert("call"@[0] != "into"@[0]);
    assert("inline"@.len() == 6 && "into"@.len() == 4 && "target_method"@.len() == 13);
}

/// What some attributes do not allow, more of them do not allow either, for the same reason.
pub proof fn lemma_stays_refused(attributes: Seq<AttributeText>, n: int, method: Seq<char>)
    requires
        0 <= n <= attributes.len(),
    ensures
        directives(attributes.take(n), method) is Err ==> directives(attributes, method)
            == directives(attributes.take(n), method),
    decreases attributes.len(),
{
    if n == attributes.len() {
        assert(attributes.take(n) =~= attributes);
    } else {
        lemma_stays_refused(attributes.drop_last(), n, method);
        assert(attributes.drop_last().take(n) =~= attributes.take(n));
    }
}

/// Whether there is an `inline` attribute among the attributes.
pub fn has_inline_attribute(attrs: &Vec<&Attribute>) -> (found: bool)
    ensures
        found == has_inline(kept_texts(attrs@)),
{
    let mut i: usize = 0;
    while i < attrs.len()
        invariant
            i <= attrs.len(),
            forall|j: int|
                0 <= j < i ==> #[trigger] kept_texts(attrs@)[j].name != Some("inline"@),
        decreases attrs.len() - i,
    {
        if is_named(attrs[i], "inline") {
            assert(kept_texts(attrs@)[i as int].name == Some("inline"@));
            return true;
        }
        i += 1;
    }
    false
}

} // verus!
