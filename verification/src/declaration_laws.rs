//! How declarations, segments and the whole input are read, part by part.

use crate::block::{block_syntax, methods_syntax, segment_syntax, SegmentText};
use crate::code_laws::{law_code_of_each_method, law_code_of_each_segment};
use crate::expand::{block_expansion, expansion, method_expansion, methods_expansion};
use crate::grammar::{after, lemma_prefixed_empty, prefixed, Parse, Reason};
use crate::input::{arguments, inputs_syntax, InputText};
use crate::laws::{
    declared, delegator, is_complex, is_declaration, is_delegator, is_receiver, is_segment, joined,
    law_arguments_in_order, law_declaration_ends, law_declarations_are_read_in_order,
    law_segment_ends, law_segments_are_read_in_order, lemma_after_prefixed, passed, read_alone,
    read_each, segment, some_unexpected, written,
};
use crate::method::{declaration_len, declaration_syntax, method_syntax, MethodText, SignatureParts};
use crate::piece::{in_front, Conditions, Delegator, Generics, Output};
use crate::reading_laws::{law_first_token, law_opening};
use crate::syntax::{
    syn_abi, syn_outer_attributes, syn_visibility, unknown_abi, AttributeText, ReturnText,
};
use crate::token::{flat, lemma_flat_add, unwrapped, Delimiter, Text, Tree};
use crate::trouble::is_keyword;
use crate::trouble_laws::{is_readable, law_known_literals};
use vstd::prelude::*;

verus! {

/// What the parts of a declaration are read as, one behind the other, and what is behind each.
pub struct Stages {
    pub attributes: Seq<AttributeText>,
    pub behind_attributes: Text,
    pub visibility: Text,
    pub behind_visibility: Text,
    pub constness: bool,
    pub behind_const: Text,
    pub asyncness: bool,
    pub behind_async: Text,
    pub unsafety: bool,
    pub behind_qualifiers: Text,
    pub abi: Text,
    pub behind_abi: Text,
    pub behind_fn: Text,
    pub name: Seq<char>,
    pub behind_name: Text,
    pub generics: Text,
    pub behind_generics: Text,
    pub list: Text,
    pub behind_list: Text,
    pub entries: Seq<(InputText, bool)>,
    pub output: ReturnText,
    pub behind_output: Text,
    pub where_clause: Text,
    pub behind_where: Text,
    /// Whether a group was left with tokens in it by the attributes, the visibility, the binary
    /// interface, the generics, the parameter list, the return type or the where clause.
    pub unexpected: (bool, bool, bool, bool, bool, bool, bool),
}

/// A word if it is there, and nothing otherwise.
pub open spec fn word_if(there: bool, word: Seq<char>) -> Text {
    if there {
        seq![Tree::Ident(word, ())]
    } else {
        Seq::empty()
    }
}

/// Whether the first visible tree is that word.
pub open spec fn starts_with(tokens: Text, word: Seq<char>) -> bool {
    flat(tokens).len() > 0 && flat(tokens)[0] == Tree::Ident(word, ())
}

/// Whether a word is taken from the front of tokens if it is there, and nothing otherwise. What is
/// behind the first visible tree is left.
pub open spec fn takes_word(there: bool, word: Seq<char>, tokens: Text, rest: Text) -> bool {
    &&& there == starts_with(tokens, word)
    &&& rest == if there {
        unwrapped(tokens).skip(1)
    } else {
        tokens
    }
}

impl Stages {
    pub open spec fn reads_attributes(self, tokens: Text) -> bool {
        syn_outer_attributes(tokens) == (Parse::Parsed {
            value: self.attributes,
            rest: self.behind_attributes,
            unexpected: self.unexpected.0,
        })
    }

    pub open spec fn reads_visibility(self, tokens: Text) -> bool {
        self.reads_attributes(tokens) && syn_visibility(self.behind_attributes) == (Parse::Parsed {
            value: self.visibility,
            rest: self.behind_visibility,
            unexpected: self.unexpected.1,
        })
    }

    /// The qualifiers are `const`, `async` and `unsafe`, each of them or not, in this order.
    pub open spec fn reads_qualifiers(self, tokens: Text) -> bool {
        &&& self.reads_visibility(tokens)
        &&& takes_word(self.constness, "const"@, self.behind_visibility, self.behind_const)
        &&& takes_word(self.asyncness, "async"@, self.behind_const, self.behind_async)
        &&& takes_word(self.unsafety, "unsafe"@, self.behind_async, self.behind_qualifiers)
    }

    /// The literal that names the binary interface, if there is one, is readable.
    pub open spec fn reads_abi(self, tokens: Text) -> bool {
        &&& self.reads_qualifiers(tokens)
        &&& starts_with(self.behind_qualifiers, "extern"@) && flat(self.behind_qualifiers).len() > 1
            ==> (flat(self.behind_qualifiers)[1] matches Tree::Literal(text, _) ==> is_readable(
            text,
        ))
        &&& syn_abi(self.behind_qualifiers) == (Parse::Parsed {
            value: self.abi,
            rest: self.behind_abi,
            unexpected: self.unexpected.2,
        })
    }

    pub open spec fn reads_name(self, tokens: Text) -> bool {
        &&& self.reads_abi(tokens)
        &&& takes_word(true, "fn"@, self.behind_abi, self.behind_fn)
        &&& takes_word(true, self.name, self.behind_fn, self.behind_name)
        &&& !is_keyword(self.name)
    }

    pub open spec fn reads_generics(self, tokens: Text) -> bool {
        self.reads_name(tokens) && in_front::<Generics>(self.behind_name, 0) == (Parse::Parsed {
            value: self.generics,
            rest: self.behind_generics,
            unexpected: self.unexpected.3,
        })
    }

    pub open spec fn reads_list(self, tokens: Text) -> bool {
        &&& self.reads_generics(tokens)
        &&& flat(self.behind_generics).len() > 0 && flat(self.behind_generics)[0] == Tree::Group(
            Delimiter::Parenthesis,
            self.list,
            (),
        )
        &&& self.behind_list == unwrapped(self.behind_generics).skip(1)
    }

    pub open spec fn reads_entries(self, tokens: Text) -> bool {
        self.reads_list(tokens) && (inputs_syntax(self.list) matches Parse::Parsed {
            value,
            unexpected,
            ..
        } && value == self.entries && unexpected == self.unexpected.4)
    }

    /// Whether every parameter is a simple identifier.
    pub open spec fn is_simple(self) -> bool {
        forall|i: int| 0 <= i < self.entries.len() ==> !is_complex(#[trigger] self.entries[i])
    }

    pub open spec fn reads_output(self, tokens: Text) -> bool {
        self.reads_entries(tokens) && self.is_simple() && in_front::<Output>(self.behind_list, 0)
            == (Parse::Parsed {
            value: self.output,
            rest: self.behind_output,
            unexpected: self.unexpected.5,
        })
    }

    pub open spec fn reads_where(self, tokens: Text) -> bool {
        self.reads_output(tokens) && in_front::<Conditions>(self.behind_output, 0)
            == (Parse::Parsed {
            value: self.where_clause,
            rest: self.behind_where,
            unexpected: self.unexpected.6,
        })
    }

    /// Whether a group was left with tokens in it.
    pub open spec fn is_unexpected(self) -> bool {
        self.unexpected.0 || self.unexpected.1 || self.unexpected.2 || self.unexpected.3
            || self.unexpected.4 || self.unexpected.5 || self.unexpected.6
    }

    /// The method that is declared: every part as it was read. The signature has the parameters of
    /// the list, and the call gets an argument for each entry but the receiver.
    pub open spec fn method(self) -> MethodText {
        MethodText {
            attributes: self.attributes,
            visibility: self.visibility,
            ident: self.name,
            signature: SignatureParts {
                constness: word_if(self.constness, "const"@),
                asyncness: word_if(self.asyncness, "async"@),
                unsafety: word_if(self.unsafety, "unsafe"@),
                abi: self.abi,
                fn_token: seq![Tree::Ident("fn"@, ())],
                ident: seq![Tree::Ident(self.name, ())],
                generics: self.generics,
                inputs: self.entries.map_values(
                    |entry: (InputText, bool)|
                        match entry.0 {
                            InputText::Argument(_) => Seq::empty(),
                            InputText::Input(arg) => if entry.1 {
                                arg.tokens + seq![Tree::Punct(',', false, ())]
                            } else {
                                arg.tokens
                            },
                        },
                ).flatten(),
                paren: (),
                output: self.output.tokens,
                ty: self.output.ty,
                where_clause: self.where_clause,
            },
            arguments: self.entries.filter(
                |entry: (InputText, bool)| !is_receiver(entry),
            ).map_values(|entry: (InputText, bool)| passed(entry)),
        }
    }
}

/// A word that may be there.
proof fn lemma_word(there: bool, word: Seq<char>, tokens: Text, rest: Text)
    requires
        takes_word(there, word, tokens, rest),
    ensures
        crate::grammar::optional_keyword(tokens, word) == (Parse::Parsed {
            value: word_if(there, word),
            rest,
            unexpected: false,
        }),
{
    law_first_token(tokens, word, ',', Delimiter::Brace);
    law_opening(tokens);
}

/// The qualifiers are found one behind the other.
proof fn lemma_qualifiers(stages: Stages, tokens: Text)
    requires
        stages.reads_qualifiers(tokens),
    ensures
        crate::grammar::optional_keyword(stages.behind_visibility, "const"@) == (Parse::Parsed {
            value: word_if(stages.constness, "const"@),
            rest: stages.behind_const,
            unexpected: false,
        }),
        crate::grammar::optional_keyword(stages.behind_const, "async"@) == (Parse::Parsed {
            value: word_if(stages.asyncness, "async"@),
            rest: stages.behind_async,
            unexpected: false,
        }),
        crate::grammar::optional_keyword(stages.behind_async, "unsafe"@) == (Parse::Parsed {
            value: word_if(stages.unsafety, "unsafe"@),
            rest: stages.behind_qualifiers,
            unexpected: false,
        }),
{
    lemma_word(stages.constness, "const"@, stages.behind_visibility, stages.behind_const);
    lemma_word(stages.asyncness, "async"@, stages.behind_const, stages.behind_async);
    lemma_word(stages.unsafety, "unsafe"@, stages.behind_async, stages.behind_qualifiers);
}

/// The binary interface is read if its name is readable.
proof fn lemma_abi(tokens: Text)
    ensures
        unknown_abi(tokens) == if starts_with(tokens, "extern"@) && flat(tokens).len() > 1 && (flat(
            tokens,
        )[1] matches Tree::Literal(text, _) && !is_readable(text)) {
            Some(flat(tokens)[1]->Literal_0)
        } else {
            None
        },
{
    law_first_token(tokens, "extern"@, ',', Delimiter::Brace);
    if let Some(rest) = crate::grammar::keyword(tokens, "extern"@) {
        law_opening(rest);
        if flat(tokens).len() > 1 {
            assert(flat(rest)[0] == flat(tokens)[1]);
            if let Tree::Literal(text, _) = flat(tokens)[1] {
                law_known_literals(text);
            }
        }
    }
}

/// A declaration is read part by part, and all that was read is in the method: the attributes, the
/// visibility, `const`, `async` and `unsafe`, the binary interface, `fn`, the name, the generics,
/// the parameters, the return type and the where clause, each as it is, and the arguments in the
/// order of the list. A semicolon ends it; without one, the method is refused.
pub proof fn law_declaration_is_read(tokens: Text, stages: Stages)
    requires
        stages.reads_where(tokens),
    ensures
        declaration_syntax(tokens) == if flat(stages.behind_where).len() > 0 && (flat(
            stages.behind_where,
        )[0] matches Tree::Punct(';', _, _)) {
            Parse::Parsed {
                value: stages.method(),
                rest: unwrapped(stages.behind_where).skip(1),
                unexpected: stages.is_unexpected(),
            }
        } else {
            Parse::Stopped(Reason::Implementation(stages.name))
        },
{
    lemma_header(tokens, stages);
    lemma_list(stages, tokens);
    crate::code_laws::law_parameters_are_written_out(stages.entries);
    law_arguments_in_order(stages.entries, stages.name);
    assert(arguments(stages.entries, stages.name) is Ok);
    law_first_token(stages.behind_where, "fn"@, ';', Delimiter::Brace);
}

/// How a header is read.
proof fn lemma_header(tokens: Text, stages: Stages)
    requires
        stages.reads_generics(tokens),
    ensures
        crate::method::header_syntax(tokens) == (Parse::Parsed {
            value: crate::method::HeaderText {
                attributes: stages.attributes,
                visibility: stages.visibility,
                constness: word_if(stages.constness, "const"@),
                asyncness: word_if(stages.asyncness, "async"@),
                unsafety: word_if(stages.unsafety, "unsafe"@),
                abi: stages.abi,
                fn_token: seq![Tree::Ident("fn"@, ())],
                ident: stages.name,
                generics: stages.generics,
            },
            rest: stages.behind_generics,
            unexpected: stages.unexpected.0 || stages.unexpected.1 || stages.unexpected.2
                || stages.unexpected.3,
        }),
{
    lemma_qualifiers(stages, tokens);
    lemma_abi(stages.behind_qualifiers);
    lemma_fn_and_name(stages.behind_abi, stages.behind_fn, stages.name, stages.behind_name);
}

/// `fn` and a name.
proof fn lemma_fn_and_name(tokens: Text, rest: Text, name: Seq<char>, behind: Text)
    requires
        takes_word(true, "fn"@, tokens, rest),
        takes_word(true, name, rest, behind),
        !is_keyword(name),
    ensures
        crate::grammar::required_keyword(tokens, "fn"@, "expected `fn`"@) == (Parse::Parsed {
            value: seq![Tree::Ident("fn"@, ())],
            rest,
            unexpected: false,
        }),
        crate::attributes::identifier(rest) == (Parse::Parsed {
            value: name,
            rest: behind,
            unexpected: false,
        }),
{
    law_first_token(tokens, "fn"@, ',', Delimiter::Brace);
    law_opening(tokens);
    law_opening(rest);
}

/// A parameter list.
proof fn lemma_list(stages: Stages, tokens: Text)
    requires
        stages.reads_list(tokens),
    ensures
        crate::grammar::required_group(
            stages.behind_generics,
            Delimiter::Parenthesis,
            "expected parentheses"@,
        ) == (Parse::Parsed {
            value: stages.list,
            rest: stages.behind_list,
            unexpected: false,
        }),
{
    law_first_token(stages.behind_generics, "fn"@, ',', Delimiter::Parenthesis);
    law_opening(stages.behind_generics);
}

/// The message that something else was expected, which says so if the tokens are at their end.
pub open spec fn is_expected(message: Seq<char>, tokens: Text, short: Seq<char>) -> bool {
    message == if tokens.len() == 0 {
        "unexpected end of input, "@ + short
    } else {
        short
    }
}

/// A declaration is not read if one of its parts is not, and the first such part decides why.
pub proof fn law_declaration_is_not_read(tokens: Text, stages: Stages)
    ensures
        syn_outer_attributes(tokens) matches Parse::Failed(message) ==> declaration_syntax(tokens)
            == Parse::Failed::<MethodText>(message),
        stages.reads_attributes(tokens) ==> (syn_visibility(
            stages.behind_attributes,
        ) matches Parse::Failed(message) ==> declaration_syntax(tokens) == Parse::Failed::<
            MethodText,
        >(message)),
        stages.reads_qualifiers(tokens) && starts_with(stages.behind_qualifiers, "extern"@) && flat(
            stages.behind_qualifiers,
        ).len() > 1 ==> (flat(stages.behind_qualifiers)[1] matches Tree::Literal(text, _)
            ==> (!is_readable(text) ==> declaration_syntax(tokens) == Parse::Stopped::<MethodText>(
            Reason::UnknownLiteral(text),
        ))),
        stages.reads_qualifiers(tokens) && !(starts_with(stages.behind_qualifiers, "extern"@)
            && flat(stages.behind_qualifiers).len() > 1 && (flat(
            stages.behind_qualifiers,
        )[1] matches Tree::Literal(text, _) && !is_readable(text))) ==> (syn_abi(
            stages.behind_qualifiers,
        ) matches Parse::Failed(message) ==> declaration_syntax(tokens) == Parse::Failed::<
            MethodText,
        >(message)),
        stages.reads_abi(tokens) && !starts_with(stages.behind_abi, "fn"@) ==> (
        declaration_syntax(tokens) matches Parse::Failed(message) && is_expected(
            message,
            stages.behind_abi,
            "expected `fn`"@,
        )),
        stages.reads_abi(tokens) && takes_word(true, "fn"@, stages.behind_abi, stages.behind_fn)
            && !(flat(stages.behind_fn).len() > 0 && (flat(
            stages.behind_fn,
        )[0] matches Tree::Ident(name, _) && !is_keyword(name))) ==> (
        declaration_syntax(tokens) matches Parse::Failed(message) && is_expected(
            message,
            stages.behind_fn,
            "expected identifier"@,
        )),
        stages.reads_name(tokens) ==> match in_front::<Generics>(stages.behind_name, 0) {
            Parse::Failed(message) => declaration_syntax(tokens) == Parse::Failed::<MethodText>(
                message,
            ),
            Parse::Stopped(reason) => declaration_syntax(tokens) == Parse::Stopped::<MethodText>(
                reason,
            ),
            _ => true,
        },
        stages.reads_generics(tokens) && !(flat(stages.behind_generics).len() > 0 && (flat(
            stages.behind_generics,
        )[0] matches Tree::Group(Delimiter::Parenthesis, _, _))) ==> (
        declaration_syntax(tokens) matches Parse::Failed(message) && is_expected(
            message,
            stages.behind_generics,
            "expected parentheses"@,
        )),
        stages.reads_list(tokens) ==> match inputs_syntax(stages.list) {
            Parse::Failed(message) => declaration_syntax(tokens) == Parse::Failed::<MethodText>(
                message,
            ),
            Parse::Stopped(reason) => declaration_syntax(tokens) == Parse::Stopped::<MethodText>(
                reason,
            ),
            _ => true,
        },
        stages.reads_entries(tokens) && !stages.is_simple() ==> declaration_syntax(tokens)
            == Parse::Stopped::<MethodText>(Reason::SimpleIdentifiers(stages.name)),
        stages.reads_entries(tokens) && stages.is_simple() ==> match in_front::<Output>(
            stages.behind_list,
            0,
        ) {
            Parse::Failed(message) => declaration_syntax(tokens) == Parse::Failed::<MethodText>(
                message,
            ),
            Parse::Stopped(reason) => declaration_syntax(tokens) == Parse::Stopped::<MethodText>(
                reason,
            ),
            _ => true,
        },
        stages.reads_output(tokens) ==> match in_front::<Conditions>(stages.behind_output, 0) {
            Parse::Failed(message) => declaration_syntax(tokens) == Parse::Failed::<MethodText>(
                message,
            ),
            Parse::Stopped(reason) => declaration_syntax(tokens) == Parse::Stopped::<MethodText>(
                reason,
            ),
            _ => true,
        },
{
    lemma_abi(stages.behind_qualifiers);
    if stages.reads_qualifiers(tokens) {
        lemma_qualifiers(stages, tokens);
    }
    law_first_token(stages.behind_abi, "fn"@, ',', Delimiter::Parenthesis);
    law_opening(stages.behind_abi);
    law_opening(stages.behind_fn);
    if stages.reads_name(tokens) {
        lemma_fn_and_name(stages.behind_abi, stages.behind_fn, stages.name, stages.behind_name);
    }
    if stages.reads_generics(tokens) {
        lemma_header(tokens, stages);
        law_first_token(stages.behind_generics, "fn"@, ',', Delimiter::Parenthesis);
    }
    if stages.reads_list(tokens) {
        lemma_list(stages, tokens);
        law_arguments_in_order(stages.entries, stages.name);
    }
}

/// A method is read from the tokens up to the first semicolon, and what is behind is left.
pub proof fn law_method_ends_at_its_semicolon(tokens: Text, at: int)
    requires
        0 <= at <= tokens.len(),
        forall|i: int| 0 <= i < at ==> !(#[trigger] tokens[i] matches Tree::Punct(';', _, _)),
        at < tokens.len() ==> (tokens[at] matches Tree::Punct(';', _, _)),
    ensures
        ({
            let end = if at < tokens.len() {
                at + 1
            } else {
                at
            };
            method_syntax(tokens) == match declaration_syntax(tokens.take(end)) {
                Parse::Parsed { value, rest, unexpected } => Parse::Parsed {
                    value,
                    rest: rest + tokens.skip(end),
                    unexpected,
                },
                other => other,
            }
        }),
{
    lemma_first_semicolon(tokens, at);
}

/// The first semicolon ends a declaration.
proof fn lemma_first_semicolon(tokens: Text, at: int)
    requires
        0 <= at <= tokens.len(),
        forall|i: int| 0 <= i < at ==> !(#[trigger] tokens[i] matches Tree::Punct(';', _, _)),
        at < tokens.len() ==> (tokens[at] matches Tree::Punct(';', _, _)),
    ensures
        declaration_len(tokens) == if at < tokens.len() {
            at + 1
        } else {
            at
        },
    decreases at,
{
    if at > 0 {
        let rest = tokens.skip(1);
        assert forall|i: int| 0 <= i < at - 1 implies !(#[trigger] rest[i] matches Tree::Punct(
            ';',
            _,
            _,
        )) by {
            assert(rest[i] == tokens[i + 1]);
        }
        lemma_first_semicolon(rest, at - 1);
        assert(!(tokens[0] matches Tree::Punct(';', _, _)));
    }
}

/// Whether one of the declarations has a group that is left with tokens in it.
pub open spec fn some_left(declarations: Seq<Text>) -> bool {
    exists|i: int|
        0 <= i < declarations.len() && method_syntax(#[trigger] declarations[i])->unexpected
}

/// One of the declarations has such a group if the first has, or one of the others.
proof fn lemma_some_left(declarations: Seq<Text>)
    requires
        declarations.len() > 0,
    ensures
        some_left(declarations) == (method_syntax(declarations[0])->unexpected || some_left(
            declarations.skip(1),
        )),
{
    let others = declarations.skip(1);
    if some_left(declarations) {
        let i = choose|i: int|
            0 <= i < declarations.len() && method_syntax(#[trigger] declarations[i])->unexpected;
        if i > 0 {
            assert(others[i - 1] == declarations[i]);
        }
    }
    if some_left(others) {
        let i = choose|i: int|
            0 <= i < others.len() && method_syntax(#[trigger] others[i])->unexpected;
        assert(declarations[i + 1] == others[i]);
    }
}

/// A declaration in front of other tokens.
proof fn lemma_declaration_in_front(declaration: Text, more: Text)
    requires
        is_declaration(declaration),
    ensures
        methods_syntax(declaration + more) == after(
            method_syntax(declaration)->unexpected,
            prefixed(seq![declared(declaration)], methods_syntax(more)),
        ),
{
    law_declaration_ends(declaration, more);
    assert(method_syntax(declaration)->rest + more =~= more);
    crate::laws::lemma_semicolon_counts(declaration);
    lemma_flat_add(declaration, more);
    assert((declaration + more).len() > 0);
}

/// Methods behind declarations: the declarations are read as each is alone, every one, once, in
/// order, and what is behind them as if it were all there is.
pub proof fn law_methods_are_read_in_front(declarations: Seq<Text>, more: Text)
    requires
        forall|i: int|
            0 <= i < declarations.len() ==> is_declaration(#[trigger] declarations[i]),
    ensures
        methods_syntax(joined(declarations) + more) == after(
            some_left(declarations),
            prefixed(
                declarations.map_values(|tokens: Text| declared(tokens)),
                methods_syntax(more),
            ),
        ),
    decreases declarations.len(),
{
    let read = |tokens: Text| declared(tokens);
    if declarations.len() == 0 {
        assert(declarations.map_values(read) =~= Seq::empty());
        assert(joined(declarations) + more =~= more);
        lemma_prefixed_empty(methods_syntax(more));
    } else {
        let first = declarations[0];
        let others = declarations.skip(1);
        let behind = joined(others) + more;
        assert forall|i: int| 0 <= i < others.len() implies is_declaration(
            #[trigger] others[i],
        ) by {
            assert(others[i] == declarations[i + 1]);
        }
        law_methods_are_read_in_front(others, more);
        assert(is_declaration(first));
        assert(joined(declarations) + more =~= first + behind);
        lemma_declaration_in_front(first, behind);
        lemma_some_left(declarations);
        lemma_after_prefixed(
            method_syntax(first)->unexpected,
            seq![declared(first)],
            some_left(others),
            others.map_values(read),
            methods_syntax(more),
        );
        assert(declarations.map_values(read) =~= seq![declared(first)] + others.map_values(read));
    }
}

/// Methods are read one by one. One with a syntax error gives up the expansion, and the reason says
/// the message; one that gives up the expansion for another reason does so for that reason.
pub proof fn law_methods_are_read_one_by_one(tokens: Text)
    requires
        tokens.len() > 0,
    ensures
        method_syntax(tokens) matches Parse::Failed(message) ==> methods_syntax(tokens)
            == Parse::Stopped::<Seq<MethodText>>(Reason::Syntax(message)),
        method_syntax(tokens) matches Parse::Stopped(reason) ==> methods_syntax(tokens)
            == Parse::Stopped::<Seq<MethodText>>(reason),
        method_syntax(tokens) matches Parse::Parsed { value, rest, unexpected } ==> (flat(
            rest,
        ).len() < flat(tokens).len() ==> methods_syntax(tokens) == after(
            unexpected,
            prefixed(seq![value], methods_syntax(rest)),
        )),
        methods_syntax(Seq::empty()) == (Parse::Parsed::<Seq<MethodText>> {
            value: Seq::empty(),
            rest: Seq::empty(),
            unexpected: false,
        }),
{
}

/// A segment is `to`, an expression, and methods in braces. What is not read in it decides what it
/// comes to: the expression, the braces that are missing, or the methods.
pub proof fn law_segment_is_read(tokens: Text, behind: Text, inner: Text, more: Text)
    requires
        takes_word(true, "to"@, tokens, behind),
    ensures
        match in_front::<Delegator>(behind, 0) {
            Parse::Failed(message) => segment_syntax(tokens) == Parse::Failed::<SegmentText>(
                message,
            ),
            Parse::Stopped(reason) => segment_syntax(tokens) == Parse::Stopped::<SegmentText>(
                reason,
            ),
            Parse::Parsed { value, rest, unexpected } => {
                &&& !(flat(rest).len() > 0 && (flat(rest)[0] matches Tree::Group(
                    Delimiter::Brace,
                    _,
                    _,
                ))) ==> (segment_syntax(tokens) matches Parse::Failed(message) && is_expected(
                    message,
                    rest,
                    "expected curly braces"@,
                ))
                &&& flat(rest).len() > 0 && flat(rest)[0] == Tree::Group(
                    Delimiter::Brace,
                    inner,
                    (),
                ) && more == unwrapped(rest).skip(1) ==> segment_syntax(tokens) == match methods_syntax(inner) {
                    Parse::Failed(message) => Parse::Failed(message),
                    Parse::Stopped(reason) => Parse::Stopped(reason),
                    Parse::Parsed { value: methods, unexpected: left, .. } => Parse::Parsed {
                        value: SegmentText { delegator: value, methods },
                        rest: more,
                        unexpected: unexpected || left,
                    },
                }
            },
        },
{
    reveal_strlit("to");
    reveal_strlit("target");
    assert("to"@.len() != "target"@.len());
    law_first_token(tokens, "to"@, ',', Delimiter::Brace);
    law_first_token(tokens, "target"@, ',', Delimiter::Brace);
    law_opening(tokens);
    if let Parse::Parsed { rest, .. } = in_front::<Delegator>(behind, 0) {
        law_first_token(rest, "to"@, ',', Delimiter::Brace);
        law_opening(rest);
    }
}

/// The input is refused if one of its segments is, for the reason of the first that is; else, if a
/// group was left with tokens in it; else the code is that of all the segments, and the input is
/// given up if a method cannot become code.
pub proof fn law_input_comes_to(tokens: Text)
    ensures
        match block_syntax(tokens) {
            Parse::Failed(message) => expansion(tokens) == Parse::Failed::<Text>(message),
            Parse::Stopped(reason) => expansion(tokens) == Parse::Stopped::<Text>(reason),
            Parse::Parsed { value, unexpected, .. } => if unexpected {
                expansion(tokens) == Parse::Failed::<Text>("unexpected token"@)
            } else {
                match block_expansion(value) {
                    Ok(code) => expansion(tokens) == (Parse::Parsed {
                        value: code,
                        rest: Seq::empty(),
                        unexpected: false,
                    }),
                    Err(reason) => expansion(tokens) == Parse::Stopped::<Text>(reason),
                }
            },
        },
        tokens.len() > 0 ==> match segment_syntax(tokens) {
            Parse::Failed(message) => block_syntax(tokens) == Parse::Failed::<Seq<SegmentText>>(
                message,
            ),
            Parse::Stopped(reason) => block_syntax(tokens) == Parse::Stopped::<Seq<SegmentText>>(
                reason,
            ),
            Parse::Parsed { value, rest, unexpected } => flat(rest).len() < flat(tokens).len()
                ==> block_syntax(tokens) == after(
                unexpected,
                prefixed(seq![value], block_syntax(rest)),
            ),
        },
{
    crate::laws::law_input_is_read_whole(tokens);
    if let Parse::Parsed { rest, .. } = block_syntax(tokens) {
        assert(rest =~= Seq::empty());
        assert(unwrapped(rest).len() == 0);
    }
}

/// Whether a group was left with tokens in it is kept, whatever is read later, and so is what was
/// read first, in front of what is read later; an error stays as it is.
pub proof fn law_parses_are_put_together<V>(left: bool, first: Seq<V>, parse: Parse<Seq<V>>)
    ensures
        after(left, prefixed(first, parse)) == match parse {
            Parse::Parsed { value, rest, unexpected } => Parse::Parsed {
                value: first + value,
                rest,
                unexpected: left || unexpected,
            },
            Parse::Failed(message) => Parse::Failed(message),
            Parse::Stopped(reason) => Parse::Stopped(reason),
        },
{
}

/// The tokens of a segment with these declarations.
pub open spec fn with_methods(parts: (Text, Seq<Text>)) -> (Text, Text) {
    (parts.0, joined(parts.1))
}

/// Whether a segment is read with nothing left in a group, and each of its methods becomes code.
pub open spec fn is_delegation(parts: (Text, Seq<Text>)) -> bool {
    &&& is_delegator(parts.0) && !delegator(parts.0)->unexpected
    &&& forall|i: int|
        0 <= i < parts.1.len() ==> {
            &&& is_declaration(#[trigger] parts.1[i])
            &&& !method_syntax(parts.1[i])->unexpected
            &&& method_expansion(delegator(parts.0)->value, declared(parts.1[i])) is Ok
        }
}

/// The code of a segment: that of each method that it declares, delegated to its expression.
pub open spec fn code_of(parts: (Text, Seq<Text>)) -> Text {
    parts.1.map_values(
        |tokens: Text|
            method_expansion(delegator(parts.0)->value, declared(tokens))->Ok_0,
    ).flatten()
}

/// The input of the macro becomes the code of every method that it declares, once and in order,
/// each delegated to the expression of its own segment, and nothing else.
pub proof fn law_every_method_is_delegated(segments: Seq<(Text, Seq<Text>)>)
    requires
        forall|i: int| 0 <= i < segments.len() ==> is_delegation(#[trigger] segments[i]),
    ensures
        expansion(
            written(segments.map_values(|parts: (Text, Seq<Text>)| with_methods(parts))),
        ) == (Parse::Parsed {
            value: segments.map_values(|parts: (Text, Seq<Text>)| code_of(parts)).flatten(),
            rest: Seq::empty(),
            unexpected: false,
        }),
{
    let parts = segments.map_values(|parts: (Text, Seq<Text>)| with_methods(parts));
    let code = segments.map_values(|parts: (Text, Seq<Text>)| code_of(parts));
    assert forall|i: int| 0 <= i < parts.len() implies is_segment(#[trigger] parts[i])
        && !read_alone(parts[i])->unexpected && read_alone(parts[i])->value == (SegmentText {
        delegator: delegator(segments[i].0)->value,
        methods: segments[i].1.map_values(|tokens: Text| declared(tokens)),
    }) by {
        assert(is_delegation(segments[i]));
        lemma_delegation(segments[i]);
    }
    law_segments_are_read_in_order(parts);
    assert(!some_unexpected(parts));
    let read = read_each(parts);
    law_input_comes_to(written(parts));
    law_code_of_each_segment(read);
    assert forall|i: int| 0 <= i < read.len() implies methods_expansion(
        (#[trigger] read[i]).delegator,
        read[i].methods,
    ) == Ok::<Text, Reason>(code[i]) by {
        assert(read[i] == read_alone(parts[i])->value);
        assert(is_delegation(segments[i]));
        lemma_code(segments[i]);
    }
    assert(block_expansion(read) is Ok);
    assert(read.map_values(
        |segment: SegmentText| methods_expansion(segment.delegator, segment.methods)->Ok_0,
    ) =~= code);
}

/// How a segment of a delegation is read.
proof fn lemma_delegation(parts: (Text, Seq<Text>))
    requires
        is_delegation(parts),
    ensures
        ({
            let written = with_methods(parts);
            &&& is_segment(written)
            &&& !read_alone(written)->unexpected
            &&& read_alone(written)->value == (SegmentText {
                delegator: delegator(parts.0)->value,
                methods: parts.1.map_values(|tokens: Text| declared(tokens)),
            })
        }),
{
    let nothing = Seq::<Tree<()>>::empty();
    let tokens = segment(parts.0, joined(parts.1));
    law_declarations_are_read_in_order(parts.1);
    law_segment_ends(parts.0, joined(parts.1), nothing);
    assert(tokens + nothing =~= tokens);
}

/// The methods of a segment of a delegation become code.
proof fn lemma_code(parts: (Text, Seq<Text>))
    requires
        is_delegation(parts),
    ensures
        methods_expansion(
            delegator(parts.0)->value,
            parts.1.map_values(|tokens: Text| declared(tokens)),
        ) == Ok::<Text, Reason>(code_of(parts)),
{
    let methods = parts.1.map_values(|tokens: Text| declared(tokens));
    let to = delegator(parts.0)->value;
    law_code_of_each_method(to, methods);
    assert forall|i: int| 0 <= i < methods.len() implies method_expansion(
        to,
        #[trigger] methods[i],
    ) is Ok by {
        assert(is_declaration(parts.1[i]));
    }
    assert(methods.map_values(|method: MethodText| method_expansion(to, method)->Ok_0)
        =~= parts.1.map_values(|tokens: Text| method_expansion(to, declared(tokens))->Ok_0));
}

} // verus!
