use delegate::attributes::{only_target, take_ident};
use delegate::expand::generate;
use delegate::grammar::{
    parse_optional_keyword, take_group, take_keyword, take_punct,
    unwrap_invisible,
};
use delegate::input::{parse_inputs, split_inputs};
use delegate::outcome::ParseError;
use delegate::piece::{read_guarded, read_in_front, Argument, Delegator, Expression, Generics, Output};
use delegate::report::report;
use delegate::stream::{split_first, Head};
use delegate::syntax::{Attribute, FnArg, Ident, Parameter};
use delegate::token::Delimiter;
use delegate::trouble::find_trouble;
use delegate::{
    delegate, has_inline_attribute, parse_attributes, parse_input_into_argument_expression,
    CallMethodAttribute, DelegatedInput, DelegatedMethod, DelegatedSegment, DelegationBlock, Panic,
};
use proc_macro2::{Group, Punct, Spacing, Span, TokenStream, TokenTree};
use std::str::FromStr;

fn stream(text: &str) -> TokenStream {
    TokenStream::from_str(text).unwrap()
}

fn invisible(text: &str) -> TokenStream {
    TokenStream::from(TokenTree::Group(Group::new(
        proc_macro2::Delimiter::None,
        stream(text),
    )))
}

fn followed(mut first: TokenStream, second: TokenStream) -> TokenStream {
    first.extend(second);
    first
}

fn ident(text: &str) -> Ident {
    Ident { text: text.to_string(), token: stream(text) }
}

fn attribute(name: &str, tokens: &str) -> Attribute {
    Attribute {
        name: Some(name.to_string()),
        tokens: stream(tokens),
        printed: stream(&format!("#[{}{}]", name, tokens)),
    }
}

fn method(text: &str) -> DelegatedMethod {
    match DelegatedMethod::parse(&stream(text)) {
        Ok(parsed) => parsed.value,
        Err(_) => panic!("not a method: {}", text),
    }
}

#[test]
fn streams_are_taken_apart() {
    let split = split_first(&stream("a + 1")).unwrap();
    assert!(matches!(split.head, Head::Ident { text, .. } if text == "a"));
    assert_eq!(split.first.to_string(), "a");
    let split = split_first(&split.rest).unwrap();
    assert!(matches!(split.head, Head::Punct { symbol: '+', joint: false, .. }));
    let split = split_first(&split.rest).unwrap();
    assert!(matches!(split.head, Head::Literal { text, .. } if text == "1"));
    assert!(split_first(&split.rest).is_none());

    let split = split_first(&stream("::")).unwrap();
    assert!(matches!(split.head, Head::Punct { symbol: ':', joint: true, .. }));
}

#[test]
fn groups_are_taken_apart() {
    for (text, expected) in [
        ("(a) b", Delimiter::Parenthesis),
        ("{a} b", Delimiter::Brace),
        ("[a] b", Delimiter::Bracket),
    ] {
        match split_first(&stream(text)).unwrap().head {
            Head::Group { delimiter, tokens, .. } => {
                assert_eq!(delimiter, expected);
                assert_eq!(tokens.to_string(), "a");
            }
            _ => panic!("no group: {}", text),
        }
    }
    assert!(matches!(
        split_first(&invisible("a")).unwrap().head,
        Head::Group { delimiter: Delimiter::Invisible, .. }
    ));
}

#[test]
fn invisible_groups_are_opened() {
    let nested = TokenStream::from(TokenTree::Group(Group::new(
        proc_macro2::Delimiter::None,
        followed(invisible(""), invisible("a b")),
    )));
    let opened = unwrap_invisible(&followed(nested, stream("c")));
    assert!(matches!(
        split_first(&opened).unwrap().head,
        Head::Ident { text, .. } if text == "a"
    ));
    assert_eq!(opened.into_iter().count(), 3);
    assert!(unwrap_invisible(&invisible("")).is_empty());
}

#[test]
fn keywords_are_taken() {
    let taken = take_keyword(&stream("to self"), "to").unwrap();
    assert_eq!(taken.token.to_string(), "to");
    assert_eq!(taken.rest.to_string(), "self");
    assert!(take_keyword(&stream("r#to self"), "to").is_none());
    assert!(take_keyword(&stream("(to) self"), "to").is_none());
    assert!(take_keyword(&stream(""), "to").is_none());
    assert_eq!(
        take_keyword(&followed(invisible("to a"), stream("b")), "to").unwrap().rest.to_string(),
        "a b",
    );
}

#[test]
fn optional_keywords_are_parsed() {
    let parsed = parse_optional_keyword(&stream("const fn"), "const");
    assert_eq!(parsed.value.to_string(), "const");
    assert_eq!(parsed.rest.to_string(), "fn");
    let parsed = parse_optional_keyword(&stream("fn f"), "const");
    assert!(parsed.value.is_empty());
    assert_eq!(parsed.rest.to_string(), "fn f");
}

#[test]
fn punctuation_is_taken() {
    assert_eq!(take_punct(&stream("; a"), ';').unwrap().rest.to_string(), "a");
    assert!(take_punct(&stream(", a"), ';').is_none());
    assert!(take_punct(&stream("a ;"), ';').is_none());
}

#[test]
fn delimited_groups_are_taken() {
    let taken = take_group(&stream("(a b) c"), Delimiter::Parenthesis).unwrap();
    assert_eq!(taken.inner.to_string(), "a b");
    assert_eq!(taken.rest.to_string(), "c");
    assert!(take_group(&stream("[a b] c"), Delimiter::Parenthesis).is_none());
    assert!(take_group(&stream("c (a)"), Delimiter::Parenthesis).is_none());
}

#[test]
fn unknown_literals_are_found() {
    assert!(matches!(
        find_trouble(&stream("a (1 { c\"x\" } c\"y\") c\"z\"")),
        Some(Panic::UnknownLiteral(text)) if text == "c\"x\""
    ));
    assert!(matches!(
        find_trouble(&stream("cr\"x\"")),
        Some(Panic::UnknownLiteral(text)) if text == "cr\"x\""
    ));
    assert!(find_trouble(&stream("a (1 { \"x\" } 'y') b\"z\" 0.5")).is_none());
}

#[test]
fn literals_that_are_not_read_are_passed_over() {
    assert!(find_trouble(&stream("#[a(c\"x\")] b")).is_none());
    assert!(find_trouble(&stream("a::m!(c\"x\") + n! [c\"y\"] + o! { c\"z\" }")).is_none());
    assert!(find_trouble(&stream("return !(c\"x\")")).is_some());
    assert!(find_trouble(&stream("break 'a !(c\"x\")")).is_some());
    assert!(find_trouble(&stream("a != (c\"x\")")).is_some());
    assert!(find_trouble(&stream("[c\"x\"]")).is_some());
    let mut split = stream("break");
    split.extend([TokenTree::Punct(Punct::new('\'', Spacing::Joint))]);
    split.extend(invisible("a !(c\"x\")"));
    assert!(find_trouble(&split).is_some());
    assert!(find_trouble(&stream("#![a(c\"x\")] macro_rules! m { c\"y\" }")).is_none());
    assert!(find_trouble(&followed(invisible("a +"), stream("m!(c\"x\")"))).is_none());
    let mut split = stream("break");
    split.extend(TokenStream::from(TokenTree::Group(Group::new(
        proc_macro2::Delimiter::None,
        TokenStream::from(TokenTree::Punct(Punct::new('\'', Spacing::Joint))),
    ))));
    split.extend(stream("a !(c\"x\")"));
    assert!(find_trouble(&split).is_some());
}

#[test]
fn parameter_lists_are_found_behind_invisible_groups() {
    let lists = [
        followed(invisible("x as fn"), stream("(mut self, A, A)")),
        followed(stream("x as fn"), invisible("(mut self, A, A)")),
        invisible("x as fn(mut self, A, A)"),
    ];
    for list in lists {
        assert!(matches!(find_trouble(&list), Some(Panic::MutSelf)));
    }
    let mut inner = invisible("mut self,");
    inner.extend(stream("A ,"));
    inner.extend(invisible("B"));
    let list = followed(
        stream("fn"),
        TokenStream::from(TokenTree::Group(Group::new(proc_macro2::Delimiter::Parenthesis, inner))),
    );
    assert!(matches!(find_trouble(&list), Some(Panic::MutSelf)));
    assert!(find_trouble(&stream("fn f(mut self, a: A, b: B) {}")).is_none());
}

#[test]
fn attributes_alone_in_an_invisible_group_are_found() {
    assert!(matches!(
        find_trouble(&followed(invisible("#[a]"), stream("x"))),
        Some(Panic::LoneAttribute)
    ));
    let nested = TokenStream::from(TokenTree::Group(Group::new(
        proc_macro2::Delimiter::None,
        followed(invisible("#"), invisible("[a]")),
    )));
    let inner = TokenStream::from(TokenTree::Group(Group::new(
        proc_macro2::Delimiter::Parenthesis,
        followed(nested, stream("x")),
    )));
    assert!(matches!(find_trouble(&inner), Some(Panic::LoneAttribute)));
    assert!(find_trouble(&invisible("#[a] x")).is_none());
    assert!(find_trouble(&stream("#[a] x")).is_none());
    let more = TokenStream::from(TokenTree::Group(Group::new(
        proc_macro2::Delimiter::None,
        followed(stream("#[a]"), invisible("")),
    )));
    assert!(find_trouble(&more).is_none());
    assert!(matches!(
        read_guarded::<Expression>(&followed(more, stream("x"))),
        Err(ParseError::Syntax(_))
    ));
}

#[test]
fn attributes_of_parameters_may_be_in_invisible_groups() {
    let input = followed(invisible("#[a]"), stream("x: A"));
    assert!(read_guarded::<Argument>(&input).is_ok());
    let parsed = DelegatedInput::parse(&input).ok().unwrap();
    assert!(matches!(
        &parsed.value,
        DelegatedInput::Input(FnArg { parameter: Parameter::Name(name), .. }) if name.text == "x"
    ));
    let mut list = stream("a: A,");
    list.extend(invisible("#[b]"));
    list.extend(invisible("#[c]"));
    list.extend(stream("d: M<B, C>, e: u8"));
    let entries = parse_inputs(&list).ok().unwrap().value;
    assert_eq!(entries.len(), 3);
    let (inputs, calls) = split_inputs(&entries, &ident("f")).unwrap();
    assert_eq!(inputs.to_string(), stream("a: A, #[b] #[c] d: M<B, C> , e: u8").to_string());
    assert_eq!(calls.iter().map(|call| call.to_string()).collect::<Vec<_>>(), ["a", "d", "e"]);
}

#[test]
fn pieces_are_read_in_front_of_their_end() {
    let read = |text: &str| read_in_front::<Delegator>(&stream(text)).ok().unwrap();
    let parsed = read("self.a { fn f(); } c\"x\"");
    assert_eq!(parsed.value.to_string(), "self . a");
    assert_eq!(parsed.rest.to_string(), stream("{ fn f(); } c\"x\"").to_string());
    let parsed = read("match x { A => B } { fn f(); }");
    assert_eq!(parsed.value.to_string(), stream("match x { A => B }").to_string());
    assert_eq!(parsed.rest.to_string(), stream("{ fn f(); }").to_string());
    let parsed = read("return { a } { b }");
    assert_eq!(parsed.value.to_string(), stream("return { a }").to_string());
    let parsed = read("if a { b } else { c } { d }");
    assert_eq!(parsed.value.to_string(), stream("if a { b } else { c }").to_string());
    assert_eq!(parsed.rest.to_string(), stream("{ d }").to_string());
    let parsed = read("self.a ; { b }");
    assert_eq!(parsed.rest.to_string(), stream("; { b }").to_string());
    let parsed = read("self.a");
    assert!(parsed.rest.is_empty());

    let text = stream("<F: Fn(A) -> B>(f: F) c\"x\"");
    let parsed = read_in_front::<Generics>(&text).ok().unwrap();
    assert_eq!(parsed.value.to_string(), stream("< F: Fn(A) -> B >").to_string());
    assert_eq!(parsed.rest.to_string(), stream("(f: F) c\"x\"").to_string());

    let text = stream("-> extern \"C\" fn(A<3>) c\"x\" ;");
    let parsed = read_in_front::<Output>(&text).ok().unwrap();
    assert_eq!(parsed.value.ty.unwrap().to_string(), stream("extern \"C\" fn(A<3>)").to_string());
    assert_eq!(parsed.rest.to_string(), stream("c\"x\" ;").to_string());
}

#[test]
fn trouble_keeps_a_piece_from_being_read() {
    assert!(matches!(
        read_guarded::<Expression>(&stream("c\"x\"")),
        Err(ParseError::Panic(Panic::UnknownLiteral(_)))
    ));
    assert!(matches!(
        read_guarded::<Expression>(&followed(invisible("#[a]"), stream("x"))),
        Err(ParseError::Panic(Panic::LoneAttribute))
    ));
    assert!(read_guarded::<Generics>(&stream("c\"x\"")).is_ok());
}

#[test]
fn identifiers_are_no_keywords() {
    let parsed = take_ident(&stream("push rest")).ok().unwrap();
    assert_eq!(parsed.value.text, "push");
    assert_eq!(parsed.value.token.to_string(), "push");
    assert_eq!(parsed.rest.to_string(), "rest");
    assert_eq!(take_ident(&stream("match")).err().unwrap().message, "expected identifier");
    assert_eq!(
        take_ident(&stream("")).err().unwrap().message,
        "unexpected end of input, expected identifier",
    );
}

#[test]
fn call_attribute_holds_a_name() {
    let parsed = CallMethodAttribute::parse(&stream("(push)")).ok().unwrap();
    assert_eq!(parsed.value.name.text, "push");
    assert!(parsed.rest.is_empty());
    assert!(parsed.unexpected.is_none());
    assert!(CallMethodAttribute::parse(&stream("(push pop)")).ok().unwrap().unexpected.is_some());
    assert!(CallMethodAttribute::parse(&stream("[push]")).is_err());
}

#[test]
fn attributes_are_sorted_out() {
    let attributes = vec![
        attribute("must_use", ""),
        attribute("call", "(push)"),
        attribute("inline", "(never)"),
        attribute("into", ""),
        Attribute { name: None, tokens: stream(""), printed: stream("#[a::call]") },
    ];
    let (kept, name, into) = parse_attributes(&attributes, &ident("add")).unwrap();
    let printed: Vec<String> = kept.iter().map(|kept| kept.printed.to_string()).collect();
    assert_eq!(
        printed,
        vec![
            stream("#[must_use]").to_string(),
            stream("#[inline(never)]").to_string(),
            stream("#[a::call]").to_string(),
        ],
    );
    assert_eq!(name.unwrap().text, "push");
    assert!(into);
    assert!(has_inline_attribute(&kept));
}

#[test]
fn no_attributes_ask_for_nothing() {
    let attributes = vec![attribute("inlined", "")];
    let (kept, name, into) = parse_attributes(&attributes, &ident("add")).unwrap();
    assert_eq!(kept.len(), 1);
    assert!(name.is_none());
    assert!(!into);
    assert!(!has_inline_attribute(&kept));
}

#[test]
fn special_attributes_are_refused_twice() {
    let twice = vec![attribute("call", "(a)"), attribute("call", "(b)")];
    assert!(matches!(
        parse_attributes(&twice, &ident("f")),
        Err(Panic::MultipleCalls(name)) if name == "f"
    ));
    let twice = vec![attribute("into", ""), attribute("into", "")];
    assert!(matches!(
        parse_attributes(&twice, &ident("f")),
        Err(Panic::MultipleIntos(name)) if name == "f"
    ));
}

#[test]
fn parameters_become_arguments() {
    let name = ident("f");
    let of = |parameter: Parameter| {
        let input = FnArg { tokens: stream("x: T"), parameter };
        parse_input_into_argument_expression(&name, &input)
    };
    assert!(of(Parameter::Receiver).unwrap().is_none());
    assert!(of(Parameter::Name(ident("self"))).unwrap().is_none());
    assert_eq!(of(Parameter::Name(ident("x"))).unwrap().unwrap().to_string(), "x");
    assert!(matches!(
        of(Parameter::Pattern),
        Err(Panic::SimpleIdentifiers(method)) if method == "f"
    ));
}

#[test]
fn entries_are_parameters_or_arguments() {
    let parsed = DelegatedInput::parse(&stream("[ self.a ], x: i32")).ok().unwrap();
    assert!(matches!(
        &parsed.value,
        DelegatedInput::Argument(expr) if expr.to_string() == "self . a"
    ));
    assert_eq!(parsed.rest.to_string(), ", x : i32");
    let parsed = DelegatedInput::parse(&stream("x: i32, y: u8")).ok().unwrap();
    assert!(matches!(
        &parsed.value,
        DelegatedInput::Input(FnArg { parameter: Parameter::Name(name), .. }) if name.text == "x"
    ));
    let parsed = DelegatedInput::parse(&stream("&mut self")).ok().unwrap();
    assert!(matches!(
        &parsed.value,
        DelegatedInput::Input(FnArg { parameter: Parameter::Receiver, .. })
    ));
}

#[test]
fn entries_are_parted_in_order() {
    let entries = parse_inputs(&stream("&self, [1], a: A, [2], b: B")).ok().unwrap().value;
    let (inputs, arguments) = split_inputs(&entries, &ident("f")).unwrap();
    assert_eq!(inputs.to_string(), stream("&self, a: A, b: B").to_string());
    let arguments: Vec<String> = arguments.iter().map(|argument| argument.to_string()).collect();
    assert_eq!(arguments, vec!["1", "a", "2", "b"]);
}

#[test]
fn parameters_of_joined_lists_are_joined() {
    let parted = |text: &str| {
        let entries = parse_inputs(&stream(text)).ok().unwrap().value;
        let (inputs, arguments) = split_inputs(&entries, &ident("f")).unwrap();
        let arguments: Vec<String> = arguments.iter().map(|a| a.to_string()).collect();
        (inputs.to_string(), arguments)
    };
    let (inputs, arguments) = parted("&self, [x], a: A,");
    let (more_inputs, more_arguments) = parted("b: B, [y]");
    let (all_inputs, all_arguments) = parted("&self, [x], a: A, b: B, [y]");
    assert_eq!(all_inputs, format!("{} {}", inputs, more_inputs));
    assert_eq!(all_arguments, [arguments, more_arguments].concat());
}

#[test]
fn methods_are_parsed_up_to_the_semicolon() {
    let parsed = DelegatedMethod::parse(&stream("pub fn f(&self, [1]) -> u8; fn g();")).ok().unwrap();
    assert_eq!(parsed.value.visibility.to_string(), "pub");
    assert_eq!(parsed.value.signature.ident.text, "f");
    assert_eq!(
        parsed.value.signature.to_tokens().to_string(),
        stream("fn f(&self,) -> u8").to_string(),
    );
    assert_eq!(parsed.value.arguments.len(), 1);
    assert_eq!(parsed.rest.to_string(), stream("fn g();").to_string());
}

#[test]
fn method_error_is_a_syntax_error() {
    assert!(matches!(
        DelegatedMethod::parse(&stream("struct S;")),
        Err(ParseError::Syntax(error)) if error.message == "expected `fn`"
    ));
}

#[test]
fn segments_are_parsed_up_to_their_braces() {
    let parsed = DelegatedSegment::parse(&stream("to self.a { fn f(); fn g(); } to self.b {}"));
    let parsed = parsed.ok().unwrap();
    assert_eq!(parsed.value.delegator.to_string(), "self . a");
    assert_eq!(parsed.value.methods.len(), 2);
    assert_eq!(parsed.rest.to_string(), stream("to self.b {}").to_string());
}

#[test]
fn blocks_are_parsed_to_the_end() {
    let parsed = DelegationBlock::parse(&stream("to self.a { fn f(); } to self.b {}")).ok().unwrap();
    assert_eq!(parsed.value.segments.len(), 2);
    assert_eq!(parsed.value.segments[1].delegator.to_string(), "self . b");
    assert!(parsed.rest.is_empty());
}

#[test]
fn methods_expand_one_by_one() {
    let code = method("fn f(&self) -> u8;").expand(&stream("self.a"), Span::call_site()).unwrap();
    assert_eq!(
        code.to_string(),
        stream("#[inline(always)] fn f(&self) -> u8 { self.a.f() }").to_string(),
    );
}

#[test]
fn code_is_generated_as_asked() {
    let inline = attribute("inline", "");
    let code = generate(
        &method("fn f(&self, x: u8) -> u8;"),
        &stream("self.a"),
        &vec![&inline],
        &stream("g"),
        true,
        Span::call_site(),
    );
    assert_eq!(
        code.to_string(),
        stream("#[inline] fn f(&self, x: u8) -> u8 { std::convert::Into:: < u8 > ::into(self.a.g(x)) }")
            .to_string(),
    );
}

#[test]
fn errors_are_reported_to_the_compiler() {
    assert_eq!(
        report("no way", Span::call_site()).to_string(),
        stream("compile_error! { \"no way\" }").to_string(),
    );
}

#[test]
fn fragments_of_other_macros_are_read() {
    let mut input = stream("to");
    input.extend(invisible("self.inner"));
    input.extend(stream("{ fn f(&self); }"));
    let code = delegate(input).unwrap().to_string();
    assert!(code.contains("fn f (& self)"));
    assert!(code.contains(". f ()"));

    let mut method = invisible("pub");
    method.extend(stream("fn f(&self) ->"));
    method.extend(invisible("u8"));
    method.extend(invisible(";"));
    let parsed = DelegatedMethod::parse(&method).ok().unwrap();
    assert_eq!(parsed.value.visibility.to_string(), "pub");
    assert!(parsed.value.signature.output.ty.is_some());
    assert!(parsed.rest.is_empty());
}

#[test]
fn only_one_target_is_taken() {
    assert_eq!(only_target(&None, Ok(ident("a")), &ident("f")).unwrap().text, "a");
    assert!(matches!(
        only_target(&Some(ident("a")), Ok(ident("b")), &ident("f")),
        Err(Panic::MultipleCalls(name)) if name == "f"
    ));
    assert!(matches!(
        only_target(&Some(ident("a")), Err(Panic::TargetMethod), &ident("f")),
        Err(Panic::TargetMethod)
    ));
}

#[test]
fn more_tokens_behind_a_declaration_are_left() {
    let alone = DelegatedMethod::parse(&stream("fn f<T>(&self, x: T) -> u8 where T: A;"));
    let alone = alone.ok().unwrap();
    let input = followed(stream("fn f<T>(&self, x: T) -> u8 where T: A;"), stream("; c\"x\" fn 1"));
    let parsed = DelegatedMethod::parse(&input).ok().unwrap();
    assert_eq!(
        parsed.value.signature.to_tokens().to_string(),
        alone.value.signature.to_tokens().to_string(),
    );
    assert!(alone.rest.is_empty());
    assert_eq!(parsed.rest.to_string(), stream("; c\"x\" fn 1").to_string());
}

#[test]
fn attribute_alone_is_refused_where_an_expression_is() {
    let mut input = stream("to");
    input.extend(invisible("#[a]"));
    input.extend(stream("x { }"));
    assert!(matches!(delegate(input), Err(Panic::LoneAttribute)));

    let brackets = TokenStream::from(TokenTree::Group(Group::new(
        proc_macro2::Delimiter::Bracket,
        followed(invisible("#[a]"), stream("x")),
    )));
    let parameters = TokenStream::from(TokenTree::Group(Group::new(
        proc_macro2::Delimiter::Parenthesis,
        brackets,
    )));
    let mut declaration = stream("fn f");
    declaration.extend(parameters);
    declaration.extend(stream(";"));
    assert!(matches!(
        DelegatedMethod::parse(&declaration),
        Err(ParseError::Panic(Panic::LoneAttribute))
    ));
    assert_eq!(Panic::LoneAttribute.message(), "Attribute without anything that it belongs to");
}

#[test]
fn attribute_in_an_invisible_group_is_one_of_a_method() {
    let declaration = followed(invisible("#[must_use]"), stream("fn f() -> u8;"));
    let method = DelegatedMethod::parse(&declaration).ok().unwrap().value;
    assert_eq!(method.attributes.len(), 1);
}

#[test]
fn segments_with_joined_method_lists() {
    let methods = |text: &str| {
        let segment = DelegatedSegment::parse(&stream(text)).ok().unwrap().value;
        let names: Vec<String> =
            segment.methods.iter().map(|method| method.signature.ident.text.clone()).collect();
        (segment.delegator.to_string(), names)
    };
    let (delegator, first) = methods("to a.b { fn f(); fn g(&self, x: u8) -> u8; }");
    let (other, second) = methods("to a.b { #[into] fn h() -> u8; }");
    let (joined, all) = methods("to a.b { fn f(); fn g(&self, x: u8) -> u8; #[into] fn h() -> u8; }");
    assert_eq!(delegator, joined);
    assert_eq!(other, joined);
    assert_eq!(all, [first, second].concat());
}

#[test]
fn segments_one_behind_the_other() {
    let block = DelegationBlock::parse(&stream("to a { fn f(); } to match b { c => d } { fn g(); } to e {}"));
    let block = block.ok().unwrap();
    let alone = ["to a { fn f(); }", "to match b { c => d } { fn g(); }", "to e {}"];
    assert_eq!(block.value.segments.len(), alone.len());
    for (segment, text) in block.value.segments.iter().zip(alone) {
        let expected = DelegatedSegment::parse(&stream(text)).ok().unwrap().value;
        assert_eq!(segment.delegator.to_string(), expected.delegator.to_string());
        assert_eq!(segment.methods.len(), expected.methods.len());
    }
    assert!(block.rest.is_empty());
}

#[test]
fn joined_inputs_become_joined_code() {
    let first = "to self.a { fn f(&self); } to self.b { #[into] fn g(&self) -> u8; }";
    let second = "to self.c { fn h(&self, [1], x: u8); }";
    let code = |text: &str| delegate(stream(text)).unwrap();
    let joined = delegate(followed(stream(first), stream(second))).unwrap();
    assert_eq!(joined.to_string(), followed(code(first), code(second)).to_string());
    assert!(code("").is_empty());
    let refused = delegate(followed(stream(first), stream("from self.c {}"))).unwrap();
    assert_eq!(refused.to_string(), code("from self.c {}").to_string());
}

#[test]
fn call_changes_nothing_but_the_target() {
    let code = |text: &str| delegate(stream(text)).unwrap().to_string();
    let plain = code("to self.a { #[b] #[into] fn f(&self, x: u8) -> A; }");
    for attributes in ["#[call(g)] #[b] #[into]", "#[b] #[call(g)] #[into]", "#[b] #[into] #[call(g)]"] {
        let named = code(&format!("to self.a {{ {} fn f(&self, x: u8) -> A; }}", attributes));
        assert_eq!(named, plain.replace(". f (x)", ". g (x)"));
        assert_ne!(named, plain);
    }
}
