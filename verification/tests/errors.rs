use delegate::{delegate, Panic};
use proc_macro2::TokenStream;
use std::str::FromStr;

fn stream(text: &str) -> TokenStream {
    TokenStream::from_str(text).unwrap()
}

fn reported(input: &str) -> String {
    delegate(stream(input)).unwrap().to_string()
}

fn report_of(message: &str) -> String {
    stream(&format!("compile_error! {{ {:?} }}", message)).to_string()
}

fn panic(input: &str) -> Panic {
    match delegate(stream(input)) {
        Ok(code) => panic!("expanded to {}", code),
        Err(panic) => panic,
    }
}

#[test]
fn old_target_is_reported() {
    assert_eq!(
        reported("target self.inner { fn f(&self); }"),
        report_of("You are using the old `target` expression, which is deprecated. Please replace `target` with `to`."),
    );
}

#[test]
fn missing_to_is_reported() {
    assert_eq!(reported("self.inner { fn f(&self); }"), report_of("expected `to`"));
    assert_eq!(reported("to self.inner {} ; "), report_of("expected `to`"));
}

#[test]
fn missing_delegator_is_reported() {
    assert_eq!(
        reported("to"),
        report_of("unexpected end of input, expected expression"),
    );
}

#[test]
fn missing_braces_are_reported() {
    assert_eq!(
        reported("to self.inner"),
        report_of("unexpected end of input, expected curly braces"),
    );
    assert_eq!(reported("to self.inner (f)"), report_of("unexpected end of input, expected curly braces"));
    assert_eq!(reported("to self.inner ; { }"), report_of("expected curly braces"));
}

#[test]
fn tokens_left_in_a_group_are_reported() {
    assert_eq!(
        reported("to self.inner { fn f(&self, [a b]); }"),
        report_of("unexpected token"),
    );
    assert_eq!(
        reported("to self.inner { fn f(&self, x: [u8; 3 4]); }"),
        report_of("unexpected token"),
    );
}

#[test]
fn first_refusal_wins_over_tokens_left() {
    assert_eq!(
        panic("to self.inner { fn f(&self, [a b]); fn g() {} }").message(),
        "Do not include implementation of delegated functions (g)",
    );
    assert_eq!(
        reported("to self.inner { #[into] #[into] fn f(&self, [a b]); }"),
        report_of("unexpected token"),
    );
}

#[test]
fn implementation_is_refused() {
    let panic = panic("to self.inner { fn f(&self) { 1 } }");
    assert!(matches!(&panic, Panic::Implementation(name) if name == "f"));
    assert_eq!(panic.message(), "Do not include implementation of delegated functions (f)");
}

#[test]
fn missing_semicolon_is_refused() {
    assert_eq!(
        panic("to self.inner { fn f(&self) }").message(),
        "Do not include implementation of delegated functions (f)",
    );
}

#[test]
fn patterns_are_refused() {
    let panic = panic("to self.inner { fn f(&self, (a, b): (u8, u8)); }");
    assert!(matches!(&panic, Panic::SimpleIdentifiers(name) if name == "f"));
    assert_eq!(
        panic.message(),
        "You have to use simple identifiers for delegated method parameters (f)",
    );
}

#[test]
fn pattern_is_refused_before_what_follows_it() {
    assert!(matches!(
        panic("to self.inner { fn f(_: u8) -> ; }"),
        Panic::SimpleIdentifiers(_)
    ));
}

#[test]
fn several_calls_are_refused() {
    let panic = panic("to self.inner { #[call(a)] #[call(b)] fn f(&self); }");
    assert!(matches!(&panic, Panic::MultipleCalls(name) if name == "f"));
    assert_eq!(panic.message(), "Multiple call attributes specified for f");
}

#[test]
fn several_intos_are_refused() {
    let panic = panic("to self.inner { #[into] #[into] fn f(&self) -> u8; }");
    assert!(matches!(&panic, Panic::MultipleIntos(name) if name == "f"));
    assert_eq!(panic.message(), "Multiple into attributes specified for f");
}

#[test]
fn old_target_method_is_refused() {
    let panic = panic("to self.inner { #[target_method(a)] fn f(&self); }");
    assert!(matches!(&panic, Panic::TargetMethod));
    assert_eq!(
        panic.message(),
        "You are using the old `target_method` attribute, which is deprecated. Please replace `target_method` with `call`.",
    );
}

#[test]
fn syntax_errors_in_methods_are_refused() {
    let error = panic("to self.inner { struct S; }");
    assert!(matches!(&error, Panic::Syntax(message) if message == "expected `fn`"));
    assert_eq!(
        error.message(),
        "called `Result::unwrap()` on an `Err` value: Error(\"expected `fn`\")",
    );
    assert!(matches!(
        panic("to self.inner { fn f }"),
        Panic::Syntax(message) if message == "unexpected end of input, expected parentheses"
    ));
    assert!(matches!(
        panic("to self.inner { fn }"),
        Panic::Syntax(message) if message == "unexpected end of input, expected identifier"
    ));
    assert!(matches!(
        panic("to self.inner { fn match(); }"),
        Panic::Syntax(message) if message == "expected identifier"
    ));
    assert!(matches!(
        panic("to self.inner { fn f(&self x: u8); }"),
        Panic::Syntax(message) if message == "expected `,`"
    ));
    assert!(matches!(
        panic("to self.inner { fn f(&self, []); }"),
        Panic::Syntax(message) if message == "unexpected end of input, expected expression"
    ));
}

#[test]
fn syntax_errors_in_call_are_refused() {
    assert!(matches!(
        panic("to self.inner { #[call] fn f(&self); }"),
        Panic::Syntax(message) if message == "unexpected end of input, expected parentheses"
    ));
    assert!(matches!(
        panic("to self.inner { #[call = g] fn f(&self); }"),
        Panic::Syntax(message) if message == "expected parentheses"
    ));
    assert!(matches!(
        panic("to self.inner { #[call(1)] fn f(&self); }"),
        Panic::Syntax(message) if message == "expected identifier"
    ));
    assert!(matches!(
        panic("to self.inner { #[call(a, b)] fn f(&self); }"),
        Panic::Syntax(message) if message == "unexpected token"
    ));
    assert!(matches!(
        panic("to self.inner { #[call(a) b] fn f(&self); }"),
        Panic::Syntax(message) if message == "unexpected token"
    ));
}

#[test]
fn call_is_read_before_it_is_counted() {
    assert!(matches!(
        panic("to self.inner { #[call(a)] #[call(1)] fn f(&self); }"),
        Panic::Syntax(_)
    ));
}

#[test]
fn unknown_literals_are_refused() {
    let panic = panic("to self.inner { fn f(&self, [c\"text\"]); }");
    assert!(matches!(&panic, Panic::UnknownLiteral(text) if text == "c\"text\""));
    assert_eq!(panic.message(), "Unrecognized literal: `c\"text\"`");
}

#[test]
fn known_literals_are_read() {
    assert_eq!(
        reported("to self.0 { fn f([\"s\"], [b\"s\"], [b'c'], ['c'], [r\"s\"], [br\"s\"], [1], [1.5]); }"),
        stream(
            "#[inline(always)] fn f() { self.0.f(\"s\", b\"s\", b'c', 'c', r\"s\", br\"s\", 1, 1.5) ; }"
        )
        .to_string(),
    );
}

#[test]
fn first_method_that_fails_decides() {
    assert!(matches!(
        panic("to self.0 { fn f(&self); #[into] #[into] fn g(&self); #[target_method(x)] fn h(&self); }"),
        Panic::MultipleIntos(name) if name == "g"
    ));
    assert!(matches!(
        panic("to self.0 { #[target_method(x)] fn h(&self); } to self.1 { #[into] #[into] fn g(&self); }"),
        Panic::TargetMethod
    ));
}

#[test]
fn literals_that_are_not_read_do_not_matter() {
    assert_eq!(
        reported("to self.0 { #[doc(c\"x\")] fn f([m!(c\"y\")]); }"),
        stream("#[doc(c\"x\")] #[inline(always)] fn f() { self.0.f(m!(c\"y\")) ; }").to_string(),
    );
    assert_eq!(
        reported("target c\"x\" { }"),
        report_of("You are using the old `target` expression, which is deprecated. Please replace `target` with `to`."),
    );
    assert_eq!(reported("to self.a {} c\"x\""), report_of("expected `to`"));
    assert_eq!(reported("to self.a {} ; c\"x\""), report_of("expected `to`"));
    assert_eq!(reported("to self.a {} . c\"x\""), report_of("expected `to`"));
    assert_eq!(reported("c\"x\""), report_of("expected `to`"));
    assert_eq!(reported("to self.a c\"x\" {}"), report_of("expected curly braces"));
    assert_eq!(reported("to self.a ; c\"x\" {}"), report_of("expected curly braces"));
    assert_eq!(reported("to self.0 { fn f([a c\"x\"]); }"), report_of("unexpected token"));
    assert!(matches!(
        panic("to self.0 { fn f(x: T c\"x\"); }"),
        Panic::Syntax(message) if message == "expected `,`"
    ));
}

#[test]
fn what_is_behind_a_header_does_not_matter() {
    for text in [
        "fn f(&self) c\"x\"",
        "fn f(&self) c\"x\" ;",
        "fn f(&self) (c\"x\") ;",
        "fn f<T>(&self) c\"x\" ;",
        "fn f<T>(&self) -> T c\"x\" ;",
        "fn f<T>(&self) -> A<3> where T: A c\"x\" ;",
        "fn f(&self) -> u8 { c\"x\" }",
        "fn f(&self) -> A<B> [c\"x\"] ;",
        "fn f<T>(&self) -> (A, B) where T: A { c\"x\" }",
    ] {
        assert!(matches!(
            panic(&format!("to self.0 {{ {} }}", text)),
            Panic::Implementation(name) if name == "f"
        ));
    }
}

#[test]
fn unknown_literals_that_are_read_are_refused() {
    for text in [
        "fn f(&self) -> [u8; c\"x\"];",
        "fn f(&self) -> A<c\"x\">;",
        "fn f<const N: u8 = c\"x\">(&self);",
        "extern c\"C\" fn f(&self);",
        "fn f(&self) -> extern c\"C\" fn();",
        "fn f(&self, x: [u8; c\"x\"]);",
        "fn f(&self, [c\"x\"]);",
        "fn f(&self, [g(c\"x\")]);",
        "fn f(&self, [return c\"x\"]);",
    ] {
        assert!(matches!(
            panic(&format!("to self.0 {{ {} }}", text)),
            Panic::UnknownLiteral(_)
        ));
    }
}

#[test]
fn errors_of_types_are_reported_in_full() {
    assert_eq!(
        reported("to (x as dyn 'a + 'b) { }"),
        report_of("at least one trait is required for an object type"),
    );
}

#[test]
fn unknown_literals_in_a_delegator_are_refused() {
    for text in ["to c\"x\" {}", "to f(c\"x\") {}", "to match c\"x\" { _ => a } {}", "to return c\"x\" {}"] {
        assert!(matches!(panic(text), Panic::UnknownLiteral(text) if text == "c\"x\""));
    }
}

#[test]
fn parameters_behind_mut_self_are_refused() {
    for text in [
        "fn f(x: fn(mut self, A, A));",
        "fn f(x: fn(A, mut self, B, C));",
        "fn f(x: fn(mut self: T, A, B));",
        "fn f(x: fn(y: mut self, A, B));",
        "fn f(x: fn(#[a] #[b] mut self, A, B));",
        "fn f(x: fn(mut self, A, ...));",
        "fn f(x: fn(mut self, mut self, A, B));",
        "fn f(x: A, y: &[fn(mut self, A, A)]);",
        "fn f<T: F<fn(mut self, A, A)>>();",
        "fn f() -> fn(mut self, A<B, C>, D);",
        "fn f() -> unsafe extern \"C\" fn(mut self, A, B);",
        "fn f() -> u8 where fn(mut self, A, A): B;",
        "fn f([x as fn(mut self, A, A)]);",
    ] {
        assert!(matches!(panic(&format!("to self.0 {{ {} }}", text)), Panic::MutSelf));
    }
    assert!(matches!(panic("to (x as fn(mut self, A, A)) {}"), Panic::MutSelf));
    assert_eq!(
        Panic::MutSelf.message(),
        "Punctuated::push_value: cannot push value if Punctuated is missing trailing punctuation",
    );
}

#[test]
fn mut_self_in_function_pointers_is_read() {
    for text in [
        "fn(mut self)",
        "fn(mut self, A)",
        "fn(mut self, A,)",
        "fn(mut self, A<B, C>)",
        "fn(mut self, A<B, fn(C) -> D, E>)",
        "fn(mut self: T<A, B>, mut self)",
        "fn(A, B, mut self, C)",
        "fn(&mut self, A, B)",
        "fn(A, mut self, ...)",
        "fn(A, B, C)",
        "m!(fn(mut self, A, A))",
    ] {
        let code = reported(&format!("to self.0 {{ fn f(x: {}) ; }}", text));
        let expected = format!("#[inline(always)] fn f(x: {}) {{ self.0.f(x) ; }}", text);
        assert_eq!(code, stream(&expected).to_string());
    }
    assert_eq!(
        reported("to self.0 { fn f(x: fn(mut self, ..., A)); }"),
        report_of("unexpected token"),
    );
    assert!(matches!(
        panic("to self.0 { fn f(x: fn(mut self, , A)); }"),
        Panic::Syntax(_)
    ));
    assert_eq!(
        reported("to { fn g(mut self, a: A, b: B) {} x } { fn f(); }"),
        stream("#[inline(always)] fn f() { { fn g(mut self, a: A, b: B) {} x }.f() ; }").to_string(),
    );
}

#[test]
fn literals_in_inner_attributes_and_new_macros_do_not_matter() {
    assert_eq!(
        reported("to { #![a(c\"x\")] macro_rules! m { () => { c\"y\" } } b } { fn f(); }"),
        stream(
            "#[inline(always)] fn f() {
                { # ![a(c\"x\")] macro_rules! m { () => { c\"y\" } } b }.f() ;
            }"
        )
        .to_string(),
    );
    assert_eq!(reported("to self.0 { fn f([a, c\"x\"]); }"), report_of("unexpected token"));
}
