use delegate::delegate;
use proc_macro2::TokenStream;
use std::str::FromStr;

fn stream(text: &str) -> TokenStream {
    TokenStream::from_str(text).unwrap()
}

fn expand(input: &str) -> String {
    delegate(stream(input)).unwrap().to_string()
}

fn printed(text: &str) -> String {
    stream(text).to_string()
}

#[test]
fn call_names_another_method() {
    assert_eq!(
        expand("to self.inner { #[call(push)] pub fn add(&mut self, value: u32); }"),
        printed(
            "#[inline(always)] pub fn add(&mut self, value: u32) { self.inner.push(value) ; }"
        ),
    );
}

#[test]
fn delegator_is_any_expression() {
    assert_eq!(
        expand("to self.inner.deref().borrow_mut() { pub fn push(&mut self, val: u32); }"),
        printed(
            "#[inline(always)] pub fn push(&mut self, val: u32) { self.inner.deref().borrow_mut().push(val) ; }"
        ),
    );
}

#[test]
fn into_converts_and_no_type_drops() {
    assert_eq!(
        expand(
            "to self.inner {
                #[into]
                pub fn method(&self, num: u32) -> u64;
                #[call(method)]
                pub fn method_noreturn(&self, num: u32);
            }"
        ),
        printed(
            "#[inline(always)] pub fn method(&self, num: u32) -> u64 {
                std::convert::Into:: < u64 > ::into(self.inner.method(num))
            }
            #[inline(always)] pub fn method_noreturn(&self, num: u32) { self.inner.method(num) ; }"
        ),
    );
}

#[test]
fn async_methods_await() {
    assert_eq!(
        expand(
            "to self.inner {
                pub async fn method(&self, num: u32) -> u32;
                #[into]
                #[call(method)]
                pub async fn method_into(&self, num: u32) -> u64;
            }"
        ),
        printed(
            "#[inline(always)] pub async fn method(&self, num: u32) -> u32 { self.inner.method(num).await }
            #[inline(always)] pub async fn method_into(&self, num: u32) -> u64 {
                std::convert::Into:: < u64 > ::into(self.inner.method(num).await)
            }"
        ),
    );
}

#[test]
fn async_method_without_type_awaits_and_drops() {
    assert_eq!(
        expand("to self.inner { async fn run(self); }"),
        printed("#[inline(always)] async fn run(self) { self.inner.run().await ; }"),
    );
}

#[test]
fn several_segments() {
    assert_eq!(
        expand(
            "to self.left {
                // Push an item to the top of the left stack
                #[call(push)]
                pub fn push_left(&mut self, value: u32);
            }
            to self.right {
                // Push an item to the top of the right stack
                #[call(push)]
                pub fn push_right(&mut self, value: u32);
            }"
        ),
        printed(
            "#[inline(always)] pub fn push_left(&mut self, value: u32) { self.left.push(value) ; }
            #[inline(always)] pub fn push_right(&mut self, value: u32) { self.right.push(value) ; }"
        ),
    );
}

#[test]
fn inline_is_not_doubled() {
    assert_eq!(
        expand("to self.0 { #[inline] fn a(&self); #[inline(never)] fn b(&self); }"),
        printed(
            "#[inline] fn a(&self) { self.0.a() ; } #[inline(never)] fn b(&self) { self.0.b() ; }"
        ),
    );
}

#[test]
fn expressions_in_brackets_are_arguments() {
    assert_eq!(
        expand(
            "to self.inner {
                pub fn polynomial(&self, [ self.a ], x: i32, [ self.b ], y: i32, [ self.c ]) -> i32 ;
                #[call(polynomial)]
                pub fn linear(&self, [ 0 ], [ 0 ], [ self.b ], y: i32, [ self.c ]) -> i32 ;
            }"
        ),
        printed(
            "#[inline(always)] pub fn polynomial(&self, x: i32, y: i32,) -> i32 {
                self.inner.polynomial(self.a, x, self.b, y, self.c)
            }
            #[inline(always)] pub fn linear(&self, y: i32,) -> i32 {
                self.inner.polynomial(0, 0, self.b, y, self.c)
            }"
        ),
    );
}

#[test]
fn expression_in_brackets_at_the_end_with_a_comma() {
    assert_eq!(
        expand("to self.0 { fn f(&self, x: u8, [1 + 2],); fn g([self.k]); }"),
        printed(
            "#[inline(always)] fn f(&self, x: u8,) { self.0.f(x, 1 + 2) ; }
            #[inline(always)] fn g() { self.0.g(self.k) ; }"
        ),
    );
}

#[test]
fn other_attributes_are_kept_in_order() {
    assert_eq!(
        expand(
            "to self.0 {
                /// Says how.
                #[into] #[must_use] #[call(g)] #[cfg(a::b)] #[a::inline]
                fn f(&self) -> u8;
            }"
        ),
        printed(
            "#[doc = \" Says how.\"] #[must_use] #[cfg(a::b)] #[a::inline] #[inline(always)]
            fn f(&self) -> u8 { std::convert::Into:: < u8 > ::into(self.0.g()) }"
        ),
    );
}

#[test]
fn whole_signature_is_kept() {
    assert_eq!(
        expand(
            "to self.0 {
                pub(in a::b) const unsafe extern \"C\" fn f<'a, T: Copy>(self: Box<Self>, x: &'a [T; 3], mut y: T) -> Option<T> where T: Clone;
            }"
        ),
        printed(
            "#[inline(always)] pub(in a::b) const unsafe extern \"C\" fn f < 'a, T: Copy>(self: Box<Self> , x: & 'a [T; 3], mut y: T) -> Option<T> where T: Clone {
                self.0.f(x, y)
            }"
        ),
    );
}

#[test]
fn lifetimes_are_printed_first() {
    assert_eq!(
        expand("to self.0 { fn f<T, 'a>(&'a self, t: T); }"),
        printed("#[inline(always)] fn f < 'a, T, >(& 'a self, t: T) { self.0.f(t) ; }"),
    );
}

#[test]
fn delegator_ends_at_a_brace() {
    assert_eq!(
        expand("to Foo { fn f(&self); } to foo(Bar { x: 1 }) { fn g(&self); } to self.a {}"),
        printed(
            "#[inline(always)] fn f(&self) { Foo.f() ; }
            #[inline(always)] fn g(&self) { foo(Bar { x: 1 }).g() ; }"
        ),
    );
}

#[test]
fn nothing_becomes_nothing() {
    assert!(delegate(TokenStream::new()).unwrap().is_empty());
    assert_eq!(expand("to self.inner { }"), "");
}

#[test]
fn into_without_a_type_does_nothing() {
    assert_eq!(
        expand("to self.0 { #[into] fn f(&self); }"),
        expand("to self.0 { fn f(&self); }"),
    );
}

#[test]
fn call_of_own_name_does_nothing() {
    assert_eq!(
        expand("to self.0 { #[call(f)] fn f(&self); }"),
        expand("to self.0 { fn f(&self); }"),
    );
}

#[test]
fn segments_with_one_delegator_can_be_joined() {
    assert_eq!(
        expand("to self.0 { fn f(&self); } to self.0 { fn g(&self, x: u8) -> u8; }"),
        expand("to self.0 { fn f(&self); fn g(&self, x: u8) -> u8; }"),
    );
}

#[test]
fn code_follows_the_order_of_the_input() {
    let first = expand("to self.0 { fn f(&self); }");
    let second = expand("to self.1 { fn g(&self); }");
    assert_eq!(
        expand("to self.0 { fn f(&self); } to self.1 { fn g(&self); }"),
        format!("{} {}", first, second),
    );
}

#[test]
fn raw_identifiers() {
    assert_eq!(
        expand("to self.0 { #[call(r#match)] fn r#fn(&self, r#type: u8); }"),
        printed("#[inline(always)] fn r#fn(&self, r#type: u8) { self.0.r#match(r#type) ; }"),
    );
}
