# delegate

A verified library behind the `delegate!` macro, which removes the boilerplate of structs that
delegate some of their methods to their fields:

```text
delegate! {
    to self.inner {
        // calls `push`, under another name
        #[call(push)]
        pub fn add(&mut self, value: u32);

        // converts the result
        #[into]
        pub fn len(&self) -> u64;

        // passes an expression that is no parameter
        pub fn insert(&mut self, [ 0 ], value: u32);
    }
}
```

- `src/` is the library. `delegate` takes the tokens between the braces of the macro and gives the
  methods, a call of `compile_error!`, or the reason why the expansion is given up. Its contract
  says which, over token trees. `laws` states what holds of every delegation.
- `proc_macro2` holds the token trees, and `syn` parses and prints expressions, types and the like;
  `src/stream.rs`, `src/syntax.rs`, `src/report.rs` and `src/panic.rs` say what is relied on, and
  `src/trouble.rs` and `src/bare_fn.rs` on what tokens `syn` cannot be called.
- `app/` is the entry point for the compiler. Built as a procedural macro, its function is the one
  that carries `#[proc_macro]`.
- `tests/` runs the library on real token streams.
