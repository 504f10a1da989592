//! Delegation of methods to the fields of a struct.
//!
//! [`delegate`] takes the input of a macro, such as
//!
//! ```text
//! to self.inner {
//!     #[call(push)]
//!     pub fn add(&mut self, value: u32);
//! }
//! ```
//!
//! and makes of it the methods that it declares, each of which calls a method of the expression
//! behind `to`. What it makes is stated over token trees: [`token`] has these, [`grammar`] what
//! parsing can come to, and [`laws`] what holds of every delegation. Single tokens are read and
//! written in [`stream`], and the pieces of Rust syntax in [`syntax`], by `proc_macro2` and `syn`;
//! [`trouble`] and [`bare_fn`] say what `syn` cannot be given, and [`piece`] how much it is given.
//!
//! The other laws are said of the tokens themselves: [`code_laws`] of the code, token for token,
//! [`declaration_laws`] and [`reading_laws`] of how the input is read, [`trouble_laws`] of what is
//! refused, and [`report_laws`] of what is said of errors.

pub mod attributes;
pub mod bare_fn;
pub mod block;
pub mod code_laws;
pub mod declaration_laws;
pub mod expand;
pub mod grammar;
pub mod input;
pub mod laws;
pub mod method;
pub mod outcome;
pub mod panic;
pub mod piece;
pub mod reading_laws;
pub mod report;
pub mod report_laws;
pub mod stream;
pub mod syntax;
pub mod token;
pub mod trouble;
pub mod trouble_laws;

pub use attributes::{has_inline_attribute, parse_attributes, CallMethodAttribute};
pub use block::{DelegatedSegment, DelegationBlock};
pub use expand::delegate;
pub use input::{parse_input_into_argument_expression, DelegatedInput};
pub use method::DelegatedMethod;
pub use panic::Panic;
