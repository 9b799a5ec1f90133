//! A minimal S-expression reader and evaluator.
//!
//! Raw text is lexed into bracket and atom tokens, parsed into a single
//! expression tree, and reduced against a mutable binding environment by a
//! small fixed set of primitive forms (quote, car, cdr, cons, null?, atom?,
//! eq?, lat?, cond, define). A printer renders the reduced tree back to its
//! canonical bracketed text form.

pub mod env;
pub mod eval;
pub mod laws;
pub mod parse;
pub mod print;
pub mod sexp;
pub mod tokens;

pub use env::Environment;
pub use parse::to_sexpression;
pub use print::{eval_scheme_to_string, sexpression_to_string};
pub use sexp::SExpression;
pub use tokens::{is_atom, is_list, is_s_exp, to_tokens, Token};
