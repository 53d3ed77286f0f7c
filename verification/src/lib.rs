//! An interactive reducer for an untyped lambda-calculus / combinator
//! language: expressions over variables, symbols, applications and lambdas,
//! named function definitions, a leftmost-outermost step-by-step reducer,
//! and abstraction elimination into S/K/I combinators.

pub mod expr;
pub mod subst;
pub mod func;
pub mod context;
pub mod apply;
pub mod evaluate;
pub mod unlambda;
pub mod default;

pub use expr::{Expr, Identifier};
pub use func::Func;
pub use context::Context;
