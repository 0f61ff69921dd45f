//! Exhaustive context-free-grammar recognizer: every derivation of a token
//! sequence under a grammar is enumerated, in a fixed order, rather than one
//! of them chosen. Ambiguous grammars are welcome.
//!
//! A grammar is read from its text (`bnf`), freed of optional terms
//! (`grammar`) and held against a window of tokens (`ctx`) by the derivation
//! engine (`parse`), which yields parse trees (`tree`). `combination` holds
//! the combinatorics that the engine rests on. `soundness` proves that every
//! tree that the engine yields is a derivation of the window, and
//! `completeness` that every derivation within the bounds of the recursion
//! is yielded.

pub mod bnf;
pub mod combination;
pub mod completeness;
pub mod ctx;
pub mod grammar;
pub mod internal;
pub mod parse;
pub mod sequences;
pub mod soundness;
pub mod text;
pub mod tree;

pub use crate::bnf::ParseError;
pub use crate::grammar::Expression;
pub use crate::grammar::ExtExpression;
pub use crate::grammar::ExtGrammar;
pub use crate::grammar::ExtProduction;
pub use crate::grammar::Grammar;
pub use crate::grammar::OptTerm;
pub use crate::grammar::Production;
pub use crate::grammar::Term;
pub use crate::parse::make_ctx;
pub use crate::parse::parse;
pub use crate::parse::Error;
pub use crate::tree::ParseTree;
pub use crate::tree::ParseTreeNode;
