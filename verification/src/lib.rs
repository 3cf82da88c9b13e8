//! A configurable lexical analyzer.
//!
//! A declarative rule table (named patterns plus one whitespace pattern) is
//! compiled into executable matchers; a scanner then walks a source text,
//! strips leading whitespace, resolves competition between rules by longest
//! anchored match, tracks line numbers, and hands tokens to a consumer with
//! one-token lookahead.

use vstd::prelude::*;

pub mod laws;
pub mod lexer;
pub mod matching;
pub mod text;
pub mod token;

pub use lexer::Lexer;
pub use lexer::RegexRuleSet;
pub use lexer::RuleCompilationError;
pub use lexer::RuleSet;
pub use token::ParsingError;
pub use token::Token;

verus! {

} // verus!
