//! An Earley parser, the forest of its parses, and grammars in EBNF, with their behaviour stated
//! in contracts.

pub mod agreement;
pub mod canonical;
pub mod choices;
pub mod climb;
pub mod complete;
pub mod cycles;
pub mod depth;
pub mod derivation;
pub mod desugaring;
pub mod distinct;
pub mod ebnf;
pub mod ebnf_laws;
pub mod ebnf_tokenizer;
pub mod enumeration;
pub mod grammar;
pub mod growth;
pub mod interpreter;
pub mod language;
pub mod laws;
pub mod lexemes;
pub mod lexis;
pub mod meaning;
pub mod notation;
pub mod parser;
pub mod priorities;
pub mod reading;
pub mod recursive;
pub mod rewriting;
pub mod spans;
pub mod syntax;
pub mod text;
pub mod trees;
pub mod unambiguous;
pub mod values;
pub mod walk;

pub use ebnf::EbnfGrammarParser;
pub use grammar::{Grammar, GrammarBuilder, Rule};
pub use lexis::Matcher;
pub use parser::EarleyParser;
pub use spans::{ParseTrees, Span, SpanSource};
pub use trees::{EarleyForest, EarleyForestIter};
