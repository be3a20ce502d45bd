//! Lexical and expression-parsing front end for a small statically typed
//! imperative language: source locations and spans, a character-level lexer
//! with identifier interning, a token cursor with one token of lookahead or
//! pushback, and an operator-precedence expression parser.
//!
//! Every function is verified against a contract. The contracts of the
//! lexer speak of the text as a sequence of characters (`parser::lex`), those
//! of the grammar rules of the tokens as a stream (`parser::grammar`), and
//! `parser::laws` holds what follows for every text and every stream.

pub mod ast;
pub mod parser;
