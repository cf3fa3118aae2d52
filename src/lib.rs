//! Arithmetic expressions: a line of text becomes tokens, and tokens become
//! a binary expression tree by operator precedence.
//!
//! `lexer` reads tokens, `parser` builds the tree with two stacks, and
//! `grammar` shows that every sentence of the infix grammar builds into the
//! tree that precedence and left-to-right grouping give it.
pub mod grammar;
pub mod lexer;
pub mod parser;
