//! A small grep-style regular-expression library.
//!
//! The pattern language supports literals, `.`, `\d`, `\w`, character
//! classes, grouping with alternation, the quantifiers `?`, `+`, `*` and
//! `{k}`, back-references `\1`..`\9`, and the outermost anchors `^` and `$`.
//! Patterns are parsed into a tree of [`ast::Node`] values and evaluated by a
//! greedy backtracking matcher; a line scanner applies the matcher to each
//! line of a block of text.

pub mod ast;
pub mod parser;
pub mod matcher;
pub mod scanner;
pub mod laws;
