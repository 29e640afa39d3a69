//! A mixfix expression parser: a grouper that segments a flat token stream
//! into a forest of syntax groups, and a precedence-climbing resolver that
//! turns a group forest into a single application tree.

pub mod ast;
pub mod grouping;
pub mod pratt;
