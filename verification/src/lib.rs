//! A regular-expression-to-minimal-DFA compiler: patterns are parsed into a
//! syntax tree, attributes (nullability, firstpos, lastpos, followpos) drive
//! a direct deterministic construction, and table-filling minimization emits
//! the quotient automaton. A context-free-grammar normalizer accompanies it.

pub mod fsm;
pub mod grammar;
pub mod syntax_tree;
