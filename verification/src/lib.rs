//! A small regular-language engine: finite automata that decide whether a
//! sequence of symbols is accepted, and a pattern tree that renders itself
//! with the fewest parentheses its operators' precedence allows.

pub mod finite_automata;
pub mod regex_pattern;
