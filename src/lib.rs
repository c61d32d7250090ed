//! A small regular-expression engine with verified automata: patterns are
//! parsed, turned into NFA fragments (Thompson's construction), tabulated,
//! turned into a DFA by subset construction, and optionally relabelled and
//! minimized.

pub mod ab_law;
pub mod ast;
pub mod char_law;
pub mod dfa;
pub mod dfa_table;
pub mod label;
pub mod lexer;
pub mod matcher;
pub mod nfa;
pub mod nfa_table;
pub mod or_law;
pub mod parser;
pub mod regex;
pub mod state;
