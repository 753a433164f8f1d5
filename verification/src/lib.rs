//! An LL-style recursive descent parser generator. A context-free grammar
//! over a caller-supplied symbol type is analysed into FIRST and FOLLOW
//! symbol sets, from which a predictive transition table is derived; a
//! backtracking recursive descent parser then drives that table over a token
//! vector and yields a concrete parse tree, a structured failure report, or
//! a tree repaired by a caller-supplied syntax-error solver.

pub mod assoc;
pub mod token;
pub mod ast;
pub mod grammar;
pub mod first_follow;
pub mod transitions;
pub mod parse_types;
pub mod recursive_descent_parser;
