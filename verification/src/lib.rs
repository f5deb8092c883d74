//! LL(1) grammar analysis: symbol classification, FIRST and FOLLOW sets, the
//! LL(1) conflict test, the predictive parsing table and the table-driven
//! parser, each with a machine-checked contract.

pub mod symbols;
pub mod text;
pub mod cfg;
pub mod first;
pub mod follow;
pub mod sets;
pub mod grammar;
pub mod first_sets;
pub mod follow_sets;
pub mod pairs;
pub mod ll1;
pub mod machine;
pub mod table;
pub mod report;
pub mod analyzer;
pub mod frames;
pub mod parser;
pub mod language;
pub mod soundness;
pub mod lookahead;
pub mod completeness;
pub mod laws;
