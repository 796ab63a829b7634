//! Grammar analysis and predictive parsing for LL(1) grammars.

pub mod symbol;
pub mod grammar;
pub mod budget;
pub mod analysis;
pub mod walk;
pub mod table;
pub mod parser;
pub mod parse;
pub mod syntax;
pub mod machine;
pub mod derivation;
pub mod shape;
pub mod leaves;
pub mod tree;
