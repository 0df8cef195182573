pub mod analyzer;
pub mod expression;
pub mod keyword_proofs;
pub mod lexer;
pub mod parser;
pub mod token;
