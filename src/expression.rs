use vstd::prelude::*;

use crate::token::Token;

verus! {

/// A node of the syntax tree: a literal value, or a declaration that binds a
/// value to a variable. Each node owns its children.
#[derive(Debug, PartialEq)]
pub enum Expression {
    Literal(Literal),
    VariableDeclaration { verb: Token, identifier: Token, preposition: Token, value: Box<Expression> },
}

/// A literal value. A `Float` holds the decimal spelling of the number.
#[derive(Debug, Clone, PartialEq)]
pub enum Literal {
    Float(String),
    Integer(i32),
    Identifier(String),
    String(String),
    Char(char),
}

} // verus!
