//! The syntax tree of a Burn program. The analyses fill in its annotations:
//! indices into `vm::analysis::annotation::Annotations`.

use vstd::prelude::*;
use crate::lang::identifier::Identifier;
use crate::vm::analysis::annotation::Name;

verus! {

/// The statements of a script, or of one line of interactive input, and the
/// index of the frame that runs them.
pub struct Root {
    pub statements: Vec<Statement>,
    pub frame: usize,
}

// STATEMENTS //////////////////////////////////////////////////////////////////////////////////////

pub enum Statement {
    ExpressionStatement { expression: Box<Expression> },
    Assignment { lvalue: Box<Lvalue>, rvalue: Box<Expression> },
    /// `use a.b.c` makes the name `c` refer to the imported value.
    Use { path: Vec<Identifier>, name: Identifier, annotation: usize },
    Let {
        variable_name: Identifier,
        annotation: usize,
        default: Option<Box<Expression>>,
        source_offset: usize,
    },
    Print { expression: Box<Expression> },
    Return { expression: Option<Box<Expression>> },
    Throw { expression: Box<Expression> },
    If {
        test: Box<Expression>,
        block: Vec<Statement>,
        else_if_clauses: Vec<ElseIf>,
        else_clause: Option<Else>,
    },
    Try {
        block: Vec<Statement>,
        catch_clauses: Vec<Catch>,
        else_clause: Option<Else>,
        finally_clause: Option<Finally>,
    },
    While { test: Box<Expression>, block: Vec<Statement>, else_clause: Option<Else> },
}

pub struct ElseIf {
    pub test: Box<Expression>,
    pub block: Vec<Statement>,
}

pub struct Else {
    pub block: Vec<Statement>,
}

pub struct Catch {
    pub type_: Option<Box<Expression>>,
    pub variable_name: Identifier,
    pub variable: usize,
    pub block: Vec<Statement>,
}

pub struct Finally {
    pub block: Vec<Statement>,
}

// EXPRESSIONS /////////////////////////////////////////////////////////////////////////////////////

#[derive(Clone, Copy, Debug, PartialEq, Eq)]
pub enum BinaryOperator {
    And,
    Or,
    Is,
    Eq,
    Neq,
    Lt,
    Gt,
    LtEq,
    GtEq,
    Union,
    Addition,
    Subtraction,
    Multiplication,
    Division,
}

pub enum Expression {
    Function { parameters: Vec<FunctionParameter>, frame: usize, block: Vec<Statement> },
    Binary { operator: BinaryOperator, left: Box<Expression>, right: Box<Expression> },
    Not { expression: Box<Expression> },
    DotAccess { expression: Box<Expression>, name: Identifier },
    ItemAccess { expression: Box<Expression>, key_expression: Box<Expression> },
    Call { expression: Box<Expression>, arguments: Vec<Expression> },
    Variable { name: Identifier, annotation: usize, source_offset: usize },
    Name { identifier: Identifier, annotation: Name },
    String { value: String },
    Integer { value: i64 },
    /// A float literal, by the bits of its IEEE 754 double.
    Float { bits: u64 },
    Boolean { value: bool },
    Nothing,
}

pub struct FunctionParameter {
    pub type_: Option<Box<Expression>>,
    pub default: Option<Box<Expression>>,
    pub variable_name: Identifier,
    pub variable: usize,
}

// LVALUES /////////////////////////////////////////////////////////////////////////////////////////

pub enum Lvalue {
    VariableLvalue { name: Identifier, annotation: usize },
    DotAccessLvalue { expression: Box<Expression>, name: Identifier },
}

} // verus!
