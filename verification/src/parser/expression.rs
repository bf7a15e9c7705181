use vstd::prelude::*;

verus! {

/// A number, as it stands in the line.
#[derive(Debug, PartialEq, Eq)]
pub struct Literal {
    pub value: i32,
}

/// An operation on two operands. The operator is one of `+`, `-`, `*` and
/// `/`; the left operand comes first.
#[derive(Debug, PartialEq, Eq)]
pub struct Binary {
    pub operator: char,
    pub left: Box<Expression>,
    pub right: Box<Expression>,
}

/// An expression tree: every node owns its operands.
#[derive(Debug, PartialEq, Eq)]
pub enum Expression {
    Literal(Literal),
    Binary(Binary),
}

/// Whether `c` is one of the four operators.
pub open spec fn is_operator(c: char) -> bool {
    c == '+' || c == '-' || c == '*' || c == '/'
}

/// The tree of the number `value`.
pub open spec fn literal(value: i32) -> Expression {
    Expression::Literal(Literal { value })
}

/// The tree of `left operator right`.
pub open spec fn binary(operator: char, left: Expression, right: Expression) -> Expression {
    Expression::Binary(Binary { operator, left: Box::new(left), right: Box::new(right) })
}

impl Expression {
    /// Whether every operation in the tree has one of the four operators.
    pub open spec fn well_formed(self) -> bool
        decreases self,
    {
        match self {
            Expression::Literal(_) => true,
            Expression::Binary(operation) => {
                &&& is_operator(operation.operator)
                &&& operation.left.well_formed()
                &&& operation.right.well_formed()
            },
        }
    }
}

} // verus!
