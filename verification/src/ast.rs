//! The expression tree the parser builds and the interpreter evaluates.
//!
//! Numeric literals carry their value as an IEEE 754 binary64 bit
//! pattern (see [`crate::num`]); variables carry their name.
use vstd::prelude::*;

verus! {

/// One node of the expression tree. Composite variants own their
/// children by value; a tree is always finite and acyclic.
#[derive(Debug, PartialEq)]
pub enum Expression {
    Assignment(String, Box<Expression>),
    Addition(Box<Expression>, Box<Expression>),
    Subtraction(Box<Expression>, Box<Expression>),
    UnaryPlus(Box<Expression>),
    UnaryMinus(Box<Expression>),
    ParenthesisExpression(Box<Expression>),
    Multiplication(Box<Expression>, Box<Expression>),
    Division(Box<Expression>, Box<Expression>),
    Literal(u64),
    Variable(String),
    Eof,
}

/// The mathematical content of an [`Expression`]: the same tree with
/// names as character sequences.
pub enum ExprModel {
    Assignment(Seq<char>, Box<ExprModel>),
    Addition(Box<ExprModel>, Box<ExprModel>),
    Subtraction(Box<ExprModel>, Box<ExprModel>),
    UnaryPlus(Box<ExprModel>),
    UnaryMinus(Box<ExprModel>),
    ParenthesisExpression(Box<ExprModel>),
    Multiplication(Box<ExprModel>, Box<ExprModel>),
    Division(Box<ExprModel>, Box<ExprModel>),
    Literal(u64),
    Variable(Seq<char>),
    Eof,
}

impl View for Expression {
    type V = ExprModel;

    open spec fn view(&self) -> ExprModel
        decreases self,
    {
        match self {
            Expression::Assignment(name, e) => ExprModel::Assignment(name@, Box::new((**e)@)),
            Expression::Addition(l, r) => ExprModel::Addition(Box::new((**l)@), Box::new((**r)@)),
            Expression::Subtraction(l, r) => ExprModel::Subtraction(
                Box::new((**l)@),
                Box::new((**r)@),
            ),
            Expression::UnaryPlus(e) => ExprModel::UnaryPlus(Box::new((**e)@)),
            Expression::UnaryMinus(e) => ExprModel::UnaryMinus(Box::new((**e)@)),
            Expression::ParenthesisExpression(e) => ExprModel::ParenthesisExpression(
                Box::new((**e)@),
            ),
            Expression::Multiplication(l, r) => ExprModel::Multiplication(
                Box::new((**l)@),
                Box::new((**r)@),
            ),
            Expression::Division(l, r) => ExprModel::Division(Box::new((**l)@), Box::new((**r)@)),
            Expression::Literal(bits) => ExprModel::Literal(*bits),
            Expression::Variable(name) => ExprModel::Variable(name@),
            Expression::Eof => ExprModel::Eof,
        }
    }
}

impl Clone for Expression {
    /// A clone is equal to the original, node for node.
    fn clone(&self) -> (r: Self)
        ensures
            r == *self,
        decreases self,
    {
        match self {
            Expression::Assignment(name, e) => Expression::Assignment(
                name.clone(),
                Box::new((**e).clone()),
            ),
            Expression::Addition(l, r) => Expression::Addition(
                Box::new((**l).clone()),
                Box::new((**r).clone()),
            ),
            Expression::Subtraction(l, r) => Expression::Subtraction(
                Box::new((**l).clone()),
                Box::new((**r).clone()),
            ),
            Expression::UnaryPlus(e) => Expression::UnaryPlus(Box::new((**e).clone())),
            Expression::UnaryMinus(e) => Expression::UnaryMinus(Box::new((**e).clone())),
            Expression::ParenthesisExpression(e) => Expression::ParenthesisExpression(
                Box::new((**e).clone()),
            ),
            Expression::Multiplication(l, r) => Expression::Multiplication(
                Box::new((**l).clone()),
                Box::new((**r).clone()),
            ),
            Expression::Division(l, r) => Expression::Division(
                Box::new((**l).clone()),
                Box::new((**r).clone()),
            ),
            Expression::Literal(bits) => Expression::Literal(*bits),
            Expression::Variable(name) => Expression::Variable(name.clone()),
            Expression::Eof => Expression::Eof,
        }
    }
}

/// The names of the variables an expression reads. An assignment node
/// contributes the reads of its right-hand side.
pub open spec fn vars_of(e: ExprModel) -> Set<Seq<char>>
    decreases e,
{
    match e {
        ExprModel::Assignment(_, inner) => vars_of(*inner),
        ExprModel::Addition(l, r) => vars_of(*l).union(vars_of(*r)),
        ExprModel::Subtraction(l, r) => vars_of(*l).union(vars_of(*r)),
        ExprModel::Multiplication(l, r) => vars_of(*l).union(vars_of(*r)),
        ExprModel::Division(l, r) => vars_of(*l).union(vars_of(*r)),
        ExprModel::UnaryPlus(inner) => vars_of(*inner),
        ExprModel::UnaryMinus(inner) => vars_of(*inner),
        ExprModel::ParenthesisExpression(inner) => vars_of(*inner),
        ExprModel::Literal(_) => Set::empty(),
        ExprModel::Variable(name) => Set::empty().insert(name),
        ExprModel::Eof => Set::empty(),
    }
}

/// Whether an expression holds no assignment node anywhere.
pub open spec fn assign_free(e: ExprModel) -> bool
    decreases e,
{
    match e {
        ExprModel::Assignment(_, _) => false,
        ExprModel::Addition(l, r) => assign_free(*l) && assign_free(*r),
        ExprModel::Subtraction(l, r) => assign_free(*l) && assign_free(*r),
        ExprModel::Multiplication(l, r) => assign_free(*l) && assign_free(*r),
        ExprModel::Division(l, r) => assign_free(*l) && assign_free(*r),
        ExprModel::UnaryPlus(inner) => assign_free(*inner),
        ExprModel::UnaryMinus(inner) => assign_free(*inner),
        ExprModel::ParenthesisExpression(inner) => assign_free(*inner),
        ExprModel::Literal(_) => true,
        ExprModel::Variable(_) => true,
        ExprModel::Eof => true,
    }
}

/// The shape of a tree the parser can produce for one line: an assignment
/// may stand only at the root.
pub open spec fn line_shaped(e: ExprModel) -> bool {
    match e {
        ExprModel::Assignment(_, inner) => assign_free(*inner),
        _ => assign_free(e),
    }
}

} // verus!
