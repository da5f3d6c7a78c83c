use vstd::prelude::*;
use super::statement::Statement;
use super::model::{law_evaluate_gives_value, BinaryKind, SStatement, eval_value, size};
use super::statement::Integer;
use super::add::Add;

verus! {

/// A binary operation over two statements.
#[derive(Debug)]
pub enum BinaryOperator {
    Add(Box<Statement>, Box<Statement>),
    Subtract(Box<Statement>, Box<Statement>),
    Multiply(Box<Statement>, Box<Statement>),
    Divide(Box<Statement>, Box<Statement>),
    Modulo(Box<Statement>, Box<Statement>),
    And(Box<Statement>, Box<Statement>),
    Or(Box<Statement>, Box<Statement>),
    GreaterThan(Box<Statement>, Box<Statement>),
    GreaterThanEqual(Box<Statement>, Box<Statement>),
    LessThan(Box<Statement>, Box<Statement>),
    LessThanEqual(Box<Statement>, Box<Statement>),
    Equal(Box<Statement>, Box<Statement>),
}

impl BinaryOperator {
    /// A deep copy with the same value.
    pub(crate) fn copy(&self) -> (r: BinaryOperator)
        ensures
            Statement::BinaryOperator(r)@ == Statement::BinaryOperator(*self)@,
    {
        match self {
            BinaryOperator::Add(x, y) => BinaryOperator::Add(Box::new(x.copy()), Box::new(y.copy())),
            BinaryOperator::Subtract(x, y) => BinaryOperator::Subtract(Box::new(x.copy()), Box::new(y.copy())),
            BinaryOperator::Multiply(x, y) => BinaryOperator::Multiply(Box::new(x.copy()), Box::new(y.copy())),
            BinaryOperator::Divide(x, y) => BinaryOperator::Divide(Box::new(x.copy()), Box::new(y.copy())),
            BinaryOperator::Modulo(x, y) => BinaryOperator::Modulo(Box::new(x.copy()), Box::new(y.copy())),
            BinaryOperator::And(x, y) => BinaryOperator::And(Box::new(x.copy()), Box::new(y.copy())),
            BinaryOperator::Or(x, y) => BinaryOperator::Or(Box::new(x.copy()), Box::new(y.copy())),
            BinaryOperator::GreaterThan(x, y) => BinaryOperator::GreaterThan(Box::new(x.copy()), Box::new(y.copy())),
            BinaryOperator::GreaterThanEqual(x, y) => BinaryOperator::GreaterThanEqual(Box::new(x.copy()), Box::new(y.copy())),
            BinaryOperator::LessThan(x, y) => BinaryOperator::LessThan(Box::new(x.copy()), Box::new(y.copy())),
            BinaryOperator::LessThanEqual(x, y) => BinaryOperator::LessThanEqual(Box::new(x.copy()), Box::new(y.copy())),
            BinaryOperator::Equal(x, y) => BinaryOperator::Equal(Box::new(x.copy()), Box::new(y.copy())),
        }
    }
}

impl BinaryOperator {
    /// The operator's kind and its two operands.
    pub fn parts(&self) -> (r: (BinaryKind, &Statement, &Statement))
        ensures
            Statement::BinaryOperator(*self)@ == SStatement::Binary(r.0, Box::new(r.1@), Box::new(r.2@)),
    {
        match self {
            BinaryOperator::Add(x, y) => (BinaryKind::Add, x, y),
            BinaryOperator::Subtract(x, y) => (BinaryKind::Subtract, x, y),
            BinaryOperator::Multiply(x, y) => (BinaryKind::Multiply, x, y),
            BinaryOperator::Divide(x, y) => (BinaryKind::Divide, x, y),
            BinaryOperator::Modulo(x, y) => (BinaryKind::Modulo, x, y),
            BinaryOperator::And(x, y) => (BinaryKind::And, x, y),
            BinaryOperator::Or(x, y) => (BinaryKind::Or, x, y),
            BinaryOperator::GreaterThan(x, y) => (BinaryKind::GreaterThan, x, y),
            BinaryOperator::GreaterThanEqual(x, y) => (BinaryKind::GreaterThanEqual, x, y),
            BinaryOperator::LessThan(x, y) => (BinaryKind::LessThan, x, y),
            BinaryOperator::LessThanEqual(x, y) => (BinaryKind::LessThanEqual, x, y),
            BinaryOperator::Equal(x, y) => (BinaryKind::Equal, x, y),
        }
    }
}

impl BinaryOperator {
    /// Evaluates the operation; only integer addition is evaluated.
    pub fn evaluate(&self) -> (r: Statement)
        requires
            eval_value(Statement::BinaryOperator(*self)@) is Some,
        ensures
            r@ == eval_value(Statement::BinaryOperator(*self)@).unwrap(),
        decreases size(Statement::BinaryOperator(*self)@), 0nat,
    {
        match self {
            BinaryOperator::Add(x, y) => {
                proof {
                    law_evaluate_gives_value(x@);
                    law_evaluate_gives_value(y@);
                }
                BinaryOperator::add(&x.evaluate(), &y.evaluate())
            },
            _ => unreached(),
        }
    }

    /// The sum of two evaluated integers.
    fn add(x: &Statement, y: &Statement) -> (r: Statement)
        requires
            eval_value(SStatement::Binary(BinaryKind::Add, Box::new(x@), Box::new(y@))) is Some,
            eval_value(x@) == Some(x@),
            eval_value(y@) == Some(y@),
        ensures
            r@ == eval_value(SStatement::Binary(BinaryKind::Add, Box::new(x@), Box::new(y@))).unwrap(),
    {
        match (x, y) {
            (Statement::Integer(xx), Statement::Integer(yy)) => Statement::Integer(xx.add(yy)),
            _ => unreached(),
        }
    }
}

impl Clone for BinaryOperator {
    fn clone(&self) -> (r: Self)
        ensures
            Statement::BinaryOperator(r)@ == Statement::BinaryOperator(*self)@,
    {
        self.copy()
    }
}

} // verus!
