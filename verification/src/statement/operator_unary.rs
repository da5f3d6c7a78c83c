use vstd::prelude::*;
use super::statement::Statement;
use super::model::{law_evaluate_gives_value, UnaryKind, SStatement, eval_value, size, s_eq};
use super::operators::Negate;

verus! {

/// A unary operation over a statement.
#[derive(Debug)]
pub enum UnaryOperator {
    Minus(Box<Statement>),
    Not(Box<Statement>),
}

impl UnaryOperator {
    /// A deep copy with the same value.
    pub(crate) fn copy(&self) -> (r: UnaryOperator)
        ensures
            Statement::UnaryOperator(r)@ == Statement::UnaryOperator(*self)@,
    {
        match self {
            UnaryOperator::Minus(x) => UnaryOperator::Minus(Box::new(x.copy())),
            UnaryOperator::Not(x) => UnaryOperator::Not(Box::new(x.copy())),
        }
    }
}

impl UnaryOperator {
    /// The operator's kind and its operand.
    pub fn parts(&self) -> (r: (UnaryKind, &Statement))
        ensures
            Statement::UnaryOperator(*self)@ == SStatement::Unary(r.0, Box::new(r.1@)),
    {
        match self {
            UnaryOperator::Minus(x) => (UnaryKind::Minus, x),
            UnaryOperator::Not(x) => (UnaryKind::Not, x),
        }
    }
}

impl UnaryOperator {
    /// Evaluates the operation; only negation is evaluated.
    pub fn evaluate(&self) -> (r: Statement)
        requires
            eval_value(Statement::UnaryOperator(*self)@) is Some,
        ensures
            r@ == eval_value(Statement::UnaryOperator(*self)@).unwrap(),
        decreases size(Statement::UnaryOperator(*self)@), 0nat,
    {
        match self {
            UnaryOperator::Minus(x) => {
                proof {
                    law_evaluate_gives_value(x@);
                }
                UnaryOperator::negate(&x.evaluate())
            },
            _ => unreached(),
        }
    }

    /// The negation of an evaluated value.
    fn negate(x: &Statement) -> (r: Statement)
        requires
            eval_value(SStatement::Unary(UnaryKind::Minus, Box::new(x@))) is Some,
            eval_value(x@) == Some(x@),
        ensures
            r@ == eval_value(SStatement::Unary(UnaryKind::Minus, Box::new(x@))).unwrap(),
    {
        match x {
            Statement::Boolean(xx) => Statement::Boolean(xx.negate()),
            Statement::Float(xx) => Statement::Float(xx.negate()),
            Statement::Integer(xx) => Statement::Integer(xx.negate()),
            _ => unreached(),
        }
    }
}

impl Clone for UnaryOperator {
    fn clone(&self) -> (r: Self)
        ensures
            Statement::UnaryOperator(r)@ == Statement::UnaryOperator(*self)@,
    {
        self.copy()
    }
}

/// Unary operations are equal when they are the same operation on equal operands.
impl PartialEq for UnaryOperator {
    fn eq(&self, other: &UnaryOperator) -> (r: bool) {
        match (self, other) {
            (UnaryOperator::Minus(x), UnaryOperator::Minus(y)) => x.equals(y),
            (UnaryOperator::Not(x), UnaryOperator::Not(y)) => x.equals(y),
            _ => false,
        }
    }
}

impl vstd::std_specs::cmp::PartialEqSpecImpl for UnaryOperator {
    open spec fn obeys_eq_spec() -> bool {
        true
    }

    open spec fn eq_spec(&self, other: &UnaryOperator) -> bool {
        s_eq(Statement::UnaryOperator(*self)@, Statement::UnaryOperator(*other)@)
    }
}

} // verus!
