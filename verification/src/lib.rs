use vstd::prelude::*;

pub mod arith;
pub mod lex;
pub mod tree;
pub mod value;

verus! {

/// The failure outcomes that the evaluation pipeline can report.
#[derive(Clone, Copy, Debug, PartialEq, Eq, Structural)]
pub enum EvalError {
    LexError,
    ParseError,
    DivisionByZero,
    ArithmeticOverflow,
}

/// What evaluating an expression string owes: the exact value of the
/// parsed expression, or the first error the pipeline meets.
pub open spec fn evaluate_spec(s: Seq<char>) -> Result<value::Value, EvalError> {
    match tree::Tree::new_spec(s) {
        Err(e) => Err(e),
        Ok(root) => tree::eval_node_spec(root),
    }
}

/// Evaluate an arithmetic expression: tokenize, convert to postfix,
/// build the expression tree, and walk it with exact arithmetic.
pub fn evaluate(s: &str) -> (res: Result<value::Value, EvalError>)
    ensures
        res == evaluate_spec(s@),
{
    match tree::Tree::new(s) {
        Ok(t) => t.evaluate(),
        Err(e) => Err(e),
    }
}

} // verus!

