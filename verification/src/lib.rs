//! A small expression language: `let` bindings, `def` function definitions,
//! `if/then/else`, 32-bit integer arithmetic and `print` statements.
//!
//! Source text is parsed into a syntax tree, the tree is resolved into a
//! position-addressed [`Program`], and the program is evaluated either
//! strictly or lazily over a shared slot table.
pub mod ast;
pub mod error;
pub mod eval;
pub mod ir;
pub mod parser;
pub mod printer;
pub mod resolve;

use vstd::prelude::*;

pub use ast::Operator;
pub use error::{
    ArithmeticError, CompileError, EvalError, MiniError, MiniResult, ParseError, RunError,
    ScopeError,
};
pub use eval::{EagerEval, Evaluator, LazyEval};
pub use ir::{Expr, Program};
pub use parser::parse;
pub use printer::{EmptyError, Printer, Recorder};
pub use resolve::compile;

verus! {

/// What `execute` came to where the text resolved to a program of which the
/// evaluator makes `trace`: the result is that of the run, and a printer
/// that keeps account holds what the run delivered.
pub open spec fn executed<P: Printer>(
    trace: eval::Trace,
    r: MiniResult<(), P::Err>,
    before: P,
    after: P,
) -> bool {
    &&& match r {
        Ok(_) => trace.failure is None,
        Err(MiniError::Eval(err)) => trace.failure == Some(err),
        Err(MiniError::Sink(_)) => trace.printed.len() > 0,
        Err(_) => false,
    }
    &&& before.log() matches Some(log) ==> eval::delivered(
        trace,
        r matches Err(MiniError::Sink(_)),
        log,
        after.log(),
    )
    &&& before.log() is Some ==> (r matches Err(MiniError::Sink(err)) ==> after.refusal() == Some(
        err,
    ))
    &&& before.reliable() ==> after.reliable() && !(r matches Err(MiniError::Sink(_)))
}

/// Executes the code by the given evaluator and printer: the text is
/// parsed, resolved and evaluated. A text that cannot be parsed or resolved
/// is not evaluated at all, and the printer is left as it was. Of a text
/// that resolves, the values of its `print`s are handed to the printer as
/// [`Evaluator::evaluate`] says.
pub fn execute<E: Evaluator, P: Printer>(buf: &str, eval: &E, printer: &mut P) -> (r: MiniResult<
    (),
    P::Err,
>)
    ensures
        match parser::program(buf@) {
            Err(err) => {
                &&& r == Err::<(), MiniError<P::Err>>(MiniError::Parse(err))
                &&& *final(printer) == *old(printer)
            },
            Ok(stmts) => match resolve::resolve(stmts) {
                Err(err) => {
                    &&& r == Err::<(), MiniError<P::Err>>(MiniError::Compile(err))
                    &&& *final(printer) == *old(printer)
                },
                Ok(program) => {
                    &&& (r is Ok || (r matches Err(MiniError::Eval(_))) || (r matches Err(
                        MiniError::Sink(_),
                    )))
                    &&& eval.trace(program) matches Some(trace) ==> executed(
                        trace,
                        r,
                        *old(printer),
                        *final(printer),
                    )
                },
            },
        },
{
    let ast = match parser::parse(buf) {
        Ok(ast) => ast,
        Err(err) => {
            return Err(MiniError::Parse(err));
        },
    };
    let ir = match resolve::compile(ast) {
        Ok(ir) => ir,
        Err(err) => {
            return Err(MiniError::Compile(err));
        },
    };
    match eval.evaluate(ir, printer) {
        Ok(_) => Ok(()),
        Err(err) => Err(MiniError::from_error(err)),
    }
}

} // verus!
