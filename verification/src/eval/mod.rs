//! The evaluators and what they share: the operator and the scoped slot table.
pub mod agreement;
pub mod eager;
pub mod environment;
pub mod lazy;
pub mod namespace;
pub mod operation;
pub mod safety;

use crate::error::{EvalError, RunError};
use crate::ir::{Program, ProgramView};
use crate::printer::Printer;
use vstd::prelude::*;

verus! {

pub use eager::EagerEval;
pub use lazy::LazyEval;

/// What a run of a program amounts to: the values of its `print`s up to the
/// first failure, and that failure if there is one.
pub struct Trace {
    /// The values produced, in program order.
    pub printed: Seq<i32>,
    /// The error that ended the run early.
    pub failure: Option<EvalError>,
}

/// How deep calls and forced bindings may nest where nothing else is asked.
pub const DEFAULT_DEPTH: usize = 1024;

/// The trait to provide kinds of evaluation.
///
/// An evaluator may say what it makes of a program, as the two of this
/// crate do. Of one that does not, nothing is claimed.
pub trait Evaluator {
    /// What the evaluator makes of a program, where it says so.
    open spec fn trace(&self, program: ProgramView) -> Option<Trace> {
        None
    }

    /// Evaluates `ir` and hands the value of each `print` to `printer`, in
    /// program order, each before the next is evaluated. The first failure,
    /// of the evaluation or of the printer, ends the run: nothing is handed
    /// over after it, and the error of the printer is the error returned.
    fn evaluate<P: Printer>(&self, ir: Program, printer: &mut P) -> (r: Result<
        (),
        RunError<P::Err>,
    >)
        ensures
            self.trace(ir@) matches Some(trace) ==> {
                &&& outcome(trace, r)
                &&& old(printer).log() matches Some(log) ==> delivered(
                    trace,
                    r matches Err(RunError::Sink(_)),
                    log,
                    final(printer).log(),
                )
                &&& old(printer).log() is Some ==> (r matches Err(RunError::Sink(err))
                    ==> final(printer).refusal() == Some(err))
                &&& old(printer).reliable() ==> final(printer).reliable() && !(r matches Err(
                    RunError::Sink(_),
                ))
            },
    ;
}

/// What the run of a trace came to where the printer took part: the printer
/// can fail only on a value that it is handed, and a run that the printer did
/// not end fails just where the trace does.
pub open spec fn outcome<E>(trace: Trace, r: Result<(), RunError<E>>) -> bool {
    match r {
        Ok(_) => trace.failure is None,
        Err(RunError::Eval(err)) => trace.failure == Some(err),
        Err(RunError::Sink(_)) => trace.printed.len() > 0,
    }
}

/// What a printer that keeps account holds after the run of a trace, where
/// it held `before`: all values of the trace in their order, after what it
/// held; or, where it refused one of them and so ended the run, those
/// before the one it refused.
pub open spec fn delivered(
    trace: Trace,
    refused: bool,
    before: Seq<i32>,
    after: Option<Seq<i32>>,
) -> bool {
    if refused {
        exists|k: int|
            0 <= k < trace.printed.len() && after == Some(before + #[trigger] trace.printed.take(k))
    } else {
        after == Some(before + trace.printed)
    }
}

} // verus!
