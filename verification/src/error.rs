//! Error types of the language front end and of the evaluators.
use vstd::prelude::*;

verus! {

/// Failure to read the source text as a sequence of statements.
#[derive(Copy, Clone, Debug, PartialEq, Eq, Structural)]
pub struct ParseError {
    /// The number of characters that were read as statements: no statement
    /// starts at this offset, and the text does not end there.
    pub offset: usize,
}

/// Failure of name resolution. No program is produced.
#[derive(Copy, Clone, Debug, PartialEq, Eq, Structural)]
pub enum CompileError {
    /// A variable is used that no earlier `let`, or parameter, declares.
    UndefinedVariable,
    /// A function is called that no `def` has declared so far.
    UndefinedFunction,
    /// A call does not pass as many arguments as the function has parameters.
    ArityMismatch,
}

/// Failure of the binary operator on two 32-bit integers.
#[derive(Copy, Clone, Debug, PartialEq, Eq, Structural)]
pub enum ArithmeticError {
    /// The mathematical result does not fit in a signed 32-bit integer.
    Overflow,
    /// The right-hand side of a division or remainder is zero.
    DivisionByZero,
}

/// Failure of an access to the scoped slot table.
#[derive(Copy, Clone, Debug, PartialEq, Eq, Structural)]
pub enum ScopeError {
    /// The depth does not name an open frame.
    UndefinedDepth,
    /// The id lies outside the frame that the depth names.
    IllegalId,
    /// The slot was taken and has not been returned yet.
    SlotEmpty,
    /// A value was returned to a slot that still holds one.
    SlotNotEmpty,
}

/// Failure of the evaluation of an expression.
#[derive(Copy, Clone, Debug, PartialEq, Eq, Structural)]
pub enum EvalError {
    /// An access to the slot table failed.
    Scope(ScopeError),
    /// The operator failed.
    Arithmetic(ArithmeticError),
    /// A call names a function index that the program does not have.
    UndefinedFunction,
    /// Calls and forced bindings nest deeper than the evaluator allows.
    DepthExceeded,
}

/// Failure of an evaluation run: of the evaluation itself, or of the sink
/// that was handed a value.
#[derive(Clone, Debug, PartialEq, Eq)]
pub enum RunError<E> {
    /// An expression could not be evaluated.
    Eval(EvalError),
    /// The sink refused a value; what it returned is kept as it is.
    Sink(E),
}

impl CompileError {
    /// What [`message`](Self::message) says.
    pub open spec fn text(self) -> Seq<char> {
        match self {
            CompileError::UndefinedVariable => "Using undefined variable."@,
            CompileError::UndefinedFunction => "Using undefined function."@,
            CompileError::ArityMismatch => "Illegal arguments."@,
        }
    }

    /// The error in words.
    pub fn message(&self) -> (m: &'static str)
        ensures
            m@ == self.text(),
    {
        match self {
            CompileError::UndefinedVariable => "Using undefined variable.",
            CompileError::UndefinedFunction => "Using undefined function.",
            CompileError::ArityMismatch => "Illegal arguments.",
        }
    }
}

impl ArithmeticError {
    /// What [`message`](Self::message) says.
    pub open spec fn text(self) -> Seq<char> {
        match self {
            ArithmeticError::Overflow => "Overflowed arithmetic"@,
            ArithmeticError::DivisionByZero => "Division by zero"@,
        }
    }

    /// The error in words.
    pub fn message(&self) -> (m: &'static str)
        ensures
            m@ == self.text(),
    {
        match self {
            ArithmeticError::Overflow => "Overflowed arithmetic",
            ArithmeticError::DivisionByZero => "Division by zero",
        }
    }
}

impl ScopeError {
    /// What [`message`](Self::message) says.
    pub open spec fn text(self) -> Seq<char> {
        match self {
            ScopeError::UndefinedDepth => "Use of undefined depth"@,
            ScopeError::IllegalId => "Illegal id"@,
            ScopeError::SlotEmpty => "The value is borrowed."@,
            ScopeError::SlotNotEmpty => "The value is not borrowed."@,
        }
    }

    /// The error in words.
    pub fn message(&self) -> (m: &'static str)
        ensures
            m@ == self.text(),
    {
        match self {
            ScopeError::UndefinedDepth => "Use of undefined depth",
            ScopeError::IllegalId => "Illegal id",
            ScopeError::SlotEmpty => "The value is borrowed.",
            ScopeError::SlotNotEmpty => "The value is not borrowed.",
        }
    }
}

impl EvalError {
    /// What [`message`](Self::message) says.
    pub open spec fn text(self) -> Seq<char> {
        match self {
            EvalError::Scope(err) => err.text(),
            EvalError::Arithmetic(err) => err.text(),
            EvalError::UndefinedFunction => "Call of undefined function"@,
            EvalError::DepthExceeded => "Evaluation nests too deep"@,
        }
    }

    /// The error in words.
    pub fn message(&self) -> (m: &'static str)
        ensures
            m@ == self.text(),
    {
        match self {
            EvalError::Scope(err) => err.message(),
            EvalError::Arithmetic(err) => err.message(),
            EvalError::UndefinedFunction => "Call of undefined function",
            EvalError::DepthExceeded => "Evaluation nests too deep",
        }
    }
}

impl<E> RunError<E> {
    /// What a run makes of the answer of the printer to a value: the run
    /// goes on where the printer accepted the value, and ends with the
    /// printer's error where it did not.
    pub fn of_printer(answer: Result<(), E>) -> (r: Result<(), Self>)
        ensures
            r == match answer {
                Ok(_) => Ok::<(), Self>(()),
                Err(err) => Err(RunError::Sink(err)),
            },
    {
        match answer {
            Ok(_) => Ok(()),
            Err(err) => Err(RunError::Sink(err)),
        }
    }
}

/// The error type for this crate: what can go wrong between a source text
/// and the last value printed.
#[derive(Clone, Debug, PartialEq, Eq)]
pub enum MiniError<E> {
    /// The source text is not a sequence of statements.
    Parse(ParseError),
    /// A name could not be resolved.
    Compile(CompileError),
    /// An expression could not be evaluated.
    Eval(EvalError),
    /// The printer refused a value.
    Sink(E),
}

impl<E> MiniError<E> {
    /// Puts the error of an evaluation run into `MiniError`.
    pub fn from_error(error: RunError<E>) -> (r: Self)
        ensures
            r == match error {
                RunError::Eval(err) => MiniError::Eval(err),
                RunError::Sink(err) => MiniError::Sink(err),
            },
    {
        match error {
            RunError::Eval(err) => MiniError::Eval(err),
            RunError::Sink(err) => MiniError::Sink(err),
        }
    }
}

/// The result type for this crate.
pub type MiniResult<T, E> = Result<T, MiniError<E>>;

} // verus!
