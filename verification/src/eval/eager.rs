//! The strict evaluator: every binding and every argument is evaluated where
//! it is declared or passed.
use crate::error::{EvalError, RunError};
use crate::eval::namespace::{NameSpace, Table};
use crate::eval::operation::{apply, operation};
use crate::eval::{outcome, Evaluator, Trace, DEFAULT_DEPTH};
use crate::ir::{views, Expr, ExprView, Program, ProgramView};
use crate::printer::{Printer, Recorder};
use vstd::prelude::*;

verus! {

/// The operator's result as the result of an evaluation.
pub open spec fn arith(op: crate::ast::Operator, lhs: i32, rhs: i32) -> Result<i32, EvalError> {
    match apply(op, lhs, rhs) {
        Ok(v) => Ok(v),
        Err(e) => Err(EvalError::Arithmetic(e)),
    }
}

/// The value of `e` in the table `t`, with `fuel` levels of calls to spend.
pub open spec fn strict_eval(e: ExprView, t: Table<i32>, funcs: Seq<ExprView>, fuel: nat) -> Result<
    i32,
    EvalError,
>
    decreases fuel, e, 0nat,
{
    match e {
        ExprView::Value(v) => Ok(v),
        ExprView::Variable(depth, id) => match t.peek(depth, id) {
            Ok(v) => Ok(v),
            Err(err) => Err(EvalError::Scope(err)),
        },
        ExprView::Operation(op, lhs, rhs) => match strict_eval(*lhs, t, funcs, fuel) {
            Err(err) => Err(err),
            Ok(l) => match strict_eval(*rhs, t, funcs, fuel) {
                Err(err) => Err(err),
                Ok(r) => arith(op, l, r),
            },
        },
        ExprView::FuncCall(f, args) => if f >= funcs.len() {
            Err(EvalError::UndefinedFunction)
        } else {
            strict_call(funcs[f as int], args, t, funcs, fuel)
        },
        ExprView::If(c, then, otherwise) => match strict_eval(*c, t, funcs, fuel) {
            Err(err) => Err(err),
            Ok(v) => if v != 0 {
                strict_eval(*then, t, funcs, fuel)
            } else {
                strict_eval(*otherwise, t, funcs, fuel)
            },
        },
    }
}

/// The value of a call of `body` with `args`: a frame is opened, the
/// arguments are evaluated in the caller's frames and registered in the new
/// one, and the body is evaluated there one level deeper.
pub open spec fn strict_call(
    body: ExprView,
    args: Seq<ExprView>,
    t: Table<i32>,
    funcs: Seq<ExprView>,
    fuel: nat,
) -> Result<i32, EvalError>
    decreases fuel, args, args.len() + 1,
{
    if fuel == 0 {
        Err(EvalError::DepthExceeded)
    } else {
        match strict_bind(args, 0, t.open(), funcs, fuel) {
            Err(err) => Err(err),
            Ok(inner) => strict_eval(
                body.circulate(t.offsets.len()),
                inner,
                funcs,
                (fuel - 1) as nat,
            ),
        }
    }
}

/// The table after `exprs[from..]` were evaluated in turn, each value
/// registered in the innermost frame before the next is evaluated.
pub open spec fn strict_bind(
    exprs: Seq<ExprView>,
    from: nat,
    t: Table<i32>,
    funcs: Seq<ExprView>,
    fuel: nat,
) -> Result<Table<i32>, EvalError>
    decreases fuel, exprs, exprs.len() - from,
{
    if from >= exprs.len() {
        Ok(t)
    } else {
        match strict_eval(exprs[from as int], t, funcs, fuel) {
            Err(err) => Err(err),
            Ok(v) => strict_bind(exprs, from + 1, t.push(v), funcs, fuel),
        }
    }
}

/// Evaluates `expr` strictly. The table is left as it was found when a value
/// comes back; when an error does, it still holds what it held, below the
/// frames that the failed calls have left open.
#[verifier::loop_isolation(false)]
pub fn eval_expr(expr: Expr, ns: &mut NameSpace<i32>, funcs: &[Expr], fuel: usize) -> (r: Result<
    i32,
    EvalError,
>)
    requires
        old(ns).wf(),
    ensures
        final(ns).wf(),
        r == strict_eval(expr@, old(ns)@, views(funcs@), fuel as nat),
        r is Ok ==> final(ns)@ == old(ns)@,
        final(ns)@.extends(old(ns)@),
    decreases fuel, expr, 0nat,
{
    match expr {
        Expr::Value(v) => Ok(v),
        Expr::Variable(depth, id) => match ns.get(depth, id) {
            Ok(v) => Ok(*v),
            Err(err) => Err(EvalError::Scope(err)),
        },
        Expr::Operation(op, lhs, rhs) => {
            let l = match eval_expr(*lhs, ns, funcs, fuel) {
                Ok(v) => v,
                Err(err) => {
                    return Err(err);
                },
            };
            let r = match eval_expr(*rhs, ns, funcs, fuel) {
                Ok(v) => v,
                Err(err) => {
                    return Err(err);
                },
            };
            match operation(op, l, r) {
                Ok(v) => Ok(v),
                Err(err) => Err(EvalError::Arithmetic(err)),
            }
        },
        Expr::FuncCall(f, a) => {
            if f >= funcs.len() {
                return Err(EvalError::UndefinedFunction);
            }
            assert(views(a@) =~= expr@->FuncCall_1);
            funccall(funcs[f].clone(), a, ns, funcs, fuel)
        },
        Expr::If(c, t, f) => {
            let v = match eval_expr(*c, ns, funcs, fuel) {
                Ok(v) => v,
                Err(err) => {
                    return Err(err);
                },
            };
            if v != 0 {
                eval_expr(*t, ns, funcs, fuel)
            } else {
                eval_expr(*f, ns, funcs, fuel)
            }
        },
    }
}

/// Calls `func` with `args` strictly, in a frame of its own.
#[verifier::loop_isolation(false)]
pub fn funccall(
    func: Expr,
    args: Vec<Expr>,
    ns: &mut NameSpace<i32>,
    funcs: &[Expr],
    fuel: usize,
) -> (r: Result<i32, EvalError>)
    requires
        old(ns).wf(),
    ensures
        final(ns).wf(),
        r == strict_call(func@, views(args@), old(ns)@, views(funcs@), fuel as nat),
        r is Ok ==> final(ns)@ == old(ns)@,
        final(ns)@.extends(old(ns)@),
    decreases fuel, args, args.len() + 1,
{
    if fuel == 0 {
        return Err(EvalError::DepthExceeded);
    }
    let ghost list = views(args@);
    let ghost before = old(ns)@;
    let depth = ns.chunk();
    let ghost mut n = 0nat;
    proof {
        before.lemma_open_close();
    }
    for arg in it: args
        invariant
            it.seq() == args@,
            n == it.index(),
            ns.wf(),
            strict_bind(list, 0, before.open(), views(funcs@), fuel as nat) == strict_bind(
                list,
                n,
                ns@,
                views(funcs@),
                fuel as nat,
            ),
            ns@.close() == before,
            ns@.extends(before),
    {
        assert(arg@ == list[n as int]);
        let ghost here = ns@;
        match eval_expr(arg, ns, funcs, fuel) {
            Ok(val) => {
                ns.register(val);
                proof {
                    here.lemma_push_close(val);
                }
            },
            Err(err) => {
                return Err(err);
            },
        }
        proof {
            n = n + 1;
        }
    }
    let res = match eval_expr(func.circulate(depth), ns, funcs, fuel - 1) {
        Ok(v) => v,
        Err(err) => {
            return Err(err);
        },
    };
    ns.back();
    Ok(res)
}

/// The values of `prints[from..]` in the table `t` after `done`, up to the
/// first failure.
pub open spec fn strict_prints(
    prints: Seq<ExprView>,
    from: nat,
    t: Table<i32>,
    funcs: Seq<ExprView>,
    fuel: nat,
    done: Seq<i32>,
) -> Trace
    decreases prints.len() - from,
{
    if from >= prints.len() {
        Trace { printed: done, failure: None }
    } else {
        match strict_eval(prints[from as int], t, funcs, fuel) {
            Err(err) => Trace { printed: done, failure: Some(err) },
            Ok(v) => strict_prints(prints, from + 1, t, funcs, fuel, done.push(v)),
        }
    }
}

/// The strict run of a program: every `let` is evaluated in declaration
/// order and registered in the outermost frame, then every `print` is
/// evaluated in source order.
pub open spec fn strict_run(p: ProgramView, fuel: nat) -> Trace {
    match strict_bind(p.vars, 0, Table::fresh(), p.funcs, fuel) {
        Err(err) => Trace { printed: Seq::empty(), failure: Some(err) },
        Ok(t) => strict_prints(p.prints, 0, t, p.funcs, fuel, Seq::empty()),
    }
}

/// A trace holds at least what was printed before it was taken up.
pub proof fn lemma_strict_prints_extend(
    prints: Seq<ExprView>,
    from: nat,
    t: Table<i32>,
    funcs: Seq<ExprView>,
    fuel: nat,
    done: Seq<i32>,
)
    ensures
        done.is_prefix_of(strict_prints(prints, from, t, funcs, fuel, done).printed),
    decreases prints.len() - from,
{
    if from < prints.len() {
        match strict_eval(prints[from as int], t, funcs, fuel) {
            Err(_) => {},
            Ok(v) => {
                lemma_strict_prints_extend(prints, from + 1, t, funcs, fuel, done.push(v));
                assert(done =~= done.push(v).take(done.len() as int));
            },
        }
    }
}

/// The strict evaluator.
#[derive(Copy, Clone, Debug, PartialEq, Eq)]
pub struct EagerEval {
    /// How deep calls may nest before the run fails with `DepthExceeded`.
    pub depth: usize,
}

impl EagerEval {
    /// A strict evaluator with the default depth.
    pub fn new() -> (e: Self)
        ensures
            e.depth == DEFAULT_DEPTH,
    {
        EagerEval { depth: DEFAULT_DEPTH }
    }

    /// Runs `ir` and collects the value of each `print` in place of printing
    /// it. The error, if there is one, is what ended the run.
    pub fn run(&self, ir: Program) -> (r: (Vec<i32>, Option<EvalError>))
        ensures
            r.0@ == strict_run(ir@, self.depth as nat).printed,
            r.1 == strict_run(ir@, self.depth as nat).failure,
    {
        let mut recorder = Recorder::new();
        let failure = match self.evaluate(ir, &mut recorder) {
            Ok(_) => None,
            Err(RunError::Eval(err)) => Some(err),
            Err(RunError::Sink(_)) => None,
        };
        assert(recorder@ =~= strict_run(ir@, self.depth as nat).printed);
        (recorder.into_values(), failure)
    }
}


/// Evaluates each `let` in declaration order and registers its value in the
/// outermost frame of a fresh table.
#[verifier::loop_isolation(false)]
fn bind(vars: Vec<Expr>, funcs: &[Expr], fuel: usize) -> (r: Result<NameSpace<i32>, EvalError>)
    ensures
        match r {
            Ok(ns) => ns.wf() && strict_bind(
                views(vars@),
                0,
                Table::fresh(),
                views(funcs@),
                fuel as nat,
            ) == Ok::<Table<i32>, EvalError>(ns@),
            Err(err) => strict_bind(views(vars@), 0, Table::fresh(), views(funcs@), fuel as nat)
                == Err::<Table<i32>, EvalError>(err),
        },
{
    let ghost list = views(vars@);
    let mut ns: NameSpace<i32> = NameSpace::new();
    let ghost mut n = 0nat;
    for var in it: vars
        invariant
            it.seq() == vars@,
            n == it.index(),
            ns.wf(),
            strict_bind(list, 0, Table::fresh(), views(funcs@), fuel as nat) == strict_bind(
                list,
                n,
                ns@,
                views(funcs@),
                fuel as nat,
            ),
    {
        assert(var@ == list[n as int]);
        match eval_expr(var, &mut ns, funcs, fuel) {
            Ok(val) => {
                ns.register(val);
            },
            Err(err) => {
                return Err(err);
            },
        }
        proof {
            n = n + 1;
        }
    }
    Ok(ns)
}

impl Evaluator for EagerEval {
    open spec fn trace(&self, program: ProgramView) -> Option<Trace> {
        Some(strict_run(program, self.depth as nat))
    }

    #[verifier::loop_isolation(false)]
    fn evaluate<P: Printer>(&self, ir: Program, printer: &mut P) -> (r: Result<
        (),
        RunError<P::Err>,
    >) {
        let ghost program = ir@;
        let Program { funcs, vars, prints } = ir;
        let ghost fs = views(funcs@);
        let fuel = self.depth;
        let mut ns = match bind(vars, funcs.as_slice(), fuel) {
            Ok(ns) => ns,
            Err(err) => {
                return Err(RunError::Eval(err));
            },
        };
        let ghost table = ns@;
        let ghost mut done = Seq::<i32>::empty();
        let ghost mut k = 0nat;
        proof {
            if let Some(log) = old(printer).log() {
                assert(log + done =~= log);
            }
        }
        for print in it: prints
            invariant
                it.seq() == prints@,
                k == it.index(),
                ns.wf(),
                old(printer).log() matches Some(log) ==> printer.log() == Some(log + done),
                old(printer).reliable() ==> printer.reliable(),
                ns@ == table,
                strict_run(program, fuel as nat) == strict_prints(
                    program.prints,
                    k,
                    table,
                    fs,
                    fuel as nat,
                    done,
                ),
        {
            assert(print@ == program.prints[k as int]);
            let val = match eval_expr(print, &mut ns, funcs.as_slice(), fuel) {
                Ok(val) => val,
                Err(err) => {
                    return Err(RunError::Eval(err));
                },
            };
            proof {
                lemma_strict_prints_extend(
                    program.prints,
                    k + 1,
                    table,
                    fs,
                    fuel as nat,
                    done.push(val),
                );
            }
            let ghost full = strict_run(program, fuel as nat).printed;
            match RunError::of_printer(printer.print(val)) {
                Ok(_) => {},
                Err(err) => {
                    assert(full.take(done.len() as int) =~= done);
                    return Err(err);
                },
            }
            proof {
                if let Some(log) = old(printer).log() {
                    assert(log + done.push(val) =~= (log + done).push(val));
                }
                done = done.push(val);
                k = k + 1;
            }
        }
        Ok(())
    }
}

} // verus!
