use mini_lang::eval::lazy::{self, Var};
use mini_lang::eval::namespace::NameSpace;
use mini_lang::eval::{eager, DEFAULT_DEPTH};
use mini_lang::{
    ArithmeticError, EagerEval, EvalError, Evaluator, Expr, LazyEval, MiniError, Operator,
    Program, Recorder, RunError, ScopeError,
};

fn add(l: Expr, r: Expr) -> Expr {
    Expr::Operation(Operator::Add, Box::new(l), Box::new(r))
}

#[test]
fn a_binding_that_reads_itself_finds_its_slot_empty() {
    let program =
        || Program { funcs: vec![], vars: vec![Expr::Variable(0, 0)], prints: vec![Expr::Variable(0, 0)] };
    let lazy = LazyEval::new().run(program());
    assert_eq!(lazy, (vec![], Some(EvalError::Scope(ScopeError::SlotEmpty))));
    let strict = EagerEval::new().run(program());
    assert_eq!(strict, (vec![], Some(EvalError::Scope(ScopeError::IllegalId))));
}

#[test]
fn bindings_that_read_each_other_find_a_slot_empty() {
    let program = Program {
        funcs: vec![],
        vars: vec![Expr::Variable(0, 1), Expr::Variable(0, 0)],
        prints: vec![Expr::Value(1), Expr::Variable(0, 1)],
    };
    let mut out = Recorder::new();
    let r = LazyEval::new().evaluate(program, &mut out);
    assert_eq!(r, Err(RunError::Eval(EvalError::Scope(ScopeError::SlotEmpty))));
    assert_eq!(out.values(), &vec![1]);
}

#[test]
fn a_variable_is_forced_once_and_cached() {
    let funcs: Vec<Expr> = vec![];
    let mut ns: NameSpace<Var> = NameSpace::new();
    ns.register(Var::Thunk(add(Expr::Value(1), Expr::Value(2))));
    ns.register(Var::Thunk(add(Expr::Variable(0, 0), Expr::Variable(0, 0))));
    assert_eq!(lazy::eval_expr(Expr::Variable(0, 1), &mut ns, &funcs, 2), Ok(6));
    assert_eq!(ns.get(0, 0), Ok(&Var::Cached(3)));
    assert_eq!(ns.get(0, 1), Ok(&Var::Cached(6)));
    let cached = ns.clone();
    assert_eq!(lazy::eval_expr(Expr::Variable(0, 1), &mut ns, &funcs, 0), Ok(6));
    assert_eq!(ns, cached);
}

#[test]
fn forcing_takes_depth() {
    let funcs: Vec<Expr> = vec![];
    let mut ns: NameSpace<Var> = NameSpace::new();
    ns.register(Var::Thunk(Expr::Value(1)));
    ns.register(Var::Thunk(Expr::Variable(0, 0)));
    assert_eq!(
        lazy::eval_expr(Expr::Variable(0, 1), &mut ns, &funcs, 1),
        Err(EvalError::DepthExceeded)
    );
    let mut ns: NameSpace<Var> = NameSpace::new();
    ns.register(Var::Thunk(Expr::Value(1)));
    ns.register(Var::Thunk(Expr::Variable(0, 0)));
    assert_eq!(lazy::eval_expr(Expr::Variable(0, 1), &mut ns, &funcs, 2), Ok(1));
    assert_eq!(Var::Cached(4).get(&mut ns, &funcs, 0), Ok(4));
    assert_eq!(Var::Thunk(Expr::Value(4)).get(&mut ns, &funcs, 0), Err(EvalError::DepthExceeded));
    assert_eq!(Var::Thunk(Expr::Value(4)).get(&mut ns, &funcs, 1), Ok(4));
}

#[test]
fn an_argument_that_is_not_read_is_not_evaluated() {
    let funcs = vec![Expr::Variable(0, 0)];
    let failing = Expr::Operation(Operator::Div, Box::new(Expr::Value(1)), Box::new(Expr::Value(0)));
    let call = || Expr::FuncCall(0, vec![Expr::Value(9), failing.clone()]);
    let mut lazy_table: NameSpace<Var> = NameSpace::new();
    assert_eq!(lazy::eval_expr(call(), &mut lazy_table, &funcs, 3), Ok(9));
    assert_eq!(lazy_table, NameSpace::new());
    let mut strict_table: NameSpace<i32> = NameSpace::new();
    assert_eq!(
        eager::eval_expr(call(), &mut strict_table, &funcs, 3),
        Err(EvalError::Arithmetic(ArithmeticError::DivisionByZero))
    );
}

#[test]
fn a_call_evaluates_its_body_in_a_frame_of_its_own() {
    let funcs = vec![add(Expr::Variable(0, 0), Expr::Variable(0, 1))];
    let mut ns: NameSpace<i32> = NameSpace::new();
    ns.register(100);
    let before = ns.clone();
    let call = Expr::FuncCall(0, vec![Expr::Variable(0, 0), Expr::Value(5)]);
    assert_eq!(eager::eval_expr(call, &mut ns, &funcs, 1), Ok(105));
    assert_eq!(ns, before);
    let body = funcs[0].clone();
    assert_eq!(eager::funccall(body, vec![Expr::Value(1), Expr::Value(2)], &mut ns, &funcs, 1), Ok(3));
    assert_eq!(ns, before);
    let body = funcs[0].clone();
    assert_eq!(
        eager::funccall(body, vec![Expr::Value(1), Expr::Value(2)], &mut ns, &funcs, 0),
        Err(EvalError::DepthExceeded)
    );
    let mut table: NameSpace<Var> = NameSpace::new();
    let body = funcs[0].clone();
    assert_eq!(lazy::funccall(body, vec![Expr::Value(1), Expr::Value(2)], &mut table, &funcs, 2), Ok(3));
    assert_eq!(table, NameSpace::new());
}

#[test]
fn a_call_of_a_function_that_is_not_there_is_an_error() {
    let funcs: Vec<Expr> = vec![];
    let mut ns: NameSpace<i32> = NameSpace::new();
    assert_eq!(
        eager::eval_expr(Expr::FuncCall(0, vec![]), &mut ns, &funcs, 5),
        Err(EvalError::UndefinedFunction)
    );
    let mut table: NameSpace<Var> = NameSpace::new();
    assert_eq!(
        lazy::eval_expr(Expr::FuncCall(3, vec![]), &mut table, &funcs, 5),
        Err(EvalError::UndefinedFunction)
    );
}

#[test]
fn any_condition_but_zero_is_true() {
    let funcs: Vec<Expr> = vec![];
    let mut ns: NameSpace<i32> = NameSpace::new();
    let cond = |c: i32| {
        Expr::If(Box::new(Expr::Value(c)), Box::new(Expr::Value(10)), Box::new(Expr::Value(20)))
    };
    assert_eq!(eager::eval_expr(cond(0), &mut ns, &funcs, 0), Ok(20));
    assert_eq!(eager::eval_expr(cond(1), &mut ns, &funcs, 0), Ok(10));
    assert_eq!(eager::eval_expr(cond(-7), &mut ns, &funcs, 0), Ok(10));
    let mut table: NameSpace<Var> = NameSpace::new();
    assert_eq!(lazy::eval_expr(cond(0), &mut table, &funcs, 0), Ok(20));
    assert_eq!(lazy::eval_expr(cond(2), &mut table, &funcs, 0), Ok(10));
}

#[test]
fn the_runs_collect_what_the_printer_is_handed() {
    let program = || Program {
        funcs: vec![add(Expr::Variable(0, 0), Expr::Value(1))],
        vars: vec![Expr::Value(4)],
        prints: vec![
            Expr::FuncCall(0, vec![Expr::Variable(0, 0)]),
            Expr::Variable(0, 0),
            Expr::Variable(0, 3),
            Expr::Value(8),
        ],
    };
    let failure = Some(EvalError::Scope(ScopeError::IllegalId));
    assert_eq!(EagerEval::new().run(program()), (vec![5, 4], failure));
    assert_eq!(LazyEval::new().run(program()), (vec![5, 4], failure));
    let mut out = Recorder::new();
    assert_eq!(
        EagerEval::new().evaluate(program(), &mut out),
        Err(RunError::Eval(EvalError::Scope(ScopeError::IllegalId)))
    );
    assert_eq!(out.values(), &vec![5, 4]);
}

#[test]
fn the_default_depth_is_what_new_gives() {
    assert_eq!(EagerEval::new(), EagerEval { depth: DEFAULT_DEPTH });
    assert_eq!(LazyEval::new(), LazyEval { depth: DEFAULT_DEPTH });
}

#[test]
fn the_error_of_a_run_goes_into_the_crate_error() {
    let eval: MiniError<String> = MiniError::from_error(RunError::Eval(EvalError::DepthExceeded));
    assert_eq!(eval, MiniError::Eval(EvalError::DepthExceeded));
    let sink = MiniError::from_error(RunError::Sink("full".to_string()));
    assert_eq!(sink, MiniError::Sink("full".to_string()));
}

#[test]
fn evaluation_errors_have_words() {
    assert_eq!(EvalError::Scope(ScopeError::SlotEmpty).message(), "The value is borrowed.");
    assert_eq!(EvalError::Scope(ScopeError::SlotNotEmpty).message(), "The value is not borrowed.");
    assert_eq!(EvalError::Scope(ScopeError::IllegalId).message(), "Illegal id");
    assert_eq!(EvalError::Scope(ScopeError::UndefinedDepth).message(), "Use of undefined depth");
    assert_eq!(
        EvalError::Arithmetic(ArithmeticError::DivisionByZero).message(),
        "Division by zero"
    );
    assert_eq!(EvalError::UndefinedFunction.message(), "Call of undefined function");
    assert_eq!(EvalError::DepthExceeded.message(), "Evaluation nests too deep");
}

fn chain() -> Program {
    // let a = 1, let b = a + 1, let c = b + 1; the prints read them last first
    Program {
        funcs: vec![add(Expr::Variable(0, 0), Expr::Variable(0, 1))],
        vars: vec![
            Expr::Value(1),
            add(Expr::Variable(0, 0), Expr::Value(1)),
            add(Expr::Variable(0, 1), Expr::Value(1)),
        ],
        prints: vec![
            Expr::Value(0),
            Expr::Variable(0, 2),
            Expr::FuncCall(0, vec![Expr::Variable(0, 0), Expr::Variable(0, 2)]),
        ],
    }
}

#[test]
fn the_lazy_run_is_the_strict_run_where_it_has_the_depth() {
    let strict = EagerEval { depth: 1 }.run(chain());
    assert_eq!(strict, (vec![0, 3, 4], None));
    for depth in 3..6 {
        assert_eq!(LazyEval { depth }.run(chain()), strict);
    }
}

#[test]
fn the_lazy_run_stops_short_for_want_of_depth() {
    assert_eq!(LazyEval { depth: 2 }.run(chain()), (vec![0], Some(EvalError::DepthExceeded)));
    assert_eq!(LazyEval { depth: 0 }.run(chain()), (vec![0], Some(EvalError::DepthExceeded)));
    assert_eq!(EagerEval { depth: 0 }.run(chain()), (vec![0, 3], Some(EvalError::DepthExceeded)));
}

#[test]
fn the_answer_of_the_printer_decides_whether_the_run_goes_on() {
    assert_eq!(RunError::<String>::of_printer(Ok(())), Ok(()));
    assert_eq!(
        RunError::of_printer(Err("full".to_string())),
        Err(RunError::Sink("full".to_string()))
    );
}

#[test]
fn a_recorder_gives_up_what_it_recorded() {
    let mut out = Recorder::new();
    let program = Program {
        funcs: vec![],
        vars: vec![add(Expr::Value(1), Expr::Value(2))],
        prints: vec![Expr::Variable(0, 0), Expr::Variable(0, 0), Expr::Variable(0, 0)],
    };
    assert_eq!(LazyEval::new().evaluate(program, &mut out), Ok(()));
    assert_eq!(out.into_values(), vec![3, 3, 3]);
}

struct Full {
    room: usize,
    taken: Vec<i32>,
}

impl mini_lang::Printer for Full {
    type Err = i32;

    fn print(&mut self, v: i32) -> Result<(), i32> {
        if self.taken.len() < self.room {
            self.taken.push(v);
            Ok(())
        } else {
            Err(v)
        }
    }
}

#[test]
fn nothing_is_handed_over_after_the_printer_failed() {
    let program = || Program {
        funcs: vec![],
        vars: vec![],
        prints: vec![Expr::Value(1), Expr::Value(2), Expr::Value(3)],
    };
    let mut sink = Full { room: 1, taken: vec![] };
    assert_eq!(EagerEval::new().evaluate(program(), &mut sink), Err(RunError::Sink(2)));
    assert_eq!(sink.taken, vec![1]);
    let mut sink = Full { room: 0, taken: vec![] };
    assert_eq!(LazyEval::new().evaluate(program(), &mut sink), Err(RunError::Sink(1)));
    assert_eq!(sink.taken, vec![]);
}

#[test]
fn a_failing_binding_leaves_the_printer_alone() {
    let failing = Expr::Operation(Operator::Div, Box::new(Expr::Value(1)), Box::new(Expr::Value(0)));
    let program = || Program { funcs: vec![], vars: vec![failing.clone()], prints: vec![Expr::Value(1)] };
    let mut out = Recorder::new();
    assert_eq!(
        EagerEval::new().evaluate(program(), &mut out),
        Err(RunError::Eval(EvalError::Arithmetic(ArithmeticError::DivisionByZero)))
    );
    assert_eq!(out.values(), &Vec::<i32>::new());
    let mut out = Recorder::new();
    assert_eq!(LazyEval::new().evaluate(program(), &mut out), Ok(()));
    assert_eq!(out.values(), &vec![1]);
}
