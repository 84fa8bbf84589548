use mini_lang::ast;
use mini_lang::{compile, EagerEval, Evaluator, LazyEval, Operator, Printer, Recorder, RunError};

struct Refusing;

impl Printer for Refusing {
    type Err = String;

    fn print(&mut self, v: i32) -> Result<(), String> {
        Err(format!("refused {}", v))
    }
}

fn var(name: &str) -> ast::Expr {
    ast::Expr::Variable(name.to_string())
}

fn example() -> Vec<ast::Stmt> {
    vec![
        ast::Stmt::Binding("x".to_string(), ast::Expr::Value(3)),
        ast::Stmt::Binding("y".to_string(), ast::Expr::Value(4)),
        ast::Stmt::Define(
            "add".to_string(),
            vec!["a".to_string(), "b".to_string()],
            ast::Expr::Operation(Operator::Add, Box::new(var("a")), Box::new(var("b"))),
        ),
        ast::Stmt::Print(ast::Expr::FuncCall("add".to_string(), vec![var("x"), var("y")])),
        ast::Stmt::Print(ast::Expr::If(
            Box::new(ast::Expr::Operation(Operator::Lt, Box::new(var("x")), Box::new(var("y")))),
            Box::new(ast::Expr::Value(1)),
            Box::new(ast::Expr::Value(0)),
        )),
    ]
}

#[test]
fn example_tree_prints_seven_then_one_strictly() {
    let program = compile(example()).unwrap();
    let mut out = Recorder::new();
    EagerEval::new().evaluate(program, &mut out).unwrap();
    assert_eq!(out.values(), &vec![7, 1]);
}

#[test]
fn example_tree_prints_seven_then_one_lazily() {
    let program = compile(example()).unwrap();
    let mut out = Recorder::new();
    LazyEval::new().evaluate(program, &mut out).unwrap();
    assert_eq!(out.values(), &vec![7, 1]);
}

#[test]
fn sink_failure_is_handed_on() {
    let program = compile(example()).unwrap();
    let r = EagerEval::new().evaluate(program, &mut Refusing);
    assert_eq!(r, Err(RunError::Sink("refused 7".to_string())));
}
