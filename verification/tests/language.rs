use mini_lang::ast;
use mini_lang::{
    execute, parse, ArithmeticError, CompileError, EagerEval, EvalError, LazyEval, MiniError,
    Operator, ParseError, Recorder,
};

fn strict(source: &str) -> (Vec<i32>, Result<(), MiniError<mini_lang::EmptyError>>) {
    let mut out = Recorder::new();
    let r = execute(source, &EagerEval::new(), &mut out);
    (out.values().clone(), r)
}

fn lazy(source: &str) -> (Vec<i32>, Result<(), MiniError<mini_lang::EmptyError>>) {
    let mut out = Recorder::new();
    let r = execute(source, &LazyEval::new(), &mut out);
    (out.values().clone(), r)
}

const EXAMPLE: &str = "let x = 3\nlet y = 4\ndef add(a,b) = a + b\nprint add(x, y)\nprint if x < y then 1 else 0\n";

#[test]
fn example_prints_seven_then_one_strictly() {
    assert_eq!(strict(EXAMPLE), (vec![7, 1], Ok(())));
}

#[test]
fn example_prints_seven_then_one_lazily() {
    assert_eq!(lazy(EXAMPLE), (vec![7, 1], Ok(())));
}

#[test]
fn addition_overflow_is_an_error() {
    let expected = Err(MiniError::Eval(EvalError::Arithmetic(ArithmeticError::Overflow)));
    assert_eq!(strict("print 2147483647 + 1\n"), (vec![], expected.clone()));
    assert_eq!(lazy("print 2147483647 + 1\n"), (vec![], expected));
}

#[test]
fn division_by_zero_is_an_error() {
    let expected = Err(MiniError::Eval(EvalError::Arithmetic(ArithmeticError::DivisionByZero)));
    assert_eq!(strict("print 5 / 0\n"), (vec![], expected.clone()));
    assert_eq!(lazy("print 5 / 0\n"), (vec![], expected));
}

#[test]
fn remainder_of_seven_by_two_is_one() {
    assert_eq!(strict("print 7 % 2\n"), (vec![1], Ok(())));
    assert_eq!(lazy("print 7 % 2\n"), (vec![1], Ok(())));
}

#[test]
fn a_binding_does_not_see_itself() {
    let expected = Err(MiniError::Compile(CompileError::UndefinedVariable));
    assert_eq!(strict("let x = x\nprint x\n"), (vec![], expected.clone()));
    assert_eq!(lazy("let x = x\nprint x\n"), (vec![], expected));
}

fn tarai(n: i32) -> String {
    format!(
        "def tarai(x, y, z) = \\\n    if x <= y \\\n        then y \\\n    else tarai(tarai(x-1, y, z), tarai(y-1, z, x), tarai(z-1, x, y))\n\nprint tarai({}, {}, 0)\n",
        n * 2,
        n
    )
}

#[test]
fn tarai_agrees_under_both_evaluators() {
    for n in 1..4 {
        let source = tarai(n);
        assert_eq!(strict(&source), (vec![2 * n], Ok(())));
        assert_eq!(lazy(&source), (vec![2 * n], Ok(())));
    }
}

#[test]
fn prints_before_a_failure_reach_the_printer() {
    let expected = Err(MiniError::Eval(EvalError::Arithmetic(ArithmeticError::DivisionByZero)));
    assert_eq!(strict("print 1\nprint 2 / 0\nprint 3\n"), (vec![1], expected.clone()));
    assert_eq!(lazy("print 1\nprint 2 / 0\nprint 3\n"), (vec![1], expected));
}

#[test]
fn an_unused_binding_fails_only_the_strict_run() {
    let source = "let x = 1 / 0\nprint 2\n";
    let expected = Err(MiniError::Eval(EvalError::Arithmetic(ArithmeticError::DivisionByZero)));
    assert_eq!(strict(source), (vec![], expected));
    assert_eq!(lazy(source), (vec![2], Ok(())));
}

#[test]
fn endless_recursion_exceeds_the_depth() {
    let source = "def f(x) = f(x + 1)\nprint f(0)\n";
    let mut out = Recorder::new();
    let r = execute(source, &EagerEval { depth: 50 }, &mut out);
    assert_eq!(r, Err(MiniError::Eval(EvalError::DepthExceeded)));
    let mut out = Recorder::new();
    let r = execute(source, &LazyEval { depth: 50 }, &mut out);
    assert_eq!(r, Err(MiniError::Eval(EvalError::DepthExceeded)));
}

fn name(s: &str) -> ast::Expr {
    ast::Expr::Variable(s.to_string())
}

fn op(o: Operator, l: ast::Expr, r: ast::Expr) -> ast::Expr {
    ast::Expr::Operation(o, Box::new(l), Box::new(r))
}

#[test]
fn products_bind_tighter_than_sums() {
    let tree = parse("print 1 + 2 * 3 - 4\n").unwrap();
    let expected = op(
        Operator::Sub,
        op(
            Operator::Add,
            ast::Expr::Value(1),
            op(Operator::Mul, ast::Expr::Value(2), ast::Expr::Value(3)),
        ),
        ast::Expr::Value(4),
    );
    assert_eq!(tree, vec![ast::Stmt::Print(expected)]);
}

#[test]
fn comparisons_bind_tighter_than_equality() {
    let tree = parse("print a < b == c => d").unwrap();
    let expected = op(
        Operator::Eq,
        op(Operator::Lt, name("a"), name("b")),
        op(Operator::Ge, name("c"), name("d")),
    );
    assert_eq!(tree, vec![ast::Stmt::Print(expected)]);
}

#[test]
fn parentheses_group() {
    let tree = parse("print (1 + 2) * 3").unwrap();
    let expected = op(
        Operator::Mul,
        op(Operator::Add, ast::Expr::Value(1), ast::Expr::Value(2)),
        ast::Expr::Value(3),
    );
    assert_eq!(tree, vec![ast::Stmt::Print(expected)]);
}

#[test]
fn a_definition_is_read_with_its_parameters() {
    let tree = parse("def add(a, b) = a + b\n").unwrap();
    let expected = ast::Stmt::Define(
        "add".to_string(),
        vec!["a".to_string(), "b".to_string()],
        op(Operator::Add, name("a"), name("b")),
    );
    assert_eq!(tree, vec![expected]);
}

#[test]
fn literals_take_a_sign() {
    let tree = parse("let x = - 5\nlet y = +7\n").unwrap();
    assert_eq!(
        tree,
        vec![
            ast::Stmt::Binding("x".to_string(), ast::Expr::Value(-5)),
            ast::Stmt::Binding("y".to_string(), ast::Expr::Value(7)),
        ]
    );
}

#[test]
fn a_literal_beyond_the_range_is_not_a_literal() {
    assert_eq!(parse("print 2147483648\n"), Err(ParseError { offset: 6 }));
    assert_eq!(
        parse("print 2147483647\n"),
        Ok(vec![ast::Stmt::Print(ast::Expr::Value(2147483647))])
    );
}

#[test]
fn text_that_is_no_statement_is_refused_where_it_starts() {
    assert_eq!(parse("print 1\nprimt 2\n"), Err(ParseError { offset: 8 }));
    assert_eq!(parse("let = \n"), Ok(vec![ast::Stmt::Binding(String::new(), name(""))]));
    assert_eq!(parse(""), Ok(vec![]));
    assert_eq!(parse("print 1 )"), Err(ParseError { offset: 7 }));
}

#[test]
fn a_line_goes_on_after_a_backslash() {
    let tree = parse("print 1 + \\\n 2\n").unwrap();
    assert_eq!(
        tree,
        vec![ast::Stmt::Print(op(Operator::Add, ast::Expr::Value(1), ast::Expr::Value(2)))]
    );
}

#[test]
fn a_parse_error_is_handed_on() {
    let (printed, r) = strict("print 1\n)");
    assert_eq!(printed, vec![]);
    assert_eq!(r, Err(MiniError::Parse(ParseError { offset: 8 })));
}

#[test]
fn an_undefined_function_and_a_wrong_arity_are_compile_errors() {
    assert_eq!(strict("print f(1)\n").1, Err(MiniError::Compile(CompileError::UndefinedFunction)));
    assert_eq!(
        strict("def f(a) = a\nprint f(1, 2)\n").1,
        Err(MiniError::Compile(CompileError::ArityMismatch))
    );
}

#[test]
fn a_function_body_does_not_see_outer_bindings() {
    assert_eq!(
        strict("let x = 1\ndef f(a) = a + x\nprint f(1)\n").1,
        Err(MiniError::Compile(CompileError::UndefinedVariable))
    );
}

#[test]
fn endless_recursion_ends_at_the_default_depth() {
    let source = "def f(x) = 1 + f(x + 1)\nprint f(0)\n";
    let expected = Err(MiniError::Eval(EvalError::DepthExceeded));
    assert_eq!(strict(source), (vec![], expected.clone()));
    assert_eq!(lazy(source), (vec![], expected));
}

#[test]
fn deep_recursion_within_the_default_depth_gives_its_value() {
    let source = "def sum(n) = if n == 0 then 0 else n + sum(n - 1)\nprint sum(1000)\n";
    assert_eq!(strict(source), (vec![500500], Ok(())));
    assert_eq!(lazy(source), (vec![500500], Ok(())));
}

#[test]
fn a_text_that_does_not_resolve_prints_nothing() {
    let expected = Err(MiniError::Compile(CompileError::UndefinedVariable));
    assert_eq!(strict("print 1\nprint y"), (vec![], expected.clone()));
    assert_eq!(lazy("print 1\nprint y"), (vec![], expected));
}
