use mini_lang::ast;
use mini_lang::{compile, CompileError, Expr, Operator, Program};

fn name(s: &str) -> ast::Expr {
    ast::Expr::Variable(s.to_string())
}

fn call(f: &str, args: Vec<ast::Expr>) -> ast::Expr {
    ast::Expr::FuncCall(f.to_string(), args)
}

fn bind(v: &str, e: ast::Expr) -> ast::Stmt {
    ast::Stmt::Binding(v.to_string(), e)
}

fn define(f: &str, params: &[&str], e: ast::Expr) -> ast::Stmt {
    ast::Stmt::Define(f.to_string(), params.iter().map(|p| p.to_string()).collect(), e)
}

#[test]
fn bindings_take_slot_ids_in_declaration_order() {
    let tree = vec![
        bind("x", ast::Expr::Value(1)),
        bind("y", name("x")),
        ast::Stmt::Print(ast::Expr::Operation(
            Operator::Add,
            Box::new(name("x")),
            Box::new(name("y")),
        )),
    ];
    let expected = Program {
        funcs: vec![],
        vars: vec![Expr::Value(1), Expr::Variable(0, 0)],
        prints: vec![Expr::Operation(
            Operator::Add,
            Box::new(Expr::Variable(0, 0)),
            Box::new(Expr::Variable(0, 1)),
        )],
    };
    assert_eq!(compile(tree), Ok(expected));
}

#[test]
fn functions_are_indexed_in_definition_order() {
    let tree = vec![
        bind("x", ast::Expr::Value(1)),
        define("first", &["a"], name("a")),
        bind("y", ast::Expr::Value(2)),
        define("second", &["a", "b"], call("first", vec![name("b")])),
        ast::Stmt::Print(call("second", vec![name("x"), name("y")])),
    ];
    let expected = Program {
        funcs: vec![Expr::Variable(0, 0), Expr::FuncCall(0, vec![Expr::Variable(0, 1)])],
        vars: vec![Expr::Value(1), Expr::Value(2)],
        prints: vec![Expr::FuncCall(1, vec![Expr::Variable(0, 0), Expr::Variable(0, 1)])],
    };
    assert_eq!(compile(tree), Ok(expected));
}

#[test]
fn a_later_declaration_hides_an_earlier_one() {
    let tree = vec![
        bind("x", ast::Expr::Value(1)),
        bind("x", name("x")),
        define("f", &["a", "a"], name("a")),
        define("f", &[], ast::Expr::Value(0)),
        ast::Stmt::Print(name("x")),
        ast::Stmt::Print(call("f", vec![])),
    ];
    let expected = Program {
        funcs: vec![Expr::Variable(0, 1), Expr::Value(0)],
        vars: vec![Expr::Value(1), Expr::Variable(0, 0)],
        prints: vec![Expr::Variable(0, 1), Expr::FuncCall(1, vec![])],
    };
    assert_eq!(compile(tree), Ok(expected));
}

#[test]
fn a_function_sees_itself() {
    let tree = vec![define("f", &["n"], call("f", vec![name("n")]))];
    let expected = Program {
        funcs: vec![Expr::FuncCall(0, vec![Expr::Variable(0, 0)])],
        vars: vec![],
        prints: vec![],
    };
    assert_eq!(compile(tree), Ok(expected));
}

#[test]
fn names_out_of_scope_are_refused() {
    assert_eq!(
        compile(vec![ast::Stmt::Print(name("x"))]),
        Err(CompileError::UndefinedVariable)
    );
    assert_eq!(
        compile(vec![ast::Stmt::Print(name("x")), bind("x", ast::Expr::Value(1))]),
        Err(CompileError::UndefinedVariable)
    );
    assert_eq!(
        compile(vec![bind("x", ast::Expr::Value(1)), define("f", &[], name("x"))]),
        Err(CompileError::UndefinedVariable)
    );
    assert_eq!(
        compile(vec![ast::Stmt::Print(call("f", vec![])), define("f", &[], ast::Expr::Value(0))]),
        Err(CompileError::UndefinedFunction)
    );
    assert_eq!(
        compile(vec![define("f", &["a"], name("a")), ast::Stmt::Print(call("f", vec![]))]),
        Err(CompileError::ArityMismatch)
    );
}

#[test]
fn the_first_error_in_source_order_is_reported() {
    let tree = vec![
        ast::Stmt::Print(ast::Expr::Operation(
            Operator::Add,
            Box::new(call("f", vec![])),
            Box::new(name("x")),
        )),
    ];
    assert_eq!(compile(tree), Err(CompileError::UndefinedFunction));
    let tree = vec![
        define("f", &["a"], name("a")),
        ast::Stmt::Print(call("f", vec![name("x"), name("y")])),
    ];
    assert_eq!(compile(tree), Err(CompileError::ArityMismatch));
    let tree = vec![
        define("f", &["a", "b"], name("a")),
        ast::Stmt::Print(call("f", vec![name("x"), call("g", vec![])])),
    ];
    assert_eq!(compile(tree), Err(CompileError::UndefinedVariable));
}

#[test]
fn resolving_a_tree_twice_gives_equal_programs() {
    let tree = || {
        vec![
            bind("x", ast::Expr::Value(3)),
            define("twice", &["a"], ast::Expr::Operation(
                Operator::Mul,
                Box::new(name("a")),
                Box::new(ast::Expr::Value(2)),
            )),
            ast::Stmt::Print(call("twice", vec![name("x")])),
        ]
    };
    assert_eq!(compile(tree()), compile(tree()));
    assert!(compile(tree()).is_ok());
}

#[test]
fn circulate_moves_every_variable_to_one_frame() {
    let e = Expr::If(
        Box::new(Expr::Variable(0, 1)),
        Box::new(Expr::FuncCall(2, vec![Expr::Variable(5, 0), Expr::Value(7)])),
        Box::new(Expr::Operation(
            Operator::Sub,
            Box::new(Expr::Variable(1, 2)),
            Box::new(Expr::Value(1)),
        )),
    );
    let expected = Expr::If(
        Box::new(Expr::Variable(3, 1)),
        Box::new(Expr::FuncCall(2, vec![Expr::Variable(3, 0), Expr::Value(7)])),
        Box::new(Expr::Operation(
            Operator::Sub,
            Box::new(Expr::Variable(3, 2)),
            Box::new(Expr::Value(1)),
        )),
    );
    assert_eq!(e.clone().circulate(3), expected);
    assert_eq!(e.clone(), e);
}

#[test]
fn compile_errors_have_words() {
    assert_eq!(CompileError::UndefinedVariable.message(), "Using undefined variable.");
    assert_eq!(CompileError::UndefinedFunction.message(), "Using undefined function.");
    assert_eq!(CompileError::ArityMismatch.message(), "Illegal arguments.");
}
