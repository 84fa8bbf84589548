//! The syntax tree: statements and expressions that refer to variables and
//! functions by name.
use vstd::prelude::*;

verus! {

/// The binary operators of the language.
#[derive(Copy, Clone, Debug, PartialEq, Eq, Structural)]
pub enum Operator {
    /// `+`
    Add,
    /// `-`
    Sub,
    /// `*`
    Mul,
    /// `/`
    Div,
    /// `%`
    Rem,
    /// `>`
    Gt,
    /// `>=`, or `=>`
    Ge,
    /// `<`
    Lt,
    /// `<=`, or `=<`
    Le,
    /// `==`
    Eq,
    /// `!=`
    Neq,
}

/// An expression as written: variables and functions are named.
#[derive(Debug, PartialEq, Eq)]
pub enum Expr {
    /// A literal.
    Value(i32),
    /// A variable, by name.
    Variable(String),
    /// A binary operator on two expressions.
    Operation(Operator, Box<Expr>, Box<Expr>),
    /// A call of a named function, with its arguments.
    FuncCall(String, Vec<Expr>),
    /// Condition, then-branch, else-branch.
    If(Box<Expr>, Box<Expr>, Box<Expr>),
}

/// The mathematical content of an [`Expr`].
pub enum ExprView {
    Value(i32),
    Variable(Seq<char>),
    Operation(Operator, Box<ExprView>, Box<ExprView>),
    FuncCall(Seq<char>, Seq<ExprView>),
    If(Box<ExprView>, Box<ExprView>, Box<ExprView>),
}

impl Expr {
    /// The content of the expression, node by node.
    pub open spec fn model(&self) -> ExprView
        decreases self,
    {
        match self {
            Expr::Value(v) => ExprView::Value(*v),
            Expr::Variable(name) => ExprView::Variable(name@),
            Expr::Operation(op, lhs, rhs) => ExprView::Operation(
                *op,
                Box::new(lhs.model()),
                Box::new(rhs.model()),
            ),
            Expr::FuncCall(name, args) => ExprView::FuncCall(
                name@,
                Seq::new(
                    args@.len(),
                    |i: int|
                        if 0 <= i < args@.len() {
                            args@[i].model()
                        } else {
                            ExprView::Value(0)
                        },
                ),
            ),
            Expr::If(c, t, f) => ExprView::If(
                Box::new(c.model()),
                Box::new(t.model()),
                Box::new(f.model()),
            ),
        }
    }
}

impl View for Expr {
    type V = ExprView;

    open spec fn view(&self) -> ExprView {
        self.model()
    }
}

impl Clone for Expr {
    #[verifier::loop_isolation(false)]
    fn clone(&self) -> (r: Self)
        ensures
            r@ == self@,
        decreases self,
    {
        match self {
            Expr::Value(v) => Expr::Value(*v),
            Expr::Variable(name) => Expr::Variable(name.clone()),
            Expr::Operation(op, lhs, rhs) => Expr::Operation(
                *op,
                Box::new((**lhs).clone()),
                Box::new((**rhs).clone()),
            ),
            Expr::FuncCall(name, args) => {
                let mut out: Vec<Expr> = Vec::new();
                let mut i: usize = 0;
                while i < args.len()
                    invariant
                        i <= args.len(),
                        out.len() == i,
                        forall|j: int| 0 <= j < i ==> out@[j]@ == args@[j]@,
                    decreases args.len() - i,
                {
                    out.push(args[i].clone());
                    i += 1;
                }
                let r = Expr::FuncCall(name.clone(), out);
                assert(r@->FuncCall_1 =~= self@->FuncCall_1);
                r
            },
            Expr::If(c, t, f) => Expr::If(
                Box::new((**c).clone()),
                Box::new((**t).clone()),
                Box::new((**f).clone()),
            ),
        }
    }
}

/// The contents of a list of expressions.
pub open spec fn exprs(list: Seq<Expr>) -> Seq<ExprView> {
    Seq::new(list.len(), |i: int| list[i]@)
}

/// A statement.
#[derive(Clone, Debug, PartialEq, Eq)]
pub enum Stmt {
    /// `let name = expr`
    Binding(String, Expr),
    /// `print expr`
    Print(Expr),
    /// `def name(params) = expr`
    Define(String, Vec<String>, Expr),
}

/// The mathematical content of a [`Stmt`].
pub enum StmtView {
    Binding(Seq<char>, ExprView),
    Print(ExprView),
    Define(Seq<char>, Seq<Seq<char>>, ExprView),
}

/// The contents of a list of names.
pub open spec fn names(list: Seq<String>) -> Seq<Seq<char>> {
    Seq::new(list.len(), |i: int| list[i]@)
}

impl View for Stmt {
    type V = StmtView;

    open spec fn view(&self) -> StmtView {
        match self {
            Stmt::Binding(name, e) => StmtView::Binding(name@, e@),
            Stmt::Print(e) => StmtView::Print(e@),
            Stmt::Define(name, params, e) => StmtView::Define(name@, names(params@), e@),
        }
    }
}

/// The contents of a list of statements.
pub open spec fn views(stmts: Seq<Stmt>) -> Seq<StmtView> {
    Seq::new(stmts.len(), |i: int| stmts[i]@)
}

} // verus!
