//! The resolved program: expressions in which variables are addressed by
//! position and functions by index.
use crate::ast::Operator;
use vstd::prelude::*;

verus! {

/// A resolved expression.
#[derive(Debug, PartialEq, Eq)]
pub enum Expr {
    /// A literal.
    Value(i32),
    /// The slot `id` of the frame `depth`.
    Variable(usize, usize),
    /// A binary operator on two expressions.
    Operation(Operator, Box<Expr>, Box<Expr>),
    /// A call of the function at an index, with its arguments.
    FuncCall(usize, Vec<Expr>),
    /// Condition, then-branch, else-branch; any non-zero condition is true.
    If(Box<Expr>, Box<Expr>, Box<Expr>),
}

/// The mathematical content of an [`Expr`].
pub enum ExprView {
    Value(i32),
    Variable(nat, nat),
    Operation(Operator, Box<ExprView>, Box<ExprView>),
    FuncCall(nat, Seq<ExprView>),
    If(Box<ExprView>, Box<ExprView>, Box<ExprView>),
}

impl ExprView {
    /// The expression with the frame of every variable replaced by `depth`.
    pub open spec fn circulate(self, depth: nat) -> ExprView
        decreases self,
    {
        match self {
            ExprView::Value(v) => ExprView::Value(v),
            ExprView::Variable(_, id) => ExprView::Variable(depth, id),
            ExprView::Operation(op, lhs, rhs) => ExprView::Operation(
                op,
                Box::new(lhs.circulate(depth)),
                Box::new(rhs.circulate(depth)),
            ),
            ExprView::FuncCall(f, args) => ExprView::FuncCall(
                f,
                Seq::new(
                    args.len(),
                    |i: int|
                        if 0 <= i < args.len() {
                            args[i].circulate(depth)
                        } else {
                            ExprView::Value(0)
                        },
                ),
            ),
            ExprView::If(c, t, f) => ExprView::If(
                Box::new(c.circulate(depth)),
                Box::new(t.circulate(depth)),
                Box::new(f.circulate(depth)),
            ),
        }
    }
}

/// The contents of a sequence of expressions.
pub open spec fn views(exprs: Seq<Expr>) -> Seq<ExprView> {
    Seq::new(exprs.len(), |i: int| exprs[i]@)
}

impl Expr {
    /// The content of the expression, node by node.
    pub open spec fn model(&self) -> ExprView
        decreases self,
    {
        match self {
            Expr::Value(v) => ExprView::Value(*v),
            Expr::Variable(depth, id) => ExprView::Variable(*depth as nat, *id as nat),
            Expr::Operation(op, lhs, rhs) => ExprView::Operation(
                *op,
                Box::new(lhs.model()),
                Box::new(rhs.model()),
            ),
            Expr::FuncCall(f, args) => ExprView::FuncCall(
                *f as nat,
                Seq::new(
                    args@.len(),
                    |i: int|
                        if 0 <= i < args@.len() {
                            args@[i].model()
                        } else {
                            ExprView::Value(0)
                        },
                ),
            ),
            Expr::If(c, t, f) => ExprView::If(
                Box::new(c.model()),
                Box::new(t.model()),
                Box::new(f.model()),
            ),
        }
    }
}

impl View for Expr {
    type V = ExprView;

    open spec fn view(&self) -> ExprView {
        self.model()
    }
}

impl Clone for Expr {
    #[verifier::loop_isolation(false)]
    fn clone(&self) -> (r: Self)
        ensures
            r@ == self@,
        decreases self,
    {
        match self {
            Expr::Value(v) => Expr::Value(*v),
            Expr::Variable(depth, id) => Expr::Variable(*depth, *id),
            Expr::Operation(op, lhs, rhs) => Expr::Operation(
                *op,
                Box::new((**lhs).clone()),
                Box::new((**rhs).clone()),
            ),
            Expr::FuncCall(f, args) => {
                let mut out: Vec<Expr> = Vec::new();
                let mut i: usize = 0;
                while i < args.len()
                    invariant
                        i <= args.len(),
                        out.len() == i,
                        forall|j: int| 0 <= j < i ==> out@[j]@ == args@[j]@,
                    decreases args.len() - i,
                {
                    out.push(args[i].clone());
                    i += 1;
                }
                let r = Expr::FuncCall(*f, out);
                assert(r@->FuncCall_1 =~= self@->FuncCall_1);
                r
            },
            Expr::If(c, t, f) => Expr::If(
                Box::new((**c).clone()),
                Box::new((**t).clone()),
                Box::new((**f).clone()),
            ),
        }
    }
}

impl Expr {
    /// Rewrites the frame of every variable to `depth`: a function body,
    /// resolved once, is addressed to the frame of one call.
    #[verifier::loop_isolation(false)]
    pub fn circulate(self, depth: usize) -> (r: Self)
        ensures
            r@ == self@.circulate(depth as nat),
        decreases self,
    {
        match self {
            Expr::Value(v) => Expr::Value(v),
            Expr::Variable(_, id) => Expr::Variable(depth, id),
            Expr::Operation(op, lhs, rhs) => Expr::Operation(
                op,
                Box::new((*lhs).circulate(depth)),
                Box::new((*rhs).circulate(depth)),
            ),
            Expr::FuncCall(f, args) => {
                let mut out: Vec<Expr> = Vec::new();
                let ghost before = args@;
                for arg in it: args
                    invariant
                        it.seq() == before,
                        out.len() == it.index(),
                        forall|j: int|
                            0 <= j < out.len() ==> out@[j]@ == before[j]@.circulate(depth as nat),
                {
                    out.push(arg.circulate(depth));
                }
                let r = Expr::FuncCall(f, out);
                assert(r@->FuncCall_1 =~= self@.circulate(depth as nat)->FuncCall_1);
                r
            },
            Expr::If(c, t, f) => Expr::If(
                Box::new((*c).circulate(depth)),
                Box::new((*t).circulate(depth)),
                Box::new((*f).circulate(depth)),
            ),
        }
    }
}

/// A resolved source unit.
#[derive(Clone, Debug, PartialEq, Eq)]
pub struct Program {
    /// One body per `def`; its parameters are the slots `0..n` of its own frame.
    pub funcs: Vec<Expr>,
    /// One initializer per `let`, in declaration order.
    pub vars: Vec<Expr>,
    /// One expression per `print`, in source order.
    pub prints: Vec<Expr>,
}

/// The mathematical content of a [`Program`].
pub struct ProgramView {
    pub funcs: Seq<ExprView>,
    pub vars: Seq<ExprView>,
    pub prints: Seq<ExprView>,
}

impl View for Program {
    type V = ProgramView;

    open spec fn view(&self) -> ProgramView {
        ProgramView {
            funcs: views(self.funcs@),
            vars: views(self.vars@),
            prints: views(self.prints@),
        }
    }
}

} // verus!
