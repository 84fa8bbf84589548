//! Name resolution: one pass over the statements that turns named variables
//! and functions into slot ids and function indices.
use crate::ast;
use crate::error::CompileError;
use crate::ir;
use vstd::prelude::*;

verus! {

/// What a function name stands for: its index and its number of parameters.
pub struct Signature {
    pub index: nat,
    pub arity: nat,
}

/// The names in scope at one point of the pass.
pub struct Names {
    /// The slot id of each visible variable.
    pub vars: Map<Seq<char>, nat>,
    /// The signature of each function defined so far.
    pub funcs: Map<Seq<char>, Signature>,
}

/// The resolved form of `e` under `names`, or the first error met from left
/// to right.
pub open spec fn resolve_expr(e: ast::ExprView, names: Names) -> Result<ir::ExprView, CompileError>
    decreases e, 0nat,
{
    match e {
        ast::ExprView::Value(v) => Ok(ir::ExprView::Value(v)),
        ast::ExprView::Variable(name) => if names.vars.contains_key(name) {
            Ok(ir::ExprView::Variable(0, names.vars[name]))
        } else {
            Err(CompileError::UndefinedVariable)
        },
        ast::ExprView::Operation(op, lhs, rhs) => match resolve_expr(*lhs, names) {
            Err(err) => Err(err),
            Ok(l) => match resolve_expr(*rhs, names) {
                Err(err) => Err(err),
                Ok(r) => Ok(ir::ExprView::Operation(op, Box::new(l), Box::new(r))),
            },
        },
        ast::ExprView::FuncCall(name, args) => if !names.funcs.contains_key(name) {
            Err(CompileError::UndefinedFunction)
        } else if names.funcs[name].arity != args.len() {
            Err(CompileError::ArityMismatch)
        } else {
            match resolve_args(args, 0, names, Seq::empty()) {
                Err(err) => Err(err),
                Ok(resolved) => Ok(ir::ExprView::FuncCall(names.funcs[name].index, resolved)),
            }
        },
        ast::ExprView::If(c, t, f) => match resolve_expr(*c, names) {
            Err(err) => Err(err),
            Ok(rc) => match resolve_expr(*t, names) {
                Err(err) => Err(err),
                Ok(rt) => match resolve_expr(*f, names) {
                    Err(err) => Err(err),
                    Ok(rf) => Ok(ir::ExprView::If(Box::new(rc), Box::new(rt), Box::new(rf))),
                },
            },
        },
    }
}

/// `done` followed by the resolved forms of `args[from..]`, or the first error.
pub open spec fn resolve_args(
    args: Seq<ast::ExprView>,
    from: nat,
    names: Names,
    done: Seq<ir::ExprView>,
) -> Result<Seq<ir::ExprView>, CompileError>
    decreases args, args.len() - from,
{
    if from >= args.len() {
        Ok(done)
    } else {
        match resolve_expr(args[from as int], names) {
            Err(err) => Err(err),
            Ok(r) => resolve_args(args, from + 1, names, done.push(r)),
        }
    }
}

/// The scope of a function body: each parameter at its position, the last
/// one winning where a name occurs twice.
pub open spec fn parameters(params: Seq<Seq<char>>, n: nat) -> Map<Seq<char>, nat>
    decreases n,
{
    if n == 0 {
        Map::empty()
    } else {
        parameters(params, (n - 1) as nat).insert(params[n - 1], (n - 1) as nat)
    }
}

/// The state of the pass between two statements.
pub struct Pass {
    /// What has been resolved so far.
    pub program: ir::ProgramView,
    /// The top-level names in scope.
    pub names: Names,
}

impl Pass {
    /// The state before the first statement.
    pub open spec fn start() -> Pass {
        Pass {
            program: ir::ProgramView {
                funcs: Seq::empty(),
                vars: Seq::empty(),
                prints: Seq::empty(),
            },
            names: Names { vars: Map::empty(), funcs: Map::empty() },
        }
    }

    /// The state after `stmt`, or the error that `stmt` gives.
    pub open spec fn step(self, stmt: ast::StmtView) -> Result<Pass, CompileError> {
        match stmt {
            ast::StmtView::Binding(name, e) => match resolve_expr(e, self.names) {
                Err(err) => Err(err),
                Ok(r) => Ok(
                    Pass {
                        program: ir::ProgramView {
                            vars: self.program.vars.push(r),
                            ..self.program
                        },
                        names: Names {
                            vars: self.names.vars.insert(name, self.program.vars.len()),
                            ..self.names
                        },
                    },
                ),
            },
            ast::StmtView::Print(e) => match resolve_expr(e, self.names) {
                Err(err) => Err(err),
                Ok(r) => Ok(
                    Pass {
                        program: ir::ProgramView {
                            prints: self.program.prints.push(r),
                            ..self.program
                        },
                        names: self.names,
                    },
                ),
            },
            ast::StmtView::Define(name, params, e) => {
                let funcs = self.names.funcs.insert(
                    name,
                    Signature { index: self.program.funcs.len(), arity: params.len() },
                );
                let inner = Names { vars: parameters(params, params.len()), funcs };
                match resolve_expr(e, inner) {
                    Err(err) => Err(err),
                    Ok(r) => Ok(
                        Pass {
                            program: ir::ProgramView {
                                funcs: self.program.funcs.push(r),
                                ..self.program
                            },
                            names: Names { vars: self.names.vars, funcs },
                        },
                    ),
                }
            },
        }
    }
}

/// The state after `stmts[from..]`, started in `pass`, or the first error.
pub open spec fn resolve_from(stmts: Seq<ast::StmtView>, from: nat, pass: Pass) -> Result<
    Pass,
    CompileError,
>
    decreases stmts.len() - from,
{
    if from >= stmts.len() {
        Ok(pass)
    } else {
        match pass.step(stmts[from as int]) {
            Err(err) => Err(err),
            Ok(next) => resolve_from(stmts, from + 1, next),
        }
    }
}

/// The program that `stmts` resolve to, or the first error in source order.
pub open spec fn resolve(stmts: Seq<ast::StmtView>) -> Result<ir::ProgramView, CompileError> {
    match resolve_from(stmts, 0, Pass::start()) {
        Err(err) => Err(err),
        Ok(pass) => Ok(pass.program),
    }
}

/// Whether every variable of `e` is in scope, and every call names a function
/// in scope and passes as many arguments as that function has parameters.
pub open spec fn scoped(e: ast::ExprView, names: Names) -> bool
    decreases e,
{
    match e {
        ast::ExprView::Value(_) => true,
        ast::ExprView::Variable(name) => names.vars.contains_key(name),
        ast::ExprView::Operation(_, lhs, rhs) => scoped(*lhs, names) && scoped(*rhs, names),
        ast::ExprView::FuncCall(name, args) => {
            &&& names.funcs.contains_key(name)
            &&& names.funcs[name].arity == args.len()
            &&& forall|i: int| 0 <= i < args.len() ==> scoped(args[i], names)
        },
        ast::ExprView::If(c, t, f) => scoped(*c, names) && scoped(*t, names) && scoped(*f, names),
    }
}

/// What is declared at one point of a source unit.
pub struct Scoping {
    /// The top-level names in scope.
    pub names: Names,
    /// The number of `let`s so far.
    pub vars: nat,
    /// The number of `def`s so far.
    pub funcs: nat,
}

impl Scoping {
    /// What is declared once `stmt` is: a `let` takes the next slot id, a
    /// `def` the next function index, and either hides an earlier
    /// declaration of its name.
    pub open spec fn declare(self, stmt: ast::StmtView) -> Scoping {
        match stmt {
            ast::StmtView::Binding(name, _) => Scoping {
                names: Names { vars: self.names.vars.insert(name, self.vars), ..self.names },
                vars: self.vars + 1,
                funcs: self.funcs,
            },
            ast::StmtView::Print(_) => self,
            ast::StmtView::Define(name, params, _) => Scoping {
                names: Names {
                    funcs: self.names.funcs.insert(
                        name,
                        Signature { index: self.funcs, arity: params.len() },
                    ),
                    ..self.names
                },
                vars: self.vars,
                funcs: self.funcs + 1,
            },
        }
    }

    /// Whether `stmt` uses only what it can see: a `let` and a `print` what
    /// is declared before them, a function body its own parameters and the
    /// functions declared so far, its own included.
    pub open spec fn admits(self, stmt: ast::StmtView) -> bool {
        match stmt {
            ast::StmtView::Binding(_, e) => scoped(e, self.names),
            ast::StmtView::Print(e) => scoped(e, self.names),
            ast::StmtView::Define(_, params, e) => scoped(
                e,
                Names {
                    vars: parameters(params, params.len()),
                    funcs: self.declare(stmt).names.funcs,
                },
            ),
        }
    }
}

/// What is declared before the statement `at`.
pub open spec fn scoping(stmts: Seq<ast::StmtView>, at: nat) -> Scoping
    decreases at,
{
    if at == 0 {
        Scoping { names: Names { vars: Map::empty(), funcs: Map::empty() }, vars: 0, funcs: 0 }
    } else {
        scoping(stmts, (at - 1) as nat).declare(stmts[at - 1])
    }
}

/// Whether every statement uses only what it can see.
pub open spec fn well_scoped(stmts: Seq<ast::StmtView>) -> bool {
    forall|at: int| 0 <= at < stmts.len() ==> (#[trigger] scoping(stmts, at as nat)).admits(stmts[at])
}

/// An expression resolves just when it is [`scoped`].
pub proof fn lemma_resolve_expr_total(e: ast::ExprView, names: Names)
    ensures
        resolve_expr(e, names) is Ok <==> scoped(e, names),
    decreases e, 0nat,
{
    reveal_with_fuel(resolve_expr, 2);
    match e {
        ast::ExprView::Value(_) => {},
        ast::ExprView::Variable(_) => {},
        ast::ExprView::Operation(_, lhs, rhs) => {
            lemma_resolve_expr_total(*lhs, names);
            lemma_resolve_expr_total(*rhs, names);
        },
        ast::ExprView::FuncCall(_, args) => {
            lemma_resolve_args_total(args, 0, names, Seq::empty());
        },
        ast::ExprView::If(c, t, f) => {
            lemma_resolve_expr_total(*c, names);
            lemma_resolve_expr_total(*t, names);
            lemma_resolve_expr_total(*f, names);
        },
    }
}

/// Arguments resolve just when each of them is [`scoped`].
pub proof fn lemma_resolve_args_total(
    args: Seq<ast::ExprView>,
    from: nat,
    names: Names,
    done: Seq<ir::ExprView>,
)
    ensures
        resolve_args(args, from, names, done) is Ok <==> forall|i: int|
            from <= i < args.len() ==> scoped(args[i], names),
    decreases args, args.len() - from,
{
    reveal_with_fuel(resolve_args, 2);
    if from < args.len() {
        lemma_resolve_expr_total(args[from as int], names);
        match resolve_expr(args[from as int], names) {
            Err(_) => {},
            Ok(r) => {
                lemma_resolve_args_total(args, from + 1, names, done.push(r));
            },
        }
    }
}

/// Whether the state of the pass holds what is declared.
pub open spec fn tracks(pass: Pass, scoping: Scoping) -> bool {
    &&& pass.names == scoping.names
    &&& pass.program.vars.len() == scoping.vars
    &&& pass.program.funcs.len() == scoping.funcs
}

proof fn lemma_resolve_from_total(stmts: Seq<ast::StmtView>, from: nat, pass: Pass)
    requires
        from <= stmts.len(),
        tracks(pass, scoping(stmts, from)),
    ensures
        resolve_from(stmts, from, pass) is Ok <==> forall|at: int|
            from <= at < stmts.len() ==> (#[trigger] scoping(stmts, at as nat)).admits(stmts[at]),
    decreases stmts.len() - from,
{
    if from < stmts.len() {
        let stmt = stmts[from as int];
        let here = scoping(stmts, from);
        assert(scoping(stmts, from + 1) == here.declare(stmt));
        match stmt {
            ast::StmtView::Binding(_, e) => {
                lemma_resolve_expr_total(e, pass.names);
            },
            ast::StmtView::Print(e) => {
                lemma_resolve_expr_total(e, pass.names);
            },
            ast::StmtView::Define(_, params, e) => {
                lemma_resolve_expr_total(
                    e,
                    Names {
                        vars: parameters(params, params.len()),
                        funcs: here.declare(stmt).names.funcs,
                    },
                );
            },
        }
        match pass.step(stmt) {
            Err(_) => {
                assert(!here.admits(stmts[from as int]));
            },
            Ok(next) => {
                assert(here.admits(stmts[from as int]));
                lemma_resolve_from_total(stmts, from + 1, next);
            },
        }
    }
}

/// Resolution is total on well-scoped trees and on no others: a program is
/// produced just when every statement uses only what it can see. What is
/// produced is a function of the tree alone.
pub proof fn lemma_resolve_total(stmts: Seq<ast::StmtView>)
    ensures
        resolve(stmts) is Ok <==> well_scoped(stmts),
{
    lemma_resolve_from_total(stmts, 0, Pass::start());
}

/// A list of name bindings in which the latest binding of a name is the one
/// that counts.
struct Scope<V> {
    entries: Vec<(String, V)>,
}

/// The map that the first `n` entries stand for.
spec fn bindings<V>(entries: Seq<(String, V)>, n: nat) -> Map<Seq<char>, V>
    decreases n,
{
    if n == 0 {
        Map::empty()
    } else {
        bindings(entries, (n - 1) as nat).insert(entries[n - 1].0@, entries[n - 1].1)
    }
}

impl<V: Copy> Scope<V> {
    spec fn view(&self) -> Map<Seq<char>, V> {
        bindings(self.entries@, self.entries@.len())
    }

    fn new() -> (s: Self)
        ensures
            s.view() == Map::<Seq<char>, V>::empty(),
    {
        Scope { entries: Vec::new() }
    }

    fn insert(&mut self, name: String, value: V)
        ensures
            final(self).view() == old(self).view().insert(name@, value),
    {
        self.entries.push((name, value));
        proof {
            lemma_bindings_prefix(old(self).entries@, self.entries@, old(self).entries@.len());
        }
    }

    fn get(&self, name: &String) -> (r: Option<V>)
        ensures
            match r {
                Some(v) => self.view().contains_key(name@) && self.view()[name@] == v,
                None => !self.view().contains_key(name@),
            },
    {
        let mut i: usize = self.entries.len();
        while i > 0
            invariant
                i <= self.entries.len(),
                self.view().contains_key(name@) == bindings(self.entries@, i as nat).contains_key(
                    name@,
                ),
                self.view().contains_key(name@) ==> self.view()[name@] == bindings(
                    self.entries@,
                    i as nat,
                )[name@],
            decreases i,
        {
            i -= 1;
            if self.entries[i].0 == *name {
                return Some(self.entries[i].1);
            }
        }
        None
    }
}

proof fn lemma_bindings_prefix<V>(a: Seq<(String, V)>, b: Seq<(String, V)>, n: nat)
    requires
        n <= a.len() <= b.len(),
        forall|i: int| 0 <= i < n ==> a[i] == b[i],
    ensures
        bindings(a, n) == bindings(b, n),
    decreases n,
{
    if n > 0 {
        lemma_bindings_prefix(a, b, (n - 1) as nat);
    }
}

/// The variable ids that a scope stands for.
spec fn ids(m: Map<Seq<char>, usize>) -> Map<Seq<char>, nat> {
    m.map_values(|v: usize| v as nat)
}

/// The signatures that a scope stands for.
spec fn sigs(m: Map<Seq<char>, (usize, usize)>) -> Map<Seq<char>, Signature> {
    m.map_values(|v: (usize, usize)| Signature { index: v.0 as nat, arity: v.1 as nat })
}

spec fn names_of(vars: &Scope<usize>, funcs: &Scope<(usize, usize)>) -> Names {
    Names { vars: ids(vars.view()), funcs: sigs(funcs.view()) }
}

/// Resolves one expression under the names in scope.
#[verifier::loop_isolation(false)]
fn from_ast(e: ast::Expr, ns_vars: &Scope<usize>, ns_funcs: &Scope<(usize, usize)>) -> (r: Result<
    ir::Expr,
    CompileError,
>)
    ensures
        match r {
            Ok(x) => resolve_expr(e@, names_of(ns_vars, ns_funcs)) == Ok::<
                ir::ExprView,
                CompileError,
            >(x@),
            Err(err) => resolve_expr(e@, names_of(ns_vars, ns_funcs)) == Err::<
                ir::ExprView,
                CompileError,
            >(err),
        },
    decreases e,
{
    let ghost names = names_of(ns_vars, ns_funcs);
    match e {
        ast::Expr::Value(v) => Ok(ir::Expr::Value(v)),
        ast::Expr::Variable(s) => match ns_vars.get(&s) {
            Some(id) => Ok(ir::Expr::Variable(0, id)),
            None => Err(CompileError::UndefinedVariable),
        },
        ast::Expr::Operation(op, lhs, rhs) => {
            let l = match from_ast(*lhs, ns_vars, ns_funcs) {
                Ok(l) => l,
                Err(err) => {
                    return Err(err);
                },
            };
            let r = match from_ast(*rhs, ns_vars, ns_funcs) {
                Ok(r) => r,
                Err(err) => {
                    return Err(err);
                },
            };
            Ok(ir::Expr::Operation(op, Box::new(l), Box::new(r)))
        },
        ast::Expr::FuncCall(s, args) => {
            let (id, arity) = match ns_funcs.get(&s) {
                Some(sig) => sig,
                None => {
                    return Err(CompileError::UndefinedFunction);
                },
            };
            if args.len() != arity {
                return Err(CompileError::ArityMismatch);
            }
            let ghost before = e@->FuncCall_1;
            let ghost whole = resolve_args(before, 0, names, Seq::empty());
            let mut out: Vec<ir::Expr> = Vec::new();
            assert(ir::views(out@) =~= Seq::empty());
            for arg in it: args
                invariant
                    it.seq().len() == before.len(),
                    forall|j: int| 0 <= j < before.len() ==> it.seq()[j]@ == before[j],
                    out.len() == it.index(),
                    whole == resolve_args(before, out.len() as nat, names, ir::views(out@)),
            {
                let ghost done = ir::views(out@);
                match from_ast(arg, ns_vars, ns_funcs) {
                    Ok(x) => {
                        out.push(x);
                        assert(ir::views(out@) =~= done.push(x@));
                    },
                    Err(err) => {
                        return Err(err);
                    },
                }
            }
            let r = ir::Expr::FuncCall(id, out);
            assert(r@->FuncCall_1 =~= ir::views(out@));
            Ok(r)
        },
        ast::Expr::If(c, t, f) => {
            let rc = match from_ast(*c, ns_vars, ns_funcs) {
                Ok(x) => x,
                Err(err) => {
                    return Err(err);
                },
            };
            let rt = match from_ast(*t, ns_vars, ns_funcs) {
                Ok(x) => x,
                Err(err) => {
                    return Err(err);
                },
            };
            let rf = match from_ast(*f, ns_vars, ns_funcs) {
                Ok(x) => x,
                Err(err) => {
                    return Err(err);
                },
            };
            Ok(ir::Expr::If(Box::new(rc), Box::new(rt), Box::new(rf)))
        },
    }
}

/// The scope of a function body, from its parameter list.
#[verifier::loop_isolation(false)]
fn local_scope(params: Vec<String>) -> (s: Scope<usize>)
    ensures
        ids(s.view()) == parameters(ast::names(params@), params@.len()),
{
    let ghost list = ast::names(params@);
    let mut scope: Scope<usize> = Scope::new();
    let mut i: usize = 0;
    let count = params.len();
    assert(ids(scope.view()) =~= parameters(list, 0));
    for name in it: params
        invariant
            it.seq().len() == list.len(),
            forall|j: int| 0 <= j < list.len() ==> it.seq()[j]@ == list[j],
            i == it.index(),
            list.len() <= usize::MAX,
            ids(scope.view()) == parameters(list, i as nat),
    {
        assert(name@ == list[i as int]);
        let ghost m = scope.view();
        scope.insert(name, i);
        assert(ids(m.insert(name@, i)) =~= ids(m).insert(name@, i as nat));
        i += 1;
    }
    scope
}

/// Resolves a syntax tree into a [`Program`](ir::Program), all or nothing.
///
/// A `let` sees the bindings before it; a function body sees its own
/// parameters and the functions defined so far, itself included; a `print`
/// sees what a `let` at its place would see.
#[verifier::loop_isolation(false)]
pub fn compile(ast: Vec<ast::Stmt>) -> (r: Result<ir::Program, CompileError>)
    ensures
        match r {
            Ok(p) => resolve(ast::views(ast@)) == Ok::<ir::ProgramView, CompileError>(p@),
            Err(err) => resolve(ast::views(ast@)) == Err::<ir::ProgramView, CompileError>(err),
        },
{
    let ghost stmts = ast::views(ast@);
    let mut vars: Vec<ir::Expr> = Vec::new();
    let mut ns_vars: Scope<usize> = Scope::new();
    let mut funcs: Vec<ir::Expr> = Vec::new();
    let mut ns_funcs: Scope<(usize, usize)> = Scope::new();
    let mut prints: Vec<ir::Expr> = Vec::new();
    let ghost mut pass = Pass::start();
    let ghost mut n = 0nat;
    proof {
        assert(ir::views(vars@) =~= pass.program.vars);
        assert(ir::views(funcs@) =~= pass.program.funcs);
        assert(ir::views(prints@) =~= pass.program.prints);
        assert(ids(ns_vars.view()) =~= pass.names.vars);
        assert(sigs(ns_funcs.view()) =~= pass.names.funcs);
    }
    for stmt in it: ast
        invariant
            it.seq().len() == stmts.len(),
            forall|j: int| 0 <= j < stmts.len() ==> it.seq()[j]@ == stmts[j],
            n == it.index(),
            resolve_from(stmts, 0, Pass::start()) == resolve_from(stmts, n, pass),
            pass.program.vars == ir::views(vars@),
            pass.program.funcs == ir::views(funcs@),
            pass.program.prints == ir::views(prints@),
            pass.names == names_of(&ns_vars, &ns_funcs),
    {
        let ghost here = pass;
        proof {
            assert(stmt@ == stmts[n as int]);
            assert(resolve_from(stmts, n, here) == match here.step(stmt@) {
                Err(err) => Err(err),
                Ok(next) => resolve_from(stmts, n + 1, next),
            });
            n = n + 1;
        }
        match stmt {
            ast::Stmt::Binding(v, e) => {
                let id = vars.len();
                let ghost m = ns_vars.view();
                match from_ast(e, &ns_vars, &ns_funcs) {
                    Ok(x) => {
                        vars.push(x);
                        ns_vars.insert(v, id);
                        proof {
                            pass = here.step(stmt@).unwrap();
                            assert(ir::views(vars@) =~= here.program.vars.push(x@));
                            assert(ids(m.insert(v@, id)) =~= ids(m).insert(v@, id as nat));
                        }
                    },
                    Err(err) => {
                        return Err(err);
                    },
                }
            },
            ast::Stmt::Print(e) => {
                match from_ast(e, &ns_vars, &ns_funcs) {
                    Ok(x) => {
                        prints.push(x);
                        proof {
                            pass = here.step(stmt@).unwrap();
                            assert(ir::views(prints@) =~= here.program.prints.push(x@));
                        }
                    },
                    Err(err) => {
                        return Err(err);
                    },
                }
            },
            ast::Stmt::Define(f, a, e) => {
                let id = funcs.len();
                let arity = a.len();
                let ghost m = ns_funcs.view();
                ns_funcs.insert(f, (id, arity));
                proof {
                    assert(sigs(m.insert(f@, (id, arity))) =~= sigs(m).insert(
                        f@,
                        Signature { index: id as nat, arity: arity as nat },
                    ));
                }
                let local_vars = local_scope(a);
                match from_ast(e, &local_vars, &ns_funcs) {
                    Ok(x) => {
                        funcs.push(x);
                        proof {
                            pass = here.step(stmt@).unwrap();
                            assert(ir::views(funcs@) =~= here.program.funcs.push(x@));
                        }
                    },
                    Err(err) => {
                        return Err(err);
                    },
                }
            },
        }
    }
    Ok(ir::Program { vars, funcs, prints })
}

} // verus!
