//! The lazy evaluator: bindings and arguments are suspended, forced on their
//! first use, and cached. A binding that needs its own value finds its slot
//! empty.
use crate::error::{EvalError, RunError};
use crate::eval::eager::arith;
use crate::eval::namespace::{NameSpace, Table};
use crate::eval::operation::operation;
use crate::eval::{outcome, Evaluator, Trace, DEFAULT_DEPTH};
use crate::ir::{views, Expr, ExprView, Program, ProgramView};
use crate::printer::{Printer, Recorder};
use vstd::prelude::*;

verus! {

/// What a slot of the lazy evaluator holds.
#[derive(Clone, Debug, PartialEq, Eq)]
pub enum Var {
    /// An expression that has not been evaluated yet.
    Thunk(Expr),
    /// The value that the expression gave.
    Cached(i32),
}

/// The mathematical content of a [`Var`].
pub enum VarView {
    Thunk(ExprView),
    Cached(i32),
}

impl View for Var {
    type V = VarView;

    open spec fn view(&self) -> VarView {
        match self {
            Var::Thunk(e) => VarView::Thunk(e@),
            Var::Cached(v) => VarView::Cached(*v),
        }
    }
}

/// The content of a slot.
pub open spec fn slot_view(slot: Option<Var>) -> Option<VarView> {
    match slot {
        None => None,
        Some(var) => Some(var@),
    }
}

/// The content of a table of the lazy evaluator.
pub open spec fn thunks(t: Table<Var>) -> Table<VarView> {
    Table { slots: Seq::new(t.slots.len(), |i: int| slot_view(t.slots[i])), offsets: t.offsets }
}

/// The table after a frame was opened and `args` were suspended in it.
pub open spec fn enter(t: Table<VarView>, args: Seq<ExprView>) -> Table<VarView> {
    Table {
        slots: t.slots + Seq::new(args.len(), |i: int| Some(VarView::Thunk(args[i]))),
        offsets: t.offsets.push(t.slots.len()),
    }
}

/// The value of `e` in the table `t` and the table afterwards, with `fuel`
/// levels of calls and forced bindings to spend.
pub open spec fn lazy_eval(e: ExprView, t: Table<VarView>, funcs: Seq<ExprView>, fuel: nat) -> Result<
    (i32, Table<VarView>),
    EvalError,
>
    decreases fuel, 1nat, e,
{
    match e {
        ExprView::Value(v) => Ok((v, t)),
        ExprView::Variable(depth, id) => match t.peek(depth, id) {
            Err(err) => Err(EvalError::Scope(err)),
            Ok(var) => match lazy_force(var, t.take(depth, id), funcs, fuel) {
                Err(err) => Err(err),
                Ok((v, after)) => match after.accepts(depth, id) {
                    Err(err) => Err(EvalError::Scope(err)),
                    Ok(_) => Ok((v, after.put_back(depth, id, VarView::Cached(v)))),
                },
            },
        },
        ExprView::Operation(op, lhs, rhs) => match lazy_eval(*lhs, t, funcs, fuel) {
            Err(err) => Err(err),
            Ok((l, t1)) => match lazy_eval(*rhs, t1, funcs, fuel) {
                Err(err) => Err(err),
                Ok((r, t2)) => match arith(op, l, r) {
                    Err(err) => Err(err),
                    Ok(v) => Ok((v, t2)),
                },
            },
        },
        ExprView::FuncCall(f, args) => if f >= funcs.len() {
            Err(EvalError::UndefinedFunction)
        } else {
            lazy_call(funcs[f as int], args, t, funcs, fuel)
        },
        ExprView::If(c, then, otherwise) => match lazy_eval(*c, t, funcs, fuel) {
            Err(err) => Err(err),
            Ok((v, t1)) => if v != 0 {
                lazy_eval(*then, t1, funcs, fuel)
            } else {
                lazy_eval(*otherwise, t1, funcs, fuel)
            },
        },
    }
}

/// The value of what was taken out of a slot: a cached value as it is, a
/// suspended expression by evaluating it one level deeper.
pub open spec fn lazy_force(var: VarView, t: Table<VarView>, funcs: Seq<ExprView>, fuel: nat) -> Result<
    (i32, Table<VarView>),
    EvalError,
>
    decreases fuel, 0nat, var,
{
    match var {
        VarView::Cached(v) => Ok((v, t)),
        VarView::Thunk(e) => if fuel == 0 {
            Err(EvalError::DepthExceeded)
        } else {
            lazy_eval(e, t, funcs, (fuel - 1) as nat)
        },
    }
}

/// The value of a call of `body` with `args`: the arguments are suspended in
/// a new frame, the body is evaluated there one level deeper, and the frame
/// is closed.
pub open spec fn lazy_call(
    body: ExprView,
    args: Seq<ExprView>,
    t: Table<VarView>,
    funcs: Seq<ExprView>,
    fuel: nat,
) -> Result<(i32, Table<VarView>), EvalError>
    decreases fuel, 0nat, body,
{
    if fuel == 0 {
        Err(EvalError::DepthExceeded)
    } else {
        match lazy_eval(body.circulate(t.offsets.len()), enter(t, args), funcs, (fuel - 1) as nat) {
            Err(err) => Err(err),
            Ok((v, after)) => Ok((v, after.close())),
        }
    }
}

/// How the table that a lazy evaluation leaves relates to the one it found:
/// the frames are the same, no slot is emptied or filled, a cached value
/// stays, and a suspended expression stays or gives way to a cached value.
pub open spec fn settles(before: Table<VarView>, after: Table<VarView>) -> bool {
    &&& after.wf()
    &&& after.offsets == before.offsets
    &&& after.slots.len() == before.slots.len()
    &&& forall|i: int|
        0 <= i < before.slots.len() ==> match #[trigger] before.slots[i] {
            None => after.slots[i] is None,
            Some(VarView::Cached(v)) => after.slots[i] == Some(VarView::Cached(v)),
            Some(VarView::Thunk(_)) => after.slots[i] == before.slots[i] || (
            after.slots[i] matches Some(VarView::Cached(_))),
        }
}

/// An evaluation that gives a value leaves a table that [`settles`] the one
/// it found.
#[verifier::rlimit(50)]
pub proof fn lemma_lazy_settles(e: ExprView, t: Table<VarView>, funcs: Seq<ExprView>, fuel: nat)
    requires
        t.wf(),
    ensures
        lazy_eval(e, t, funcs, fuel) matches Ok((_, after)) ==> settles(t, after),
    decreases fuel, e,
{
    reveal_with_fuel(lazy_eval, 2);
    reveal_with_fuel(lazy_force, 2);
    reveal_with_fuel(lazy_call, 2);
    match e {
        ExprView::Value(_) => {},
        ExprView::Variable(depth, id) => {
            t.lemma_position(depth, id);
            if let Ok(var) = t.peek(depth, id) {
                let taken = t.take(depth, id);
                let pos = t.position(depth, id).unwrap() as int;
                if let VarView::Thunk(inner) = var {
                    if fuel > 0 {
                        lemma_lazy_settles(inner, taken, funcs, (fuel - 1) as nat);
                    }
                }
                if let Ok((v, after)) = lazy_force(var, taken, funcs, fuel) {
                    assert(settles(taken, after));
                    assert(taken.slots[pos] is None);
                    let last = after.put_back(depth, id, VarView::Cached(v));
                    assert(settles(t, last)) by {
                        assert forall|i: int| 0 <= i < t.slots.len() implies match #[trigger] t.slots[i] {
                            None => last.slots[i] is None,
                            Some(VarView::Cached(v)) => last.slots[i] == Some(VarView::Cached(v)),
                            Some(VarView::Thunk(_)) => last.slots[i] == t.slots[i] || (
                            last.slots[i] matches Some(VarView::Cached(_))),
                        } by {
                            if i != pos {
                                assert(taken.slots[i] == t.slots[i]);
                            }
                        }
                    }
                }
            }
        },
        ExprView::Operation(op, lhs, rhs) => {
            lemma_lazy_settles(*lhs, t, funcs, fuel);
            if let Ok((_, t1)) = lazy_eval(*lhs, t, funcs, fuel) {
                lemma_lazy_settles(*rhs, t1, funcs, fuel);
                if let Ok((_, t2)) = lazy_eval(*rhs, t1, funcs, fuel) {
                    lemma_settles_trans(t, t1, t2);
                }
            }
        },
        ExprView::FuncCall(f, args) => {
            if f < funcs.len() && fuel > 0 {
                let inner = enter(t, args);
                lemma_enter(t, args);
                let body = funcs[f as int].circulate(t.offsets.len());
                lemma_lazy_settles(body, inner, funcs, (fuel - 1) as nat);
                if let Ok((_, after)) = lazy_eval(body, inner, funcs, (fuel - 1) as nat) {
                    let last = after.close();
                    assert(last.offsets =~= t.offsets);
                    assert(settles(t, last)) by {
                        assert forall|i: int| 0 <= i < t.slots.len() implies match #[trigger] t.slots[i] {
                            None => last.slots[i] is None,
                            Some(VarView::Cached(v)) => last.slots[i] == Some(VarView::Cached(v)),
                            Some(VarView::Thunk(_)) => last.slots[i] == t.slots[i] || (
                            last.slots[i] matches Some(VarView::Cached(_))),
                        } by {
                            assert(inner.slots[i] == t.slots[i]);
                        }
                    }
                }
            }
        },
        ExprView::If(c, then, otherwise) => {
            lemma_lazy_settles(*c, t, funcs, fuel);
            if let Ok((v, t1)) = lazy_eval(*c, t, funcs, fuel) {
                if v != 0 {
                    lemma_lazy_settles(*then, t1, funcs, fuel);
                    if let Ok((_, t2)) = lazy_eval(*then, t1, funcs, fuel) {
                        lemma_settles_trans(t, t1, t2);
                    }
                } else {
                    lemma_lazy_settles(*otherwise, t1, funcs, fuel);
                    if let Ok((_, t2)) = lazy_eval(*otherwise, t1, funcs, fuel) {
                        lemma_settles_trans(t, t1, t2);
                    }
                }
            }
        },
    }
}

/// [`settles`] carries over a table in between.
pub proof fn lemma_settles_trans(a: Table<VarView>, b: Table<VarView>, c: Table<VarView>)
    requires
        settles(a, b),
        settles(b, c),
    ensures
        settles(a, c),
{
    assert forall|i: int| 0 <= i < a.slots.len() implies match #[trigger] a.slots[i] {
        None => c.slots[i] is None,
        Some(VarView::Cached(v)) => c.slots[i] == Some(VarView::Cached(v)),
        Some(VarView::Thunk(_)) => c.slots[i] == a.slots[i] || (c.slots[i] matches Some(
            VarView::Cached(_),
        )),
    } by {
        let _ = b.slots[i];
    }
}

/// The frame that a call opens: the table stays well formed and closing the
/// frame gives the table back.
pub proof fn lemma_enter(t: Table<VarView>, args: Seq<ExprView>)
    requires
        t.wf(),
    ensures
        enter(t, args).wf(),
        enter(t, args).close() == t,
        enter(t, args).offsets == t.offsets.push(t.slots.len()),
        enter(t, args).slots.len() == t.slots.len() + args.len(),
        forall|i: int| 0 <= i < t.slots.len() ==> enter(t, args).slots[i] == t.slots[i],
        forall|i: int|
            0 <= i < args.len() ==> #[trigger] enter(t, args).slots[t.slots.len() + i] == Some(
                VarView::Thunk(args[i]),
            ),
{
    let inner = enter(t, args);
    assert(inner.offsets.drop_last() =~= t.offsets);
    assert(inner.slots.take(inner.offsets.last() as int) =~= t.slots);
}

/// A variable that was read holds its value: the slot is cached when the
/// read gives a value.
pub proof fn lemma_read_caches(
    depth: nat,
    id: nat,
    t: Table<VarView>,
    funcs: Seq<ExprView>,
    fuel: nat,
)
    requires
        t.wf(),
    ensures
        lazy_eval(ExprView::Variable(depth, id), t, funcs, fuel) matches Ok((v, after))
            ==> after.peek(depth, id) == Ok::<VarView, crate::error::ScopeError>(
            VarView::Cached(v),
        ),
{
    reveal_with_fuel(lazy_eval, 2);
    reveal_with_fuel(lazy_force, 2);
    let e = ExprView::Variable(depth, id);
    lemma_lazy_settles(e, t, funcs, fuel);
    t.lemma_position(depth, id);
    if let Ok(var) = t.peek(depth, id) {
        let taken = t.take(depth, id);
        if let VarView::Thunk(inner) = var {
            if fuel > 0 {
                lemma_lazy_settles(inner, taken, funcs, (fuel - 1) as nat);
            }
        }
    }
}

/// A cached variable is not evaluated again: whatever the functions and the
/// depth left, a read gives the cached value and leaves the table as it is.
pub proof fn lemma_cached_read(
    depth: nat,
    id: nat,
    v: i32,
    t: Table<VarView>,
    funcs: Seq<ExprView>,
    fuel: nat,
)
    requires
        t.wf(),
        t.peek(depth, id) == Ok::<VarView, crate::error::ScopeError>(VarView::Cached(v)),
    ensures
        lazy_eval(ExprView::Variable(depth, id), t, funcs, fuel) == Ok::<
            (i32, Table<VarView>),
            EvalError,
        >((v, t)),
{
    let taken = t.take(depth, id);
    t.lemma_position(depth, id);
    reveal_with_fuel(lazy_eval, 2);
    reveal_with_fuel(lazy_force, 2);
    assert(taken.put_back(depth, id, VarView::Cached(v)).slots =~= t.slots);
}

/// What the lazy table shows where the table holds `Var`s.
proof fn lemma_thunks(t: Table<Var>, depth: nat, id: nat)
    requires
        t.wf(),
    ensures
        thunks(t).wf(),
        thunks(t).position(depth, id) == t.position(depth, id),
        thunks(t).accepts(depth, id) == t.accepts(depth, id),
        thunks(t).peek(depth, id) == match t.peek(depth, id) {
            Ok(var) => Ok::<VarView, crate::error::ScopeError>(var@),
            Err(err) => Err(err),
        },
        thunks(t.take(depth, id)) == thunks(t).take(depth, id),
        thunks(t.open()) == thunks(t).open(),
        thunks(t.close()) == thunks(t).close(),
        forall|var: Var| #[trigger]
            thunks(t.put_back(depth, id, var)) == thunks(t).put_back(depth, id, var@),
        forall|var: Var| #[trigger] thunks(t.push(var)) == thunks(t).push(var@),
{
    assert(thunks(t.take(depth, id)).slots =~= thunks(t).take(depth, id).slots);
    assert(thunks(t.open()).slots =~= thunks(t).open().slots);
    assert(thunks(t.close()).slots =~= thunks(t).close().slots);
    assert forall|var: Var| #[trigger]
        thunks(t.put_back(depth, id, var)) == thunks(t).put_back(depth, id, var@) by {
        assert(thunks(t.put_back(depth, id, var)).slots =~= thunks(t).put_back(
            depth,
            id,
            var@,
        ).slots);
    }
    assert forall|var: Var| #[trigger] thunks(t.push(var)) == thunks(t).push(var@) by {
        assert(thunks(t.push(var)).slots =~= thunks(t).push(var@).slots);
    }
}

impl Var {
    /// The value of what a slot held: see [`lazy_force`].
    pub fn get(self, ns: &mut NameSpace<Var>, funcs: &[Expr], fuel: usize) -> (r: Result<
        i32,
        EvalError,
    >)
        requires
            old(ns).wf(),
        ensures
            final(ns).wf(),
            r is Err ==> final(ns)@.outlasts(old(ns)@),
            match r {
                Ok(v) => lazy_force(self@, thunks(old(ns)@), views(funcs@), fuel as nat) == Ok::<
                    (i32, Table<VarView>),
                    EvalError,
                >((v, thunks(final(ns)@))),
                Err(err) => lazy_force(self@, thunks(old(ns)@), views(funcs@), fuel as nat) == Err::<
                    (i32, Table<VarView>),
                    EvalError,
                >(err),
            },
        decreases fuel, 0nat, self,
    {
        match self {
            Var::Thunk(e) => {
                if fuel == 0 {
                    return Err(EvalError::DepthExceeded);
                }
                eval_expr(e, ns, funcs, fuel - 1)
            },
            Var::Cached(i) => Ok(i),
        }
    }
}

/// Evaluates `expr` lazily. Every variable that is read is cached in its
/// slot when a value comes back.
#[verifier::rlimit(50)]
pub fn eval_expr(expr: Expr, ns: &mut NameSpace<Var>, funcs: &[Expr], fuel: usize) -> (r: Result<
    i32,
    EvalError,
>)
    requires
        old(ns).wf(),
    ensures
        final(ns).wf(),
        r is Err ==> final(ns)@.outlasts(old(ns)@),
        match r {
            Ok(v) => lazy_eval(expr@, thunks(old(ns)@), views(funcs@), fuel as nat) == Ok::<
                (i32, Table<VarView>),
                EvalError,
            >((v, thunks(final(ns)@))),
            Err(err) => lazy_eval(expr@, thunks(old(ns)@), views(funcs@), fuel as nat) == Err::<
                (i32, Table<VarView>),
                EvalError,
            >(err),
        },
    decreases fuel, 1nat, expr,
{
    match expr {
        Expr::Value(v) => Ok(v),
        Expr::Variable(depth, id) => {
            proof {
                lemma_thunks(ns@, depth as nat, id as nat);
            }
            let var = match ns.borrow(depth, id) {
                Ok(var) => var,
                Err(err) => {
                    return Err(EvalError::Scope(err));
                },
            };
            let ghost taken = ns@;
            proof {
                old(ns)@.lemma_position(depth as nat, id as nat);
                assert(taken.outlasts(old(ns)@));
            }
            let val = match var.get(ns, funcs, fuel) {
                Ok(val) => val,
                Err(err) => {
                    return Err(err);
                },
            };
            proof {
                lemma_thunks(ns@, depth as nat, id as nat);
                lemma_thunks(taken, 0, 0);
                if let VarView::Thunk(inner) = var@ {
                    lemma_lazy_settles(inner, thunks(taken), views(funcs@), (fuel - 1) as nat);
                }
                assert(ns@.outlasts(taken));
            }
            match ns.ret(depth, id, Var::Cached(val)) {
                Ok(_) => Ok(val),
                Err(err) => Err(EvalError::Scope(err)),
            }
        },
        Expr::Operation(op, lhs, rhs) => {
            let l = match eval_expr(*lhs, ns, funcs, fuel) {
                Ok(v) => v,
                Err(err) => {
                    return Err(err);
                },
            };
            let ghost mid = ns@;
            proof {
                lemma_thunks(old(ns)@, 0, 0);
                lemma_lazy_settles(*expr@->Operation_1, thunks(old(ns)@), views(funcs@), fuel as nat);
                assert(mid.outlasts(old(ns)@));
            }
            let r = match eval_expr(*rhs, ns, funcs, fuel) {
                Ok(v) => v,
                Err(err) => {
                    return Err(err);
                },
            };
            proof {
                lemma_thunks(mid, 0, 0);
                lemma_lazy_settles(*expr@->Operation_2, thunks(mid), views(funcs@), fuel as nat);
                assert(ns@.outlasts(mid));
            }
            match operation(op, l, r) {
                Ok(v) => Ok(v),
                Err(err) => Err(EvalError::Arithmetic(err)),
            }
        },
        Expr::FuncCall(f, a) => {
            if f >= funcs.len() {
                return Err(EvalError::UndefinedFunction);
            }
            assert(views(a@) =~= expr@->FuncCall_1);
            funccall(funcs[f].clone(), a, ns, funcs, fuel)
        },
        Expr::If(c, t, f) => {
            let v = match eval_expr(*c, ns, funcs, fuel) {
                Ok(v) => v,
                Err(err) => {
                    return Err(err);
                },
            };
            proof {
                lemma_thunks(old(ns)@, 0, 0);
                lemma_lazy_settles(*expr@->If_0, thunks(old(ns)@), views(funcs@), fuel as nat);
                assert(ns@.outlasts(old(ns)@));
            }
            if v != 0 {
                eval_expr(*t, ns, funcs, fuel)
            } else {
                eval_expr(*f, ns, funcs, fuel)
            }
        },
    }
}

/// Calls `func` with `args` lazily, in a frame of its own.
#[verifier::loop_isolation(false)]
pub fn funccall(
    func: Expr,
    args: Vec<Expr>,
    ns: &mut NameSpace<Var>,
    funcs: &[Expr],
    fuel: usize,
) -> (r: Result<i32, EvalError>)
    requires
        old(ns).wf(),
    ensures
        final(ns).wf(),
        r is Err ==> final(ns)@.outlasts(old(ns)@),
        match r {
            Ok(v) => lazy_call(
                func@,
                views(args@),
                thunks(old(ns)@),
                views(funcs@),
                fuel as nat,
            ) == Ok::<(i32, Table<VarView>), EvalError>((v, thunks(final(ns)@))),
            Err(err) => lazy_call(
                func@,
                views(args@),
                thunks(old(ns)@),
                views(funcs@),
                fuel as nat,
            ) == Err::<(i32, Table<VarView>), EvalError>(err),
        },
    decreases fuel, 0nat, func,
{
    if fuel == 0 {
        return Err(EvalError::DepthExceeded);
    }
    let ghost list = views(args@);
    let ghost before = thunks(old(ns)@);
    proof {
        lemma_thunks(ns@, 0, 0);
    }
    let depth = ns.chunk();
    let ghost mut n = 0nat;
    assert(thunks(ns@).slots =~= before.slots + Seq::new(
        0,
        |i: int| Some(VarView::Thunk(list[i])),
    ));
    for arg in it: args
        invariant
            it.seq() == args@,
            n == it.index(),
            n <= list.len(),
            ns.wf(),
            thunks(ns@).offsets == before.offsets.push(before.slots.len()),
            thunks(ns@).slots == before.slots + Seq::new(n, |i: int| Some(VarView::Thunk(list[i]))),
    {
        assert(arg@ == list[n as int]);
        proof {
            lemma_thunks(ns@, 0, 0);
        }
        let ghost here = thunks(ns@);
        ns.register(Var::Thunk(arg));
        proof {
            n = n + 1;
            assert(thunks(ns@).slots =~= before.slots + Seq::new(
                n,
                |i: int| Some(VarView::Thunk(list[i])),
            ));
        }
    }
    assert(thunks(ns@) == enter(before, list));
    let res = match eval_expr(func.circulate(depth), ns, funcs, fuel - 1) {
        Ok(v) => v,
        Err(err) => {
            return Err(err);
        },
    };
    proof {
        lemma_thunks(ns@, 0, 0);
    }
    ns.back();
    Ok(res)
}

/// The values of `prints[from..]` after `done`, each evaluated in the table
/// that the one before it left, up to the first failure.
pub open spec fn lazy_prints(
    prints: Seq<ExprView>,
    from: nat,
    t: Table<VarView>,
    funcs: Seq<ExprView>,
    fuel: nat,
    done: Seq<i32>,
) -> Trace
    decreases prints.len() - from,
{
    if from >= prints.len() {
        Trace { printed: done, failure: None }
    } else {
        match lazy_eval(prints[from as int], t, funcs, fuel) {
            Err(err) => Trace { printed: done, failure: Some(err) },
            Ok((v, after)) => lazy_prints(prints, from + 1, after, funcs, fuel, done.push(v)),
        }
    }
}

/// The table in which the `let`s of a program are suspended, in declaration
/// order, in the outermost frame.
pub open spec fn suspended(vars: Seq<ExprView>) -> Table<VarView> {
    Table {
        slots: Seq::new(vars.len(), |i: int| Some(VarView::Thunk(vars[i]))),
        offsets: seq![0nat],
    }
}

/// The lazy run of a program: every `let` is suspended, then every `print`
/// is evaluated in source order.
pub open spec fn lazy_run(p: ProgramView, fuel: nat) -> Trace {
    lazy_prints(p.prints, 0, suspended(p.vars), p.funcs, fuel, Seq::empty())
}

/// A trace holds at least what was printed before it was taken up.
pub proof fn lemma_lazy_prints_extend(
    prints: Seq<ExprView>,
    from: nat,
    t: Table<VarView>,
    funcs: Seq<ExprView>,
    fuel: nat,
    done: Seq<i32>,
)
    ensures
        done.is_prefix_of(lazy_prints(prints, from, t, funcs, fuel, done).printed),
    decreases prints.len() - from,
{
    if from < prints.len() {
        match lazy_eval(prints[from as int], t, funcs, fuel) {
            Err(_) => {},
            Ok((v, after)) => {
                lemma_lazy_prints_extend(prints, from + 1, after, funcs, fuel, done.push(v));
                assert(done =~= done.push(v).take(done.len() as int));
            },
        }
    }
}

/// The lazy evaluator.
#[derive(Copy, Clone, Debug, PartialEq, Eq)]
pub struct LazyEval {
    /// How deep calls and forced bindings may nest before the run fails with
    /// `DepthExceeded`.
    pub depth: usize,
}

impl LazyEval {
    /// A lazy evaluator with the default depth.
    pub fn new() -> (e: Self)
        ensures
            e.depth == DEFAULT_DEPTH,
    {
        LazyEval { depth: DEFAULT_DEPTH }
    }

    /// Runs `ir` and collects the value of each `print` in place of printing
    /// it. The error, if there is one, is what ended the run.
    pub fn run(&self, ir: Program) -> (r: (Vec<i32>, Option<EvalError>))
        ensures
            r.0@ == lazy_run(ir@, self.depth as nat).printed,
            r.1 == lazy_run(ir@, self.depth as nat).failure,
    {
        let mut recorder = Recorder::new();
        let failure = match self.evaluate(ir, &mut recorder) {
            Ok(_) => None,
            Err(RunError::Eval(err)) => Some(err),
            Err(RunError::Sink(_)) => None,
        };
        assert(recorder@ =~= lazy_run(ir@, self.depth as nat).printed);
        (recorder.into_values(), failure)
    }
}


/// Registers each `let` as a thunk in the outermost frame of a fresh table.
#[verifier::loop_isolation(false)]
fn suspend(vars: Vec<Expr>) -> (ns: NameSpace<Var>)
    ensures
        ns.wf(),
        thunks(ns@) == suspended(views(vars@)),
{
    let ghost list = views(vars@);
    let mut ns: NameSpace<Var> = NameSpace::new();
    let ghost mut n = 0nat;
    assert(thunks(ns@).slots =~= Seq::new(0, |i: int| Some(VarView::Thunk(list[i]))));
    for var in it: vars
        invariant
            it.seq() == vars@,
            n == it.index(),
            n <= list.len(),
            ns.wf(),
            thunks(ns@).offsets == seq![0nat],
            thunks(ns@).slots == Seq::new(n, |i: int| Some(VarView::Thunk(list[i]))),
    {
        assert(var@ == list[n as int]);
        proof {
            lemma_thunks(ns@, 0, 0);
        }
        ns.register(Var::Thunk(var));
        proof {
            n = n + 1;
            assert(thunks(ns@).slots =~= Seq::new(n, |i: int| Some(VarView::Thunk(list[i]))));
        }
    }
    ns
}

impl Evaluator for LazyEval {
    open spec fn trace(&self, program: ProgramView) -> Option<Trace> {
        Some(lazy_run(program, self.depth as nat))
    }

    #[verifier::loop_isolation(false)]
    fn evaluate<P: Printer>(&self, ir: Program, printer: &mut P) -> (r: Result<
        (),
        RunError<P::Err>,
    >) {
        let ghost program = ir@;
        let Program { funcs, vars, prints } = ir;
        let ghost fs = views(funcs@);
        let fuel = self.depth;
        let mut ns = suspend(vars);
        let ghost mut done = Seq::<i32>::empty();
        let ghost mut k = 0nat;
        proof {
            if let Some(log) = old(printer).log() {
                assert(log + done =~= log);
            }
        }
        for print in it: prints
            invariant
                it.seq() == prints@,
                k == it.index(),
                ns.wf(),
                old(printer).log() matches Some(log) ==> printer.log() == Some(log + done),
                old(printer).reliable() ==> printer.reliable(),
                lazy_run(program, fuel as nat) == lazy_prints(
                    program.prints,
                    k,
                    thunks(ns@),
                    fs,
                    fuel as nat,
                    done,
                ),
        {
            assert(print@ == program.prints[k as int]);
            let val = match eval_expr(print, &mut ns, funcs.as_slice(), fuel) {
                Ok(val) => val,
                Err(err) => {
                    return Err(RunError::Eval(err));
                },
            };
            proof {
                lemma_lazy_prints_extend(
                    program.prints,
                    k + 1,
                    thunks(ns@),
                    fs,
                    fuel as nat,
                    done.push(val),
                );
            }
            let ghost full = lazy_run(program, fuel as nat).printed;
            match RunError::of_printer(printer.print(val)) {
                Ok(_) => {},
                Err(err) => {
                    assert(full.take(done.len() as int) =~= done);
                    return Err(err);
                },
            }
            proof {
                if let Some(log) = old(printer).log() {
                    assert(log + done.push(val) =~= (log + done).push(val));
                }
                done = done.push(val);
                k = k + 1;
            }
        }
        Ok(())
    }
}

} // verus!
