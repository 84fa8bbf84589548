//! The semantics of environments: what an expression is worth where its
//! variables are the positions of a sequence of values, and a function
//! sees its arguments and nothing else. On a program whose bindings and
//! prints address the outermost frame, as resolution leaves them, the strict
//! run over the slot table is the run in this semantics.
use crate::ast;
use crate::error::{EvalError, ScopeError};
use crate::eval::eager::{arith, strict_bind, strict_call, strict_eval, strict_prints, strict_run};
use crate::eval::namespace::Table;
use crate::eval::Trace;
use crate::ir::{ExprView, ProgramView};
use crate::resolve::{resolve, resolve_args, resolve_expr, resolve_from, Names, Pass};
use vstd::prelude::*;

verus! {

/// Whether every variable of `e` addresses the frame `depth`.
pub open spec fn uniform(e: ExprView, depth: nat) -> bool
    decreases e,
{
    match e {
        ExprView::Value(_) => true,
        ExprView::Variable(d, _) => d == depth,
        ExprView::Operation(_, lhs, rhs) => uniform(*lhs, depth) && uniform(*rhs, depth),
        ExprView::FuncCall(_, args) => forall|i: int|
            0 <= i < args.len() ==> uniform(#[trigger] args[i], depth),
        ExprView::If(c, t, f) => uniform(*c, depth) && uniform(*t, depth) && uniform(*f, depth),
    }
}

/// The value of `e` where its variables are the positions of `env`.
pub open spec fn value(e: ExprView, env: Seq<i32>, funcs: Seq<ExprView>, fuel: nat) -> Result<
    i32,
    EvalError,
>
    decreases fuel, e, 0nat,
{
    match e {
        ExprView::Value(v) => Ok(v),
        ExprView::Variable(_, id) => if id < env.len() {
            Ok(env[id as int])
        } else {
            Err(EvalError::Scope(ScopeError::IllegalId))
        },
        ExprView::Operation(op, lhs, rhs) => match value(*lhs, env, funcs, fuel) {
            Err(err) => Err(err),
            Ok(l) => match value(*rhs, env, funcs, fuel) {
                Err(err) => Err(err),
                Ok(r) => arith(op, l, r),
            },
        },
        ExprView::FuncCall(f, args) => if f >= funcs.len() {
            Err(EvalError::UndefinedFunction)
        } else if fuel == 0 {
            Err(EvalError::DepthExceeded)
        } else {
            match values(args, 0, env, funcs, fuel, Seq::empty()) {
                Err(err) => Err(err),
                Ok(params) => value(funcs[f as int], params, funcs, (fuel - 1) as nat),
            }
        },
        ExprView::If(c, then, otherwise) => match value(*c, env, funcs, fuel) {
            Err(err) => Err(err),
            Ok(v) => if v != 0 {
                value(*then, env, funcs, fuel)
            } else {
                value(*otherwise, env, funcs, fuel)
            },
        },
    }
}

/// `done` followed by the values of `exprs[from..]` in `env`.
pub open spec fn values(
    exprs: Seq<ExprView>,
    from: nat,
    env: Seq<i32>,
    funcs: Seq<ExprView>,
    fuel: nat,
    done: Seq<i32>,
) -> Result<Seq<i32>, EvalError>
    decreases fuel, exprs, exprs.len() - from,
{
    if from >= exprs.len() {
        Ok(done)
    } else {
        match value(exprs[from as int], env, funcs, fuel) {
            Err(err) => Err(err),
            Ok(v) => values(exprs, from + 1, env, funcs, fuel, done.push(v)),
        }
    }
}

/// `done` followed by the values of the bindings `vars[from..]`, each in the
/// environment of the bindings before it.
pub open spec fn bindings(
    vars: Seq<ExprView>,
    from: nat,
    funcs: Seq<ExprView>,
    fuel: nat,
    done: Seq<i32>,
) -> Result<Seq<i32>, EvalError>
    decreases vars.len() - from,
{
    if from >= vars.len() {
        Ok(done)
    } else {
        match value(vars[from as int], done, funcs, fuel) {
            Err(err) => Err(err),
            Ok(v) => bindings(vars, from + 1, funcs, fuel, done.push(v)),
        }
    }
}

/// Whether the frame `depth` of `t` holds the values `env` and nothing else.
pub open spec fn holds(t: Table<i32>, depth: nat, env: Seq<i32>) -> bool {
    &&& depth < t.offsets.len()
    &&& t.offsets[depth as int] + env.len() == t.bound(depth)
    &&& forall|i: int|
        0 <= i < env.len() ==> #[trigger] t.slots[t.offsets[depth as int] + i] == Some(env[i])
}

/// The table with `items` registered in its innermost frame.
pub open spec fn pushes(t: Table<i32>, items: Seq<i32>) -> Table<i32> {
    Table { slots: t.slots + items.map_values(|v: i32| Some(v)), offsets: t.offsets }
}

/// The value of an expression does not depend on the frame that its
/// variables address.
pub proof fn lemma_value_circulate(
    e: ExprView,
    depth: nat,
    env: Seq<i32>,
    funcs: Seq<ExprView>,
    fuel: nat,
)
    ensures
        value(e.circulate(depth), env, funcs, fuel) == value(e, env, funcs, fuel),
        uniform(e.circulate(depth), depth),
    decreases e, 0nat,
{
    reveal_with_fuel(value, 2);
    reveal_with_fuel(uniform, 2);
    match e {
        ExprView::Value(_) => {},
        ExprView::Variable(_, _) => {},
        ExprView::Operation(_, lhs, rhs) => {
            lemma_value_circulate(*lhs, depth, env, funcs, fuel);
            lemma_value_circulate(*rhs, depth, env, funcs, fuel);
        },
        ExprView::FuncCall(f, args) => {
            let moved = e.circulate(depth)->FuncCall_1;
            assert forall|i: int| 0 <= i < moved.len() implies uniform(
                #[trigger] moved[i],
                depth,
            ) by {
                lemma_value_circulate(args[i], depth, env, funcs, fuel);
            }
            lemma_values_circulate(args, 0, depth, env, funcs, fuel, Seq::empty());
        },
        ExprView::If(c, t, f) => {
            lemma_value_circulate(*c, depth, env, funcs, fuel);
            lemma_value_circulate(*t, depth, env, funcs, fuel);
            lemma_value_circulate(*f, depth, env, funcs, fuel);
        },
    }
}

pub proof fn lemma_values_circulate(
    args: Seq<ExprView>,
    from: nat,
    depth: nat,
    env: Seq<i32>,
    funcs: Seq<ExprView>,
    fuel: nat,
    done: Seq<i32>,
)
    ensures
        values(ExprView::FuncCall(0, args).circulate(depth)->FuncCall_1, from, env, funcs, fuel, done)
            == values(args, from, env, funcs, fuel, done),
    decreases args, args.len() - from,
{
    reveal_with_fuel(values, 2);
    let moved = ExprView::FuncCall(0, args).circulate(depth)->FuncCall_1;
    if from < args.len() {
        lemma_value_circulate(args[from as int], depth, env, funcs, fuel);
        match value(args[from as int], env, funcs, fuel) {
            Err(_) => {},
            Ok(v) => {
                lemma_values_circulate(args, from + 1, depth, env, funcs, fuel, done.push(v));
            },
        }
    }
}

/// The values of `prints[from..]` in `env` after `done`, up to the first
/// failure.
pub open spec fn outputs(
    prints: Seq<ExprView>,
    from: nat,
    env: Seq<i32>,
    funcs: Seq<ExprView>,
    fuel: nat,
    done: Seq<i32>,
) -> Trace
    decreases prints.len() - from,
{
    if from >= prints.len() {
        Trace { printed: done, failure: None }
    } else {
        match value(prints[from as int], env, funcs, fuel) {
            Err(err) => Trace { printed: done, failure: Some(err) },
            Ok(v) => outputs(prints, from + 1, env, funcs, fuel, done.push(v)),
        }
    }
}

/// The run of a program in the semantics of environments: the bindings are
/// evaluated in declaration order, then the prints in the environment of
/// all bindings.
pub open spec fn run(p: ProgramView, fuel: nat) -> Trace {
    match bindings(p.vars, 0, p.funcs, fuel, Seq::empty()) {
        Err(err) => Trace { printed: Seq::empty(), failure: Some(err) },
        Ok(env) => outputs(p.prints, 0, env, p.funcs, fuel, Seq::empty()),
    }
}

/// Whether the bindings and prints of a program address the outermost frame.
pub open spec fn rooted(p: ProgramView) -> bool {
    &&& forall|i: int| 0 <= i < p.vars.len() ==> uniform(#[trigger] p.vars[i], 0)
    &&& forall|i: int| 0 <= i < p.prints.len() ==> uniform(#[trigger] p.prints[i], 0)
}

/// The table of a run whose outermost frame holds `env`.
pub open spec fn table_of(env: Seq<i32>) -> Table<i32> {
    Table { slots: env.map_values(|v: i32| Some(v)), offsets: seq![0nat] }
}

/// In a table whose frame `depth` holds `env`, the strict evaluation of an
/// expression that addresses that frame gives what the expression is worth
/// in `env`: a value or an error, the same.
pub proof fn lemma_strict_value(
    e: ExprView,
    t: Table<i32>,
    depth: nat,
    env: Seq<i32>,
    funcs: Seq<ExprView>,
    fuel: nat,
)
    requires
        t.wf(),
        uniform(e, depth),
        holds(t, depth, env),
    ensures
        strict_eval(e, t, funcs, fuel) == value(e, env, funcs, fuel),
    decreases fuel, e, 0nat,
{
    reveal_with_fuel(value, 2);
    reveal_with_fuel(strict_eval, 2);
    reveal_with_fuel(strict_call, 2);
    reveal_with_fuel(uniform, 2);
    match e {
        ExprView::Value(_) => {},
        ExprView::Variable(_, id) => {
            if id < env.len() {
                assert(t.slots[t.offsets[depth as int] + id as int] == Some(env[id as int]));
            }
        },
        ExprView::Operation(_, lhs, rhs) => {
            lemma_strict_value(*lhs, t, depth, env, funcs, fuel);
            lemma_strict_value(*rhs, t, depth, env, funcs, fuel);
        },
        ExprView::FuncCall(f, args) => {
            if f < funcs.len() && fuel > 0 {
                let opened = t.open();
                t.lemma_open_close();
                assert(holds(opened, depth, env)) by {
                    assert forall|i: int| 0 <= i < env.len() implies #[trigger] opened.slots[opened.offsets[depth as int]
                        + i] == Some(env[i]) by {
                        assert(t.slots[t.offsets[depth as int] + i] == Some(env[i]));
                    }
                }
                let top = t.offsets.len();
                assert(holds(opened, top, Seq::<i32>::empty()));
                lemma_strict_args(args, 0, opened, depth, env, funcs, fuel, Seq::empty());
                match values(args, 0, env, funcs, fuel, Seq::empty()) {
                    Err(_) => {},
                    Ok(params) => {
                        assert(params.skip(0) =~= params);
                        let inner = pushes(opened, params);
                        assert(strict_bind(args, 0, opened, funcs, fuel) == Ok::<
                            Table<i32>,
                            EvalError,
                        >(inner));
                        let body = funcs[f as int].circulate(top);
                        lemma_value_circulate(
                            funcs[f as int],
                            top,
                            params,
                            funcs,
                            (fuel - 1) as nat,
                        );
                        lemma_pushes(opened, params);
                        lemma_strict_value(body, inner, top, params, funcs, (fuel - 1) as nat);
                    },
                }
            }
        },
        ExprView::If(c, then, otherwise) => {
            lemma_strict_value(*c, t, depth, env, funcs, fuel);
            lemma_strict_value(*then, t, depth, env, funcs, fuel);
            lemma_strict_value(*otherwise, t, depth, env, funcs, fuel);
        },
    }
}

/// A table stays well formed when values are registered, and its innermost
/// frame then holds them after what it held.
pub proof fn lemma_pushes(t: Table<i32>, items: Seq<i32>)
    requires
        t.wf(),
        t.offsets.len() > 0,
    ensures
        pushes(t, items).wf(),
        forall|held: Seq<i32>|
            holds(t, (t.offsets.len() - 1) as nat, held) ==> #[trigger] holds(
                pushes(t, items),
                (t.offsets.len() - 1) as nat,
                held + items,
            ),
        forall|depth: nat, env: Seq<i32>|
            depth + 1 < t.offsets.len() && holds(t, depth, env) ==> #[trigger] holds(
                pushes(t, items),
                depth,
                env,
            ),
{
    let p = pushes(t, items);
    let top = (t.offsets.len() - 1) as nat;
    assert(t.offsets[top as int] <= t.slots.len());
    assert forall|held: Seq<i32>| holds(t, top, held) implies #[trigger] holds(
        p,
        top,
        held + items,
    ) by {
        let all = held + items;
        assert forall|i: int| 0 <= i < all.len() implies #[trigger] p.slots[p.offsets[top as int]
            + i] == Some(all[i]) by {
            if i < held.len() {
                assert(t.slots[t.offsets[top as int] + i] == Some(held[i]));
            }
        }
    }
    assert forall|depth: nat, env: Seq<i32>|
        depth + 1 < t.offsets.len() && holds(t, depth, env) implies #[trigger] holds(
        p,
        depth,
        env,
    ) by {
        assert(t.offsets[depth as int + 1] <= t.slots.len());
        assert forall|i: int| 0 <= i < env.len() implies #[trigger] p.slots[p.offsets[depth as int]
            + i] == Some(env[i]) by {
            assert(t.slots[t.offsets[depth as int] + i] == Some(env[i]));
        }
    }
}

/// Values that are all there are one for each expression, after `done`.
pub proof fn lemma_values(
    exprs: Seq<ExprView>,
    from: nat,
    env: Seq<i32>,
    funcs: Seq<ExprView>,
    fuel: nat,
    done: Seq<i32>,
)
    requires
        from <= exprs.len(),
    ensures
        values(exprs, from, env, funcs, fuel, done) matches Ok(all) ==> {
            &&& all.len() == done.len() + exprs.len() - from
            &&& all.take(done.len() as int) == done
            &&& forall|i: int|
                from <= i < exprs.len() ==> value(#[trigger] exprs[i], env, funcs, fuel) == Ok::<
                    i32,
                    EvalError,
                >(all[done.len() + i - from])
        },
    decreases exprs.len() - from,
{
    reveal_with_fuel(values, 2);
    if from < exprs.len() {
        match value(exprs[from as int], env, funcs, fuel) {
            Err(_) => {},
            Ok(v) => {
                lemma_values(exprs, from + 1, env, funcs, fuel, done.push(v));
                match values(exprs, from + 1, env, funcs, fuel, done.push(v)) {
                    Err(_) => {},
                    Ok(all) => {
                        assert(all.take(done.len() as int) =~= all.take(done.len() as int + 1).take(
                            done.len() as int,
                        ));
                        assert(all[done.len() as int] == all.take(done.len() as int + 1)[done.len() as int]);
                    },
                }
            },
        }
    } else {
        assert(done.take(done.len() as int) =~= done);
    }
}

/// The strict evaluation of arguments that address the frame `depth`, into
/// the innermost frame above it, registers what the arguments are worth in
/// the environment of that frame.
proof fn lemma_strict_args(
    args: Seq<ExprView>,
    from: nat,
    t: Table<i32>,
    depth: nat,
    env: Seq<i32>,
    funcs: Seq<ExprView>,
    fuel: nat,
    done: Seq<i32>,
)
    requires
        t.wf(),
        from <= args.len(),
        forall|i: int| 0 <= i < args.len() ==> uniform(#[trigger] args[i], depth),
        depth + 1 < t.offsets.len(),
        holds(t, depth, env),
        holds(t, (t.offsets.len() - 1) as nat, done),
    ensures
        match values(args, from, env, funcs, fuel, done) {
            Err(err) => strict_bind(args, from, t, funcs, fuel) == Err::<Table<i32>, EvalError>(
                err,
            ),
            Ok(all) => {
                &&& all.len() >= done.len()
                &&& strict_bind(args, from, t, funcs, fuel) == Ok::<Table<i32>, EvalError>(
                    pushes(t, all.skip(done.len() as int)),
                )
            },
        },
    decreases fuel, args, args.len() - from,
{
    reveal_with_fuel(values, 2);
    reveal_with_fuel(strict_bind, 2);
    if from >= args.len() {
        assert(pushes(t, done.skip(done.len() as int)) =~= t);
    } else {
        lemma_strict_value(args[from as int], t, depth, env, funcs, fuel);
        match value(args[from as int], env, funcs, fuel) {
            Err(_) => {},
            Ok(v) => {
                let next = t.push(v);
                t.lemma_push_close(v);
                lemma_pushes(t, seq![v]);
                assert(next =~= pushes(t, seq![v]));
                assert(done + seq![v] =~= done.push(v));
                lemma_strict_args(args, from + 1, next, depth, env, funcs, fuel, done.push(v));
                lemma_values(args, from + 1, env, funcs, fuel, done.push(v));
                match values(args, from + 1, env, funcs, fuel, done.push(v)) {
                    Err(_) => {},
                    Ok(all) => {
                        assert(all[done.len() as int] == all.take(done.len() as int + 1)[done.len() as int]);
                        assert(pushes(next, all.skip(done.len() as int + 1)) =~= pushes(
                            t,
                            all.skip(done.len() as int),
                        ));
                    },
                }
            },
        }
    }
}

/// The strict evaluation of the bindings of a program registers what the
/// bindings are worth, each in the environment of those before it.
proof fn lemma_strict_vars(
    vars: Seq<ExprView>,
    from: nat,
    funcs: Seq<ExprView>,
    fuel: nat,
    done: Seq<i32>,
)
    requires
        from <= vars.len(),
        forall|i: int| 0 <= i < vars.len() ==> uniform(#[trigger] vars[i], 0),
    ensures
        match bindings(vars, from, funcs, fuel, done) {
            Err(err) => strict_bind(vars, from, table_of(done), funcs, fuel) == Err::<
                Table<i32>,
                EvalError,
            >(err),
            Ok(all) => strict_bind(vars, from, table_of(done), funcs, fuel) == Ok::<
                Table<i32>,
                EvalError,
            >(table_of(all)),
        },
    decreases vars.len() - from,
{
    reveal_with_fuel(strict_bind, 2);
    let t = table_of(done);
    if from < vars.len() {
        assert(holds(t, 0, done));
        lemma_strict_value(vars[from as int], t, 0, done, funcs, fuel);
        match value(vars[from as int], done, funcs, fuel) {
            Err(_) => {},
            Ok(v) => {
                assert(t.push(v) =~= table_of(done.push(v)));
                lemma_strict_vars(vars, from + 1, funcs, fuel, done.push(v));
            },
        }
    }
}

proof fn lemma_strict_prints(
    prints: Seq<ExprView>,
    from: nat,
    env: Seq<i32>,
    funcs: Seq<ExprView>,
    fuel: nat,
    done: Seq<i32>,
)
    requires
        from <= prints.len(),
        forall|i: int| 0 <= i < prints.len() ==> uniform(#[trigger] prints[i], 0),
    ensures
        strict_prints(prints, from, table_of(env), funcs, fuel, done) == outputs(
            prints,
            from,
            env,
            funcs,
            fuel,
            done,
        ),
    decreases prints.len() - from,
{
    if from < prints.len() {
        let t = table_of(env);
        assert(holds(t, 0, env));
        lemma_strict_value(prints[from as int], t, 0, env, funcs, fuel);
        match value(prints[from as int], env, funcs, fuel) {
            Err(_) => {},
            Ok(v) => {
                lemma_strict_prints(prints, from + 1, env, funcs, fuel, done.push(v));
            },
        }
    }
}

/// The strict run of a rooted program is its run in the semantics of
/// environments: the slot table and the rewriting of frames give every
/// function its arguments and nothing else.
pub proof fn lemma_strict_run(p: ProgramView, fuel: nat)
    requires
        rooted(p),
    ensures
        strict_run(p, fuel) == run(p, fuel),
{
    assert(table_of(Seq::<i32>::empty()) =~= Table::<i32>::fresh());
    lemma_strict_vars(p.vars, 0, p.funcs, fuel, Seq::empty());
    match bindings(p.vars, 0, p.funcs, fuel, Seq::empty()) {
        Err(_) => {},
        Ok(env) => {
            lemma_strict_prints(p.prints, 0, env, p.funcs, fuel, Seq::empty());
        },
    }
}

/// Bindings that are all there are one for each `let`, after `done`, each
/// worth its value in the environment of those before it.
pub proof fn lemma_bindings(
    vars: Seq<ExprView>,
    from: nat,
    funcs: Seq<ExprView>,
    fuel: nat,
    done: Seq<i32>,
)
    requires
        from <= vars.len(),
        done.len() == from,
    ensures
        bindings(vars, from, funcs, fuel, done) matches Ok(all) ==> {
            &&& all.len() == vars.len()
            &&& all.take(from as int) == done
            &&& forall|i: int|
                from <= i < vars.len() ==> value(#[trigger] vars[i], all.take(i), funcs, fuel)
                    == Ok::<i32, EvalError>(all[i])
        },
    decreases vars.len() - from,
{
    if from < vars.len() {
        match value(vars[from as int], done, funcs, fuel) {
            Err(_) => {},
            Ok(v) => {
                lemma_bindings(vars, from + 1, funcs, fuel, done.push(v));
                match bindings(vars, from + 1, funcs, fuel, done.push(v)) {
                    Err(_) => {},
                    Ok(all) => {
                        assert(all.take(from as int) =~= all.take(from as int + 1).take(
                            from as int,
                        ));
                        assert(done.push(v).take(from as int) =~= done);
                        assert(all[from as int] == all.take(from as int + 1)[from as int]);
                        assert(done.push(v)[from as int] == v);
                        assert(all.take(from as int) == done);
                        assert(value(vars[from as int], all.take(from as int), funcs, fuel)
                            == Ok::<i32, EvalError>(all[from as int]));
                    },
                }
            },
        }
    } else {
        assert(done.take(from as int) =~= done);
    }
}

/// What was printed before is printed by the run that goes on from there.
pub proof fn lemma_outputs_extend(
    prints: Seq<ExprView>,
    from: nat,
    env: Seq<i32>,
    funcs: Seq<ExprView>,
    fuel: nat,
    done: Seq<i32>,
)
    ensures
        done.is_prefix_of(outputs(prints, from, env, funcs, fuel, done).printed),
    decreases prints.len() - from,
{
    if from < prints.len() {
        match value(prints[from as int], env, funcs, fuel) {
            Err(_) => {},
            Ok(v) => {
                lemma_outputs_extend(prints, from + 1, env, funcs, fuel, done.push(v));
                assert(done =~= done.push(v).take(done.len() as int));
            },
        }
    }
}

/// A resolved expression addresses the outermost frame.
pub proof fn lemma_resolved_uniform(e: ast::ExprView, names: Names)
    ensures
        resolve_expr(e, names) matches Ok(r) ==> uniform(r, 0),
    decreases e, 0nat,
{
    reveal_with_fuel(resolve_expr, 2);
    reveal_with_fuel(uniform, 2);
    match e {
        ast::ExprView::Value(_) => {},
        ast::ExprView::Variable(_) => {},
        ast::ExprView::Operation(_, lhs, rhs) => {
            lemma_resolved_uniform(*lhs, names);
            lemma_resolved_uniform(*rhs, names);
        },
        ast::ExprView::FuncCall(_, args) => {
            lemma_resolved_args_uniform(args, 0, names, Seq::empty());
        },
        ast::ExprView::If(c, t, f) => {
            lemma_resolved_uniform(*c, names);
            lemma_resolved_uniform(*t, names);
            lemma_resolved_uniform(*f, names);
        },
    }
}

proof fn lemma_resolved_args_uniform(
    args: Seq<ast::ExprView>,
    from: nat,
    names: Names,
    done: Seq<ExprView>,
)
    requires
        forall|i: int| 0 <= i < done.len() ==> uniform(#[trigger] done[i], 0),
    ensures
        resolve_args(args, from, names, done) matches Ok(all) ==> forall|i: int|
            0 <= i < all.len() ==> uniform(#[trigger] all[i], 0),
    decreases args, args.len() - from,
{
    reveal_with_fuel(resolve_args, 2);
    if from < args.len() {
        lemma_resolved_uniform(args[from as int], names);
        match resolve_expr(args[from as int], names) {
            Err(_) => {},
            Ok(r) => {
                lemma_resolved_args_uniform(args, from + 1, names, done.push(r));
            },
        }
    }
}

proof fn lemma_resolved_from_rooted(stmts: Seq<ast::StmtView>, from: nat, pass: Pass)
    requires
        rooted(pass.program),
    ensures
        resolve_from(stmts, from, pass) matches Ok(last) ==> rooted(last.program),
    decreases stmts.len() - from,
{
    if from < stmts.len() {
        match stmts[from as int] {
            ast::StmtView::Binding(_, e) => {
                lemma_resolved_uniform(e, pass.names);
            },
            ast::StmtView::Print(e) => {
                lemma_resolved_uniform(e, pass.names);
            },
            ast::StmtView::Define(_, _, _) => {},
        }
        match pass.step(stmts[from as int]) {
            Err(_) => {},
            Ok(next) => {
                lemma_resolved_from_rooted(stmts, from + 1, next);
            },
        }
    }
}

/// What resolution produces is rooted: every `let` and every `print`
/// addresses the outermost frame.
pub proof fn lemma_resolved_rooted(stmts: Seq<ast::StmtView>)
    ensures
        resolve(stmts) matches Ok(p) ==> rooted(p),
{
    lemma_resolved_from_rooted(stmts, 0, Pass::start());
}

} // verus!
