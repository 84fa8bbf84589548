//! What resolution guarantees to evaluation: in a program that came out of
//! it, every variable is a slot of the frame it addresses and every call
//! passes a function that is there as many arguments as it has parameters.
//! The strict run of such a program fails for arithmetic or for want of
//! depth, and for nothing else.
use crate::ast;
use crate::error::EvalError;
use crate::eval::agreement::{
    all_slots, before, covers, fits, lemma_fits_enter, lemma_spares_trans, needs, spares,
    with_frame, Reason,
};
use crate::eval::environment::{
    bindings, lemma_bindings, lemma_resolved_rooted, lemma_strict_run, lemma_values, outputs,
    rooted, run, uniform, value, values,
};
use crate::eval::eager::strict_run;
use crate::eval::lazy::{
    enter, lazy_call, lazy_eval, lazy_force, lazy_prints, lazy_run, lemma_enter, suspended,
    VarView,
};
use crate::eval::namespace::{Step, Table};
use crate::ir::{ExprView, ProgramView};
use crate::resolve::{
    parameters, resolve, resolve_args, resolve_expr, resolve_from, Names, Pass, Signature,
};
use vstd::prelude::*;

verus! {

/// Whether `e` reads only the first `width` slots of its frame, and calls
/// only functions that `arity` knows, each with as many arguments as
/// `arity` says.
pub open spec fn safe(e: ExprView, width: nat, arity: Seq<nat>) -> bool
    decreases e,
{
    match e {
        ExprView::Value(_) => true,
        ExprView::Variable(_, id) => id < width,
        ExprView::Operation(_, lhs, rhs) => safe(*lhs, width, arity) && safe(*rhs, width, arity),
        ExprView::FuncCall(f, args) => {
            &&& f < arity.len()
            &&& args.len() == arity[f as int]
            &&& forall|i: int| 0 <= i < args.len() ==> safe(#[trigger] args[i], width, arity)
        },
        ExprView::If(c, t, f) => {
            &&& safe(*c, width, arity)
            &&& safe(*t, width, arity)
            &&& safe(*f, width, arity)
        },
    }
}

/// Whether every function body reads only its parameters and is [`safe`].
pub open spec fn safe_funcs(funcs: Seq<ExprView>, arity: Seq<nat>) -> bool {
    &&& arity.len() == funcs.len()
    &&& forall|f: int| 0 <= f < funcs.len() ==> safe(#[trigger] funcs[f], arity[f], arity)
}

/// Whether a program is [`safe`] throughout: a `let` reads the bindings
/// before it, a `print` reads all bindings.
pub open spec fn sane(p: ProgramView, arity: Seq<nat>) -> bool {
    &&& safe_funcs(p.funcs, arity)
    &&& forall|i: int| 0 <= i < p.vars.len() ==> safe(#[trigger] p.vars[i], i as nat, arity)
    &&& forall|i: int| 0 <= i < p.prints.len() ==> safe(#[trigger] p.prints[i], p.vars.len(), arity)
}

/// Whether a failure is one that a [`sane`] program can have.
pub open spec fn benign(failure: Option<EvalError>) -> bool {
    match failure {
        None => true,
        Some(EvalError::Arithmetic(_)) => true,
        Some(EvalError::DepthExceeded) => true,
        Some(_) => false,
    }
}

/// The failure of a result, if it is one.
pub open spec fn failure_of<T>(r: Result<T, EvalError>) -> Option<EvalError> {
    match r {
        Ok(_) => None,
        Err(err) => Some(err),
    }
}

/// A safe expression finds every slot and every function that it needs.
pub proof fn lemma_safe_value(
    e: ExprView,
    env: Seq<i32>,
    funcs: Seq<ExprView>,
    arity: Seq<nat>,
    fuel: nat,
)
    requires
        safe_funcs(funcs, arity),
        safe(e, env.len(), arity),
    ensures
        benign(failure_of(value(e, env, funcs, fuel))),
    decreases fuel, e, 0nat,
{
    reveal_with_fuel(value, 2);
    reveal_with_fuel(safe, 2);
    match e {
        ExprView::Value(_) => {},
        ExprView::Variable(_, _) => {},
        ExprView::Operation(_, lhs, rhs) => {
            lemma_safe_value(*lhs, env, funcs, arity, fuel);
            lemma_safe_value(*rhs, env, funcs, arity, fuel);
        },
        ExprView::FuncCall(f, args) => {
            if fuel > 0 {
                lemma_safe_values(args, 0, env, funcs, arity, fuel, Seq::empty());
                lemma_values(args, 0, env, funcs, fuel, Seq::empty());
                match values(args, 0, env, funcs, fuel, Seq::empty()) {
                    Err(_) => {},
                    Ok(params) => {
                        lemma_safe_value(funcs[f as int], params, funcs, arity, (fuel - 1) as nat);
                    },
                }
            }
        },
        ExprView::If(c, t, f) => {
            lemma_safe_value(*c, env, funcs, arity, fuel);
            lemma_safe_value(*t, env, funcs, arity, fuel);
            lemma_safe_value(*f, env, funcs, arity, fuel);
        },
    }
}

proof fn lemma_safe_values(
    args: Seq<ExprView>,
    from: nat,
    env: Seq<i32>,
    funcs: Seq<ExprView>,
    arity: Seq<nat>,
    fuel: nat,
    done: Seq<i32>,
)
    requires
        safe_funcs(funcs, arity),
        forall|i: int| 0 <= i < args.len() ==> safe(#[trigger] args[i], env.len(), arity),
    ensures
        benign(failure_of(values(args, from, env, funcs, fuel, done))),
    decreases fuel, args, args.len() - from,
{
    reveal_with_fuel(values, 2);
    if from < args.len() {
        lemma_safe_value(args[from as int], env, funcs, arity, fuel);
        match value(args[from as int], env, funcs, fuel) {
            Err(_) => {},
            Ok(v) => {
                lemma_safe_values(args, from + 1, env, funcs, arity, fuel, done.push(v));
            },
        }
    }
}

proof fn lemma_safe_bindings(
    vars: Seq<ExprView>,
    from: nat,
    funcs: Seq<ExprView>,
    arity: Seq<nat>,
    fuel: nat,
    done: Seq<i32>,
)
    requires
        safe_funcs(funcs, arity),
        done.len() == from,
        forall|i: int| 0 <= i < vars.len() ==> safe(#[trigger] vars[i], i as nat, arity),
    ensures
        benign(failure_of(bindings(vars, from, funcs, fuel, done))),
    decreases vars.len() - from,
{
    if from < vars.len() {
        lemma_safe_value(vars[from as int], done, funcs, arity, fuel);
        match value(vars[from as int], done, funcs, fuel) {
            Err(_) => {},
            Ok(v) => {
                lemma_safe_bindings(vars, from + 1, funcs, arity, fuel, done.push(v));
            },
        }
    }
}

proof fn lemma_safe_outputs(
    prints: Seq<ExprView>,
    from: nat,
    env: Seq<i32>,
    funcs: Seq<ExprView>,
    arity: Seq<nat>,
    fuel: nat,
    done: Seq<i32>,
)
    requires
        safe_funcs(funcs, arity),
        forall|i: int| 0 <= i < prints.len() ==> safe(#[trigger] prints[i], env.len(), arity),
    ensures
        benign(outputs(prints, from, env, funcs, fuel, done).failure),
    decreases prints.len() - from,
{
    if from < prints.len() {
        lemma_safe_value(prints[from as int], env, funcs, arity, fuel);
        match value(prints[from as int], env, funcs, fuel) {
            Err(_) => {},
            Ok(v) => {
                lemma_safe_outputs(prints, from + 1, env, funcs, arity, fuel, done.push(v));
            },
        }
    }
}

/// The run of a sane program in the semantics of environments fails for
/// arithmetic or for want of depth, if it fails.
pub proof fn lemma_sane_run(p: ProgramView, arity: Seq<nat>, fuel: nat)
    requires
        sane(p, arity),
    ensures
        benign(run(p, fuel).failure),
{
    lemma_safe_bindings(p.vars, 0, p.funcs, arity, fuel, Seq::empty());
    lemma_bindings(p.vars, 0, p.funcs, fuel, Seq::empty());
    match bindings(p.vars, 0, p.funcs, fuel, Seq::empty()) {
        Err(_) => {},
        Ok(env) => {
            lemma_safe_outputs(p.prints, 0, env, p.funcs, arity, fuel, Seq::empty());
        },
    }
}

/// The numbers of parameters of the definitions among the first `count`
/// statements, in order.
pub open spec fn arities(stmts: Seq<ast::StmtView>, count: nat) -> Seq<nat>
    decreases count,
{
    if count == 0 {
        Seq::empty()
    } else {
        let before = arities(stmts, (count - 1) as nat);
        match stmts[count - 1] {
            ast::StmtView::Define(_, params, _) => before.push(params.len()),
            _ => before,
        }
    }
}

/// Whether the names in scope stand for slots below `width` and for
/// functions that `arity` knows, with their numbers of parameters.
pub open spec fn known(names: Names, width: nat, arity: Seq<nat>) -> bool {
    &&& forall|name: Seq<char>| #[trigger]
        names.vars.contains_key(name) ==> names.vars[name] < width
    &&& forall|name: Seq<char>| #[trigger]
        names.funcs.contains_key(name) ==> names.funcs[name].index < arity.len()
            && arity[names.funcs[name].index as int] == names.funcs[name].arity
}

/// What is safe stays safe where more slots can be read and more functions
/// are known.
pub proof fn lemma_safe_grows(
    e: ExprView,
    width: nat,
    arity: Seq<nat>,
    wider: nat,
    longer: Seq<nat>,
)
    requires
        safe(e, width, arity),
        width <= wider,
        arity.is_prefix_of(longer),
    ensures
        safe(e, wider, longer),
    decreases e,
{
    reveal_with_fuel(safe, 2);
    match e {
        ExprView::Value(_) => {},
        ExprView::Variable(_, _) => {},
        ExprView::Operation(_, lhs, rhs) => {
            lemma_safe_grows(*lhs, width, arity, wider, longer);
            lemma_safe_grows(*rhs, width, arity, wider, longer);
        },
        ExprView::FuncCall(f, args) => {
            assert forall|i: int| 0 <= i < args.len() implies safe(
                #[trigger] args[i],
                wider,
                longer,
            ) by {
                lemma_safe_grows(args[i], width, arity, wider, longer);
            }
        },
        ExprView::If(c, t, f) => {
            lemma_safe_grows(*c, width, arity, wider, longer);
            lemma_safe_grows(*t, width, arity, wider, longer);
            lemma_safe_grows(*f, width, arity, wider, longer);
        },
    }
}

/// What resolves under names that are [`known`] is safe.
pub proof fn lemma_resolved_safe(e: ast::ExprView, names: Names, width: nat, arity: Seq<nat>)
    requires
        known(names, width, arity),
    ensures
        resolve_expr(e, names) matches Ok(r) ==> safe(r, width, arity),
    decreases e, 0nat,
{
    reveal_with_fuel(resolve_expr, 2);
    reveal_with_fuel(safe, 2);
    match e {
        ast::ExprView::Value(_) => {},
        ast::ExprView::Variable(_) => {},
        ast::ExprView::Operation(_, lhs, rhs) => {
            lemma_resolved_safe(*lhs, names, width, arity);
            lemma_resolved_safe(*rhs, names, width, arity);
        },
        ast::ExprView::FuncCall(_, args) => {
            lemma_resolved_args_safe(args, 0, names, width, arity, Seq::empty());
        },
        ast::ExprView::If(c, t, f) => {
            lemma_resolved_safe(*c, names, width, arity);
            lemma_resolved_safe(*t, names, width, arity);
            lemma_resolved_safe(*f, names, width, arity);
        },
    }
}

proof fn lemma_resolved_args_safe(
    args: Seq<ast::ExprView>,
    from: nat,
    names: Names,
    width: nat,
    arity: Seq<nat>,
    done: Seq<ExprView>,
)
    requires
        from <= args.len(),
        known(names, width, arity),
        forall|i: int| 0 <= i < done.len() ==> safe(#[trigger] done[i], width, arity),
    ensures
        resolve_args(args, from, names, done) matches Ok(all) ==> {
            &&& all.len() == done.len() + args.len() - from
            &&& forall|i: int| 0 <= i < all.len() ==> safe(#[trigger] all[i], width, arity)
        },
    decreases args, args.len() - from,
{
    reveal_with_fuel(resolve_args, 2);
    if from < args.len() {
        lemma_resolved_safe(args[from as int], names, width, arity);
        match resolve_expr(args[from as int], names) {
            Err(_) => {},
            Ok(r) => {
                lemma_resolved_args_safe(args, from + 1, names, width, arity, done.push(r));
            },
        }
    }
}

/// Every parameter stands for a slot of the frame of its function.
proof fn lemma_parameters(params: Seq<Seq<char>>, count: nat)
    ensures
        forall|name: Seq<char>| #[trigger]
            parameters(params, count).contains_key(name) ==> parameters(params, count)[name]
                < count,
    decreases count,
{
    if count > 0 {
        lemma_parameters(params, (count - 1) as nat);
        let before = parameters(params, (count - 1) as nat);
        assert forall|name: Seq<char>| #[trigger]
            parameters(params, count).contains_key(name) implies parameters(params, count)[name]
            < count by {
            if name != params[count - 1] {
                assert(before.contains_key(name));
            }
        }
    }
}

/// Whether the pass has produced a sane program so far and keeps names
/// that are known.
pub open spec fn steady(pass: Pass, arity: Seq<nat>) -> bool {
    &&& known(pass.names, pass.program.vars.len(), arity)
    &&& sane(pass.program, arity)
}

proof fn lemma_step_steady(pass: Pass, stmt: ast::StmtView, arity: Seq<nat>)
    requires
        steady(pass, arity),
    ensures
        pass.step(stmt) matches Ok(next) ==> steady(
            next,
            match stmt {
                ast::StmtView::Define(_, params, _) => arity.push(params.len()),
                _ => arity,
            },
        ),
{
    let p = pass.program;
    match stmt {
        ast::StmtView::Binding(name, e) => {
            lemma_resolved_safe(e, pass.names, p.vars.len(), arity);
            if let Ok(next) = pass.step(stmt) {
                let q = next.program;
                assert forall|i: int| 0 <= i < q.prints.len() implies safe(
                    #[trigger] q.prints[i],
                    q.vars.len(),
                    arity,
                ) by {
                    lemma_safe_grows(p.prints[i], p.vars.len(), arity, q.vars.len(), arity);
                }
                assert forall|i: int| 0 <= i < q.vars.len() implies safe(
                    #[trigger] q.vars[i],
                    i as nat,
                    arity,
                ) by {
                    if i < p.vars.len() {
                        assert(q.vars[i] == p.vars[i]);
                    }
                }
            }
        },
        ast::StmtView::Print(e) => {
            lemma_resolved_safe(e, pass.names, p.vars.len(), arity);
            if let Ok(next) = pass.step(stmt) {
                let q = next.program;
                assert forall|i: int| 0 <= i < q.prints.len() implies safe(
                    #[trigger] q.prints[i],
                    q.vars.len(),
                    arity,
                ) by {
                    if i < p.prints.len() {
                        assert(q.prints[i] == p.prints[i]);
                    }
                }
            }
        },
        ast::StmtView::Define(name, params, e) => {
            let longer = arity.push(params.len());
            let funcs = pass.names.funcs.insert(
                name,
                Signature { index: p.funcs.len(), arity: params.len() },
            );
            let inner = Names { vars: parameters(params, params.len()), funcs };
            lemma_parameters(params, params.len());
            assert(known(inner, params.len(), longer));
            lemma_resolved_safe(e, inner, params.len(), longer);
            if let Ok(next) = pass.step(stmt) {
                let q = next.program;
                assert(known(next.names, q.vars.len(), longer));
                assert forall|f: int| 0 <= f < q.funcs.len() implies safe(
                    #[trigger] q.funcs[f],
                    longer[f],
                    longer,
                ) by {
                    if f < p.funcs.len() {
                        assert(q.funcs[f] == p.funcs[f]);
                        lemma_safe_grows(p.funcs[f], arity[f], arity, longer[f], longer);
                    }
                }
                assert forall|i: int| 0 <= i < q.vars.len() implies safe(
                    #[trigger] q.vars[i],
                    i as nat,
                    longer,
                ) by {
                    lemma_safe_grows(p.vars[i], i as nat, arity, i as nat, longer);
                }
                assert forall|i: int| 0 <= i < q.prints.len() implies safe(
                    #[trigger] q.prints[i],
                    q.vars.len(),
                    longer,
                ) by {
                    lemma_safe_grows(p.prints[i], p.vars.len(), arity, q.vars.len(), longer);
                }
            }
        },
    }
}

proof fn lemma_resolved_from_sane(stmts: Seq<ast::StmtView>, from: nat, pass: Pass)
    requires
        from <= stmts.len(),
        steady(pass, arities(stmts, from)),
    ensures
        resolve_from(stmts, from, pass) matches Ok(last) ==> steady(
            last,
            arities(stmts, stmts.len()),
        ),
    decreases stmts.len() - from,
{
    if from < stmts.len() {
        lemma_step_steady(pass, stmts[from as int], arities(stmts, from));
        match pass.step(stmts[from as int]) {
            Err(_) => {},
            Ok(next) => {
                assert(arities(stmts, from + 1) == match stmts[from as int] {
                    ast::StmtView::Define(_, params, _) => arities(stmts, from).push(params.len()),
                    _ => arities(stmts, from),
                });
                lemma_resolved_from_sane(stmts, from + 1, next);
            },
        }
    }
}

/// What resolution produces is sane: no variable lies outside its frame,
/// no `let` reads a later one or itself, and every call passes a function
/// that is there as many arguments as the function has parameters.
pub proof fn lemma_resolved_sane(stmts: Seq<ast::StmtView>)
    ensures
        resolve(stmts) matches Ok(p) ==> sane(p, arities(stmts, stmts.len())),
{
    lemma_resolved_from_sane(stmts, 0, Pass::start());
}

/// The strict run of a source unit that resolves fails for arithmetic or
/// for want of depth, if it fails: it finds every slot and every function.
pub proof fn lemma_resolved_run(stmts: Seq<ast::StmtView>, fuel: nat)
    requires
        resolve(stmts) is Ok,
    ensures
        benign(strict_run(resolve(stmts).unwrap(), fuel).failure),
{
    let p = resolve(stmts).unwrap();
    lemma_resolved_sane(stmts);
    lemma_resolved_rooted(stmts);
    lemma_strict_run(p, fuel);
    lemma_sane_run(p, arities(stmts, stmts.len()), fuel);
}

/// What is safe stays safe when its variables are moved to another frame.
pub proof fn lemma_safe_circulate(e: ExprView, depth: nat, width: nat, arity: Seq<nat>)
    requires
        safe(e, width, arity),
    ensures
        safe(e.circulate(depth), width, arity),
        uniform(e.circulate(depth), depth),
    decreases e,
{
    reveal_with_fuel(safe, 2);
    reveal_with_fuel(uniform, 2);
    match e {
        ExprView::Value(_) => {},
        ExprView::Variable(_, _) => {},
        ExprView::Operation(_, lhs, rhs) => {
            lemma_safe_circulate(*lhs, depth, width, arity);
            lemma_safe_circulate(*rhs, depth, width, arity);
        },
        ExprView::FuncCall(_, args) => {
            let moved = e.circulate(depth)->FuncCall_1;
            assert forall|i: int| 0 <= i < moved.len() implies safe(
                #[trigger] moved[i],
                width,
                arity,
            ) && uniform(moved[i], depth) by {
                lemma_safe_circulate(args[i], depth, width, arity);
            }
        },
        ExprView::If(c, t, f) => {
            lemma_safe_circulate(*c, depth, width, arity);
            lemma_safe_circulate(*t, depth, width, arity);
            lemma_safe_circulate(*f, depth, width, arity);
        },
    }
}

/// Whether the slot `at` holds a value, or an expression that is safe in
/// the slots that its reason names, which are slots before `at`.
pub open spec fn typed(t: Table<VarView>, why: Seq<Reason>, arity: Seq<nat>, at: int) -> bool {
    match t.slots[at] {
        None => false,
        Some(VarView::Cached(_)) => true,
        Some(VarView::Thunk(e)) => {
            let r = why[at];
            &&& uniform(e, r.frame)
            &&& fits(t, r.frame, r.width)
            &&& t.offsets[r.frame as int] + r.width <= at
            &&& safe(e, r.width, arity)
        },
    }
}

/// Whether the slots in `live` are typed, together with the slots that
/// their reasons name.
pub open spec fn held(t: Table<VarView>, why: Seq<Reason>, arity: Seq<nat>, live: Set<int>) -> bool {
    &&& t.wf()
    &&& why.len() == t.slots.len()
    &&& forall|at: int| #[trigger]
        live.contains(at) ==> 0 <= at < t.slots.len() && typed(t, why, arity, at)
    &&& forall|at: int, i: int|
        live.contains(at) && #[trigger] needs(t, why, at, i) ==> live.contains(i)
}

/// The reasons of the arguments of a call: each sees what the call sees.
pub open spec fn handed(why: Seq<Reason>, count: nat, reason: Reason) -> Seq<Reason> {
    why + Seq::new(count, |i: int| reason)
}

proof fn lemma_held_take(
    t: Table<VarView>,
    why: Seq<Reason>,
    arity: Seq<nat>,
    live: Set<int>,
    frame: nat,
    id: nat,
)
    requires
        held(t, why, arity, live),
        t.position(frame, id) is Ok,
        live.contains(t.position(frame, id).unwrap() as int),
        t.slots[t.position(frame, id).unwrap() as int] matches Some(VarView::Thunk(_)),
    ensures
        ({
            let pos = t.position(frame, id).unwrap() as int;
            let taken = t.take(frame, id);
            let r = why[pos];
            &&& held(taken, why, arity, before(live, pos))
            &&& fits(taken, r.frame, r.width)
            &&& covers(taken, before(live, pos), r.frame, r.width)
        }),
{
    let pos = t.position(frame, id).unwrap() as int;
    let taken = t.take(frame, id);
    let below = before(live, pos);
    let r = why[pos];
    t.lemma_position(frame, id);
    assert(typed(t, why, arity, pos));
    assert forall|at: int| #[trigger] below.contains(at) implies 0 <= at < taken.slots.len()
        && typed(taken, why, arity, at) by {
        assert(typed(t, why, arity, at));
        assert(taken.slots[at] == t.slots[at]);
    }
    assert forall|at: int, i: int| below.contains(at) && #[trigger] needs(
        taken,
        why,
        at,
        i,
    ) implies below.contains(i) by {
        assert(typed(t, why, arity, at));
        assert(taken.slots[at] == t.slots[at]);
        assert(needs(t, why, at, i));
    }
    assert forall|i: int|
        taken.offsets[r.frame as int] <= i < taken.offsets[r.frame as int]
            + r.width implies below.contains(i) by {
        assert(needs(t, why, pos, i));
    }
}

proof fn lemma_held_put_back(
    t: Table<VarView>,
    after: Table<VarView>,
    why: Seq<Reason>,
    arity: Seq<nat>,
    live: Set<int>,
    frame: nat,
    id: nat,
    v: i32,
)
    requires
        held(t, why, arity, live),
        t.position(frame, id) is Ok,
        live.contains(t.position(frame, id).unwrap() as int),
        t.slots[t.position(frame, id).unwrap() as int] matches Some(VarView::Thunk(_)),
        held(after, why, arity, before(live, t.position(frame, id).unwrap() as int)),
        spares(t.take(frame, id), after, before(live, t.position(frame, id).unwrap() as int)),
    ensures
        after.accepts(frame, id) is Ok,
        held(after.put_back(frame, id, VarView::Cached(v)), why, arity, live),
        spares(t, after.put_back(frame, id, VarView::Cached(v)), live),
{
    let pos = t.position(frame, id).unwrap() as int;
    let taken = t.take(frame, id);
    let below = before(live, pos);
    let last = after.put_back(frame, id, VarView::Cached(v));
    t.lemma_position(frame, id);
    after.lemma_position(frame, id);
    assert(!below.contains(pos));
    assert(after.slots[pos] == taken.slots[pos]);
    assert(after.position(frame, id) == t.position(frame, id));
    assert forall|at: int| #[trigger] live.contains(at) implies 0 <= at < last.slots.len()
        && typed(last, why, arity, at) by {
        assert(typed(t, why, arity, at));
        if at < pos {
            assert(below.contains(at));
            assert(typed(after, why, arity, at));
        } else if at > pos {
            assert(!below.contains(at));
            assert(after.slots[at] == taken.slots[at]);
        }
    }
    assert forall|at: int, i: int| live.contains(at) && #[trigger] needs(
        last,
        why,
        at,
        i,
    ) implies live.contains(i) by {
        assert(typed(t, why, arity, at));
        if at < pos {
            assert(below.contains(at));
            assert(needs(after, why, at, i));
            assert(below.contains(i));
        } else if at > pos {
            assert(!below.contains(at));
            assert(after.slots[at] == taken.slots[at]);
            assert(needs(t, why, at, i));
        }
    }
    assert forall|i: int|
        0 <= i < t.slots.len() && !live.contains(i) implies #[trigger] last.slots[i]
        == t.slots[i] by {
        assert(!below.contains(i));
        assert(after.slots[i] == taken.slots[i]);
    }
}

proof fn lemma_held_enter(
    t: Table<VarView>,
    why: Seq<Reason>,
    arity: Seq<nat>,
    live: Set<int>,
    args: Seq<ExprView>,
    reason: Reason,
)
    requires
        held(t, why, arity, live),
        fits(t, reason.frame, reason.width),
        covers(t, live, reason.frame, reason.width),
        forall|i: int| 0 <= i < args.len() ==> uniform(#[trigger] args[i], reason.frame),
        forall|i: int| 0 <= i < args.len() ==> safe(#[trigger] args[i], reason.width, arity),
    ensures
        ({
            let inner = enter(t, args);
            let inside = with_frame(live, t.slots.len() as int, args.len() as int);
            &&& held(inner, handed(why, args.len(), reason), arity, inside)
            &&& fits(inner, t.offsets.len(), args.len())
            &&& covers(inner, inside, t.offsets.len(), args.len())
        }),
{
    let inner = enter(t, args);
    let len = t.slots.len() as int;
    let inside = with_frame(live, len, args.len() as int);
    let why2 = handed(why, args.len(), reason);
    lemma_enter(t, args);
    lemma_fits_enter(t, args, reason.frame, reason.width);
    assert forall|at: int| #[trigger] inside.contains(at) implies 0 <= at < inner.slots.len()
        && typed(inner, why2, arity, at) by {
        if live.contains(at) {
            assert(typed(t, why, arity, at));
        }
        if at < len {
            assert(inner.slots[at] == t.slots[at]);
            if let Some(VarView::Thunk(_)) = t.slots[at] {
                let r = why[at];
                lemma_fits_enter(t, args, r.frame, r.width);
                assert(why2[at] == r);
            }
        } else {
            let k = at - len;
            assert(0 <= k < args.len());
            assert(inner.slots[len + k] == Some(VarView::Thunk(args[k])));
            assert(why2[at] == reason);
        }
    }
    assert forall|at: int, i: int| inside.contains(at) && #[trigger] needs(
        inner,
        why2,
        at,
        i,
    ) implies inside.contains(i) by {
        if live.contains(at) {
            assert(typed(t, why, arity, at));
        }
        if at < len {
            assert(inner.slots[at] == t.slots[at]);
            assert(typed(inner, why2, arity, at));
            let r = why[at];
            lemma_fits_enter(t, args, r.frame, r.width);
            assert(needs(t, why, at, i));
        } else {
            assert(why2[at] == reason);
        }
    }
}

proof fn lemma_held_leave(
    t: Table<VarView>,
    after: Table<VarView>,
    why: Seq<Reason>,
    arity: Seq<nat>,
    live: Set<int>,
    args: Seq<ExprView>,
    reason: Reason,
)
    requires
        held(t, why, arity, live),
        held(
            after,
            handed(why, args.len(), reason),
            arity,
            with_frame(live, t.slots.len() as int, args.len() as int),
        ),
        spares(enter(t, args), after, with_frame(live, t.slots.len() as int, args.len() as int)),
    ensures
        held(after.close(), why, arity, live),
        spares(t, after.close(), live),
{
    let inner = enter(t, args);
    let len = t.slots.len() as int;
    let inside = with_frame(live, len, args.len() as int);
    let why2 = handed(why, args.len(), reason);
    let last = after.close();
    lemma_enter(t, args);
    assert(last.offsets =~= t.offsets);
    assert(last.slots.len() == len);
    assert(after.offsets[t.offsets.len() as int] == len);
    assert forall|at: int| #[trigger] live.contains(at) implies 0 <= at < last.slots.len()
        && typed(last, why, arity, at) by {
        assert(typed(t, why, arity, at));
        assert(inside.contains(at));
        assert(typed(after, why2, arity, at));
        assert(last.slots[at] == after.slots[at]);
        assert(why2[at] == why[at]);
    }
    after.lemma_step_wf(Step::Close);
    assert forall|at: int, i: int| live.contains(at) && #[trigger] needs(
        last,
        why,
        at,
        i,
    ) implies live.contains(i) by {
        assert(typed(t, why, arity, at));
        assert(inside.contains(at));
        assert(typed(after, why2, arity, at));
        assert(last.slots[at] == after.slots[at]);
        assert(why2[at] == why[at]);
        assert(needs(after, why2, at, i));
        assert(inside.contains(i));
    }
    assert forall|i: int|
        0 <= i < t.slots.len() && !live.contains(i) implies #[trigger] last.slots[i]
        == t.slots[i] by {
        assert(!inside.contains(i));
        assert(after.slots[i] == inner.slots[i]);
    }
}

/// The lazy evaluation of a safe expression, where the slots it sees are
/// typed, finds every slot filled and every function: it fails for
/// arithmetic or for want of depth, if it fails, and keeps the slots typed.
pub proof fn lemma_lazy_safe(
    e: ExprView,
    t: Table<VarView>,
    why: Seq<Reason>,
    funcs: Seq<ExprView>,
    arity: Seq<nat>,
    live: Set<int>,
    reason: Reason,
    depth: nat,
)
    requires
        held(t, why, arity, live),
        safe_funcs(funcs, arity),
        uniform(e, reason.frame),
        safe(e, reason.width, arity),
        fits(t, reason.frame, reason.width),
        covers(t, live, reason.frame, reason.width),
    ensures
        match lazy_eval(e, t, funcs, depth) {
            Ok((_, after)) => held(after, why, arity, live) && spares(t, after, live),
            Err(err) => benign(Some(err)),
        },
    decreases depth, e,
{
    reveal_with_fuel(safe, 2);
    reveal_with_fuel(uniform, 2);
    reveal_with_fuel(lazy_eval, 2);
    reveal_with_fuel(lazy_force, 2);
    reveal_with_fuel(lazy_call, 2);
    if reason.frame + 1 < t.offsets.len() {
        assert(t.offsets[reason.frame as int + 1] <= t.slots.len());
    }
    match e {
        ExprView::Value(_) => {},
        ExprView::Variable(_, id) => {
            let pos = (t.offsets[reason.frame as int] + id) as int;
            assert(live.contains(pos));
            assert(typed(t, why, arity, pos));
            t.lemma_position(reason.frame, id);
            match t.slots[pos].unwrap() {
                VarView::Cached(v) => {
                    let taken = t.take(reason.frame, id);
                    assert(taken.put_back(reason.frame, id, VarView::Cached(v)) =~= t);
                },
                VarView::Thunk(inner) => {
                    if depth > 0 {
                        let taken = t.take(reason.frame, id);
                        lemma_held_take(t, why, arity, live, reason.frame, id);
                        lemma_lazy_safe(
                            inner,
                            taken,
                            why,
                            funcs,
                            arity,
                            before(live, pos),
                            why[pos],
                            (depth - 1) as nat,
                        );
                        match lazy_eval(inner, taken, funcs, (depth - 1) as nat) {
                            Err(_) => {},
                            Ok((v, after)) => {
                                lemma_held_put_back(
                                    t,
                                    after,
                                    why,
                                    arity,
                                    live,
                                    reason.frame,
                                    id,
                                    v,
                                );
                            },
                        }
                    }
                },
            }
        },
        ExprView::Operation(_, lhs, rhs) => {
            lemma_lazy_safe(*lhs, t, why, funcs, arity, live, reason, depth);
            match lazy_eval(*lhs, t, funcs, depth) {
                Err(_) => {},
                Ok((_, t1)) => {
                    lemma_lazy_safe(*rhs, t1, why, funcs, arity, live, reason, depth);
                    match lazy_eval(*rhs, t1, funcs, depth) {
                        Err(_) => {},
                        Ok((_, t2)) => {
                            lemma_spares_trans(t, t1, t2, live);
                        },
                    }
                },
            }
        },
        ExprView::FuncCall(f, args) => {
            if depth > 0 {
                let inner = enter(t, args);
                let top = t.offsets.len();
                let body = funcs[f as int].circulate(top);
                let next = Reason { frame: top, width: args.len(), ..reason };
                lemma_held_enter(t, why, arity, live, args, reason);
                lemma_safe_circulate(funcs[f as int], top, arity[f as int], arity);
                lemma_lazy_safe(
                    body,
                    inner,
                    handed(why, args.len(), reason),
                    funcs,
                    arity,
                    with_frame(live, t.slots.len() as int, args.len() as int),
                    next,
                    (depth - 1) as nat,
                );
                match lazy_eval(body, inner, funcs, (depth - 1) as nat) {
                    Err(_) => {},
                    Ok((_, after)) => {
                        lemma_held_leave(t, after, why, arity, live, args, reason);
                    },
                }
            }
        },
        ExprView::If(c, then, otherwise) => {
            lemma_lazy_safe(*c, t, why, funcs, arity, live, reason, depth);
            match lazy_eval(*c, t, funcs, depth) {
                Err(_) => {},
                Ok((v, t1)) => {
                    if v != 0 {
                        lemma_lazy_safe(*then, t1, why, funcs, arity, live, reason, depth);
                        match lazy_eval(*then, t1, funcs, depth) {
                            Err(_) => {},
                            Ok((_, t2)) => {
                                lemma_spares_trans(t, t1, t2, live);
                            },
                        }
                    } else {
                        lemma_lazy_safe(*otherwise, t1, why, funcs, arity, live, reason, depth);
                        match lazy_eval(*otherwise, t1, funcs, depth) {
                            Err(_) => {},
                            Ok((_, t2)) => {
                                lemma_spares_trans(t, t1, t2, live);
                            },
                        }
                    }
                },
            }
        },
    }
}

/// The reasons of the bindings of a program: each sees those before it.
pub open spec fn earlier(count: nat) -> Seq<Reason> {
    Seq::new(count, |i: int| Reason { frame: 0, width: i as nat, fuel: 0, base: 0, rank: 0 })
}

proof fn lemma_safe_prints(
    prints: Seq<ExprView>,
    from: nat,
    t: Table<VarView>,
    why: Seq<Reason>,
    funcs: Seq<ExprView>,
    arity: Seq<nat>,
    depth: nat,
    done: Seq<i32>,
)
    requires
        from <= prints.len(),
        safe_funcs(funcs, arity),
        held(t, why, arity, all_slots(t.slots.len())),
        t.offsets == seq![0nat],
        forall|i: int| 0 <= i < prints.len() ==> uniform(#[trigger] prints[i], 0),
        forall|i: int| 0 <= i < prints.len() ==> safe(#[trigger] prints[i], t.slots.len(), arity),
    ensures
        benign(lazy_prints(prints, from, t, funcs, depth, done).failure),
    decreases prints.len() - from,
{
    if from < prints.len() {
        let reason = Reason { frame: 0, width: t.slots.len(), fuel: 0, base: 0, rank: 0 };
        lemma_lazy_safe(
            prints[from as int],
            t,
            why,
            funcs,
            arity,
            all_slots(t.slots.len()),
            reason,
            depth,
        );
        match lazy_eval(prints[from as int], t, funcs, depth) {
            Err(_) => {},
            Ok((v, after)) => {
                lemma_safe_prints(prints, from + 1, after, why, funcs, arity, depth, done.push(v));
            },
        }
    }
}

/// The lazy run of a sane, rooted program fails for arithmetic or for want
/// of depth, if it fails: no binding finds its own slot empty.
pub proof fn lemma_sane_lazy_run(p: ProgramView, arity: Seq<nat>, depth: nat)
    requires
        sane(p, arity),
        rooted(p),
    ensures
        benign(lazy_run(p, depth).failure),
{
    let t = suspended(p.vars);
    let why = earlier(p.vars.len());
    let live = all_slots(t.slots.len());
    assert forall|at: int| #[trigger] live.contains(at) implies 0 <= at < t.slots.len() && typed(
        t,
        why,
        arity,
        at,
    ) by {
        assert(uniform(p.vars[at], 0));
        assert(safe(p.vars[at], at as nat, arity));
    }
    lemma_safe_prints(p.prints, 0, t, why, p.funcs, arity, depth, Seq::empty());
}

/// The lazy run of a source unit that resolves fails for arithmetic or for
/// want of depth, if it fails: what is resolved reads no slot that is not
/// there, and none that waits for itself.
pub proof fn lemma_resolved_lazy_run(stmts: Seq<ast::StmtView>, depth: nat)
    requires
        resolve(stmts) is Ok,
    ensures
        benign(lazy_run(resolve(stmts).unwrap(), depth).failure),
{
    lemma_resolved_sane(stmts);
    lemma_resolved_rooted(stmts);
    lemma_sane_lazy_run(resolve(stmts).unwrap(), arities(stmts, stmts.len()), depth);
}

} // verus!
