//! The agreement of the two evaluators: where the strict run of a program
//! has no failure, the lazy run prints the same values in the same order. A
//! lazy run may stop short of them for want of depth, since a suspended
//! expression is forced inside what reads it; a depth that is enough is
//! given.
use crate::ast;
use crate::error::{EvalError, ScopeError};
use crate::eval::eager::strict_run;
use crate::eval::environment::{
    bindings, lemma_bindings, lemma_outputs_extend, lemma_resolved_rooted, lemma_strict_run,
    lemma_value_circulate, lemma_values, lemma_values_circulate, outputs, rooted, run, uniform,
    value, values,
};
use crate::eval::lazy::{
    enter, lazy_call, lazy_eval, lazy_force, lazy_prints, lazy_run, lemma_enter, suspended,
    VarView,
};
use crate::eval::namespace::{Step, Table};
use crate::eval::Trace;
use crate::ir::{ExprView, ProgramView};
use crate::resolve::resolve;
use vstd::prelude::*;

verus! {

/// The larger of two numbers.
pub open spec fn larger(a: nat, b: nat) -> nat {
    if a >= b {
        a
    } else {
        b
    }
}

/// A depth that is enough for the lazy evaluation of `e`, where `e` is
/// worth a value in `env` and `base` is enough to force any slot that `e`
/// sees: a call takes one level for its body, and the body sees slots that
/// take one level each for the argument they suspend.
pub open spec fn cost(e: ExprView, env: Seq<i32>, funcs: Seq<ExprView>, fuel: nat, base: nat) -> nat
    decreases fuel, e, 0nat,
{
    match e {
        ExprView::Value(_) => 0,
        ExprView::Variable(_, _) => base,
        ExprView::Operation(_, lhs, rhs) => larger(
            cost(*lhs, env, funcs, fuel, base),
            cost(*rhs, env, funcs, fuel, base),
        ),
        ExprView::FuncCall(f, args) => if f >= funcs.len() || fuel == 0 {
            0
        } else {
            match values(args, 0, env, funcs, fuel, Seq::empty()) {
                Err(_) => 0,
                Ok(params) => 1 + cost(
                    funcs[f as int],
                    params,
                    funcs,
                    (fuel - 1) as nat,
                    costs(args, 0, env, funcs, fuel, base),
                ),
            }
        },
        ExprView::If(c, then, otherwise) => match value(*c, env, funcs, fuel) {
            Err(_) => 0,
            Ok(v) => larger(
                cost(*c, env, funcs, fuel, base),
                if v != 0 {
                    cost(*then, env, funcs, fuel, base)
                } else {
                    cost(*otherwise, env, funcs, fuel, base)
                },
            ),
        },
    }
}

/// A depth that is enough to force any of the arguments `args[from..]`.
pub open spec fn costs(
    args: Seq<ExprView>,
    from: nat,
    env: Seq<i32>,
    funcs: Seq<ExprView>,
    fuel: nat,
    base: nat,
) -> nat
    decreases fuel, args, args.len() - from,
{
    if from >= args.len() {
        0
    } else {
        larger(
            1 + cost(args[from as int], env, funcs, fuel, base),
            costs(args, from + 1, env, funcs, fuel, base),
        )
    }
}

/// The cost of an expression does not depend on the frame that its
/// variables address.
pub proof fn lemma_cost_circulate(
    e: ExprView,
    depth: nat,
    env: Seq<i32>,
    funcs: Seq<ExprView>,
    fuel: nat,
    base: nat,
)
    ensures
        cost(e.circulate(depth), env, funcs, fuel, base) == cost(e, env, funcs, fuel, base),
    decreases e, 0nat,
{
    reveal_with_fuel(cost, 2);
    match e {
        ExprView::Value(_) => {},
        ExprView::Variable(_, _) => {},
        ExprView::Operation(_, lhs, rhs) => {
            lemma_cost_circulate(*lhs, depth, env, funcs, fuel, base);
            lemma_cost_circulate(*rhs, depth, env, funcs, fuel, base);
        },
        ExprView::FuncCall(f, args) => {
            lemma_values_circulate(args, 0, depth, env, funcs, fuel, Seq::empty());
            lemma_costs_circulate(args, 0, depth, env, funcs, fuel, base);
        },
        ExprView::If(c, t, f) => {
            lemma_value_circulate(*c, depth, env, funcs, fuel);
            lemma_cost_circulate(*c, depth, env, funcs, fuel, base);
            lemma_cost_circulate(*t, depth, env, funcs, fuel, base);
            lemma_cost_circulate(*f, depth, env, funcs, fuel, base);
        },
    }
}

proof fn lemma_costs_circulate(
    args: Seq<ExprView>,
    from: nat,
    depth: nat,
    env: Seq<i32>,
    funcs: Seq<ExprView>,
    fuel: nat,
    base: nat,
)
    ensures
        costs(ExprView::FuncCall(0, args).circulate(depth)->FuncCall_1, from, env, funcs, fuel, base)
            == costs(args, from, env, funcs, fuel, base),
    decreases args, args.len() - from,
{
    reveal_with_fuel(costs, 2);
    if from < args.len() {
        lemma_cost_circulate(args[from as int], depth, env, funcs, fuel, base);
        lemma_costs_circulate(args, from + 1, depth, env, funcs, fuel, base);
    }
}

/// Why a suspended expression is worth a value: it addresses a frame, of
/// which it sees the first slots, and has its value there at some depth.
/// Forcing it takes at most `rank`, where forcing a slot that it sees takes
/// at most `base`.
pub struct Reason {
    pub frame: nat,
    pub width: nat,
    pub fuel: nat,
    pub base: nat,
    pub rank: nat,
}

/// Whether forcing a slot that a reason names takes at most its `base`.
pub open spec fn ranked(t: Table<VarView>, why: Seq<Reason>, r: Reason) -> bool {
    forall|i: int|
        t.offsets[r.frame as int] <= i < t.offsets[r.frame as int] + r.width ==> (
        #[trigger] why[i]).rank <= r.base
}

/// The values of the slots that a reason names.
pub open spec fn scope(t: Table<VarView>, vals: Seq<i32>, frame: nat, width: nat) -> Seq<i32> {
    vals.subrange(t.offsets[frame as int] as int, (t.offsets[frame as int] + width) as int)
}

/// Whether the slots that a reason names are slots of the frame.
pub open spec fn fits(t: Table<VarView>, frame: nat, width: nat) -> bool {
    &&& frame < t.offsets.len()
    &&& t.offsets[frame as int] + width <= t.bound(frame)
}

/// Whether the slot `at` holds the value `vals[at]`, or an expression that
/// is worth it for the reason `why[at]`, which names slots before `at`.
pub open spec fn sound(
    t: Table<VarView>,
    vals: Seq<i32>,
    why: Seq<Reason>,
    funcs: Seq<ExprView>,
    at: int,
) -> bool {
    match t.slots[at] {
        None => false,
        Some(VarView::Cached(v)) => v == vals[at],
        Some(VarView::Thunk(e)) => {
            let r = why[at];
            &&& uniform(e, r.frame)
            &&& fits(t, r.frame, r.width)
            &&& t.offsets[r.frame as int] + r.width <= at
            &&& value(e, scope(t, vals, r.frame, r.width), funcs, r.fuel) == Ok::<i32, EvalError>(
                vals[at],
            )
            &&& ranked(t, why, r)
            &&& r.rank >= 1 + cost(e, scope(t, vals, r.frame, r.width), funcs, r.fuel, r.base)
        },
    }
}

/// Whether the slot `at` holds an expression whose reason names the slot `i`.
pub open spec fn needs(t: Table<VarView>, why: Seq<Reason>, at: int, i: int) -> bool {
    &&& t.slots[at] is Some
    &&& t.slots[at].unwrap() is Thunk
    &&& t.offsets[why[at].frame as int] <= i < t.offsets[why[at].frame as int] + why[at].width
}

/// Whether the slots in `live` are sound, together with the slots that
/// their reasons name.
pub open spec fn kept(
    t: Table<VarView>,
    vals: Seq<i32>,
    why: Seq<Reason>,
    funcs: Seq<ExprView>,
    live: Set<int>,
) -> bool {
    &&& t.wf()
    &&& vals.len() == t.slots.len()
    &&& why.len() == t.slots.len()
    &&& forall|at: int| #[trigger]
        live.contains(at) ==> 0 <= at < t.slots.len() && sound(t, vals, why, funcs, at)
    &&& forall|at: int, i: int|
        live.contains(at) && #[trigger] needs(t, why, at, i) ==> live.contains(i)
}

/// Whether the first `width` slots of a frame are in `live`.
pub open spec fn covers(t: Table<VarView>, live: Set<int>, frame: nat, width: nat) -> bool {
    forall|i: int|
        t.offsets[frame as int] <= i < t.offsets[frame as int] + width ==> live.contains(i)
}

/// What an evaluation under `live` leaves of a table: the frames, the
/// number of slots, and every slot outside `live`.
pub open spec fn spares(t: Table<VarView>, after: Table<VarView>, live: Set<int>) -> bool {
    &&& after.offsets == t.offsets
    &&& after.slots.len() == t.slots.len()
    &&& forall|i: int|
        0 <= i < t.slots.len() && !live.contains(i) ==> #[trigger] after.slots[i] == t.slots[i]
}

/// The slots of `live` before the slot `pos`.
pub open spec fn before(live: Set<int>, pos: int) -> Set<int> {
    Set::new(|i: int| live.contains(i) && i < pos)
}

/// The slots of `live` and the `count` slots from `start` on.
pub open spec fn with_frame(live: Set<int>, start: int, count: int) -> Set<int> {
    Set::new(|i: int| live.contains(i) || start <= i < start + count)
}

/// The reasons of the arguments of a call: each is worth its value for the
/// reason that the call is, and takes one level more to force than its
/// evaluation takes.
pub open spec fn passed(
    why: Seq<Reason>,
    args: Seq<ExprView>,
    env: Seq<i32>,
    funcs: Seq<ExprView>,
    reason: Reason,
) -> Seq<Reason> {
    why + Seq::new(
        args.len(),
        |i: int|
            Reason { rank: 1 + cost(args[i], env, funcs, reason.fuel, reason.base), ..reason },
    )
}

/// The reason of the body of a call: it sees the arguments, at one level
/// less, and forcing one of them takes at most what [`costs`] says.
pub open spec fn called(
    t: Table<VarView>,
    args: Seq<ExprView>,
    env: Seq<i32>,
    funcs: Seq<ExprView>,
    reason: Reason,
) -> Reason {
    Reason {
        frame: t.offsets.len(),
        width: args.len(),
        fuel: (reason.fuel - 1) as nat,
        base: costs(args, 0, env, funcs, reason.fuel, reason.base),
        rank: 0,
    }
}

/// When a suspended expression is taken out of a sound slot, the slots
/// before it are kept, and they are those that the expression needs.
proof fn lemma_kept_take(
    t: Table<VarView>,
    vals: Seq<i32>,
    why: Seq<Reason>,
    funcs: Seq<ExprView>,
    live: Set<int>,
    frame: nat,
    id: nat,
)
    requires
        kept(t, vals, why, funcs, live),
        t.position(frame, id) is Ok,
        live.contains(t.position(frame, id).unwrap() as int),
        t.slots[t.position(frame, id).unwrap() as int] matches Some(VarView::Thunk(_)),
    ensures
        ({
            let pos = t.position(frame, id).unwrap() as int;
            let taken = t.take(frame, id);
            let r = why[pos];
            &&& kept(taken, vals, why, funcs, before(live, pos))
            &&& spares(t, taken, Set::empty().insert(pos))
            &&& taken.slots[pos] is None
            &&& fits(taken, r.frame, r.width)
            &&& covers(taken, before(live, pos), r.frame, r.width)
            &&& scope(taken, vals, r.frame, r.width) == scope(t, vals, r.frame, r.width)
        }),
{
    let pos = t.position(frame, id).unwrap() as int;
    let taken = t.take(frame, id);
    let below = before(live, pos);
    let r = why[pos];
    t.lemma_position(frame, id);
    assert(sound(t, vals, why, funcs, pos));
    assert forall|at: int| #[trigger] below.contains(at) implies 0 <= at < taken.slots.len() && sound(
        taken,
        vals,
        why,
        funcs,
        at,
    ) by {
        assert(sound(t, vals, why, funcs, at));
        assert(taken.slots[at] == t.slots[at]);
    }
    assert forall|at: int, i: int| below.contains(at) && #[trigger] needs(
        taken,
        why,
        at,
        i,
    ) implies below.contains(i) by {
        assert(sound(t, vals, why, funcs, at));
        assert(taken.slots[at] == t.slots[at]);
        assert(needs(t, why, at, i));
    }
    assert forall|i: int|
        taken.offsets[r.frame as int] <= i < taken.offsets[r.frame as int]
            + r.width implies below.contains(i) by {
        assert(needs(t, why, pos, i));
    }
    assert(scope(taken, vals, r.frame, r.width) =~= scope(t, vals, r.frame, r.width));
    assert forall|i: int|
        0 <= i < t.slots.len() && !Set::<int>::empty().insert(pos).contains(
            i,
        ) implies #[trigger] taken.slots[i] == t.slots[i] by {}
}

/// When the value of a suspended expression is put in its slot, all of
/// `live` is kept again.
proof fn lemma_kept_put_back(
    t: Table<VarView>,
    after: Table<VarView>,
    vals: Seq<i32>,
    why: Seq<Reason>,
    funcs: Seq<ExprView>,
    live: Set<int>,
    frame: nat,
    id: nat,
)
    requires
        kept(t, vals, why, funcs, live),
        t.position(frame, id) is Ok,
        live.contains(t.position(frame, id).unwrap() as int),
        t.slots[t.position(frame, id).unwrap() as int] matches Some(VarView::Thunk(_)),
        kept(after, vals, why, funcs, before(live, t.position(frame, id).unwrap() as int)),
        spares(t.take(frame, id), after, before(live, t.position(frame, id).unwrap() as int)),
    ensures
        ({
            let pos = t.position(frame, id).unwrap() as int;
            let last = after.put_back(frame, id, VarView::Cached(vals[pos]));
            &&& after.accepts(frame, id) is Ok
            &&& kept(last, vals, why, funcs, live)
            &&& spares(t, last, live)
        }),
{
    let pos = t.position(frame, id).unwrap() as int;
    let taken = t.take(frame, id);
    let below = before(live, pos);
    let last = after.put_back(frame, id, VarView::Cached(vals[pos]));
    t.lemma_position(frame, id);
    after.lemma_position(frame, id);
    assert(!below.contains(pos));
    assert(after.slots[pos] == taken.slots[pos]);
    assert(after.position(frame, id) == t.position(frame, id));
    assert forall|at: int| #[trigger] live.contains(at) implies 0 <= at < last.slots.len() && sound(
        last,
        vals,
        why,
        funcs,
        at,
    ) by {
        assert(sound(t, vals, why, funcs, at));
        if at < pos {
            assert(below.contains(at));
            assert(sound(after, vals, why, funcs, at));
        } else if at > pos {
            assert(!below.contains(at));
            assert(after.slots[at] == taken.slots[at]);
        }
    }
    assert forall|at: int, i: int| live.contains(at) && #[trigger] needs(
        last,
        why,
        at,
        i,
    ) implies live.contains(i) by {
        assert(sound(t, vals, why, funcs, at));
        if at < pos {
            assert(below.contains(at));
            assert(needs(after, why, at, i));
            assert(below.contains(i));
        } else if at > pos {
            assert(!below.contains(at));
            assert(after.slots[at] == taken.slots[at]);
            assert(needs(t, why, at, i));
        }
    }
    assert forall|i: int| 0 <= i < t.slots.len() && !live.contains(i) implies #[trigger] last.slots[i]
        == t.slots[i] by {
        assert(!below.contains(i));
        assert(after.slots[i] == taken.slots[i]);
    }
}

/// When the arguments of a call are suspended in a frame of their own, the
/// slots of that frame are kept with the others, each for the reason that
/// the call is worth its value, and they hold what the arguments are worth.
proof fn lemma_kept_enter(
    t: Table<VarView>,
    vals: Seq<i32>,
    why: Seq<Reason>,
    funcs: Seq<ExprView>,
    live: Set<int>,
    args: Seq<ExprView>,
    reason: Reason,
    params: Seq<i32>,
)
    requires
        kept(t, vals, why, funcs, live),
        fits(t, reason.frame, reason.width),
        covers(t, live, reason.frame, reason.width),
        ranked(t, why, reason),
        forall|i: int| 0 <= i < args.len() ==> uniform(#[trigger] args[i], reason.frame),
        values(
            args,
            0,
            scope(t, vals, reason.frame, reason.width),
            funcs,
            reason.fuel,
            Seq::empty(),
        ) == Ok::<Seq<i32>, EvalError>(params),
    ensures
        ({
            let inner = enter(t, args);
            let inside = with_frame(live, t.slots.len() as int, args.len() as int);
            let why2 = passed(
                why,
                args,
                scope(t, vals, reason.frame, reason.width),
                funcs,
                reason,
            );
            let next = called(t, args, scope(t, vals, reason.frame, reason.width), funcs, reason);
            &&& params.len() == args.len()
            &&& kept(inner, vals + params, why2, funcs, inside)
            &&& spares(t, inner.close(), Set::empty())
            &&& fits(inner, t.offsets.len(), args.len())
            &&& covers(inner, inside, t.offsets.len(), args.len())
            &&& ranked(inner, why2, next)
            &&& scope(inner, vals + params, t.offsets.len(), args.len()) == params
        }),
{
    let inner = enter(t, args);
    let len = t.slots.len() as int;
    let inside = with_frame(live, len, args.len() as int);
    let vals2 = vals + params;
    let why2 = passed(why, args, scope(t, vals, reason.frame, reason.width), funcs, reason);
    let env = scope(t, vals, reason.frame, reason.width);
    lemma_enter(t, args);
    lemma_values(args, 0, env, funcs, reason.fuel, Seq::empty());
    lemma_fits_enter(t, args, reason.frame, reason.width);
    assert(scope(inner, vals2, t.offsets.len(), args.len()) =~= params);
    assert(scope(inner, vals2, reason.frame, reason.width) =~= env);
    assert forall|at: int| #[trigger] inside.contains(at) implies 0 <= at < inner.slots.len() && sound(
        inner,
        vals2,
        why2,
        funcs,
        at,
    ) by {
        if at < len {
            assert(live.contains(at));
            assert(sound(t, vals, why, funcs, at));
            assert(inner.slots[at] == t.slots[at]);
            if let Some(VarView::Thunk(_)) = t.slots[at] {
                let r = why[at];
                lemma_fits_enter(t, args, r.frame, r.width);
                assert(scope(inner, vals2, r.frame, r.width) =~= scope(t, vals, r.frame, r.width));
                assert(why2[at] == r);
                assert(ranked(inner, why2, r)) by {
                    assert forall|i: int|
                        inner.offsets[r.frame as int] <= i < inner.offsets[r.frame as int]
                            + r.width implies (#[trigger] why2[i]).rank <= r.base by {
                        assert(why2[i] == why[i]);
                    }
                }
            }
        } else {
            if live.contains(at) {
                assert(sound(t, vals, why, funcs, at));
            }
            let k = at - len;
            assert(0 <= k < args.len());
            assert(inner.slots[len + k] == Some(VarView::Thunk(args[k])));
            assert(value(args[k], env, funcs, reason.fuel) == Ok::<i32, EvalError>(params[k]));
            let r = why2[at];
            assert(r == Reason {
                rank: 1 + cost(args[k], env, funcs, reason.fuel, reason.base),
                ..reason
            });
            assert(ranked(inner, why2, r)) by {
                assert forall|i: int|
                    inner.offsets[r.frame as int] <= i < inner.offsets[r.frame as int]
                        + r.width implies (#[trigger] why2[i]).rank <= r.base by {
                    assert(why2[i] == why[i]);
                }
            }
        }
    }
    assert forall|at: int, i: int| inside.contains(at) && #[trigger] needs(
        inner,
        why2,
        at,
        i,
    ) implies inside.contains(i) by {
        if live.contains(at) {
            assert(sound(t, vals, why, funcs, at));
        }
        if at < len {
            assert(inner.slots[at] == t.slots[at]);
            assert(sound(inner, vals2, why2, funcs, at));
            let r = why[at];
            lemma_fits_enter(t, args, r.frame, r.width);
            assert(needs(t, why, at, i));
        } else {
            assert(why2[at].frame == reason.frame && why2[at].width == reason.width);
        }
    }
    let next = called(t, args, env, funcs, reason);
    assert(ranked(inner, why2, next)) by {
        assert forall|i: int|
            inner.offsets[next.frame as int] <= i < inner.offsets[next.frame as int]
                + next.width implies (#[trigger] why2[i]).rank <= next.base by {
            let k = i - len;
            assert(why2[len + k].rank == 1 + cost(args[k], env, funcs, reason.fuel, reason.base));
            lemma_costs(args, 0, env, funcs, reason.fuel, reason.base, k);
        }
    }
    inner.lemma_step_wf(Step::Close);
    assert forall|i: int|
        0 <= i < t.slots.len() && !Set::<int>::empty().contains(i) implies #[trigger] inner.close().slots[i]
            == t.slots[i] by {}
}

/// What is enough to force any argument is enough to force each.
proof fn lemma_costs(
    args: Seq<ExprView>,
    from: nat,
    env: Seq<i32>,
    funcs: Seq<ExprView>,
    fuel: nat,
    base: nat,
    at: int,
)
    requires
        from <= at < args.len(),
    ensures
        1 + cost(args[at], env, funcs, fuel, base) <= costs(args, from, env, funcs, fuel, base),
    decreases args.len() - from,
{
    reveal_with_fuel(costs, 2);
    if from < at {
        lemma_costs(args, from + 1, env, funcs, fuel, base, at);
    }
}

/// A reason that fits a table fits it when a call has opened its frame.
pub proof fn lemma_fits_enter(t: Table<VarView>, args: Seq<ExprView>, frame: nat, width: nat)
    requires
        t.wf(),
        fits(t, frame, width),
    ensures
        fits(enter(t, args), frame, width),
        enter(t, args).offsets[frame as int] == t.offsets[frame as int],
        enter(t, args).bound(frame) == t.bound(frame),
        t.offsets[frame as int] + width <= t.slots.len(),
{
    lemma_enter(t, args);
    if frame + 1 < t.offsets.len() {
        assert(t.offsets[frame as int + 1] <= t.slots.len());
    }
}

/// When the frame of a call is closed, the slots that were kept before the
/// call are kept again.
proof fn lemma_kept_leave(
    t: Table<VarView>,
    after: Table<VarView>,
    vals: Seq<i32>,
    why: Seq<Reason>,
    funcs: Seq<ExprView>,
    live: Set<int>,
    args: Seq<ExprView>,
    reason: Reason,
    params: Seq<i32>,
)
    requires
        kept(t, vals, why, funcs, live),
        params.len() == args.len(),
        kept(
            after,
            vals + params,
            passed(why, args, scope(t, vals, reason.frame, reason.width), funcs, reason),
            funcs,
            with_frame(live, t.slots.len() as int, args.len() as int),
        ),
        spares(enter(t, args), after, with_frame(live, t.slots.len() as int, args.len() as int)),
    ensures
        kept(after.close(), vals, why, funcs, live),
        spares(t, after.close(), live),
{
    let inner = enter(t, args);
    let len = t.slots.len() as int;
    let inside = with_frame(live, len, args.len() as int);
    let vals2 = vals + params;
    let why2 = passed(why, args, scope(t, vals, reason.frame, reason.width), funcs, reason);
    let last = after.close();
    lemma_enter(t, args);
    assert(last.offsets =~= t.offsets);
    assert(last.slots.len() == len);
    assert forall|at: int| #[trigger] live.contains(at) implies 0 <= at < last.slots.len() && sound(
        last,
        vals,
        why,
        funcs,
        at,
    ) by {
        assert(sound(t, vals, why, funcs, at));
        assert(inside.contains(at));
        assert(sound(after, vals2, why2, funcs, at));
        assert(last.slots[at] == after.slots[at]);
        assert(after.offsets[t.offsets.len() as int] == len);
        if let Some(VarView::Thunk(_)) = after.slots[at] {
            let r = why[at];
            assert(why2[at] == r);
            assert(r.frame < t.offsets.len());
            assert(scope(last, vals, r.frame, r.width) =~= scope(after, vals2, r.frame, r.width));
            assert(ranked(last, why, r)) by {
                assert forall|i: int|
                    last.offsets[r.frame as int] <= i < last.offsets[r.frame as int]
                        + r.width implies (#[trigger] why[i]).rank <= r.base by {
                    assert(why2[i] == why[i]);
                }
            }
        }
    }
    after.lemma_step_wf(Step::Close);
    assert forall|at: int, i: int| live.contains(at) && #[trigger] needs(
        last,
        why,
        at,
        i,
    ) implies live.contains(i) by {
        assert(sound(t, vals, why, funcs, at));
        assert(inside.contains(at));
        assert(sound(after, vals2, why2, funcs, at));
        assert(last.slots[at] == after.slots[at]);
        assert(why2[at] == why[at]);
        assert(after.offsets[t.offsets.len() as int] == len);
        assert(needs(after, why2, at, i));
        assert(inside.contains(i));
    }
    assert forall|i: int| 0 <= i < t.slots.len() && !live.contains(i) implies #[trigger] last.slots[i]
        == t.slots[i] by {
        assert(!inside.contains(i));
        assert(after.slots[i] == inner.slots[i]);
    }
}

/// The values that a reason names are those of its slots.
proof fn lemma_scope(t: Table<VarView>, vals: Seq<i32>, frame: nat, width: nat)
    requires
        t.wf(),
        vals.len() == t.slots.len(),
        fits(t, frame, width),
    ensures
        scope(t, vals, frame, width).len() == width,
        t.offsets[frame as int] + width <= t.slots.len(),
        forall|i: int|
            0 <= i < width ==> #[trigger] scope(t, vals, frame, width)[i] == vals[t.offsets[frame as int]
                + i],
        forall|id: nat| id < width ==> #[trigger] t.position(frame, id) == Ok::<nat, ScopeError>(
            t.offsets[frame as int] + id,
        ),
{
    if frame + 1 < t.offsets.len() {
        assert(t.offsets[frame as int + 1] <= t.slots.len());
    }
}

/// What an evaluation leaves of a table carries over an evaluation in
/// between.
pub proof fn lemma_spares_trans(
    a: Table<VarView>,
    b: Table<VarView>,
    c: Table<VarView>,
    live: Set<int>,
)
    requires
        spares(a, b, live),
        spares(b, c, live),
    ensures
        spares(a, c, live),
{
    assert forall|i: int| 0 <= i < a.slots.len() && !live.contains(i) implies #[trigger] c.slots[i]
        == a.slots[i] by {
        assert(b.slots[i] == a.slots[i]);
    }
}

/// The lazy evaluation of an expression that is worth a value in the slots
/// it sees, where these slots are kept, gives that value and keeps the
/// slots, or runs out of depth. It gives no other value and no other error,
/// and it does not run out of a depth that is at least its [`cost`].
pub proof fn lemma_lazy_value(
    e: ExprView,
    t: Table<VarView>,
    vals: Seq<i32>,
    why: Seq<Reason>,
    funcs: Seq<ExprView>,
    live: Set<int>,
    reason: Reason,
    depth: nat,
)
    requires
        kept(t, vals, why, funcs, live),
        uniform(e, reason.frame),
        fits(t, reason.frame, reason.width),
        covers(t, live, reason.frame, reason.width),
        ranked(t, why, reason),
        value(e, scope(t, vals, reason.frame, reason.width), funcs, reason.fuel) is Ok,
    ensures
        depth >= cost(
            e,
            scope(t, vals, reason.frame, reason.width),
            funcs,
            reason.fuel,
            reason.base,
        ) ==> lazy_eval(e, t, funcs, depth) is Ok,
        match lazy_eval(e, t, funcs, depth) {
            Ok((v, after)) => {
                &&& value(e, scope(t, vals, reason.frame, reason.width), funcs, reason.fuel)
                    == Ok::<i32, EvalError>(v)
                &&& kept(after, vals, why, funcs, live)
                &&& spares(t, after, live)
            },
            Err(err) => err == EvalError::DepthExceeded,
        },
    decreases depth, e,
{
    reveal_with_fuel(value, 2);
    reveal_with_fuel(uniform, 2);
    reveal_with_fuel(lazy_eval, 2);
    reveal_with_fuel(lazy_force, 2);
    reveal_with_fuel(lazy_call, 2);
    reveal_with_fuel(cost, 2);
    let env = scope(t, vals, reason.frame, reason.width);
    lemma_scope(t, vals, reason.frame, reason.width);
    match e {
        ExprView::Value(_) => {},
        ExprView::Variable(_, id) => {
            let pos = (t.offsets[reason.frame as int] + id) as int;
            assert(t.position(reason.frame, id) == Ok::<nat, ScopeError>(pos as nat));
            assert(live.contains(pos));
            assert(sound(t, vals, why, funcs, pos));
            assert(why[pos].rank <= reason.base);
            t.lemma_position(reason.frame, id);
            match t.slots[pos].unwrap() {
                VarView::Cached(v) => {
                    let taken = t.take(reason.frame, id);
                    assert(taken.put_back(reason.frame, id, VarView::Cached(v)) =~= t);
                },
                VarView::Thunk(inner) => {
                    if depth > 0 {
                        let taken = t.take(reason.frame, id);
                        lemma_kept_take(t, vals, why, funcs, live, reason.frame, id);
                        lemma_lazy_value(
                            inner,
                            taken,
                            vals,
                            why,
                            funcs,
                            before(live, pos),
                            why[pos],
                            (depth - 1) as nat,
                        );
                        match lazy_eval(inner, taken, funcs, (depth - 1) as nat) {
                            Err(_) => {},
                            Ok((v, after)) => {
                                lemma_kept_put_back(
                                    t,
                                    after,
                                    vals,
                                    why,
                                    funcs,
                                    live,
                                    reason.frame,
                                    id,
                                );
                            },
                        }
                    }
                },
            }
        },
        ExprView::Operation(op, lhs, rhs) => {
            lemma_lazy_value(*lhs, t, vals, why, funcs, live, reason, depth);
            match lazy_eval(*lhs, t, funcs, depth) {
                Err(_) => {},
                Ok((_, t1)) => {
                    assert(scope(t1, vals, reason.frame, reason.width) == env);
                    lemma_lazy_value(*rhs, t1, vals, why, funcs, live, reason, depth);
                    match lazy_eval(*rhs, t1, funcs, depth) {
                        Err(_) => {},
                        Ok((_, t2)) => {
                            lemma_spares_trans(t, t1, t2, live);
                        },
                    }
                },
            }
        },
        ExprView::FuncCall(f, args) => {
            if depth > 0 {
                let params = values(args, 0, env, funcs, reason.fuel, Seq::empty()).unwrap();
                let inner = enter(t, args);
                let top = t.offsets.len();
                let body = funcs[f as int].circulate(top);
                let next = called(t, args, env, funcs, reason);
                lemma_kept_enter(t, vals, why, funcs, live, args, reason, params);
                lemma_value_circulate(funcs[f as int], top, params, funcs, (reason.fuel - 1) as nat);
                lemma_cost_circulate(
                    funcs[f as int],
                    top,
                    params,
                    funcs,
                    (reason.fuel - 1) as nat,
                    next.base,
                );
                lemma_lazy_value(
                    body,
                    inner,
                    vals + params,
                    passed(why, args, scope(t, vals, reason.frame, reason.width), funcs, reason),
                    funcs,
                    with_frame(live, t.slots.len() as int, args.len() as int),
                    next,
                    (depth - 1) as nat,
                );
                match lazy_eval(body, inner, funcs, (depth - 1) as nat) {
                    Err(_) => {},
                    Ok((_, after)) => {
                        lemma_kept_leave(t, after, vals, why, funcs, live, args, reason, params);
                    },
                }
            }
        },
        ExprView::If(c, then, otherwise) => {
            lemma_lazy_value(*c, t, vals, why, funcs, live, reason, depth);
            match lazy_eval(*c, t, funcs, depth) {
                Err(_) => {},
                Ok((v, t1)) => {
                    assert(scope(t1, vals, reason.frame, reason.width) == env);
                    if v != 0 {
                        lemma_lazy_value(*then, t1, vals, why, funcs, live, reason, depth);
                        match lazy_eval(*then, t1, funcs, depth) {
                            Err(_) => {},
                            Ok((_, t2)) => {
                                lemma_spares_trans(t, t1, t2, live);
                            },
                        }
                    } else {
                        lemma_lazy_value(*otherwise, t1, vals, why, funcs, live, reason, depth);
                        match lazy_eval(*otherwise, t1, funcs, depth) {
                            Err(_) => {},
                            Ok((_, t2)) => {
                                lemma_spares_trans(t, t1, t2, live);
                            },
                        }
                    }
                },
            }
        },
    }
}

/// Whether the trace `lazy` is what `strict`, which has no failure, lets a
/// lazy run be: the same values in the same order, and no failure but for
/// want of depth, which cuts the values short.
pub open spec fn agrees(lazy: Trace, strict: Trace) -> bool {
    &&& lazy.printed.is_prefix_of(strict.printed)
    &&& lazy.failure is None ==> lazy.printed == strict.printed
    &&& lazy.failure is Some ==> lazy.failure == Some(EvalError::DepthExceeded)
}

/// The slots of an outermost frame of `count` bindings.
pub open spec fn all_slots(count: nat) -> Set<int> {
    Set::new(|i: int| 0 <= i < count)
}

/// A depth that is enough to force any of the first `count` bindings: each
/// takes one level more than its evaluation, which sees those before it.
pub open spec fn ceiling(
    vars: Seq<ExprView>,
    env: Seq<i32>,
    funcs: Seq<ExprView>,
    fuel: nat,
    count: nat,
) -> nat
    decreases count,
{
    if count == 0 {
        0
    } else {
        let below = ceiling(vars, env, funcs, fuel, (count - 1) as nat);
        larger(below, 1 + cost(vars[count - 1], env.take(count - 1), funcs, fuel, below))
    }
}

/// The reasons of the bindings of a program: each is worth its value in the
/// bindings before it.
pub open spec fn declared(vars: Seq<ExprView>, env: Seq<i32>, funcs: Seq<ExprView>, fuel: nat) -> Seq<
    Reason,
> {
    Seq::new(
        vars.len(),
        |i: int|
            {
                let base = ceiling(vars, env, funcs, fuel, i as nat);
                Reason {
                    frame: 0,
                    width: i as nat,
                    fuel,
                    base,
                    rank: 1 + cost(vars[i], env.take(i), funcs, fuel, base),
                }
            },
    )
}

/// The reason of a print: it sees all bindings.
pub open spec fn printed(vars: Seq<ExprView>, env: Seq<i32>, funcs: Seq<ExprView>, fuel: nat) -> Reason {
    Reason {
        frame: 0,
        width: vars.len(),
        fuel,
        base: ceiling(vars, env, funcs, fuel, vars.len()),
        rank: 0,
    }
}

/// A depth that is enough for each of the prints `prints[from..]`.
pub open spec fn most(
    prints: Seq<ExprView>,
    from: nat,
    env: Seq<i32>,
    funcs: Seq<ExprView>,
    fuel: nat,
    base: nat,
) -> nat
    decreases prints.len() - from,
{
    if from >= prints.len() {
        0
    } else {
        larger(
            cost(prints[from as int], env, funcs, fuel, base),
            most(prints, from + 1, env, funcs, fuel, base),
        )
    }
}

/// A depth that is enough for the lazy run of a program whose strict run
/// with `fuel` has no failure.
pub open spec fn enough(p: ProgramView, fuel: nat) -> nat {
    match bindings(p.vars, 0, p.funcs, fuel, Seq::empty()) {
        Err(_) => 0,
        Ok(env) => most(
            p.prints,
            0,
            env,
            p.funcs,
            fuel,
            ceiling(p.vars, env, p.funcs, fuel, p.vars.len()),
        ),
    }
}

/// What is enough to force any of the first bindings is enough to force
/// each.
proof fn lemma_ceiling(
    vars: Seq<ExprView>,
    env: Seq<i32>,
    funcs: Seq<ExprView>,
    fuel: nat,
    at: int,
    count: nat,
)
    requires
        0 <= at < count <= vars.len(),
    ensures
        declared(vars, env, funcs, fuel)[at].rank <= ceiling(vars, env, funcs, fuel, count),
    decreases count,
{
    if at + 1 < count {
        lemma_ceiling(vars, env, funcs, fuel, at, (count - 1) as nat);
    }
}

proof fn lemma_lazy_prints(
    prints: Seq<ExprView>,
    from: nat,
    t: Table<VarView>,
    env: Seq<i32>,
    why: Seq<Reason>,
    funcs: Seq<ExprView>,
    reason: Reason,
    depth: nat,
    done: Seq<i32>,
)
    requires
        from <= prints.len(),
        forall|i: int| 0 <= i < prints.len() ==> uniform(#[trigger] prints[i], 0),
        kept(t, env, why, funcs, all_slots(env.len())),
        t.offsets == seq![0nat],
        reason.frame == 0,
        reason.width == env.len(),
        ranked(t, why, reason),
        outputs(prints, from, env, funcs, reason.fuel, done).failure is None,
    ensures
        agrees(
            lazy_prints(prints, from, t, funcs, depth, done),
            outputs(prints, from, env, funcs, reason.fuel, done),
        ),
        depth >= most(prints, from, env, funcs, reason.fuel, reason.base) ==> lazy_prints(
            prints,
            from,
            t,
            funcs,
            depth,
            done,
        ).failure is None,
    decreases prints.len() - from,
{
    if from < prints.len() {
        assert(scope(t, env, 0, env.len()) =~= env);
        lemma_lazy_value(
            prints[from as int],
            t,
            env,
            why,
            funcs,
            all_slots(env.len()),
            reason,
            depth,
        );
        lemma_outputs_extend(prints, from, env, funcs, reason.fuel, done);
        match lazy_eval(prints[from as int], t, funcs, depth) {
            Err(_) => {},
            Ok((v, after)) => {
                lemma_lazy_prints(prints, from + 1, after, env, why, funcs, reason, depth, done.push(v));
            },
        }
    }
}

/// The lazy run of a rooted program against its run in the semantics of
/// environments, where that run has no failure: the lazy run prints the
/// same values in the same order, or stops short of them for want of depth,
/// which a depth that is [`enough`] rules out.
pub proof fn lemma_lazy_run(p: ProgramView, fuel: nat, depth: nat)
    requires
        rooted(p),
        run(p, fuel).failure is None,
    ensures
        agrees(lazy_run(p, depth), run(p, fuel)),
        depth >= enough(p, fuel) ==> lazy_run(p, depth) == run(p, fuel),
{
    let env = bindings(p.vars, 0, p.funcs, fuel, Seq::empty()).unwrap();
    lemma_bindings(p.vars, 0, p.funcs, fuel, Seq::empty());
    let t = suspended(p.vars);
    let why = declared(p.vars, env, p.funcs, fuel);
    let live = all_slots(env.len());
    let reason = printed(p.vars, env, p.funcs, fuel);
    assert forall|at: int| #[trigger] live.contains(at) implies 0 <= at < t.slots.len() && sound(
        t,
        env,
        why,
        p.funcs,
        at,
    ) by {
        assert(scope(t, env, 0, at as nat) =~= env.take(at));
        assert(uniform(p.vars[at], 0));
        assert(ranked(t, why, why[at])) by {
            assert forall|i: int|
                t.offsets[why[at].frame as int] <= i < t.offsets[why[at].frame as int]
                    + why[at].width implies (#[trigger] why[i]).rank <= why[at].base by {
                lemma_ceiling(p.vars, env, p.funcs, fuel, i, at as nat);
            }
        }
    }
    assert(ranked(t, why, reason)) by {
        assert forall|i: int|
            t.offsets[reason.frame as int] <= i < t.offsets[reason.frame as int]
                + reason.width implies (#[trigger] why[i]).rank <= reason.base by {
            lemma_ceiling(p.vars, env, p.funcs, fuel, i, p.vars.len());
        }
    }
    lemma_lazy_prints(p.prints, 0, t, env, why, p.funcs, reason, depth, Seq::empty());
}

/// The two evaluators agree on a rooted program: where the strict run has
/// no failure, the lazy run prints the same values in the same order or
/// stops short of them for want of depth. It prints no other value and has
/// no other failure, whatever depth either is given; and with a depth that
/// is [`enough`], it is the strict run.
pub proof fn lemma_lazy_agrees_with_strict(p: ProgramView, fuel: nat, depth: nat)
    requires
        rooted(p),
        strict_run(p, fuel).failure is None,
    ensures
        agrees(lazy_run(p, depth), strict_run(p, fuel)),
        depth >= enough(p, fuel) ==> lazy_run(p, depth) == strict_run(p, fuel),
{
    lemma_strict_run(p, fuel);
    lemma_lazy_run(p, fuel, depth);
}

/// The two evaluators agree on every source unit that resolves: where the
/// strict run has no failure, the lazy run prints the same values in the
/// same order or stops short of them for want of depth, and a lazy run that
/// is given a depth that is [`enough`] is the strict run.
pub proof fn lemma_evaluators_agree(stmts: Seq<ast::StmtView>, fuel: nat, depth: nat)
    requires
        resolve(stmts) is Ok,
        strict_run(resolve(stmts).unwrap(), fuel).failure is None,
    ensures
        agrees(lazy_run(resolve(stmts).unwrap(), depth), strict_run(resolve(stmts).unwrap(), fuel)),
        depth >= enough(resolve(stmts).unwrap(), fuel) ==> lazy_run(resolve(stmts).unwrap(), depth)
            == strict_run(resolve(stmts).unwrap(), fuel),
{
    lemma_resolved_rooted(stmts);
    lemma_lazy_agrees_with_strict(resolve(stmts).unwrap(), fuel, depth);
}

} // verus!
