//! The abstract interpreter: expressions, tests and commands over environments of signs.

use vstd::prelude::*;
use crate::concrete::{Command, Cond, Expr, Label, SLOTS};
use crate::domain::{
    below, binop, condition, constant, env_all, env_below, env_join, env_room, env_unreachable,
    lemma_join_rises, lemma_room_bound, lub, op_sign, refined, sign_of, AbstractDomain,
    AbstractValue,
};

verus! {

/// The sign of an expression in environment `d`.
pub open spec fn expr_sign(e: Expr, d: Seq<AbstractValue>) -> AbstractValue
    decreases e,
{
    match e {
        Expr::Const(n) => sign_of(n.0 as int),
        Expr::Var(x) => d[x.0 as int],
        Expr::BinOp { op, left, right } => op_sign(op, expr_sign(*left, d), expr_sign(*right, d)),
    }
}

/// The environment on the branch where a test has held: the tested variable is
/// refined, and where no sign remains for it every slot becomes `Bottom`.
pub open spec fn cond_env(cond: Cond, d: Seq<AbstractValue>) -> Seq<AbstractValue> {
    let v = refined(cond.rel, cond.right.0 as int, d[cond.left.0 as int]);
    if v == AbstractValue::Bottom {
        env_all(d.len(), AbstractValue::Bottom)
    } else {
        d.update(cond.left.0 as int, v)
    }
}

/// The environment after a command, started in environment `d`.
pub open spec fn command_env(c: Command, d: Seq<AbstractValue>) -> Seq<AbstractValue>
    decreases c, 0nat,
{
    if env_unreachable(d) {
        d
    } else {
        match c {
            Command::Skip => d,
            Command::Sequence(c1, c2) => command_env(c2.1, command_env(c1.1, d)),
            Command::Assign(x, e) => d.update(x.0 as int, expr_sign(e, d)),
            Command::Input(x) => d.update(x.0 as int, AbstractValue::Top),
            Command::If { cond, then, els } => {
                let d_true = command_env(then.1, cond_env(cond, d));
                match els {
                    Some(c) => env_join(d_true, command_env(c.1, cond_env(cond.negated(), d))),
                    None => d_true,
                }
            },
            Command::While { cond, body } => cond_env(cond.negated(), loop_env(cond, body.1, d)),
        }
    }
}

/// The invariant of the loop `while cond { body }` entered in environment `d`: the
/// first environment of the rising chain `d`, `d` joined with one round from `d`, ...
/// that one more round does not leave.
pub open spec fn loop_env(cond: Cond, body: Command, d: Seq<AbstractValue>) -> Seq<AbstractValue>
    decreases body, 1 + env_room(d),
{
    let next = command_env(body, cond_env(cond, d));
    if env_below(next, d) {
        d
    } else {
        proof {
            lemma_join_rises(d, next);
        }
        loop_env(cond, body, env_join(d, next))
    }
}

/// The number of joins that the chain of `loop_env` takes before it stops.
pub open spec fn loop_rounds(cond: Cond, body: Command, d: Seq<AbstractValue>) -> nat
    decreases env_room(d),
{
    let next = command_env(body, cond_env(cond, d));
    if env_below(next, d) {
        0
    } else {
        proof {
            lemma_join_rises(d, next);
        }
        1 + loop_rounds(cond, body, env_join(d, next))
    }
}

/// The invariant of a loop is found within two joins for each slot, whatever the
/// loop's test and body are.
pub proof fn lemma_loop_rounds_bound(cond: Cond, body: Command, d: Seq<AbstractValue>)
    ensures
        loop_rounds(cond, body, d) <= env_room(d) <= 2 * d.len(),
    decreases env_room(d),
{
    let next = command_env(body, cond_env(cond, d));
    lemma_room_bound(d);
    if !env_below(next, d) {
        lemma_join_rises(d, next);
        lemma_loop_rounds_bound(cond, body, env_join(d, next));
    }
}

/// Evaluates an expression over signs.
pub fn expr(e: &Expr, domain: &AbstractDomain) -> (r: AbstractValue)
    requires
        domain.wf(),
        e.scoped(SLOTS as nat),
    ensures
        r == expr_sign(*e, domain@),
    decreases *e,
{
    match e {
        Expr::Const(n) => constant(*n),
        Expr::Var(x) => domain.read(*x),
        Expr::BinOp { op, left, right } => binop(*op, expr(left, domain), expr(right, domain)),
    }
}

/// The environment on the branch where `cond` has held.
pub fn ai_cond(cond: &Cond, domain: &AbstractDomain) -> (r: AbstractDomain)
    requires
        domain.wf(),
        cond.left.0 < SLOTS,
    ensures
        r.wf(),
        r@ == cond_env(*cond, domain@),
{
    let approx_cond = condition(cond.rel, cond.right.0, domain.read(cond.left));
    if approx_cond == AbstractValue::Bottom {
        domain.clone().bottomize()
    } else {
        domain.clone().write(cond.left, approx_cond)
    }
}

/// `to` is where the rising chain of `f` from `from` stops, after at most `rounds`
/// joins: each link joins an environment with what `f` returned for it, and the
/// chain stops at the first environment that `f` maps below itself.
pub open spec fn chain_end<F: Fn(&AbstractDomain) -> AbstractDomain>(
    f: F,
    from: Seq<AbstractValue>,
    to: Seq<AbstractValue>,
    rounds: nat,
) -> bool
    decreases rounds,
{
    exists|a: AbstractDomain, out: AbstractDomain|
        {
            &&& #[trigger] call_ensures(f, (&a,), out)
            &&& a@ == from
            &&& if env_below(out@, from) {
                to == from
            } else {
                rounds > 0 && chain_end(f, env_join(from, out@), to, (rounds - 1) as nat)
            }
        }
}

/// A chain that stops within `rounds` joins stops within any larger number.
pub proof fn lemma_chain_end_more<F: Fn(&AbstractDomain) -> AbstractDomain>(
    f: F,
    from: Seq<AbstractValue>,
    to: Seq<AbstractValue>,
    rounds: nat,
    more: nat,
)
    requires
        chain_end(f, from, to, rounds),
        rounds <= more,
    ensures
        chain_end(f, from, to, more),
    decreases rounds,
{
    let (a, out) = choose|a: AbstractDomain, out: AbstractDomain|
        {
            &&& #[trigger] call_ensures(f, (&a,), out)
            &&& a@ == from
            &&& if env_below(out@, from) {
                to == from
            } else {
                rounds > 0 && chain_end(f, env_join(from, out@), to, (rounds - 1) as nat)
            }
        };
    if !env_below(out@, from) {
        lemma_chain_end_more(
            f,
            env_join(from, out@),
            to,
            (rounds - 1) as nat,
            (more - 1) as nat,
        );
    }
    assert(call_ensures(f, (&a,), out));
}

/// Where `f` is one round of the loop `while cond { body }`, its chain stops at the
/// loop's invariant.
pub proof fn lemma_chain_end_loop_env<F: Fn(&AbstractDomain) -> AbstractDomain>(
    f: F,
    cond: Cond,
    body: Command,
    from: Seq<AbstractValue>,
    to: Seq<AbstractValue>,
    rounds: nat,
)
    requires
        forall|a: AbstractDomain, out: AbstractDomain| #[trigger]
            call_ensures(f, (&a,), out) ==> out@ == command_env(body, cond_env(cond, a@)),
        chain_end(f, from, to, rounds),
    ensures
        to == loop_env(cond, body, from),
    decreases rounds,
{
    let (a, out) = choose|a: AbstractDomain, out: AbstractDomain|
        {
            &&& #[trigger] call_ensures(f, (&a,), out)
            &&& a@ == from
            &&& if env_below(out@, from) {
                to == from
            } else {
                rounds > 0 && chain_end(f, env_join(from, out@), to, (rounds - 1) as nat)
            }
        };
    if !env_below(out@, from) {
        lemma_chain_end_loop_env(
            f,
            cond,
            body,
            env_join(from, out@),
            to,
            (rounds - 1) as nat,
        );
    }
}

/// The invariant of a loop lies above the environment in which the loop is
/// entered, and one more round from the invariant stays below it.
pub proof fn lemma_loop_env_fixpoint(cond: Cond, body: Command, d: Seq<AbstractValue>)
    ensures
        loop_env(cond, body, d).len() == d.len(),
        env_below(d, loop_env(cond, body, d)),
        env_below(
            command_env(body, cond_env(cond, loop_env(cond, body, d))),
            loop_env(cond, body, d),
        ),
    decreases env_room(d),
{
    let next = command_env(body, cond_env(cond, d));
    if !env_below(next, d) {
        let j = env_join(d, next);
        lemma_join_rises(d, next);
        lemma_loop_env_fixpoint(cond, body, j);
        let inv = loop_env(cond, body, j);
        assert forall|i: int| 0 <= i < inv.len() implies below(#[trigger] d[i], inv[i]) by {
            assert(j[i] == lub(d[i], next[i]));
            assert(below(j[i], inv[i]));
        }
    }
}

/// The abstract interpreter keeps the number of slots.
pub proof fn lemma_command_env_len(c: Command, d: Seq<AbstractValue>)
    requires
        c.scoped(d.len()),
    ensures
        command_env(c, d).len() == d.len(),
    decreases c,
{
    if !env_unreachable(d) {
        match c {
            Command::Sequence(c1, c2) => {
                lemma_command_env_len(c1.1, d);
                lemma_command_env_len(c2.1, command_env(c1.1, d));
            },
            Command::If { cond, then, els } => {
                lemma_command_env_len(then.1, cond_env(cond, d));
                match els {
                    Some(other) => lemma_command_env_len(other.1, cond_env(cond.negated(), d)),
                    None => {},
                }
            },
            Command::While { cond, body } => {
                lemma_loop_env_fixpoint(cond, body.1, d);
            },
            _ => {},
        }
    }
}

/// Where a chain of `f` stops, one more application of `f` stays below: some
/// result of `f` for the last environment lies below that environment. The chain
/// keeps the number of slots, and its end lies above its start.
pub proof fn lemma_chain_end_fixpoint<F: Fn(&AbstractDomain) -> AbstractDomain>(
    f: F,
    from: Seq<AbstractValue>,
    to: Seq<AbstractValue>,
    rounds: nat,
)
    requires
        chain_end(f, from, to, rounds),
    ensures
        to.len() == from.len(),
        env_below(from, to),
        exists|a: AbstractDomain, out: AbstractDomain|
            #[trigger] call_ensures(f, (&a,), out) && a@ == to && env_below(out@, to),
    decreases rounds,
{
    let (a, out) = choose|a: AbstractDomain, out: AbstractDomain|
        {
            &&& #[trigger] call_ensures(f, (&a,), out)
            &&& a@ == from
            &&& if env_below(out@, from) {
                to == from
            } else {
                rounds > 0 && chain_end(f, env_join(from, out@), to, (rounds - 1) as nat)
            }
        };
    if !env_below(out@, from) {
        let j = env_join(from, out@);
        lemma_chain_end_fixpoint(f, j, to, (rounds - 1) as nat);
        assert forall|i: int| 0 <= i < to.len() implies below(#[trigger] from[i], to[i]) by {
            assert(j[i] == lub(from[i], out@[i]));
            assert(below(j[i], to[i]));
        }
    } else {
        assert(call_ensures(f, (&a,), out) && a@ == to && env_below(out@, to));
    }
}

/// Iterates `f` upwards from `domain` until one more application stays below.
/// No more joins are taken than `domain` has room for.
pub fn post_loop<F>(f: F, domain: &AbstractDomain) -> (r: AbstractDomain) where
    F: Fn(&AbstractDomain) -> AbstractDomain,

    requires
        domain.wf(),
        forall|a: AbstractDomain| a.wf() ==> call_requires(f, (&a,)),
        forall|a: AbstractDomain, out: AbstractDomain|
            a.wf() && #[trigger] call_ensures(f, (&a,), out) ==> out.wf(),
    ensures
        r.wf(),
        chain_end(f, domain@, r@, env_room(domain@)),
{
    let mut current = domain.clone();
    loop
        invariant
            current.wf(),
            forall|a: AbstractDomain| a.wf() ==> call_requires(f, (&a,)),
            forall|a: AbstractDomain, out: AbstractDomain|
                a.wf() && #[trigger] call_ensures(f, (&a,), out) ==> out.wf(),
            forall|to: Seq<AbstractValue>| #[trigger]
                chain_end(f, current@, to, env_room(current@)) ==> chain_end(
                    f,
                    domain@,
                    to,
                    env_room(domain@),
                ),
        decreases env_room(current@),
    {
        let next = f(&current);
        if next.is_le(&current) {
            assert(chain_end(f, current@, current@, env_room(current@))) by {
                assert(call_ensures(f, (&current,), next));
            }
            return current;
        }
        let joined = current.join(&next);
        proof {
            lemma_join_rises(current@, next@);
            assert forall|to: Seq<AbstractValue>| #[trigger]
                chain_end(f, joined@, to, env_room(joined@)) implies chain_end(
                f,
                domain@,
                to,
                env_room(domain@),
            ) by {
                assert(call_ensures(f, (&current,), next));
                assert(chain_end(f, current@, to, env_room(joined@) + 1));
                lemma_chain_end_more(
                    f,
                    current@,
                    to,
                    env_room(joined@) + 1,
                    env_room(current@),
                );
            }
        }
        current = joined;
    }
}

/// Runs a command over an environment of signs. An unreachable environment is
/// returned as it is; a sequence runs left to right; a conditional joins its two
/// branches, and without an else branch gives the result of the then branch; a
/// loop gives its invariant refined by the negated test.
pub fn command(state: &(Label, Command), domain: AbstractDomain) -> (r: AbstractDomain)
    requires
        domain.wf(),
        state.1.scoped(SLOTS as nat),
    ensures
        r.wf(),
        r@ == command_env(state.1, domain@),
    decreases state.1,
{
    if domain.is_bottom() {
        domain
    } else {
        match &state.1 {
            Command::Skip => domain,
            Command::Sequence(c1, c2) => command(c2, command(c1, domain)),
            Command::Assign(var, e) => {
                let a = expr(e, &domain);
                domain.write(*var, a)
            },
            Command::Input(var) => domain.write(*var, AbstractValue::Top),
            Command::If { cond, then, els } => {
                let cond_true = ai_cond(cond, &domain);
                let d_true = command(then, cond_true);
                match els {
                    Some(c) => {
                        let cond_false = ai_cond(&cond.negate(), &domain);
                        let d_false = command(c, cond_false);
                        d_true.join(&d_false)
                    },
                    None => d_true,
                }
            },
            Command::While { cond, body } => {
                let f_loop = |a: &AbstractDomain| -> (out: AbstractDomain)
                    requires
                        a.wf(),
                    ensures
                        out.wf(),
                        out@ == command_env(body.1, cond_env(*cond, a@)),
                    {
                        let loop_cond = ai_cond(cond, a);
                        command(body, loop_cond)
                    };
                let invariant_env = post_loop(f_loop, &domain);
                proof {
                    lemma_chain_end_loop_env(
                        f_loop,
                        *cond,
                        body.1,
                        domain@,
                        invariant_env@,
                        env_room(domain@),
                    );
                }
                ai_cond(&cond.negate(), &invariant_env)
            },
        }
    }
}

} // verus!
