//! What the abstract execution says of the concrete one.
//!
//! A sign admits a set of integers, an environment a set of memories. The main
//! statement: a run that starts in a memory admitted by an environment ends in a
//! memory admitted by the environment that the abstract interpreter computes.

use vstd::prelude::*;
use crate::abstract_int::{
    command_env, cond_env, expr_sign, lemma_command_env_len, lemma_loop_env_fixpoint, loop_env,
};
use crate::concrete::{op_value, BinOp, Command, Cond, Expr};
use crate::domain::{
    below, env_below, env_join, env_unreachable, lub, op_sign, sign_of, AbstractValue,
};

verus! {

/// The integers that a sign stands for. Zero is admitted by `Pos` and by `Neg`:
/// a product of zero and a negative number has sign `Neg`.
pub open spec fn admits(a: AbstractValue, v: int) -> bool {
    match a {
        AbstractValue::Bottom => false,
        AbstractValue::Top => true,
        AbstractValue::Pos => v >= 0,
        AbstractValue::Neg => v <= 0,
    }
}

/// The memories that an environment stands for: every slot admits its value.
pub open spec fn env_admits(d: Seq<AbstractValue>, m: Seq<int>) -> bool {
    &&& d.len() == m.len()
    &&& forall|i: int| 0 <= i < d.len() ==> admits(#[trigger] d[i], m[i])
}

/// Every slot of `d` includes the sign of the value that `m` holds there.
pub open spec fn env_covers(d: Seq<AbstractValue>, m: Seq<int>) -> bool {
    &&& d.len() == m.len()
    &&& forall|i: int| 0 <= i < d.len() ==> below(sign_of(m[i]), #[trigger] d[i])
}

impl Command {
    /// Every conditional of the command has an else branch.
    pub open spec fn every_if_has_else(self) -> bool
        decreases self,
    {
        match self {
            Command::Sequence(c1, c2) => c1.1.every_if_has_else() && c2.1.every_if_has_else(),
            Command::If { cond, then, els } => match els {
                Some(c) => then.1.every_if_has_else() && c.1.every_if_has_else(),
                None => false,
            },
            Command::While { cond, body } => body.1.every_if_has_else(),
            _ => true,
        }
    }

    /// A conditional without an else branch leaves the memory as it is where its
    /// test fails, while the abstract interpreter gives the result of the then
    /// branch. This says that no such step of the run from `m` goes wrong: at each
    /// of them the environment given for the then branch admits the memory. `d` is
    /// the environment in which the abstract interpreter starts.
    pub open spec fn skips_admitted(self, m: Seq<int>, fuel: nat, d: Seq<AbstractValue>) -> bool
        decreases fuel, self, 1nat,
    {
        match self {
            Command::Sequence(c1, c2) => {
                &&& c1.1.skips_admitted(m, fuel, d)
                &&& match c1.1.run(m, fuel) {
                    Some(m1) => c2.1.skips_admitted(m1, fuel, command_env(c1.1, d)),
                    None => true,
                }
            },
            Command::If { cond, then, els } => if cond.holds(m) {
                then.1.skips_admitted(m, fuel, cond_env(cond, d))
            } else {
                match els {
                    Some(c) => c.1.skips_admitted(m, fuel, cond_env(cond.negated(), d)),
                    None => env_admits(command_env(then.1, cond_env(cond, d)), m),
                }
            },
            Command::While { cond, body } => self.rounds_admitted(
                m,
                fuel,
                loop_env(cond, body.1, d),
            ),
            _ => true,
        }
    }

    /// `skips_admitted` for the rounds of a loop whose invariant is `inv`.
    pub open spec fn rounds_admitted(self, m: Seq<int>, fuel: nat, inv: Seq<AbstractValue>) -> bool
        decreases fuel, self, 0nat,
    {
        match self {
            Command::While { cond, body } => if !cond.holds(m) || fuel == 0 {
                true
            } else {
                &&& body.1.skips_admitted(m, (fuel - 1) as nat, cond_env(cond, inv))
                &&& match body.1.run(m, (fuel - 1) as nat) {
                    Some(m1) => self.rounds_admitted(m1, (fuel - 1) as nat, inv),
                    None => true,
                }
            },
            _ => true,
        }
    }

    /// A command whose conditionals all have an else branch has no step of the kind
    /// that `skips_admitted` speaks of, from whatever memory and environment.
    pub proof fn lemma_every_if_has_else(self, m: Seq<int>, fuel: nat, d: Seq<AbstractValue>)
        requires
            self.every_if_has_else(),
        ensures
            self.skips_admitted(m, fuel, d),
        decreases fuel, self, 1nat,
    {
        match self {
            Command::Sequence(c1, c2) => {
                c1.1.lemma_every_if_has_else(m, fuel, d);
                match c1.1.run(m, fuel) {
                    Some(m1) => c2.1.lemma_every_if_has_else(m1, fuel, command_env(c1.1, d)),
                    None => {},
                }
            },
            Command::If { cond, then, els } => {
                then.1.lemma_every_if_has_else(m, fuel, cond_env(cond, d));
                els.unwrap().1.lemma_every_if_has_else(m, fuel, cond_env(cond.negated(), d));
            },
            Command::While { cond, body } => {
                self.lemma_every_round_has_else(m, fuel, loop_env(cond, body.1, d));
            },
            _ => {},
        }
    }

    proof fn lemma_every_round_has_else(self, m: Seq<int>, fuel: nat, inv: Seq<AbstractValue>)
        requires
            self is While,
            self.every_if_has_else(),
        ensures
            self.rounds_admitted(m, fuel, inv),
        decreases fuel, self, 0nat,
    {
        let cond = self->While_cond;
        let body = self->body;
        if cond.holds(m) && fuel > 0 {
            let f = (fuel - 1) as nat;
            body.1.lemma_every_if_has_else(m, f, cond_env(cond, inv));
            match body.1.run(m, f) {
                Some(m1) => self.lemma_every_round_has_else(m1, f, inv),
                None => {},
            }
        }
    }
}

/// A sign that includes the sign of `v` admits `v`; and a sign that admits `v`
/// includes the sign of `v`, unless `v` is zero and the sign is `Neg`.
pub proof fn lemma_admits_sign(a: AbstractValue, v: int)
    ensures
        below(sign_of(v), a) ==> admits(a, v),
        admits(a, v) && !(v == 0 && a == AbstractValue::Neg) ==> below(sign_of(v), a),
{
}

/// A higher sign admits all that a lower one admits.
pub proof fn lemma_admits_monotone(a: AbstractValue, b: AbstractValue, v: int)
    requires
        below(a, b),
        admits(a, v),
    ensures
        admits(b, v),
{
}

/// An environment above another admits all the memories that the lower one admits.
pub proof fn lemma_env_admits_monotone(a: Seq<AbstractValue>, b: Seq<AbstractValue>, m: Seq<int>)
    requires
        a.len() == b.len(),
        env_below(a, b),
        env_admits(a, m),
    ensures
        env_admits(b, m),
{
    assert forall|i: int| 0 <= i < b.len() implies admits(#[trigger] b[i], m[i]) by {
        assert(below(a[i], b[i]));
        assert(admits(a[i], m[i]));
    }
}

/// The join of the environments of two branches admits every memory that either
/// branch's environment admits: whichever branch a run takes, the joined result
/// accounts for what it leaves.
pub proof fn lemma_branch_join_sound(
    d_true: Seq<AbstractValue>,
    d_false: Seq<AbstractValue>,
    m: Seq<int>,
)
    requires
        d_true.len() == d_false.len(),
        env_admits(d_true, m) || env_admits(d_false, m),
    ensures
        env_admits(env_join(d_true, d_false), m),
{
    let j = env_join(d_true, d_false);
    assert forall|i: int| 0 <= i < j.len() implies admits(#[trigger] j[i], m[i]) by {
        assert(j[i] == lub(d_true[i], d_false[i]));
        if env_admits(d_true, m) {
            assert(admits(d_true[i], m[i]));
        } else {
            assert(admits(d_false[i], m[i]));
        }
    }
}

proof fn lemma_product_sign(a: int, b: int)
    ensures
        a >= 0 && b >= 0 ==> a * b >= 0,
        a <= 0 && b <= 0 ==> a * b >= 0,
        a >= 0 && b <= 0 ==> a * b <= 0,
        a <= 0 && b >= 0 ==> a * b <= 0,
{
    assert(a >= 0 && b >= 0 ==> a * b >= 0) by (nonlinear_arith);
    assert(a <= 0 && b <= 0 ==> a * b >= 0) by (nonlinear_arith);
    assert(a >= 0 && b <= 0 ==> a * b <= 0) by (nonlinear_arith);
    assert(a <= 0 && b >= 0 ==> a * b <= 0) by (nonlinear_arith);
}

/// The sign of an operator's result admits the result, whatever admitted operands
/// it is applied to.
pub proof fn lemma_op_sound(op: BinOp, a: AbstractValue, b: AbstractValue, x: int, y: int)
    requires
        admits(a, x),
        admits(b, y),
    ensures
        admits(op_sign(op, a, b), op_value(op, x, y)),
{
    lemma_product_sign(x, y);
}

/// The sign of an expression admits its value.
pub proof fn lemma_expr_sound(e: Expr, d: Seq<AbstractValue>, m: Seq<int>)
    requires
        e.scoped(m.len()),
        env_admits(d, m),
    ensures
        admits(expr_sign(e, d), e.value(m)),
    decreases e,
{
    match e {
        Expr::Const(_) => {},
        Expr::Var(x) => {
            assert(admits(d[x.0 as int], m[x.0 as int]));
        },
        Expr::BinOp { op, left, right } => {
            lemma_expr_sound(*left, d, m);
            lemma_expr_sound(*right, d, m);
            lemma_op_sound(op, expr_sign(*left, d), expr_sign(*right, d), left.value(m), right.value(m));
        },
    }
}

/// Where a test holds in a memory, the environment refined by the test still
/// admits that memory.
pub proof fn lemma_cond_sound(cond: Cond, d: Seq<AbstractValue>, m: Seq<int>)
    requires
        cond.left.0 < m.len(),
        env_admits(d, m),
        cond.holds(m),
    ensures
        env_admits(cond_env(cond, d), m),
{
    let x = cond.left.0 as int;
    assert(admits(d[x], m[x]));
    let r = cond_env(cond, d);
    assert forall|i: int| 0 <= i < r.len() implies admits(#[trigger] r[i], m[i]) by {
        assert(admits(d[i], m[i]));
    }
}

/// An environment that admits a memory has no `Bottom` slot.
pub proof fn lemma_admitting_is_reachable(d: Seq<AbstractValue>, m: Seq<int>)
    requires
        env_admits(d, m),
    ensures
        !env_unreachable(d),
{
    if env_unreachable(d) {
        let i = choose|i: int| 0 <= i < d.len() && #[trigger] d[i] == AbstractValue::Bottom;
        assert(admits(d[i], m[i]));
    }
}

/// Soundness of the abstract interpreter. If a run of `c` from memory `m` ends,
/// environment `d` admits `m`, and no conditional without an else branch goes
/// wrong on the way (`skips_admitted`), then the environment computed from `d`
/// admits the memory that the run leaves.
pub proof fn lemma_command_sound(c: Command, m: Seq<int>, fuel: nat, d: Seq<AbstractValue>)
    requires
        c.scoped(m.len()),
        env_admits(d, m),
        c.run(m, fuel) is Some,
        c.skips_admitted(m, fuel, d),
    ensures
        env_admits(command_env(c, d), c.run(m, fuel).unwrap()),
    decreases fuel, c, 1nat,
{
    lemma_admitting_is_reachable(d, m);
    match c {
        Command::Skip => {},
        Command::Sequence(c1, c2) => {
            lemma_command_sound(c1.1, m, fuel, d);
            c1.1.lemma_run_len(m, fuel);
            lemma_command_sound(c2.1, c1.1.run(m, fuel).unwrap(), fuel, command_env(c1.1, d));
        },
        Command::Assign(x, e) => {
            lemma_expr_sound(e, d, m);
            let r = d.update(x.0 as int, expr_sign(e, d));
            let m1 = m.update(x.0 as int, e.value(m));
            assert forall|i: int| 0 <= i < r.len() implies admits(#[trigger] r[i], m1[i]) by {
                assert(admits(d[i], m[i]));
            }
        },
        Command::Input(x) => {
            let r = d.update(x.0 as int, AbstractValue::Top);
            let m1 = c.run(m, fuel).unwrap();
            assert forall|i: int| 0 <= i < r.len() implies admits(#[trigger] r[i], m1[i]) by {
                assert(admits(d[i], m[i]));
            }
        },
        Command::If { cond, then, els } => {
            let d_true = command_env(then.1, cond_env(cond, d));
            if cond.holds(m) {
                lemma_cond_sound(cond, d, m);
                lemma_command_sound(then.1, m, fuel, cond_env(cond, d));
                match els {
                    Some(other) => {
                        let d_false = command_env(other.1, cond_env(cond.negated(), d));
                        lemma_command_env_len(then.1, cond_env(cond, d));
                        lemma_command_env_len(other.1, cond_env(cond.negated(), d));
                        lemma_branch_join_sound(d_true, d_false, c.run(m, fuel).unwrap());
                    },
                    None => {},
                }
            } else {
                match els {
                    Some(other) => {
                        let d_false = command_env(other.1, cond_env(cond.negated(), d));
                        cond.lemma_negated_holds(m);
                        lemma_cond_sound(cond.negated(), d, m);
                        lemma_command_sound(other.1, m, fuel, cond_env(cond.negated(), d));
                        lemma_command_env_len(then.1, cond_env(cond, d));
                        lemma_command_env_len(other.1, cond_env(cond.negated(), d));
                        lemma_branch_join_sound(d_true, d_false, c.run(m, fuel).unwrap());
                    },
                    None => {},
                }
            }
        },
        Command::While { cond, body } => {
            let inv = loop_env(cond, body.1, d);
            lemma_loop_env_fixpoint(cond, body.1, d);
            lemma_env_admits_monotone(d, inv, m);
            lemma_loop_sound(c, m, fuel, inv);
        },
    }
}

/// A loop keeps its invariant: where `inv` admits the memory in which the loop
/// starts and one round from `inv` stays below `inv`, the environment refined by
/// the failed test admits the memory in which the loop ends.
pub proof fn lemma_loop_sound(c: Command, m: Seq<int>, fuel: nat, inv: Seq<AbstractValue>)
    requires
        c is While,
        c.scoped(m.len()),
        env_admits(inv, m),
        env_below(command_env(c->body.1, cond_env(c->While_cond, inv)), inv),
        c.run(m, fuel) is Some,
        c.rounds_admitted(m, fuel, inv),
    ensures
        env_admits(cond_env(c->While_cond.negated(), inv), c.run(m, fuel).unwrap()),
    decreases fuel, c, 0nat,
{
    let cond = c->While_cond;
    let body = c->body;
    if cond.holds(m) {
        let f = (fuel - 1) as nat;
        let m1 = body.1.run(m, f).unwrap();
        lemma_cond_sound(cond, inv, m);
        lemma_command_sound(body.1, m, f, cond_env(cond, inv));
        body.1.lemma_run_len(m, f);
        lemma_env_admits_monotone(command_env(body.1, cond_env(cond, inv)), inv, m1);
        lemma_loop_sound(c, m1, f, inv);
    } else {
        cond.lemma_negated_holds(m);
        lemma_cond_sound(cond.negated(), inv, m);
    }
}

/// Soundness at one variable, in terms of `includes`: after a run as in
/// `lemma_command_sound`, started from an environment that covers the memory, the
/// sign computed for `x` includes the sign of the value that the run leaves in `x`,
/// unless that value is zero and the computed sign is `Neg`.
pub proof fn lemma_command_sound_at(
    c: Command,
    m: Seq<int>,
    fuel: nat,
    d: Seq<AbstractValue>,
    x: int,
)
    requires
        c.scoped(m.len()),
        env_covers(d, m),
        c.run(m, fuel) is Some,
        c.skips_admitted(m, fuel, d),
        0 <= x < m.len(),
        !(c.run(m, fuel).unwrap()[x] == 0 && command_env(c, d)[x] == AbstractValue::Neg),
    ensures
        below(sign_of(c.run(m, fuel).unwrap()[x]), command_env(c, d)[x]),
{
    assert forall|i: int| 0 <= i < d.len() implies admits(#[trigger] d[i], m[i]) by {
        lemma_admits_sign(d[i], m[i]);
    }
    lemma_command_sound(c, m, fuel, d);
    let r = command_env(c, d);
    let m1 = c.run(m, fuel).unwrap();
    c.lemma_run_len(m, fuel);
    assert(admits(r[x], m1[x]));
    lemma_admits_sign(r[x], m1[x]);
}

} // verus!
