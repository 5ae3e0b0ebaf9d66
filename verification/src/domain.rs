//! The sign lattice, and environments that give every variable a sign.

use vstd::prelude::*;
use crate::concrete::{BinOp, Const, Rel, Var, SLOTS};

verus! {

/// What is known of an integer: nothing reaches here (`Bottom`), anything (`Top`),
/// zero or more (`Pos`), less than zero (`Neg`).
#[derive(Debug, PartialEq, Eq, Copy, Clone, Structural)]
pub enum AbstractValue {
    Bottom,
    Top,
    Pos,
    Neg,
}

/// The order of the lattice: `a` says at least as much as `b`.
pub open spec fn below(a: AbstractValue, b: AbstractValue) -> bool {
    a == AbstractValue::Bottom || b == AbstractValue::Top || a == b
}

/// The sign of an integer. Zero counts as `Pos`: there is no sign of its own for it.
pub open spec fn sign_of(n: int) -> AbstractValue {
    if n < 0 {
        AbstractValue::Neg
    } else {
        AbstractValue::Pos
    }
}

/// The least sign above both `a` and `b`.
pub open spec fn lub(a: AbstractValue, b: AbstractValue) -> AbstractValue {
    if a == AbstractValue::Bottom {
        b
    } else if b == AbstractValue::Bottom {
        a
    } else if a == b {
        a
    } else {
        AbstractValue::Top
    }
}

/// The sign of `left op right`, given the signs of the operands.
pub open spec fn op_sign(op: BinOp, a: AbstractValue, b: AbstractValue) -> AbstractValue {
    if a == AbstractValue::Bottom || b == AbstractValue::Bottom {
        AbstractValue::Bottom
    } else if a == AbstractValue::Top || b == AbstractValue::Top {
        AbstractValue::Top
    } else {
        match op {
            BinOp::Add => if a == b {
                a
            } else {
                AbstractValue::Top
            },
            BinOp::Sub => if a == b {
                AbstractValue::Top
            } else {
                a
            },
            BinOp::Mul => if a == b {
                AbstractValue::Pos
            } else {
                AbstractValue::Neg
            },
        }
    }
}

/// What remains of sign `v` for a variable once the test `variable rel n` has held.
pub open spec fn refined(rel: Rel, n: int, v: AbstractValue) -> AbstractValue {
    if v == AbstractValue::Bottom {
        AbstractValue::Bottom
    } else if rel == Rel::InfEq && n < 0 {
        if v == AbstractValue::Pos {
            AbstractValue::Bottom
        } else {
            AbstractValue::Neg
        }
    } else if rel == Rel::Sup && n >= 0 {
        if v == AbstractValue::Neg {
            AbstractValue::Bottom
        } else {
            AbstractValue::Pos
        }
    } else {
        v
    }
}

/// Height of a sign in the lattice.
pub open spec fn rank(a: AbstractValue) -> nat {
    match a {
        AbstractValue::Bottom => 0,
        AbstractValue::Pos => 1,
        AbstractValue::Neg => 1,
        AbstractValue::Top => 2,
    }
}

impl AbstractValue {
    /// Whether this sign lies below `a2` in the lattice order: it is `Bottom`, or
    /// `a2` is `Top`, or the two are the same sign.
    pub fn includes(&self, a2: AbstractValue) -> (r: bool)
        ensures
            r == below(*self, a2),
    {
        *self == AbstractValue::Bottom || a2 == AbstractValue::Top || *self == a2
    }
}

/// The sign of a constant. Zero is `Pos`.
pub fn constant(n: Const) -> (r: AbstractValue)
    ensures
        r == sign_of(n.0 as int),
{
    if n.0 < 0 {
        AbstractValue::Neg
    } else {
        AbstractValue::Pos
    }
}

/// The sign left for a variable of sign `v` on the branch where the test
/// `variable rel n` has held; `Bottom` where the test cannot hold.
pub fn condition(rel: Rel, n: i64, v: AbstractValue) -> (r: AbstractValue)
    ensures
        r == refined(rel, n as int, v),
{
    if v == AbstractValue::Bottom {
        AbstractValue::Bottom
    } else if rel == Rel::InfEq && n < 0 {
        if v == AbstractValue::Pos {
            AbstractValue::Bottom
        } else {
            AbstractValue::Neg
        }
    } else if rel == Rel::Sup && n >= 0 {
        if v == AbstractValue::Neg {
            AbstractValue::Bottom
        } else {
            AbstractValue::Pos
        }
    } else {
        v
    }
}

/// The least upper bound of two signs.
pub fn join(a1: AbstractValue, a2: AbstractValue) -> (r: AbstractValue)
    ensures
        r == lub(a1, a2),
{
    match (a1, a2) {
        (AbstractValue::Bottom, a) => a,
        (a, AbstractValue::Bottom) => a,
        (AbstractValue::Top, _) => AbstractValue::Top,
        (_, AbstractValue::Top) => AbstractValue::Top,
        (AbstractValue::Pos, AbstractValue::Neg) => AbstractValue::Top,
        (AbstractValue::Neg, AbstractValue::Pos) => AbstractValue::Top,
        (AbstractValue::Pos, AbstractValue::Pos) => AbstractValue::Pos,
        (AbstractValue::Neg, AbstractValue::Neg) => AbstractValue::Neg,
    }
}

/// The sign of the result of an operator applied to operands of the given signs.
pub fn binop(op: BinOp, a1: AbstractValue, a2: AbstractValue) -> (r: AbstractValue)
    ensures
        r == op_sign(op, a1, a2),
{
    match (op, a1, a2) {
        (_, AbstractValue::Bottom, _) => AbstractValue::Bottom,
        (_, _, AbstractValue::Bottom) => AbstractValue::Bottom,
        (_, AbstractValue::Top, _) => AbstractValue::Top,
        (_, _, AbstractValue::Top) => AbstractValue::Top,
        (BinOp::Add, AbstractValue::Pos, AbstractValue::Pos) => AbstractValue::Pos,
        (BinOp::Add, AbstractValue::Neg, AbstractValue::Neg) => AbstractValue::Neg,
        (BinOp::Add, _, _) => AbstractValue::Top,
        (BinOp::Sub, AbstractValue::Neg, AbstractValue::Pos) => AbstractValue::Neg,
        (BinOp::Sub, AbstractValue::Pos, AbstractValue::Neg) => AbstractValue::Pos,
        (BinOp::Sub, _, _) => AbstractValue::Top,
        (BinOp::Mul, AbstractValue::Pos, AbstractValue::Pos) => AbstractValue::Pos,
        (BinOp::Mul, AbstractValue::Neg, AbstractValue::Neg) => AbstractValue::Pos,
        (BinOp::Mul, _, _) => AbstractValue::Neg,
    }
}

/// The join lies above both operands in the lattice order.
pub proof fn lemma_join_upper_bound(a: AbstractValue, b: AbstractValue)
    ensures
        below(a, lub(a, b)),
        below(b, lub(a, b)),
{
}

/// The join is the least of the signs above both operands.
pub proof fn lemma_join_least(a: AbstractValue, b: AbstractValue, c: AbstractValue)
    requires
        below(a, c),
        below(b, c),
    ensures
        below(lub(a, b), c),
{
}

/// With the join in the first place, `includes` holds of the join and an operand
/// exactly where the other operand already lies below that operand.
pub proof fn lemma_join_includes_operand(a: AbstractValue, b: AbstractValue)
    ensures
        below(lub(a, b), a) <==> below(b, a),
        below(lub(a, b), b) <==> below(a, b),
{
}

/// The join does not depend on the order of its operands.
pub proof fn lemma_join_commutative(a: AbstractValue, b: AbstractValue)
    ensures
        lub(a, b) == lub(b, a),
{
}

/// The join of three signs does not depend on how they are grouped.
pub proof fn lemma_join_associative(a: AbstractValue, b: AbstractValue, c: AbstractValue)
    ensures
        lub(lub(a, b), c) == lub(a, lub(b, c)),
{
}

/// Joining with `Bottom` changes nothing; joining with `Top` gives `Top`.
pub proof fn lemma_join_identity_absorbing(a: AbstractValue)
    ensures
        lub(AbstractValue::Bottom, a) == a,
        lub(a, AbstractValue::Bottom) == a,
        lub(AbstractValue::Top, a) == AbstractValue::Top,
        lub(a, AbstractValue::Top) == AbstractValue::Top,
{
}

/// The lattice order is reflexive, transitive and antisymmetric.
pub proof fn lemma_below_order(a: AbstractValue, b: AbstractValue, c: AbstractValue)
    ensures
        below(a, a),
        below(a, b) && below(b, c) ==> below(a, c),
        below(a, b) && below(b, a) ==> a == b,
{
}

/// The slot-by-slot join of two environments of one length.
pub open spec fn env_join(a: Seq<AbstractValue>, b: Seq<AbstractValue>) -> Seq<AbstractValue> {
    Seq::new(a.len(), |i: int| lub(a[i], b[i]))
}

/// At every slot of `b`, the sign in `a` lies below the sign in `b`.
pub open spec fn env_below(a: Seq<AbstractValue>, b: Seq<AbstractValue>) -> bool {
    forall|i: int| 0 <= i < b.len() ==> below(#[trigger] a[i], b[i])
}

/// Some slot is `Bottom`: no execution reaches the point that `a` describes.
pub open spec fn env_unreachable(a: Seq<AbstractValue>) -> bool {
    exists|i: int| 0 <= i < a.len() && #[trigger] a[i] == AbstractValue::Bottom
}

/// The environment of `n` slots that holds `v` everywhere.
pub open spec fn env_all(n: nat, v: AbstractValue) -> Seq<AbstractValue> {
    Seq::new(n, |i: int| v)
}

/// How far an environment is from the top of the lattice: the sum, over its slots,
/// of the steps that the slot can still rise.
pub open spec fn env_room(a: Seq<AbstractValue>) -> nat
    decreases a.len(),
{
    if a.len() == 0 {
        0
    } else {
        (2 - rank(a.last())) as nat + env_room(a.drop_last())
    }
}

/// Joining never adds room, and takes some away unless `next` already lies below `d`.
pub proof fn lemma_join_rises(d: Seq<AbstractValue>, next: Seq<AbstractValue>)
    ensures
        env_room(env_join(d, next)) <= env_room(d),
        !env_below(next, d) ==> env_room(env_join(d, next)) < env_room(d),
    decreases d.len(),
{
    if d.len() > 0 {
        let j = env_join(d, next);
        assert(j.drop_last() =~= env_join(d.drop_last(), next));
        lemma_join_rises(d.drop_last(), next);
        assert(j.last() == lub(d.last(), next[d.len() - 1]));
        if !env_below(next, d) {
            let i = choose|i: int| 0 <= i < d.len() && !below(#[trigger] next[i], d[i]);
            if i < d.len() - 1 {
                assert(d.drop_last()[i] == d[i]);
                assert(!env_below(next, d.drop_last()));
            }
        }
    }
}

/// No slot can rise more than two steps.
pub proof fn lemma_room_bound(d: Seq<AbstractValue>)
    ensures
        env_room(d) <= 2 * d.len(),
    decreases d.len(),
{
    if d.len() > 0 {
        lemma_room_bound(d.drop_last());
    }
}

/// The join of two environments lies above both, slot by slot.
pub proof fn lemma_env_join_upper_bound(a: Seq<AbstractValue>, b: Seq<AbstractValue>)
    requires
        a.len() == b.len(),
    ensures
        env_below(a, env_join(a, b)),
        env_below(b, env_join(a, b)),
{
}

/// An environment: one sign for each of the `SLOTS` variables.
#[derive(Debug, PartialEq)]
pub struct AbstractDomain {
    domain: Vec<AbstractValue>,
}

impl View for AbstractDomain {
    type V = Seq<AbstractValue>;

    closed spec fn view(&self) -> Seq<AbstractValue> {
        self.domain@
    }
}

impl Clone for AbstractDomain {
    fn clone(&self) -> (r: Self)
        ensures
            r@ == self@,
    {
        let mut domain: Vec<AbstractValue> = Vec::new();
        let mut i: usize = 0;
        while i < self.domain.len()
            invariant
                i <= self.domain@.len(),
                domain@ == self.domain@.take(i as int),
            decreases self.domain@.len() - i,
        {
            domain.push(self.domain[i]);
            assert(domain@ =~= self.domain@.take(i + 1));
            i = i + 1;
        }
        assert(self.domain@.take(i as int) =~= self.domain@);
        AbstractDomain { domain }
    }
}

impl AbstractDomain {
    /// The environment has a sign for every variable.
    pub open spec fn wf(&self) -> bool {
        self@.len() == SLOTS
    }

    /// The environment that knows nothing: every variable is `Top`.
    pub fn new() -> (r: Self)
        ensures
            r.wf(),
            r@ == env_all(SLOTS as nat, AbstractValue::Top),
    {
        let mut domain: Vec<AbstractValue> = Vec::new();
        let mut i: usize = 0;
        while i < SLOTS
            invariant
                i <= SLOTS,
                domain@ == env_all(i as nat, AbstractValue::Top),
            decreases SLOTS - i,
        {
            domain.push(AbstractValue::Top);
            assert(domain@ =~= env_all((i + 1) as nat, AbstractValue::Top));
            i = i + 1;
        }
        AbstractDomain { domain }
    }

    /// The sign of variable `x`.
    pub fn read(&self, x: Var) -> (r: AbstractValue)
        requires
            self.wf(),
            x.0 < SLOTS,
        ensures
            r == self@[x.0 as int],
    {
        self.domain[x.0]
    }

    /// The environment with the sign of `x` replaced by `a`.
    pub fn write(self, x: Var, a: AbstractValue) -> (r: Self)
        requires
            self.wf(),
            x.0 < SLOTS,
        ensures
            r.wf(),
            r@ == self@.update(x.0 as int, a),
    {
        let mut next = self;
        next.domain.set(x.0, a);
        next
    }

    /// The slot-by-slot join with `d`.
    pub fn join(&self, d: &AbstractDomain) -> (r: Self)
        requires
            self.wf(),
            d.wf(),
        ensures
            r.wf(),
            r@ == env_join(self@, d@),
    {
        let mut domain: Vec<AbstractValue> = Vec::new();
        let mut i: usize = 0;
        while i < SLOTS
            invariant
                i <= SLOTS,
                self.wf(),
                d.wf(),
                domain@ == env_join(self@, d@).take(i as int),
            decreases SLOTS - i,
        {
            domain.push(join(self.domain[i], d.read(Var(i))));
            assert(domain@ =~= env_join(self@, d@).take(i + 1));
            i = i + 1;
        }
        assert(env_join(self@, d@).take(i as int) =~= env_join(self@, d@));
        AbstractDomain { domain }
    }

    /// Whether some slot is `Bottom`. One such slot marks the whole environment as
    /// unreachable.
    pub fn is_bottom(&self) -> (r: bool)
        requires
            self.wf(),
        ensures
            r == env_unreachable(self@),
    {
        let mut i: usize = 0;
        while i < SLOTS
            invariant
                i <= SLOTS,
                self.wf(),
                forall|j: int| 0 <= j < i ==> self@[j] != AbstractValue::Bottom,
            decreases SLOTS - i,
        {
            if self.domain[i] == AbstractValue::Bottom {
                return true;
            }
            i = i + 1;
        }
        false
    }

    /// The environment with every slot `Bottom`.
    pub fn bottomize(self) -> (r: Self)
        requires
            self.wf(),
        ensures
            r.wf(),
            r@ == env_all(SLOTS as nat, AbstractValue::Bottom),
    {
        let mut domain: Vec<AbstractValue> = Vec::new();
        let mut i: usize = 0;
        while i < SLOTS
            invariant
                i <= SLOTS,
                domain@ == env_all(i as nat, AbstractValue::Bottom),
            decreases SLOTS - i,
        {
            domain.push(AbstractValue::Bottom);
            assert(domain@ =~= env_all((i + 1) as nat, AbstractValue::Bottom));
            i = i + 1;
        }
        AbstractDomain { domain }
    }

    /// Whether every slot of this environment lies below the same slot of `a`.
    pub fn is_le(&self, a: &AbstractDomain) -> (r: bool)
        requires
            self.wf(),
            a.wf(),
        ensures
            r == env_below(self@, a@),
    {
        let mut i: usize = 0;
        while i < SLOTS
            invariant
                i <= SLOTS,
                self.wf(),
                a.wf(),
                forall|j: int| 0 <= j < i ==> below(#[trigger] self@[j], a@[j]),
            decreases SLOTS - i,
        {
            let v = self.domain[i];
            if !v.includes(a.read(Var(i))) {
                assert(!below(self@[i as int], a@[i as int]));
                return false;
            }
            i = i + 1;
        }
        true
    }
}

} // verus!
