//! The language and its concrete semantics.

use vstd::prelude::*;

verus! {

/// Number of storage slots of a memory and of an abstract environment.
pub const SLOTS: usize = 100;

/// A variable, named by the index of its storage slot.
#[derive(Default, Debug, PartialEq, Eq, Clone, Copy, Structural)]
pub struct Var(pub usize);

/// Hands out variables with distinct indices, counting up from zero.
#[derive(Debug, Clone, Copy)]
pub struct VarSupply {
    pub next: usize,
}

impl VarSupply {
    /// A supply whose first variable has index zero.
    pub fn new() -> (r: Self)
        ensures
            r.next == 0,
    {
        VarSupply { next: 0 }
    }

    /// The next unused variable.
    pub fn fresh(&mut self) -> (v: Var)
        requires
            old(self).next < usize::MAX,
        ensures
            v.0 == old(self).next,
            final(self).next == old(self).next + 1,
    {
        let v = Var(self.next);
        self.next = self.next + 1;
        v
    }
}

/// An integer value.
#[derive(Default, Debug, PartialEq, Eq, Clone, Copy, Structural)]
pub struct Const(pub i64);

/// A control-flow label. Every label is the same placeholder for now.
#[derive(Default, Debug, PartialEq, Eq, Clone, Copy, Structural)]
pub struct Label(pub usize);

impl Label {
    /// The placeholder label.
    pub fn new() -> (r: Self)
        ensures
            r == Label(0),
    {
        Label(0)
    }
}

#[derive(Default, Debug, PartialEq, Eq, Clone, Copy, Structural)]
pub enum BinOp {
    #[default]
    Add,
    Sub,
    Mul,
}

#[derive(Default, Debug, PartialEq, Eq, Clone, Copy, Structural)]
pub enum Rel {
    /// Less than or equal.
    #[default]
    InfEq,
    /// Strictly greater than.
    Sup,
}

/// Whether `left rel right` holds of two integers.
pub open spec fn rel_holds(c: Rel, left: int, right: int) -> bool {
    match c {
        Rel::InfEq => left <= right,
        Rel::Sup => left > right,
    }
}

/// Whether `left rel right` holds of two values.
pub fn relop(c: Rel, left: Const, right: Const) -> (r: bool)
    ensures
        r == rel_holds(c, left.0 as int, right.0 as int),
{
    match c {
        Rel::InfEq => left.0 <= right.0,
        Rel::Sup => left.0 > right.0,
    }
}

/// The mathematical result of an operator, without any bound.
pub open spec fn op_value(op: BinOp, left: int, right: int) -> int {
    match op {
        BinOp::Add => left + right,
        BinOp::Sub => left - right,
        BinOp::Mul => left * right,
    }
}

/// Whether an integer is the value of some `Const`.
pub open spec fn fits(n: int) -> bool {
    i64::MIN <= n <= i64::MAX
}

/// Applies an operator to two values whose result is again a `Const`.
pub fn binop(op: BinOp, left: Const, right: Const) -> (r: Const)
    requires
        fits(op_value(op, left.0 as int, right.0 as int)),
    ensures
        r.0 == op_value(op, left.0 as int, right.0 as int),
{
    Const(
        match op {
            BinOp::Add => left.0 + right.0,
            BinOp::Sub => left.0 - right.0,
            BinOp::Mul => left.0 * right.0,
        },
    )
}

/// Applies an operator, or returns `None` where the result is not a `Const`.
pub fn checked_binop(op: BinOp, left: Const, right: Const) -> (r: Option<Const>)
    ensures
        match r {
            Some(c) => c.0 == op_value(op, left.0 as int, right.0 as int),
            None => !fits(op_value(op, left.0 as int, right.0 as int)),
        },
{
    let value = match op {
        BinOp::Add => left.0.checked_add(right.0),
        BinOp::Sub => left.0.checked_sub(right.0),
        BinOp::Mul => left.0.checked_mul(right.0),
    };
    match value {
        Some(n) => Some(Const(n)),
        None => None,
    }
}

/// An arithmetic expression.
#[derive(PartialEq, Debug, Eq)]
pub enum Expr {
    Const(Const),
    Var(Var),
    BinOp { op: BinOp, left: Box<Expr>, right: Box<Expr> },
}

impl Expr {
    /// The expression that is the literal `n`.
    pub fn new_const(n: i64) -> (r: Self)
        ensures
            r == Expr::Const(Const(n)),
    {
        Expr::Const(Const(n))
    }

    /// Every variable of the expression names one of the first `n` slots.
    pub open spec fn scoped(self, n: nat) -> bool
        decreases self,
    {
        match self {
            Expr::Const(_) => true,
            Expr::Var(x) => x.0 < n,
            Expr::BinOp { op, left, right } => left.scoped(n) && right.scoped(n),
        }
    }

    /// Whether every variable of the expression names one of the first `n` slots.
    pub fn is_scoped(&self, n: usize) -> (r: bool)
        ensures
            r == self.scoped(n as nat),
        decreases *self,
    {
        match self {
            Expr::Const(_) => true,
            Expr::Var(x) => x.0 < n,
            Expr::BinOp { op, left, right } => left.is_scoped(n) && right.is_scoped(n),
        }
    }

    /// The value of the expression in memory `m`, over unbounded integers.
    pub open spec fn value(self, m: Seq<int>) -> int
        decreases self,
    {
        match self {
            Expr::Const(c) => c.0 as int,
            Expr::Var(x) => m[x.0 as int],
            Expr::BinOp { op, left, right } => op_value(op, left.value(m), right.value(m)),
        }
    }

    /// No operator inside the expression leaves the range of `Const` in memory `m`.
    pub open spec fn computable(self, m: Seq<int>) -> bool
        decreases self,
    {
        match self {
            Expr::Const(_) => true,
            Expr::Var(_) => true,
            Expr::BinOp { op, left, right } => {
                &&& left.computable(m)
                &&& right.computable(m)
                &&& fits(self.value(m))
            },
        }
    }
}

impl Clone for Expr {
    fn clone(&self) -> (r: Self)
        ensures
            r == *self,
        decreases *self,
    {
        match self {
            Expr::Const(c) => Expr::Const(*c),
            Expr::Var(x) => Expr::Var(*x),
            Expr::BinOp { op, left, right } => Expr::BinOp {
                op: *op,
                left: Box::new((**left).clone()),
                right: Box::new((**right).clone()),
            },
        }
    }
}

impl Default for Expr {
    fn default() -> (r: Self)
        ensures
            r == Expr::Const(Const(0)),
    {
        Expr::Const(Const(0))
    }
}

/// A test of a variable against a literal.
#[derive(Default, Debug, PartialEq, Eq, Clone, Copy)]
pub struct Cond {
    pub rel: Rel,
    pub left: Var,
    pub right: Const,
}

impl Cond {
    /// The opposite relation over the same variable and literal.
    pub open spec fn negated(self) -> Cond {
        Cond {
            rel: match self.rel {
                Rel::InfEq => Rel::Sup,
                Rel::Sup => Rel::InfEq,
            },
            left: self.left,
            right: self.right,
        }
    }

    /// Whether the test holds in memory `m`.
    pub open spec fn holds(self, m: Seq<int>) -> bool {
        rel_holds(self.rel, m[self.left.0 as int], self.right.0 as int)
    }

    /// The test that holds exactly where this one fails.
    pub fn negate(self: &Cond) -> (r: Cond)
        ensures
            r == self.negated(),
    {
        Cond {
            rel: match self.rel {
                Rel::InfEq => Rel::Sup,
                Rel::Sup => Rel::InfEq,
            },
            left: self.left,
            right: self.right,
        }
    }

    /// The negated test holds exactly where the test fails.
    pub proof fn lemma_negated_holds(self, m: Seq<int>)
        ensures
            self.negated().holds(m) == !self.holds(m),
            self.negated().negated() == self,
    {
    }
}

/// A command. Each sub-command carries its label.
#[derive(Default, Debug, PartialEq, Eq)]
pub enum Command {
    #[default]
    Skip,
    Sequence(Box<(Label, Command)>, Box<(Label, Command)>),
    Assign(Var, Expr),
    Input(Var),
    If { cond: Cond, then: Box<(Label, Command)>, els: Option<Box<(Label, Command)>> },
    While { cond: Cond, body: Box<(Label, Command)> },
}

impl Clone for Command {
    fn clone(&self) -> (r: Self)
        ensures
            r == *self,
        decreases *self,
    {
        match self {
            Command::Skip => Command::Skip,
            Command::Sequence(c1, c2) => Command::Sequence(
                Box::new((c1.0, c1.1.clone())),
                Box::new((c2.0, c2.1.clone())),
            ),
            Command::Assign(x, e) => Command::Assign(*x, e.clone()),
            Command::Input(x) => Command::Input(*x),
            Command::If { cond, then, els } => Command::If {
                cond: *cond,
                then: Box::new((then.0, then.1.clone())),
                els: match els {
                    Some(c) => Some(Box::new((c.0, c.1.clone()))),
                    None => None,
                },
            },
            Command::While { cond, body } => Command::While {
                cond: *cond,
                body: Box::new((body.0, body.1.clone())),
            },
        }
    }
}

impl Command {
    /// `c1; c2`, each under the placeholder label.
    pub fn make_seq(c1: Command, c2: Command) -> (r: Command)
        ensures
            r == Command::Sequence(Box::new((Label(0), c1)), Box::new((Label(0), c2))),
    {
        Self::Sequence(Box::new((Label::new(), c1)), Box::new((Label::new(), c2)))
    }

    /// `if cond { c1 } else { c2 }`, or `if cond { c1 }` where `c2` is `None`.
    pub fn make_if(cond: Cond, c1: Command, c2: Option<Command>) -> (r: Command)
        ensures
            r == (Command::If {
                cond,
                then: Box::new((Label(0), c1)),
                els: match c2 {
                    Some(c) => Some(Box::new((Label(0), c))),
                    None => None,
                },
            }),
    {
        Self::If {
            cond: cond,
            then: Box::new((Label::new(), c1)),
            els: match c2 {
                Some(c) => Some(Box::new((Label::new(), c))),
                None => None,
            },
        }
    }

    /// `while cond { c }`.
    pub fn make_while(cond: Cond, c: Command) -> (r: Command)
        ensures
            r == (Command::While { cond, body: Box::new((Label(0), c)) }),
    {
        Self::While { cond: cond, body: Box::new((Label::new(), c)) }
    }

    /// `var := n`.
    pub fn assign_const(var: Var, n: i64) -> (r: Command)
        ensures
            r == Command::Assign(var, Expr::Const(Const(n))),
    {
        Self::Assign(var, Expr::new_const(n))
    }

    /// Every variable of the command names one of the first `n` slots.
    pub open spec fn scoped(self, n: nat) -> bool
        decreases self,
    {
        match self {
            Command::Skip => true,
            Command::Sequence(c1, c2) => c1.1.scoped(n) && c2.1.scoped(n),
            Command::Assign(x, e) => x.0 < n && e.scoped(n),
            Command::Input(x) => x.0 < n,
            Command::If { cond, then, els } => {
                &&& cond.left.0 < n
                &&& then.1.scoped(n)
                &&& match els {
                    Some(c) => c.1.scoped(n),
                    None => true,
                }
            },
            Command::While { cond, body } => cond.left.0 < n && body.1.scoped(n),
        }
    }

    /// Whether every variable of the command names one of the first `n` slots.
    pub fn is_scoped(&self, n: usize) -> (r: bool)
        ensures
            r == self.scoped(n as nat),
        decreases *self,
    {
        match self {
            Command::Skip => true,
            Command::Sequence(c1, c2) => c1.1.is_scoped(n) && c2.1.is_scoped(n),
            Command::Assign(x, e) => x.0 < n && e.is_scoped(n),
            Command::Input(x) => x.0 < n,
            Command::If { cond, then, els } => {
                cond.left.0 < n && then.1.is_scoped(n) && match els {
                    Some(c) => c.1.is_scoped(n),
                    None => true,
                }
            },
            Command::While { cond, body } => cond.left.0 < n && body.1.is_scoped(n),
        }
    }

    /// The memory that the command leaves when started in `m`, or `None` where an
    /// operator leaves the range of `Const` or a loop takes more than `fuel` rounds.
    pub open spec fn run(self, m: Seq<int>, fuel: nat) -> Option<Seq<int>>
        decreases fuel, self,
    {
        match self {
            Command::Skip => Some(m),
            Command::Sequence(c1, c2) => match c1.1.run(m, fuel) {
                Some(m1) => c2.1.run(m1, fuel),
                None => None,
            },
            Command::Assign(x, e) => if e.computable(m) {
                Some(m.update(x.0 as int, e.value(m)))
            } else {
                None
            },
            Command::Input(x) => Some(m.update(x.0 as int, input_value())),
            Command::If { cond, then, els } => if cond.holds(m) {
                then.1.run(m, fuel)
            } else {
                match els {
                    Some(c) => c.1.run(m, fuel),
                    None => Some(m),
                }
            },
            Command::While { cond, body } => if !cond.holds(m) {
                Some(m)
            } else if fuel == 0 {
                None
            } else {
                match body.1.run(m, (fuel - 1) as nat) {
                    Some(m1) => self.run(m1, (fuel - 1) as nat),
                    None => None,
                }
            },
        }
    }
}

/// The value that an input command stores.
pub open spec fn input_value() -> int {
    0
}

/// The value read for an input command: always zero.
pub fn input() -> (r: Const)
    ensures
        r.0 == input_value(),
{
    Const(0)
}

impl Command {
    /// The command started in `m` ends after finitely many loop rounds, and no
    /// operator on the way leaves the range of `Const`.
    pub open spec fn halts(self, m: Seq<int>) -> bool {
        exists|fuel: nat| (#[trigger] self.run(m, fuel)) is Some
    }

    /// The memory that the command leaves when started in `m`, where it halts.
    pub open spec fn outcome(self, m: Seq<int>) -> Seq<int> {
        self.run(m, choose|fuel: nat| (#[trigger] self.run(m, fuel)) is Some).unwrap()
    }

    /// More fuel does not change the memory that a run leaves.
    pub proof fn lemma_run_stable(self, m: Seq<int>, fuel: nat, more: nat)
        requires
            self.run(m, fuel) is Some,
            fuel <= more,
        ensures
            self.run(m, more) == self.run(m, fuel),
        decreases fuel, self,
    {
        match self {
            Command::Sequence(c1, c2) => {
                c1.1.lemma_run_stable(m, fuel, more);
                c2.1.lemma_run_stable(c1.1.run(m, fuel).unwrap(), fuel, more);
            },
            Command::If { cond, then, els } => {
                if cond.holds(m) {
                    then.1.lemma_run_stable(m, fuel, more);
                } else {
                    match els {
                        Some(c) => c.1.lemma_run_stable(m, fuel, more),
                        None => {},
                    }
                }
            },
            Command::While { cond, body } => {
                if cond.holds(m) {
                    let f = (fuel - 1) as nat;
                    let g = (more - 1) as nat;
                    body.1.lemma_run_stable(m, f, g);
                    self.lemma_run_stable(body.1.run(m, f).unwrap(), f, g);
                }
            },
            _ => {},
        }
    }

    /// Any run that ends gives the outcome.
    pub proof fn lemma_run_outcome(self, m: Seq<int>, fuel: nat)
        requires
            self.run(m, fuel) is Some,
        ensures
            self.halts(m),
            self.outcome(m) == self.run(m, fuel).unwrap(),
    {
        let chosen = choose|f: nat| (#[trigger] self.run(m, f)) is Some;
        if chosen <= fuel {
            self.lemma_run_stable(m, chosen, fuel);
        } else {
            self.lemma_run_stable(m, fuel, chosen);
        }
    }

    /// A run keeps the number of slots.
    pub proof fn lemma_run_len(self, m: Seq<int>, fuel: nat)
        requires
            self.scoped(m.len()),
            self.run(m, fuel) is Some,
        ensures
            self.run(m, fuel).unwrap().len() == m.len(),
        decreases fuel, self,
    {
        match self {
            Command::Sequence(c1, c2) => {
                c1.1.lemma_run_len(m, fuel);
                c2.1.lemma_run_len(c1.1.run(m, fuel).unwrap(), fuel);
            },
            Command::If { cond, then, els } => {
                if cond.holds(m) {
                    then.1.lemma_run_len(m, fuel);
                } else {
                    match els {
                        Some(c) => c.1.lemma_run_len(m, fuel),
                        None => {},
                    }
                }
            },
            Command::While { cond, body } => {
                if cond.holds(m) {
                    let f = (fuel - 1) as nat;
                    body.1.lemma_run_len(m, f);
                    self.lemma_run_len(body.1.run(m, f).unwrap(), f);
                }
            },
            _ => {},
        }
    }
}

/// A memory: one integer for each of the `SLOTS` variables.
#[derive(Debug, PartialEq, Eq)]
pub struct Memory {
    mem: Vec<Const>,
}

impl Clone for Memory {
    fn clone(&self) -> (r: Self)
        ensures
            r@ == self@,
    {
        let mut mem: Vec<Const> = Vec::new();
        let mut i: usize = 0;
        while i < self.mem.len()
            invariant
                i <= self.mem@.len(),
                mem@ == self.mem@.take(i as int),
            decreases self.mem@.len() - i,
        {
            mem.push(self.mem[i]);
            assert(mem@ =~= self.mem@.take(i + 1));
            i = i + 1;
        }
        assert(self.mem@.take(i as int) =~= self.mem@);
        Memory { mem }
    }
}

impl Default for Memory {
    fn default() -> (r: Self)
        ensures
            r.wf(),
            forall|i: int| 0 <= i < SLOTS ==> r@[i] == 0,
    {
        Memory::new()
    }
}

impl View for Memory {
    type V = Seq<int>;

    closed spec fn view(&self) -> Seq<int> {
        Seq::new(self.mem@.len(), |i: int| self.mem@[i].0 as int)
    }
}

impl Memory {
    /// The memory has a value for every variable.
    pub open spec fn wf(&self) -> bool {
        self@.len() == SLOTS
    }

    /// Every stored value is the value of a `Const`.
    pub proof fn lemma_values_fit(&self)
        ensures
            forall|i: int| 0 <= i < self@.len() ==> fits(#[trigger] self@[i]),
    {
    }

    /// The memory in which every variable is zero.
    pub fn new() -> (r: Self)
        ensures
            r.wf(),
            forall|i: int| 0 <= i < SLOTS ==> r@[i] == 0,
    {
        let mut mem: Vec<Const> = Vec::new();
        let mut i: usize = 0;
        while i < SLOTS
            invariant
                i <= SLOTS,
                mem@.len() == i,
                forall|j: int| 0 <= j < i ==> mem@[j].0 == 0,
            decreases SLOTS - i,
        {
            mem.push(Const(0));
            i = i + 1;
        }
        Memory { mem }
    }

    /// The value of variable `x`.
    pub fn read(&self, x: Var) -> (r: Const)
        requires
            self.wf(),
            x.0 < SLOTS,
        ensures
            r.0 == self@[x.0 as int],
    {
        self.mem[x.0]
    }

    /// The memory with the value of `x` replaced by `v`.
    pub fn write(self, x: Var, v: Const) -> (r: Self)
        requires
            self.wf(),
            x.0 < SLOTS,
        ensures
            r.wf(),
            r@ == self@.update(x.0 as int, v.0 as int),
    {
        let mut next = self;
        next.mem.set(x.0, v);
        assert(next@ =~= self@.update(x.0 as int, v.0 as int));
        next
    }

    /// Evaluates an expression whose operators all stay in range.
    pub fn sem_expr(&self, e: &Expr) -> (r: Const)
        requires
            self.wf(),
            e.scoped(SLOTS as nat),
            e.computable(self@),
        ensures
            r.0 == e.value(self@),
        decreases *e,
    {
        match e {
            Expr::Const(c) => *c,
            Expr::Var(i) => self.read(*i),
            Expr::BinOp { op, left, right } => {
                let l = self.sem_expr(left);
                let r = self.sem_expr(right);
                binop(*op, l, r)
            },
        }
    }

    /// Evaluates an expression, or returns `None` where an operator inside it
    /// leaves the range of `Const`.
    pub fn checked_sem_expr(&self, e: &Expr) -> (r: Option<Const>)
        requires
            self.wf(),
            e.scoped(SLOTS as nat),
        ensures
            match r {
                Some(c) => e.computable(self@) && c.0 == e.value(self@),
                None => !e.computable(self@),
            },
        decreases *e,
    {
        match e {
            Expr::Const(c) => Some(*c),
            Expr::Var(i) => Some(self.read(*i)),
            Expr::BinOp { op, left, right } => {
                match self.checked_sem_expr(left) {
                    None => None,
                    Some(l) => match self.checked_sem_expr(right) {
                        None => None,
                        Some(r) => checked_binop(*op, l, r),
                    },
                }
            },
        }
    }

    /// Whether a test holds in this memory.
    pub fn sem_cond(&self, c: &Cond) -> (r: bool)
        requires
            self.wf(),
            c.left.0 < SLOTS,
        ensures
            r == c.holds(self@),
    {
        relop(c.rel, self.read(c.left), c.right)
    }

    /// Runs a command that halts from this memory, and returns the memory it leaves.
    pub fn sem_com(self, state: &(Label, Command)) -> (r: Self)
        requires
            self.wf(),
            state.1.scoped(SLOTS as nat),
            state.1.halts(self@),
        ensures
            r.wf(),
            r@ == state.1.outcome(self@),
    {
        let ghost fuel = choose|fuel: nat| (#[trigger] state.1.run(self@, fuel)) is Some;
        proof {
            state.1.lemma_run_outcome(self@, fuel);
        }
        self.sem_com_fueled(state, Ghost(fuel))
    }

    /// Runs a command as `Command::run` does with `fuel`: returns `None` where a loop
    /// needs more rounds than `fuel` allows it, or where an operator leaves the
    /// range of `Const`.
    pub fn sem_com_bounded(self, state: &(Label, Command), fuel: usize) -> (r: Option<Self>)
        requires
            self.wf(),
            state.1.scoped(SLOTS as nat),
        ensures
            match r {
                Some(end) => end.wf() && state.1.run(self@, fuel as nat) == Some(end@),
                None => state.1.run(self@, fuel as nat) is None,
            },
        decreases fuel, state.1,
    {
        match &state.1 {
            Command::Skip => Some(self),
            Command::Sequence(c1, c2) => match self.sem_com_bounded(c1, fuel) {
                Some(mid) => mid.sem_com_bounded(c2, fuel),
                None => None,
            },
            Command::Assign(x, expr) => match self.checked_sem_expr(expr) {
                Some(res) => Some(self.write(*x, res)),
                None => None,
            },
            Command::Input(x) => Some(self.write(*x, input())),
            Command::If { cond, then, els } => {
                if self.sem_cond(cond) {
                    self.sem_com_bounded(then, fuel)
                } else {
                    match els {
                        None => Some(self),
                        Some(c) => self.sem_com_bounded(c, fuel),
                    }
                }
            },
            Command::While { cond, body } => {
                if !self.sem_cond(cond) {
                    Some(self)
                } else if fuel == 0 {
                    None
                } else {
                    match self.sem_com_bounded(body, fuel - 1) {
                        Some(mid) => mid.sem_com_bounded(state, fuel - 1),
                        None => None,
                    }
                }
            },
        }
    }

    fn sem_com_fueled(self, state: &(Label, Command), Ghost(fuel): Ghost<nat>) -> (r: Self)
        requires
            self.wf(),
            state.1.scoped(SLOTS as nat),
            state.1.run(self@, fuel) is Some,
        ensures
            r.wf(),
            r@ == state.1.run(self@, fuel).unwrap(),
        decreases fuel, state.1,
    {
        match &state.1 {
            Command::Skip => self,
            Command::Sequence(c1, c2) => self.sem_com_fueled(c1, Ghost(fuel)).sem_com_fueled(
                c2,
                Ghost(fuel),
            ),
            Command::Assign(x, expr) => {
                let res = self.sem_expr(expr);
                self.write(*x, res)
            },
            Command::Input(x) => self.write(*x, input()),
            Command::If { cond, then, els } => {
                if self.sem_cond(cond) {
                    self.sem_com_fueled(then, Ghost(fuel))
                } else {
                    match els {
                        None => self,
                        Some(c) => self.sem_com_fueled(c, Ghost(fuel)),
                    }
                }
            },
            Command::While { cond, body } => {
                if self.sem_cond(cond) {
                    self.sem_com_fueled(body, Ghost((fuel - 1) as nat)).sem_com_fueled(
                        state,
                        Ghost((fuel - 1) as nat),
                    )
                } else {
                    self
                }
            },
        }
    }
}

/// A point of an execution: a label and the memory there.
#[derive(Default, Debug, PartialEq, Eq)]
pub struct State {
    pub label: Label,
    pub mem: Memory,
}

} // verus!
