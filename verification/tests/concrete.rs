use sign_analysis::concrete::{
    binop, checked_binop, input, relop, BinOp, Command, Cond, Const, Expr, Label, Memory, Rel,
    State, Var, VarSupply, SLOTS,
};

#[test]
fn var_supply_counts_up() {
    let mut vars = VarSupply::new();
    assert_eq!(vars.fresh(), Var(0));
    assert_eq!(vars.fresh(), Var(1));
    assert_eq!(vars.fresh(), Var(2));
}

#[test]
fn label_is_a_placeholder() {
    assert_eq!(Label::new(), Label(0));
    assert_eq!(Label::new(), Label::default());
}

#[test]
fn relop_compares() {
    assert!(relop(Rel::InfEq, Const(3), Const(3)));
    assert!(relop(Rel::InfEq, Const(-4), Const(3)));
    assert!(!relop(Rel::InfEq, Const(4), Const(3)));
    assert!(!relop(Rel::Sup, Const(3), Const(3)));
    assert!(relop(Rel::Sup, Const(4), Const(3)));
}

#[test]
fn binop_computes() {
    assert_eq!(binop(BinOp::Add, Const(5), Const(3)), Const(8));
    assert_eq!(binop(BinOp::Sub, Const(5), Const(20)), Const(-15));
    assert_eq!(binop(BinOp::Mul, Const(-5), Const(3)), Const(-15));
    assert_eq!(binop(BinOp::Mul, Const(0), Const(-3)), Const(0));
}

#[test]
fn negate_swaps_the_relation() {
    let c = Cond { rel: Rel::InfEq, left: Var(2), right: Const(-7) };
    assert_eq!(c.negate(), Cond { rel: Rel::Sup, left: Var(2), right: Const(-7) });
    assert_eq!(c.negate().negate(), c);
}

#[test]
fn builders_make_labelled_trees() {
    let x = Var(0);
    assert_eq!(Expr::new_const(4), Expr::Const(Const(4)));
    assert_eq!(Expr::default(), Expr::Const(Const(0)));
    assert_eq!(Command::default(), Command::Skip);
    assert_eq!(Command::assign_const(x, 4), Command::Assign(x, Expr::Const(Const(4))));
    assert_eq!(
        Command::make_seq(Command::Skip, Command::Input(x)),
        Command::Sequence(
            Box::new((Label::new(), Command::Skip)),
            Box::new((Label::new(), Command::Input(x)))
        )
    );
    let cond = Cond { rel: Rel::Sup, left: x, right: Const(0) };
    assert_eq!(
        Command::make_if(cond, Command::Skip, Some(Command::Input(x))),
        Command::If {
            cond,
            then: Box::new((Label::new(), Command::Skip)),
            els: Some(Box::new((Label::new(), Command::Input(x)))),
        }
    );
    assert_eq!(
        Command::make_if(cond, Command::Skip, None),
        Command::If { cond, then: Box::new((Label::new(), Command::Skip)), els: None }
    );
    assert_eq!(
        Command::make_while(cond, Command::Skip),
        Command::While { cond, body: Box::new((Label::new(), Command::Skip)) }
    );
    let tree = Command::make_while(cond, Command::make_seq(Command::Skip, Command::Input(x)));
    assert_eq!(tree.clone(), tree);
}

#[test]
fn memory_starts_at_zero() {
    let m = Memory::new();
    for i in 0..100 {
        assert_eq!(m.read(Var(i)), Const(0));
    }
}

#[test]
fn memory_write_changes_one_slot() {
    let m = Memory::new().write(Var(99), Const(-8));
    assert_eq!(m.read(Var(99)), Const(-8));
    assert_eq!(m.read(Var(98)), Const(0));
    assert_eq!(m.read(Var(0)), Const(0));
}

#[test]
fn sem_expr_evaluates() {
    let m = Memory::new().write(Var(0), Const(5)).write(Var(1), Const(-2));
    let e = Expr::BinOp {
        op: BinOp::Mul,
        left: Box::new(Expr::BinOp {
            op: BinOp::Sub,
            left: Box::new(Expr::Var(Var(0))),
            right: Box::new(Expr::Var(Var(1))),
        }),
        right: Box::new(Expr::new_const(3)),
    };
    assert_eq!(m.sem_expr(&e), Const(21));
    assert_eq!(m.sem_expr(&Expr::Var(Var(1))), Const(-2));
    assert_eq!(m.sem_expr(&Expr::new_const(9)), Const(9));
}

#[test]
fn sem_cond_tests_the_variable() {
    let m = Memory::new().write(Var(0), Const(5));
    assert!(m.sem_cond(&Cond { rel: Rel::Sup, left: Var(0), right: Const(4) }));
    assert!(!m.sem_cond(&Cond { rel: Rel::Sup, left: Var(0), right: Const(5) }));
    assert!(m.sem_cond(&Cond { rel: Rel::InfEq, left: Var(0), right: Const(5) }));
    assert!(m.sem_cond(&Cond { rel: Rel::InfEq, left: Var(1), right: Const(0) }));
}

#[test]
fn input_reads_zero() {
    assert_eq!(input(), Const(0));
}

#[test]
fn sem_com_runs_a_loop() {
    let x = Var(0);
    let y = Var(1);
    // y := 1; x := 5; while x > 0 { y := y * 2; x := x - 1 }
    let body = Command::make_seq(
        Command::Assign(
            y,
            Expr::BinOp {
                op: BinOp::Mul,
                left: Box::new(Expr::Var(y)),
                right: Box::new(Expr::new_const(2)),
            },
        ),
        Command::Assign(
            x,
            Expr::BinOp {
                op: BinOp::Sub,
                left: Box::new(Expr::Var(x)),
                right: Box::new(Expr::new_const(1)),
            },
        ),
    );
    let program = Command::make_seq(
        Command::assign_const(y, 1),
        Command::make_seq(
            Command::assign_const(x, 5),
            Command::make_while(Cond { rel: Rel::Sup, left: x, right: Const(0) }, body),
        ),
    );
    let m = Memory::new().sem_com(&(Label::new(), program));
    assert_eq!(m.read(x), Const(0));
    assert_eq!(m.read(y), Const(32));
}

#[test]
fn sem_com_takes_the_else_branch() {
    let x = Var(0);
    let program = Command::make_if(
        Cond { rel: Rel::Sup, left: x, right: Const(0) },
        Command::assign_const(x, 1),
        Some(Command::assign_const(x, -1)),
    );
    assert_eq!(Memory::new().sem_com(&(Label::new(), program)).read(x), Const(-1));
}

#[test]
fn checked_binop_reports_overflow() {
    assert_eq!(checked_binop(BinOp::Add, Const(5), Const(3)), Some(Const(8)));
    assert_eq!(checked_binop(BinOp::Sub, Const(5), Const(20)), Some(Const(-15)));
    assert_eq!(checked_binop(BinOp::Mul, Const(-5), Const(3)), Some(Const(-15)));
    assert_eq!(checked_binop(BinOp::Add, Const(i64::MAX), Const(1)), None);
    assert_eq!(checked_binop(BinOp::Sub, Const(i64::MIN), Const(1)), None);
    assert_eq!(checked_binop(BinOp::Mul, Const(i64::MIN), Const(-1)), None);
    assert_eq!(checked_binop(BinOp::Add, Const(i64::MAX), Const(0)), Some(Const(i64::MAX)));
}

#[test]
fn checked_sem_expr_reports_overflow_inside() {
    let m = Memory::new().write(Var(0), Const(i64::MAX));
    let over = Expr::BinOp {
        op: BinOp::Add,
        left: Box::new(Expr::Var(Var(0))),
        right: Box::new(Expr::new_const(1)),
    };
    assert_eq!(m.checked_sem_expr(&over), None);
    let back = Expr::BinOp {
        op: BinOp::Sub,
        left: Box::new(over),
        right: Box::new(Expr::new_const(1)),
    };
    assert_eq!(m.checked_sem_expr(&back), None);
    let fine = Expr::BinOp {
        op: BinOp::Sub,
        left: Box::new(Expr::Var(Var(0))),
        right: Box::new(Expr::new_const(1)),
    };
    assert_eq!(m.checked_sem_expr(&fine), Some(Const(i64::MAX - 1)));
}

#[test]
fn is_scoped_finds_variables_out_of_range() {
    let inside = Expr::Var(Var(99));
    let outside = Expr::Var(Var(100));
    assert!(inside.is_scoped(SLOTS));
    assert!(!outside.is_scoped(SLOTS));
    let cond = Cond { rel: Rel::Sup, left: Var(0), right: Const(0) };
    let deep = Command::make_while(
        cond,
        Command::make_if(cond, Command::Skip, Some(Command::Assign(Var(1), outside))),
    );
    assert!(!deep.is_scoped(SLOTS));
    assert!(deep.is_scoped(101));
    assert!(Command::make_seq(Command::Input(Var(99)), Command::Skip).is_scoped(SLOTS));
    assert!(!Command::make_seq(Command::Skip, Command::Input(Var(100))).is_scoped(SLOTS));
    let far = Cond { rel: Rel::Sup, left: Var(100), right: Const(0) };
    assert!(!Command::make_if(far, Command::Skip, None).is_scoped(SLOTS));
}

#[test]
fn sem_com_bounded_agrees_where_the_run_ends() {
    let x = Var(0);
    let program = (
        Label::new(),
        Command::make_seq(
            Command::assign_const(x, 3),
            Command::make_while(
                Cond { rel: Rel::Sup, left: x, right: Const(0) },
                Command::Assign(
                    x,
                    Expr::BinOp {
                        op: BinOp::Sub,
                        left: Box::new(Expr::Var(x)),
                        right: Box::new(Expr::new_const(1)),
                    },
                ),
            ),
        ),
    );
    assert_eq!(Memory::new().sem_com_bounded(&program, 2), None);
    let end = Memory::new().sem_com_bounded(&program, 3);
    assert_eq!(end, Some(Memory::new().sem_com(&program)));
    assert_eq!(Memory::new().sem_com_bounded(&program, 50), end);
}

#[test]
fn sem_com_bounded_stops_endless_loops_and_overflow() {
    let x = Var(0);
    let forever = (
        Label::new(),
        Command::make_while(Cond { rel: Rel::InfEq, left: x, right: Const(0) }, Command::Skip),
    );
    assert_eq!(Memory::new().sem_com_bounded(&forever, 100), None);
    let doubling = (
        Label::new(),
        Command::make_seq(
            Command::assign_const(x, 1),
            Command::make_while(
                Cond { rel: Rel::Sup, left: x, right: Const(0) },
                Command::Assign(
                    x,
                    Expr::BinOp {
                        op: BinOp::Mul,
                        left: Box::new(Expr::Var(x)),
                        right: Box::new(Expr::new_const(2)),
                    },
                ),
            ),
        ),
    );
    assert_eq!(Memory::new().sem_com_bounded(&doubling, 1000), None);
}

#[test]
fn memory_default_and_clone() {
    assert_eq!(Memory::default(), Memory::new());
    let m = Memory::new().write(Var(4), Const(4));
    assert_eq!(m.clone(), m);
    let s = State::default();
    assert_eq!(s.label, Label::new());
    assert_eq!(s.mem, Memory::new());
}
