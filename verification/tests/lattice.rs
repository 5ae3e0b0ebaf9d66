use sign_analysis::concrete::{BinOp, Const, Rel, Var};
use sign_analysis::domain::{binop, condition, constant, join, AbstractDomain, AbstractValue};

const ALL: [AbstractValue; 4] =
    [AbstractValue::Bottom, AbstractValue::Top, AbstractValue::Pos, AbstractValue::Neg];

#[test]
fn constant_puts_zero_with_the_positives() {
    assert_eq!(constant(Const(0)), AbstractValue::Pos);
    assert_eq!(constant(Const(1)), AbstractValue::Pos);
    assert_eq!(constant(Const(-1)), AbstractValue::Neg);
    assert_eq!(constant(Const(i64::MIN)), AbstractValue::Neg);
    assert_eq!(constant(Const(i64::MAX)), AbstractValue::Pos);
}

#[test]
fn includes_table() {
    for a in ALL {
        for b in ALL {
            let expected = a == AbstractValue::Bottom || b == AbstractValue::Top || a == b;
            assert_eq!(a.includes(b), expected);
        }
    }
    assert!(!AbstractValue::Top.includes(AbstractValue::Pos));
    assert!(!AbstractValue::Pos.includes(AbstractValue::Neg));
    assert!(AbstractValue::Pos.includes(AbstractValue::Top));
    assert!(AbstractValue::Bottom.includes(AbstractValue::Neg));
}

#[test]
fn join_table() {
    assert_eq!(join(AbstractValue::Pos, AbstractValue::Neg), AbstractValue::Top);
    assert_eq!(join(AbstractValue::Neg, AbstractValue::Pos), AbstractValue::Top);
    assert_eq!(join(AbstractValue::Pos, AbstractValue::Pos), AbstractValue::Pos);
    assert_eq!(join(AbstractValue::Neg, AbstractValue::Neg), AbstractValue::Neg);
    assert_eq!(join(AbstractValue::Bottom, AbstractValue::Bottom), AbstractValue::Bottom);
    assert_eq!(join(AbstractValue::Top, AbstractValue::Bottom), AbstractValue::Top);
}

#[test]
fn join_is_commutative_and_associative() {
    for a in ALL {
        for b in ALL {
            assert_eq!(join(a, b), join(b, a));
            for c in ALL {
                assert_eq!(join(join(a, b), c), join(a, join(b, c)));
            }
        }
    }
}

#[test]
fn join_has_bottom_as_identity_and_top_as_absorbing() {
    for a in ALL {
        assert_eq!(join(AbstractValue::Bottom, a), a);
        assert_eq!(join(a, AbstractValue::Bottom), a);
        assert_eq!(join(AbstractValue::Top, a), AbstractValue::Top);
        assert_eq!(join(a, AbstractValue::Top), AbstractValue::Top);
    }
}

#[test]
fn join_lies_above_both_operands() {
    for a in ALL {
        for b in ALL {
            assert!(a.includes(join(a, b)));
            assert!(b.includes(join(a, b)));
            assert_eq!(join(a, b).includes(a), b.includes(a));
            assert_eq!(join(a, b).includes(b), a.includes(b));
        }
    }
}

#[test]
fn binop_is_strict_and_top_absorbs() {
    for op in [BinOp::Add, BinOp::Sub, BinOp::Mul] {
        for a in ALL {
            assert_eq!(binop(op, AbstractValue::Bottom, a), AbstractValue::Bottom);
            assert_eq!(binop(op, a, AbstractValue::Bottom), AbstractValue::Bottom);
            if a != AbstractValue::Bottom {
                assert_eq!(binop(op, AbstractValue::Top, a), AbstractValue::Top);
                assert_eq!(binop(op, a, AbstractValue::Top), AbstractValue::Top);
            }
        }
    }
}

#[test]
fn binop_sign_rules() {
    let (p, n, t) = (AbstractValue::Pos, AbstractValue::Neg, AbstractValue::Top);
    assert_eq!(binop(BinOp::Add, p, p), p);
    assert_eq!(binop(BinOp::Add, n, n), n);
    assert_eq!(binop(BinOp::Add, p, n), t);
    assert_eq!(binop(BinOp::Add, n, p), t);
    assert_eq!(binop(BinOp::Sub, n, p), n);
    assert_eq!(binop(BinOp::Sub, p, n), p);
    assert_eq!(binop(BinOp::Sub, p, p), t);
    assert_eq!(binop(BinOp::Sub, n, n), t);
    assert_eq!(binop(BinOp::Mul, p, p), p);
    assert_eq!(binop(BinOp::Mul, n, n), p);
    assert_eq!(binop(BinOp::Mul, p, n), n);
    assert_eq!(binop(BinOp::Mul, n, p), n);
}

#[test]
fn condition_refines() {
    let (b, p, n, t) =
        (AbstractValue::Bottom, AbstractValue::Pos, AbstractValue::Neg, AbstractValue::Top);
    for rel in [Rel::InfEq, Rel::Sup] {
        for lit in [-5, -1, 0, 7] {
            assert_eq!(condition(rel, lit, b), b);
        }
    }
    assert_eq!(condition(Rel::InfEq, -1, p), b);
    assert_eq!(condition(Rel::InfEq, -1, n), n);
    assert_eq!(condition(Rel::InfEq, -1, t), n);
    assert_eq!(condition(Rel::InfEq, 0, p), p);
    assert_eq!(condition(Rel::InfEq, 0, n), n);
    assert_eq!(condition(Rel::InfEq, 0, t), t);
    assert_eq!(condition(Rel::Sup, 0, n), b);
    assert_eq!(condition(Rel::Sup, 0, p), p);
    assert_eq!(condition(Rel::Sup, 0, t), p);
    assert_eq!(condition(Rel::Sup, -1, n), n);
    assert_eq!(condition(Rel::Sup, -1, p), p);
    assert_eq!(condition(Rel::Sup, -1, t), t);
}

#[test]
fn fresh_environment_is_top_everywhere() {
    let d = AbstractDomain::new();
    for i in 0..100 {
        assert_eq!(d.read(Var(i)), AbstractValue::Top);
    }
    assert!(!d.is_bottom());
}

#[test]
fn write_changes_one_slot() {
    let d = AbstractDomain::new().write(Var(5), AbstractValue::Neg);
    for i in 0..100 {
        let expected = if i == 5 { AbstractValue::Neg } else { AbstractValue::Top };
        assert_eq!(d.read(Var(i)), expected);
    }
}

#[test]
fn environment_join_is_slot_by_slot() {
    let a = AbstractDomain::new()
        .write(Var(0), AbstractValue::Pos)
        .write(Var(1), AbstractValue::Bottom)
        .write(Var(2), AbstractValue::Neg);
    let b = AbstractDomain::new()
        .write(Var(0), AbstractValue::Neg)
        .write(Var(1), AbstractValue::Pos)
        .write(Var(2), AbstractValue::Neg);
    let j = a.join(&b);
    assert_eq!(j.read(Var(0)), AbstractValue::Top);
    assert_eq!(j.read(Var(1)), AbstractValue::Pos);
    assert_eq!(j.read(Var(2)), AbstractValue::Neg);
    assert_eq!(j.read(Var(3)), AbstractValue::Top);
    assert!(a.is_le(&j));
    assert!(b.is_le(&j));
}

#[test]
fn is_bottom_finds_any_bottom_slot() {
    assert!(!AbstractDomain::new().is_bottom());
    assert!(AbstractDomain::new().write(Var(99), AbstractValue::Bottom).is_bottom());
    assert!(AbstractDomain::new().write(Var(0), AbstractValue::Bottom).is_bottom());
}

#[test]
fn bottomize_sets_every_slot() {
    let d = AbstractDomain::new().write(Var(1), AbstractValue::Pos).bottomize();
    for i in 0..100 {
        assert_eq!(d.read(Var(i)), AbstractValue::Bottom);
    }
    assert!(d.is_bottom());
}

#[test]
fn is_le_checks_every_slot() {
    let a = AbstractDomain::new().write(Var(1), AbstractValue::Pos);
    let b = AbstractDomain::new().write(Var(1), AbstractValue::Neg);
    assert!(!a.is_le(&b));
    assert!(!b.is_le(&a));
    assert!(a.is_le(&a));
    assert!(a.is_le(&AbstractDomain::new()));
    assert!(!AbstractDomain::new().is_le(&a));
    let last = AbstractDomain::new().write(Var(99), AbstractValue::Pos);
    assert!(!AbstractDomain::new().is_le(&last));
    assert!(AbstractDomain::new().bottomize().is_le(&last));
}

#[test]
fn clone_keeps_every_slot() {
    let a = AbstractDomain::new().write(Var(1), AbstractValue::Pos);
    assert_eq!(a.clone(), a);
}
