use luminal::shape::ShapeTracker;
use luminal::symbolic::lookup_value;
use luminal::symbolic::resolve;
use luminal::symbolic::BinOp;
use luminal::symbolic::EvalError;
use luminal::symbolic::Expr;

fn var(name: char) -> Expr {
    Expr::new_variable(name)
}

fn num(n: usize) -> Expr {
    Expr::new_const(n)
}

fn bin(op: BinOp, a: Expr, b: Expr) -> Expr {
    Expr::binary(op, a, b)
}

#[test]
fn lookup_takes_the_first_entry() {
    let env = vec![('b', 2), ('s', 7), ('b', 9)];
    assert_eq!(lookup_value(&env, 'b'), Some(2));
    assert_eq!(lookup_value(&env, 's'), Some(7));
    assert_eq!(lookup_value(&env, 'x'), None);
    assert_eq!(lookup_value(&vec![], 'b'), None);
}

#[test]
fn operators() {
    assert_eq!(BinOp::Add.apply(3, 4), Ok(7));
    assert_eq!(BinOp::Add.apply(usize::MAX, 1), Err(EvalError::Overflow));
    assert_eq!(BinOp::Sub.apply(7, 4), Ok(3));
    assert_eq!(BinOp::Sub.apply(4, 7), Err(EvalError::Overflow));
    assert_eq!(BinOp::Mul.apply(6, 7), Ok(42));
    assert_eq!(BinOp::Mul.apply(usize::MAX, 2), Err(EvalError::Overflow));
    assert_eq!(BinOp::Div.apply(17, 5), Ok(3));
    assert_eq!(BinOp::Div.apply(17, 0), Err(EvalError::DivisionByZero));
    assert_eq!(BinOp::Mod.apply(17, 5), Ok(2));
    assert_eq!(BinOp::Mod.apply(17, 0), Err(EvalError::DivisionByZero));
    assert_eq!(BinOp::Min.apply(3, 9), Ok(3));
    assert_eq!(BinOp::Max.apply(3, 9), Ok(9));
}

#[test]
fn evaluate_under_a_binding() {
    // (b * s + 3) / 2
    let e = bin(
        BinOp::Div,
        bin(BinOp::Add, bin(BinOp::Mul, var('b'), var('s')), num(3)),
        num(2),
    );
    assert_eq!(e.evaluate(&vec![('b', 4), ('s', 5)]), Ok(11));
    assert_eq!(
        e.evaluate(&vec![('b', 4)]),
        Err(EvalError::UnboundVariable('s'))
    );
    assert_eq!(e.evaluate(&vec![]), Err(EvalError::UnboundVariable('b')));
    assert_eq!(
        e.evaluate(&vec![('b', usize::MAX), ('s', 2)]),
        Err(EvalError::Overflow)
    );
}

#[test]
fn a_zero_divisor_is_an_error() {
    // the mean over a dynamic axis of length zero
    let mean_divisor = bin(BinOp::Div, num(1), var('s'));
    assert_eq!(
        mean_divisor.evaluate(&vec![('s', 0)]),
        Err(EvalError::DivisionByZero)
    );
    assert_eq!(mean_divisor.evaluate(&vec![('s', 1)]), Ok(1));
    let rest = bin(BinOp::Mod, var('n'), var('s'));
    assert_eq!(
        rest.evaluate(&vec![('n', 12), ('s', 0)]),
        Err(EvalError::DivisionByZero)
    );
}

#[test]
fn substitute_binds_what_it_can() {
    let e = bin(BinOp::Add, bin(BinOp::Mul, var('b'), var('s')), var('b'));
    let partly = e.substitute(&vec![('b', 4)]);
    assert_eq!(
        partly,
        bin(BinOp::Add, bin(BinOp::Mul, num(4), var('s')), num(4))
    );
    assert_eq!(partly.evaluate(&vec![('s', 5), ('b', 100)]), Ok(24));
    assert_eq!(
        partly.evaluate(&vec![]),
        Err(EvalError::UnboundVariable('s'))
    );
}

#[test]
fn simplify_obvious_equivalents() {
    let a = || bin(BinOp::Add, var('a'), num(2));
    // a * 1
    assert_eq!(bin(BinOp::Mul, a(), num(1)).simplify(), a());
    assert_eq!(bin(BinOp::Mul, num(1), a()).simplify(), a());
    // 0 + x
    assert_eq!(bin(BinOp::Add, num(0), var('x')).simplify(), var('x'));
    assert_eq!(bin(BinOp::Add, var('x'), num(0)).simplify(), var('x'));
    // x - x
    assert_eq!(bin(BinOp::Sub, a(), a()).simplify(), num(0));
    assert_eq!(bin(BinOp::Sub, var('x'), num(0)).simplify(), var('x'));
    // others
    assert_eq!(bin(BinOp::Mul, var('x'), num(0)).simplify(), num(0));
    assert_eq!(bin(BinOp::Div, var('x'), num(1)).simplify(), var('x'));
    assert_eq!(bin(BinOp::Mod, var('x'), num(1)).simplify(), num(0));
    assert_eq!(bin(BinOp::Min, var('x'), var('x')).simplify(), var('x'));
    assert_eq!(bin(BinOp::Max, a(), a()).simplify(), a());
    assert_eq!(
        bin(BinOp::Max, var('x'), var('y')).simplify(),
        bin(BinOp::Max, var('x'), var('y'))
    );
}

#[test]
fn simplify_folds_constants() {
    // (2 * 3 + x * 1) - (0 + 6 + x)
    let left = bin(
        BinOp::Add,
        bin(BinOp::Mul, num(2), num(3)),
        bin(BinOp::Mul, var('x'), num(1)),
    );
    let right = bin(BinOp::Add, bin(BinOp::Add, num(0), num(6)), var('x'));
    assert_eq!(bin(BinOp::Sub, left, right).simplify(), num(0));
    assert_eq!(bin(BinOp::Div, num(17), num(5)).simplify(), num(3));
    // what cannot be counted is left standing
    assert_eq!(
        bin(BinOp::Div, num(17), num(0)).simplify(),
        bin(BinOp::Div, num(17), num(0))
    );
    assert_eq!(
        bin(BinOp::Add, num(usize::MAX), num(1)).simplify(),
        bin(BinOp::Add, num(usize::MAX), num(1))
    );
}

#[test]
fn simplify_keeps_the_value() {
    let build = || {
        bin(
            BinOp::Max,
            bin(
                BinOp::Sub,
                bin(BinOp::Mul, bin(BinOp::Add, num(0), var('b')), num(1)),
                bin(BinOp::Min, var('s'), var('s')),
            ),
            bin(BinOp::Mod, bin(BinOp::Mul, num(4), num(5)), var('s')),
        )
    };
    for (b, s) in [(9, 4), (10, 3), (7, 7), (100, 1)] {
        let env = vec![('b', b), ('s', s)];
        assert_eq!(build().simplify().evaluate(&env), build().evaluate(&env));
        assert_eq!(build().evaluate(&env), Ok(std::cmp::max(b - s, 20 % s)));
    }
}

#[test]
fn same_is_structural() {
    let e = || bin(BinOp::Add, var('a'), num(2));
    assert!(e().same(&e()));
    assert!(!e().same(&bin(BinOp::Add, num(2), var('a'))));
    assert!(!e().same(&bin(BinOp::Sub, var('a'), num(2))));
    assert!(!var('a').same(&var('b')));
    assert!(!var('a').same(&num(0)));
    assert!(num(3).is_num(3));
    assert!(!num(3).is_num(4));
    assert!(!var('a').is_num(0));
}

#[test]
fn resolve_a_dynamic_shape() {
    let dims = vec![var('b'), var('s'), num(8)];
    let shape = resolve(&dims, &vec![('b', 2), ('s', 5)]).unwrap();
    assert_eq!(shape, vec![2, 5, 8]);
    let tracker = ShapeTracker::new(shape).unwrap();
    assert_eq!(tracker.n_elements(), 80);
    assert_eq!(
        resolve(&dims, &vec![('b', 2)]),
        Err(EvalError::UnboundVariable('s'))
    );
    assert_eq!(
        resolve(&vec![var('s'), var('b')], &vec![]),
        Err(EvalError::UnboundVariable('s'))
    );
    assert_eq!(resolve(&vec![], &vec![]), Ok(vec![]));
    // a dynamic axis of length zero is a shape without elements
    let empty = resolve(&dims, &vec![('b', 2), ('s', 0)]).unwrap();
    assert_eq!(ShapeTracker::new(empty).unwrap().n_elements(), 0);
}
