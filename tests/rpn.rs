use bst::rpn::{Elt, Error, Op, Stack};

#[test]
fn test_pop_empty1() {
    let mut s = Stack::new();

    let res = s.pop();
    assert!(res.is_err());
    if let Err(Error::Underflow) = res {
    } else {
        assert!(false);
    }
}

#[test]
fn test_pop_empty2() {
    let mut s = Stack::new();
    s.push(Elt::Int(0)).unwrap();

    let res = s.pop();
    assert!(res.is_ok());

    let res = s.pop();
    assert!(res.is_err());
    if let Err(Error::Underflow) = res {
    } else {
        assert!(false);
    }
}

#[test]
fn test_eval_add1() {
    let mut s = Stack::new();
    s.push(Elt::Int(1)).unwrap();
    s.push(Elt::Int(1)).unwrap();

    assert!(s.eval(Op::Add).is_ok());
    assert_eq!(s.pop().unwrap(), Elt::Int(2));
}

#[test]
fn test_eval_add2() {
    let mut s = Stack::new();
    s.push(Elt::Int(1)).unwrap();
    s.push(Elt::Bool(false)).unwrap();

    let res = s.eval(Op::Add);
    assert!(res.is_err());
    if let Err(Error::Type) = res {
    } else {
        assert!(false);
    }
}

#[test]
fn test_eval_add3() {
    let mut s = Stack::new();
    s.push(Elt::Bool(true)).unwrap();
    s.push(Elt::Bool(false)).unwrap();

    let res = s.eval(Op::Add);
    assert!(res.is_err());
    if let Err(Error::Type) = res {
    } else {
        assert!(false);
    }
}

#[test]
fn test_eval_eq1() {
    let mut s = Stack::new();
    s.push(Elt::Int(1)).unwrap();
    s.push(Elt::Int(1)).unwrap();

    assert!(s.eval(Op::Eq).is_ok());
    assert_eq!(s.pop().unwrap(), Elt::Bool(true));
}

#[test]
fn test_eval_eq2() {
    let mut s = Stack::new();
    s.push(Elt::Int(1)).unwrap();
    s.push(Elt::Bool(false)).unwrap();

    let res = s.eval(Op::Eq);
    assert!(res.is_err());
    if let Err(Error::Type) = res {
    } else {
        assert!(false);
    }
}

#[test]
fn test_eval_neg1() {
    let mut s = Stack::new();
    s.push(Elt::Int(1)).unwrap();
    assert!(s.eval(Op::Neg).is_ok());
    assert_eq!(s.pop().unwrap(), Elt::Int(-1));
}

#[test]
fn test_eval_neg2() {
    let mut s = Stack::new();
    s.push(Elt::Bool(false)).unwrap();
    assert!(s.eval(Op::Neg).is_ok());
    assert_eq!(s.pop().unwrap(), Elt::Bool(true));
}

#[test]
fn test_eval_swap1() {
    let mut s = Stack::new();
    s.push(Elt::Int(1)).unwrap();
    s.push(Elt::Bool(false)).unwrap();

    assert!(s.eval(Op::Swap).is_ok());
    assert_eq!(s.pop().unwrap(), Elt::Int(1));
    assert_eq!(s.pop().unwrap(), Elt::Bool(false));

    let res = s.pop();
    assert!(res.is_err());
    if let Err(Error::Underflow) = res {
    } else {
        assert!(false);
    }
}

#[test]
fn test_eval_swap2() {
    let mut s = Stack::new();
    s.push(Elt::Bool(false)).unwrap();

    let res = s.eval(Op::Swap);
    assert!(res.is_err());
    if let Err(Error::Underflow) = res {
    } else {
        assert!(false);
    }
}

#[test]
fn test_eval_rand1() {
    let mut s = Stack::new();
    let i = 20;
    s.push(Elt::Int(i)).unwrap();

    assert!(s.eval(Op::Rand).is_ok());

    let rand_val = s.pop().unwrap();
    assert!(rand_val >= Elt::Int(0));
    assert!(rand_val < Elt::Int(i));
}

#[test]
fn test_eval_rand2() {
    let mut s = Stack::new();
    s.push(Elt::Bool(false)).unwrap();

    let res = s.eval(Op::Rand);
    assert!(res.is_err());
    if let Err(Error::Type) = res {
    } else {
        assert!(false);
    }
}

#[test]
fn test_eval_quit() {
    let mut s = Stack::new();

    let res = s.eval(Op::Quit);
    assert!(res.is_err());
    if let Err(Error::Quit) = res {
    } else {
        assert!(false);
    }
}

#[test]
fn rand_below_one_is_zero() {
    let mut s = Stack::new();
    s.push(Elt::Int(1)).unwrap();
    assert!(s.eval(Op::Rand).is_ok());
    assert_eq!(s.pop().unwrap(), Elt::Int(0));
    assert!(s.pop().is_err());
}

#[test]
fn rand_draws_stay_below_bound() {
    let mut s = Stack::new();
    for _ in 0..200 {
        s.push(Elt::Int(3)).unwrap();
        assert!(s.eval(Op::Rand).is_ok());
        match s.pop().unwrap() {
            Elt::Int(x) => assert!((0..3).contains(&x)),
            Elt::Bool(_) => panic!("rand pushed a boolean"),
        }
    }
}

#[test]
fn rand_on_non_positive_bound_is_type_error() {
    let mut s = Stack::new();
    s.push(Elt::Int(7)).unwrap();
    s.push(Elt::Int(0)).unwrap();
    assert!(matches!(s.eval(Op::Rand), Err(Error::Type)));
    assert_eq!(s.pop().unwrap(), Elt::Int(7));
    s.push(Elt::Int(-4)).unwrap();
    assert!(matches!(s.eval(Op::Rand), Err(Error::Type)));
    assert!(s.pop().is_err());
}

#[test]
fn rand_on_empty_stack_underflows() {
    let mut s = Stack::new();
    assert!(matches!(s.eval(Op::Rand), Err(Error::Underflow)));
}

#[test]
fn add_wraps_on_overflow() {
    let mut s = Stack::new();
    s.push(Elt::Int(i32::MAX)).unwrap();
    s.push(Elt::Int(1)).unwrap();
    assert!(s.eval(Op::Add).is_ok());
    assert_eq!(s.pop().unwrap(), Elt::Int(i32::MIN));
}

#[test]
fn add_with_one_value_underflows_and_consumes_it() {
    let mut s = Stack::new();
    s.push(Elt::Int(4)).unwrap();
    assert!(matches!(s.eval(Op::Add), Err(Error::Underflow)));
    assert!(s.pop().is_err());
}

#[test]
fn add_sums_exactly() {
    let mut s = Stack::new();
    s.push(Elt::Int(-7)).unwrap();
    s.push(Elt::Int(19)).unwrap();
    assert!(s.eval(Op::Add).is_ok());
    assert_eq!(s.pop().unwrap(), Elt::Int(12));
}

#[test]
fn neg_of_smallest_int_wraps() {
    let mut s = Stack::new();
    s.push(Elt::Int(i32::MIN)).unwrap();
    assert!(s.eval(Op::Neg).is_ok());
    assert_eq!(s.pop().unwrap(), Elt::Int(i32::MIN));
}

#[test]
fn neg_on_empty_underflows() {
    let mut s = Stack::new();
    assert!(matches!(s.eval(Op::Neg), Err(Error::Underflow)));
}

#[test]
fn eq_on_booleans_and_unequal_ints() {
    let mut s = Stack::new();
    s.push(Elt::Bool(true)).unwrap();
    s.push(Elt::Bool(true)).unwrap();
    assert!(s.eval(Op::Eq).is_ok());
    assert_eq!(s.pop().unwrap(), Elt::Bool(true));
    s.push(Elt::Int(3)).unwrap();
    s.push(Elt::Int(4)).unwrap();
    assert!(s.eval(Op::Eq).is_ok());
    assert_eq!(s.pop().unwrap(), Elt::Bool(false));
}

#[test]
fn eq_bool_then_int_is_type_error() {
    let mut s = Stack::new();
    s.push(Elt::Int(1)).unwrap();
    s.push(Elt::Bool(true)).unwrap();
    assert!(matches!(s.eval(Op::Eq), Err(Error::Type)));
    assert!(s.pop().is_err());
}

#[test]
fn swap_keeps_the_rest() {
    let mut s = Stack::new();
    s.push(Elt::Int(1)).unwrap();
    s.push(Elt::Int(2)).unwrap();
    s.push(Elt::Int(3)).unwrap();
    assert!(s.eval(Op::Swap).is_ok());
    assert_eq!(s.pop().unwrap(), Elt::Int(2));
    assert_eq!(s.pop().unwrap(), Elt::Int(3));
    assert_eq!(s.pop().unwrap(), Elt::Int(1));
}

#[test]
fn quit_leaves_stack_alone() {
    let mut s = Stack::new();
    s.push(Elt::Int(9)).unwrap();
    assert!(matches!(s.eval(Op::Quit), Err(Error::Quit)));
    assert_eq!(s.pop().unwrap(), Elt::Int(9));
}
