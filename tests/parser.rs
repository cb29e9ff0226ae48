use bst::parser::evaluate_line;
use bst::rpn::{Elt, Error, Stack};

#[test]
fn test_evaluate_line_bool() {
    let mut stack = Stack::new();
    let s = "true".to_string();
    assert!(evaluate_line(&mut stack, &s).is_ok());
    assert_eq!(stack.pop().unwrap(), Elt::Bool(true));
    let s = "false".to_string();
    assert!(evaluate_line(&mut stack, &s).is_ok());
    assert_eq!(stack.pop().unwrap(), Elt::Bool(false));
}

#[test]
fn test_evaluate_line_int() {
    let mut stack = Stack::new();
    let s = "12".to_string();
    assert!(evaluate_line(&mut stack, &s).is_ok());
    assert_eq!(stack.pop().unwrap(), Elt::Int(12));
}

#[test]
fn test_evaluate_line_plus() {
    let mut stack = Stack::new();
    let s = "12".to_string();
    assert!(evaluate_line(&mut stack, &s).is_ok());
    let s = "13".to_string();
    assert!(evaluate_line(&mut stack, &s).is_ok());
    let s = "+".to_string();
    assert!(evaluate_line(&mut stack, &s).is_ok());
    assert_eq!(stack.pop().unwrap(), Elt::Int(25));
}

#[test]
fn test_evaluate_line_neg() {
    let mut stack = Stack::new();
    let s = "false".to_string();
    assert!(evaluate_line(&mut stack, &s).is_ok());
    let s = "~".to_string();
    assert!(evaluate_line(&mut stack, &s).is_ok());
    assert_eq!(stack.pop().unwrap(), Elt::Bool(true));
}

#[test]
fn test_evaluate_line_swap() {
    let mut stack = Stack::new();
    let s = "false".to_string();
    assert!(evaluate_line(&mut stack, &s).is_ok());
    let s = "15".to_string();
    assert!(evaluate_line(&mut stack, &s).is_ok());
    let s = "<->".to_string();
    assert!(evaluate_line(&mut stack, &s).is_ok());
    assert_eq!(stack.pop().unwrap(), Elt::Bool(false));
    assert_eq!(stack.pop().unwrap(), Elt::Int(15));
}

#[test]
fn test_evaluate_line_eq() {
    let mut stack = Stack::new();
    let s = "12".to_string();
    assert!(evaluate_line(&mut stack, &s).is_ok());
    let s = "15".to_string();
    assert!(evaluate_line(&mut stack, &s).is_ok());
    let s = "=".to_string();
    assert!(evaluate_line(&mut stack, &s).is_ok());
    assert_eq!(stack.pop().unwrap(), Elt::Bool(false));
}

#[test]
fn test_evaluate_line_rand() {
    let mut stack = Stack::new();
    let s = "12".to_string();
    assert!(evaluate_line(&mut stack, &s).is_ok());
    let s = "#".to_string();
    assert!(evaluate_line(&mut stack, &s).is_ok());
    let res = stack.pop();
    assert!(res.is_ok());
    let res = res.unwrap();
    assert!(res >= Elt::Int(0));
    assert!(res < Elt::Int(12));
}

#[test]
fn test_evaluate_line_quit() {
    let mut stack = Stack::new();
    let s = "quit".to_string();
    let res = evaluate_line(&mut stack, &s);
    assert!(res.is_err());
    if let Err(Error::Quit) = res {
    } else {
        assert!(false);
    }
}

#[test]
fn test_evaluate_line_bad_parse() {
    let mut stack = Stack::new();
    let s = "~false".to_string();
    let res = evaluate_line(&mut stack, &s);
    assert!(res.is_err());
    if let Err(Error::Syntax) = res {
    } else {
        assert!(false);
    }
}

#[test]
fn several_words_on_one_line() {
    let mut stack = Stack::new();
    let s = "  1 2\t+  3 = \r\n".to_string();
    assert!(evaluate_line(&mut stack, &s).is_ok());
    assert_eq!(stack.pop().unwrap(), Elt::Bool(true));
    assert!(stack.pop().is_err());
}

#[test]
fn blank_line_does_nothing() {
    let mut stack = Stack::new();
    assert!(evaluate_line(&mut stack, &"   \n".to_string()).is_ok());
    assert!(evaluate_line(&mut stack, &String::new()).is_ok());
    assert!(stack.pop().is_err());
}

#[test]
fn signed_integers() {
    let mut stack = Stack::new();
    let s = "-5 +7 -2147483648 2147483647".to_string();
    assert!(evaluate_line(&mut stack, &s).is_ok());
    assert_eq!(stack.pop().unwrap(), Elt::Int(i32::MAX));
    assert_eq!(stack.pop().unwrap(), Elt::Int(i32::MIN));
    assert_eq!(stack.pop().unwrap(), Elt::Int(7));
    assert_eq!(stack.pop().unwrap(), Elt::Int(-5));
}

#[test]
fn out_of_range_integer_is_syntax_error() {
    let mut stack = Stack::new();
    assert!(matches!(evaluate_line(&mut stack, &"2147483648".to_string()), Err(Error::Syntax)));
    assert!(matches!(evaluate_line(&mut stack, &"-2147483649".to_string()), Err(Error::Syntax)));
    assert!(matches!(evaluate_line(&mut stack, &"99999999999999".to_string()), Err(Error::Syntax)));
    assert!(matches!(evaluate_line(&mut stack, &"-".to_string()), Err(Error::Syntax)));
    assert!(matches!(evaluate_line(&mut stack, &"1x".to_string()), Err(Error::Syntax)));
    assert!(stack.pop().is_err());
}

#[test]
fn evaluation_stops_at_first_error() {
    let mut stack = Stack::new();
    let s = "1 nope 2".to_string();
    assert!(matches!(evaluate_line(&mut stack, &s), Err(Error::Syntax)));
    assert_eq!(stack.pop().unwrap(), Elt::Int(1));
    assert!(stack.pop().is_err());
}

#[test]
fn operator_errors_come_through() {
    let mut stack = Stack::new();
    assert!(matches!(evaluate_line(&mut stack, &"+".to_string()), Err(Error::Underflow)));
    assert!(matches!(evaluate_line(&mut stack, &"1 true +".to_string()), Err(Error::Type)));
}

#[test]
fn rand_word_on_bound_one() {
    let mut stack = Stack::new();
    assert!(evaluate_line(&mut stack, &"1 #".to_string()).is_ok());
    assert_eq!(stack.pop().unwrap(), Elt::Int(0));
}

#[test]
fn unicode_white_space_separates_words() {
    let mut stack = Stack::new();
    let s = "1\u{a0}2".to_string();
    assert!(evaluate_line(&mut stack, &s).is_ok());
    assert_eq!(stack.pop().unwrap(), Elt::Int(2));
    assert_eq!(stack.pop().unwrap(), Elt::Int(1));

    let s = "\u{3000}3\u{2003}4\u{85}+\u{2028}".to_string();
    assert!(evaluate_line(&mut stack, &s).is_ok());
    assert_eq!(stack.pop().unwrap(), Elt::Int(7));
    assert!(stack.pop().is_err());
}

#[test]
fn other_unicode_is_part_of_a_word() {
    let mut stack = Stack::new();
    let s = "1\u{200b}2".to_string();
    assert!(matches!(evaluate_line(&mut stack, &s), Err(Error::Syntax)));
    assert!(stack.pop().is_err());
}
