use mal::env::{make_env, Env};
use mal::evaluator::eval;
use mal::types::{hash_map, list, Builtin, EvalError, MalVal, ReaderError};
use mal::{print, read};

fn num(i: i64) -> MalVal {
    MalVal::Int(i)
}

fn sym(s: &str) -> MalVal {
    MalVal::Sym(s.to_string())
}

fn keyword(s: &str) -> MalVal {
    MalVal::Keyword(s.to_string())
}

fn arithmetic_env() -> Env {
    let mut env = make_env(None);
    env.set("+".to_string(), MalVal::Func(Builtin::Add));
    env.set("-".to_string(), MalVal::Func(Builtin::Sub));
    env.set("*".to_string(), MalVal::Func(Builtin::Mul));
    env.set("/".to_string(), MalVal::Func(Builtin::Div));
    env
}

#[test]
fn reads_a_nested_list() {
    let v = read("(1 2 (3 4))").unwrap();
    assert_eq!(v, list(vec![num(1), num(2), list(vec![num(3), num(4)])]));
}

#[test]
fn reads_a_hash_map_of_keywords() {
    let v = read("{:a 1 :b 2}").unwrap();
    let expected = hash_map(vec![keyword("a"), num(1), keyword("b"), num(2)]).unwrap();
    assert_eq!(v, expected);
    assert_eq!(print(&v), "{:a 1 :b 2}");
}

#[test]
fn refuses_a_hash_map_with_a_key_without_value() {
    assert_eq!(read("{:a 1 :b}"), Err(ReaderError::UnbalancedMap));
}

#[test]
fn def_binds_in_the_environment() {
    let mut env = arithmetic_env();
    let form = read("(def! x 5)").unwrap();
    assert_eq!(eval(&form, &mut env), Ok(num(5)));
    assert_eq!(eval(&read("x").unwrap(), &mut env), Ok(num(5)));
}

#[test]
fn let_binds_in_a_frame_of_its_own() {
    let mut env = arithmetic_env();
    let form = read("(let* (x 2 y (+ x 1)) (+ x y))").unwrap();
    assert_eq!(eval(&form, &mut env), Ok(num(5)));
    assert_eq!(eval(&sym("x"), &mut env), Ok(sym("x")));
    assert_eq!(eval(&sym("y"), &mut env), Ok(sym("y")));
}

#[test]
fn a_call_with_one_argument_fails() {
    let mut env = arithmetic_env();
    assert_eq!(eval(&read("(+ 1)").unwrap(), &mut env), Err(EvalError::ArityError));
}

#[test]
fn a_call_of_an_integer_fails() {
    let mut env = arithmetic_env();
    assert_eq!(eval(&read("(1 2 3)").unwrap(), &mut env), Err(EvalError::NotCallable));
}

#[test]
fn comments_are_skipped() {
    assert_eq!(read("(1 ; comment\n2)"), read("(1 2)"));
    assert_eq!(read("(1 ; comment\n2)").unwrap(), list(vec![num(1), num(2)]));
}
