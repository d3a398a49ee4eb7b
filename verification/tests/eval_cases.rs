use mal::env::{make_env, Env};
use mal::evaluator::{eval, eval_ast, op};
use mal::types::{hash_map, list, vector, Builtin, EvalError, MalErr, MalVal};
use mal::{print, read, rep};

fn i(v: i64) -> MalVal {
    MalVal::Int(v)
}

fn name(s: &str) -> MalVal {
    MalVal::Sym(s.to_string())
}

fn kw(s: &str) -> MalVal {
    MalVal::Keyword(s.to_string())
}

fn core_env() -> Env {
    let mut env = make_env(None);
    env.set("+".to_string(), MalVal::Func(Builtin::Add));
    env.set("-".to_string(), MalVal::Func(Builtin::Sub));
    env.set("*".to_string(), MalVal::Func(Builtin::Mul));
    env.set("/".to_string(), MalVal::Func(Builtin::Div));
    env
}

fn run(source: &str, env: &mut Env) -> Result<MalVal, EvalError> {
    eval(&read(source).unwrap(), env)
}

#[test]
fn atoms_evaluate_to_themselves() {
    let mut env = core_env();
    assert_eq!(run("nil", &mut env), Ok(MalVal::Nil));
    assert_eq!(run("true", &mut env), Ok(MalVal::Bool(true)));
    assert_eq!(run("17", &mut env), Ok(i(17)));
    assert_eq!(run("\"s\"", &mut env), Ok(MalVal::Str("s".to_string())));
    assert_eq!(run(":k", &mut env), Ok(kw("k")));
    assert_eq!(eval(&MalVal::Atom, &mut env), Ok(MalVal::Atom));
    assert_eq!(eval(&MalVal::Func(Builtin::Sub), &mut env), Ok(MalVal::Func(Builtin::Sub)));
}

#[test]
fn the_empty_list_evaluates_to_itself() {
    let mut env = core_env();
    assert_eq!(run("()", &mut env), Ok(list(vec![])));
}

#[test]
fn symbols_are_looked_up() {
    let mut env = core_env();
    env.set("x".to_string(), i(9));
    assert_eq!(run("x", &mut env), Ok(i(9)));
    assert_eq!(run("+", &mut env), Ok(MalVal::Func(Builtin::Add)));
    assert_eq!(run("unbound", &mut env), Ok(name("unbound")));
}

#[test]
fn arithmetic_folds_from_the_left() {
    let mut env = core_env();
    assert_eq!(run("(+ 1 2)", &mut env), Ok(i(3)));
    assert_eq!(run("(+ 1 2 3 4)", &mut env), Ok(i(10)));
    assert_eq!(run("(- 10 3 2)", &mut env), Ok(i(5)));
    assert_eq!(run("(* 2 3 4)", &mut env), Ok(i(24)));
    assert_eq!(run("(/ 100 5 2)", &mut env), Ok(i(10)));
    assert_eq!(run("(+ 5 (* 2 3))", &mut env), Ok(i(11)));
    assert_eq!(run("(- (+ 5 (* 2 3)) 3)", &mut env), Ok(i(8)));
}

#[test]
fn division_rounds_towards_zero() {
    let mut env = core_env();
    assert_eq!(run("(/ 7 2)", &mut env), Ok(i(3)));
    assert_eq!(run("(/ -7 2)", &mut env), Ok(i(-3)));
    assert_eq!(run("(/ 7 -2)", &mut env), Ok(i(-3)));
    assert_eq!(run("(/ -7 -2)", &mut env), Ok(i(3)));
    assert_eq!(run("(/ 0 5)", &mut env), Ok(i(0)));
}

#[test]
fn op_applies_each_function() {
    assert_eq!(op(vec![i(6), i(3)], Builtin::Add), Ok(i(9)));
    assert_eq!(op(vec![i(6), i(3)], Builtin::Sub), Ok(i(3)));
    assert_eq!(op(vec![i(6), i(3)], Builtin::Mul), Ok(i(18)));
    assert_eq!(op(vec![i(6), i(3)], Builtin::Div), Ok(i(2)));
    assert_eq!(op(vec![i(2), i(3), i(4)], Builtin::Sub), Ok(i(-5)));
}

#[test]
fn fewer_than_two_arguments_are_an_arity_error() {
    let mut env = core_env();
    assert_eq!(run("(+)", &mut env), Err(EvalError::ArityError));
    assert_eq!(run("(+ 1)", &mut env), Err(EvalError::ArityError));
    assert_eq!(run("(/ nil)", &mut env), Err(EvalError::ArityError));
    assert_eq!(op(vec![], Builtin::Add), Err(EvalError::ArityError));
    assert_eq!(op(vec![i(1)], Builtin::Mul), Err(EvalError::ArityError));
}

#[test]
fn an_argument_that_is_no_integer_is_a_type_mismatch() {
    let mut env = core_env();
    assert_eq!(run("(+ 1 \"2\")", &mut env), Err(EvalError::TypeMismatch));
    assert_eq!(run("(+ nil 2)", &mut env), Err(EvalError::TypeMismatch));
    assert_eq!(run("(* 1 2 :three)", &mut env), Err(EvalError::TypeMismatch));
    assert_eq!(run("(+ 1 unbound)", &mut env), Err(EvalError::TypeMismatch));
    assert_eq!(run("(+ 1 (1 2))", &mut env), Err(EvalError::NotCallable));
}

#[test]
fn results_out_of_range_are_a_type_mismatch() {
    let mut env = core_env();
    assert_eq!(run("(+ 9223372036854775807 1)", &mut env), Err(EvalError::TypeMismatch));
    assert_eq!(run("(- -9223372036854775808 1)", &mut env), Err(EvalError::TypeMismatch));
    assert_eq!(run("(* 4611686018427387904 2)", &mut env), Err(EvalError::TypeMismatch));
    assert_eq!(run("(/ -9223372036854775808 -1)", &mut env), Err(EvalError::TypeMismatch));
    assert_eq!(run("(+ 9223372036854775806 1)", &mut env), Ok(i(i64::MAX)));
    assert_eq!(run("(* -4611686018427387904 2)", &mut env), Ok(i(i64::MIN)));
    assert_eq!(run("(+ 9223372036854775807 1 -1)", &mut env), Err(EvalError::TypeMismatch));
}

#[test]
fn division_by_zero_is_a_type_mismatch() {
    let mut env = core_env();
    assert_eq!(run("(/ 1 0)", &mut env), Err(EvalError::TypeMismatch));
    assert_eq!(run("(/ 0 0)", &mut env), Err(EvalError::TypeMismatch));
    assert_eq!(run("(/ 8 2 0)", &mut env), Err(EvalError::TypeMismatch));
}

#[test]
fn an_unbound_head_is_not_found() {
    let mut env = core_env();
    assert_eq!(run("(foo 1 2)", &mut env), Err(EvalError::NotFound("foo".to_string())));
    assert_eq!(run("(abc)", &mut env), Err(EvalError::NotFound("abc".to_string())));
}

#[test]
fn a_head_that_is_no_function_is_not_callable() {
    let mut env = core_env();
    assert_eq!(run("(1 2 3)", &mut env), Err(EvalError::NotCallable));
    assert_eq!(run("(\"f\" 1)", &mut env), Err(EvalError::NotCallable));
    assert_eq!(run("(nil)", &mut env), Err(EvalError::NotCallable));
    assert_eq!(run("(:k {})", &mut env), Err(EvalError::NotCallable));
    assert_eq!(run("(() 1)", &mut env), Err(EvalError::NotCallable));
    assert_eq!(run("([+] 1 2)", &mut env), Err(EvalError::NotCallable));
}

#[test]
fn def_returns_and_binds_the_value() {
    let mut env = core_env();
    assert_eq!(run("(def! x (+ 2 3))", &mut env), Ok(i(5)));
    assert_eq!(run("x", &mut env), Ok(i(5)));
    assert_eq!(run("(def! x (* x 2))", &mut env), Ok(i(10)));
    assert_eq!(run("(+ x x)", &mut env), Ok(i(20)));
    assert_eq!(env.find("x".to_string()), Ok(i(10)));
}

#[test]
fn def_needs_a_name_and_a_form() {
    let mut env = core_env();
    assert_eq!(run("(def!)", &mut env), Err(EvalError::ArityError));
    assert_eq!(run("(def! x)", &mut env), Err(EvalError::ArityError));
    assert_eq!(run("(def! 5)", &mut env), Err(EvalError::ArityError));
    assert_eq!(run("x", &mut env), Ok(name("x")));
}

#[test]
fn def_wants_a_symbol_to_bind() {
    let mut env = core_env();
    assert_eq!(run("(def! 5 1)", &mut env), Err(EvalError::InvalidBinding));
    assert_eq!(run("(def! \"x\" 1)", &mut env), Err(EvalError::InvalidBinding));
    assert_eq!(run("(def! (x) 1)", &mut env), Err(EvalError::InvalidBinding));
    assert_eq!(run("(def! :x (def! y 1))", &mut env), Err(EvalError::InvalidBinding));
    assert_eq!(run("y", &mut env), Ok(name("y")));
}

#[test]
fn def_binds_nothing_when_its_form_fails() {
    let mut env = core_env();
    assert_eq!(run("(def! x (+ 1))", &mut env), Err(EvalError::ArityError));
    assert_eq!(run("x", &mut env), Ok(name("x")));
}

#[test]
fn def_ignores_forms_after_the_value() {
    let mut env = core_env();
    assert_eq!(run("(def! x 1 2 3)", &mut env), Ok(i(1)));
    assert_eq!(run("x", &mut env), Ok(i(1)));
}

#[test]
fn let_binds_one_after_the_other() {
    let mut env = core_env();
    assert_eq!(run("(let* (x 2 y (+ x 1)) (+ x y))", &mut env), Ok(i(5)));
    assert_eq!(run("(let* [x 2 y (* x x) z (+ y 1)] z)", &mut env), Ok(i(5)));
    assert_eq!(run("(let* (z (+ 2 3)) (+ 1 z))", &mut env), Ok(i(6)));
    assert_eq!(run("(let* (y x x 2) y)", &mut env), Ok(name("x")));
}

#[test]
fn let_leaves_the_environment_as_it_was() {
    let mut env = core_env();
    env.set("x".to_string(), i(100));
    assert_eq!(run("(let* (x 1 y 2) (+ x y))", &mut env), Ok(i(3)));
    assert_eq!(run("x", &mut env), Ok(i(100)));
    assert_eq!(run("y", &mut env), Ok(name("y")));
    assert_eq!(run("(let* () (def! z 7))", &mut env), Ok(i(7)));
    assert_eq!(run("z", &mut env), Ok(name("z")));
    assert_eq!(run("(let* (a (def! b 1)) b)", &mut env), Ok(i(1)));
    assert_eq!(run("b", &mut env), Ok(name("b")));
    assert_eq!(run("(let* (x 1) (+ x oops))", &mut env), Err(EvalError::TypeMismatch));
    assert_eq!(run("x", &mut env), Ok(i(100)));
    assert_eq!(run("(+ 1 2)", &mut env), Ok(i(3)));
}

#[test]
fn let_sees_the_frames_around_it() {
    let mut env = core_env();
    env.set("outer".to_string(), i(10));
    assert_eq!(run("(let* (x 1) (+ x outer))", &mut env), Ok(i(11)));
    assert_eq!(run("(let* (x 1) (let* (y 2) (+ x y outer)))", &mut env), Ok(i(13)));
    assert_eq!(run("(let* (x 1) (let* (x 2) x))", &mut env), Ok(i(2)));
    assert_eq!(run("(let* (x 1) (+ (let* (x 2) x) x))", &mut env), Ok(i(3)));
}

#[test]
fn let_without_a_body_is_nil() {
    let mut env = core_env();
    assert_eq!(run("(let* (x 1))", &mut env), Ok(MalVal::Nil));
    assert_eq!(run("(let* [])", &mut env), Ok(MalVal::Nil));
}

#[test]
fn let_needs_bindings() {
    let mut env = core_env();
    assert_eq!(run("(let*)", &mut env), Err(EvalError::ArityError));
}

#[test]
fn let_wants_an_even_number_of_binding_forms() {
    let mut env = core_env();
    assert_eq!(run("(let* (x) x)", &mut env), Err(EvalError::BindingMismatch));
    assert_eq!(run("(let* (x 1 y) x)", &mut env), Err(EvalError::BindingMismatch));
    assert_eq!(run("(let* [1 2 3] x)", &mut env), Err(EvalError::BindingMismatch));
}

#[test]
fn let_wants_symbols_to_bind() {
    let mut env = core_env();
    assert_eq!(run("(let* (1 2) 3)", &mut env), Err(EvalError::InvalidBinding));
    assert_eq!(run("(let* (x 1 :y 2) x)", &mut env), Err(EvalError::InvalidBinding));
    assert_eq!(run("(let* (\"x\" 1) 2)", &mut env), Err(EvalError::InvalidBinding));
    assert_eq!(run("(let* x 1)", &mut env), Err(EvalError::InvalidBinding));
    assert_eq!(run("(let* {:a 1} 1)", &mut env), Err(EvalError::InvalidBinding));
    assert_eq!(run("(let* 5)", &mut env), Err(EvalError::InvalidBinding));
}

#[test]
fn let_stops_at_the_first_failure() {
    let mut env = core_env();
    assert_eq!(run("(let* (x (+ 1) 2 3) x)", &mut env), Err(EvalError::ArityError));
    assert_eq!(run("(let* (2 3 x (+ 1)) x)", &mut env), Err(EvalError::InvalidBinding));
    assert_eq!(run("(let* (x 1) (nope x))", &mut env), Err(EvalError::NotFound("nope".to_string())));
}

#[test]
fn vectors_evaluate_their_elements_and_stay_vectors() {
    let mut env = core_env();
    assert_eq!(run("[1 (+ 1 1) [3 (+ 1 3)]]", &mut env), Ok(vector(vec![
        i(1),
        i(2),
        vector(vec![i(3), i(4)]),
    ])));
    assert_eq!(run("[]", &mut env), Ok(vector(vec![])));
    assert_eq!(run("[+ 1 2]", &mut env), Ok(vector(vec![MalVal::Func(Builtin::Add), i(1), i(2)])));
    assert_eq!(print(&run("[(+ 1 2) x]", &mut env).unwrap()), "[3 x]");
}

#[test]
fn hash_maps_evaluate_their_values_and_keep_their_keys() {
    let mut env = core_env();
    env.set("a".to_string(), i(99));
    let v = run("{:a (+ 1 2) \"a\" a :c [a]}", &mut env).unwrap();
    assert_eq!(print(&v), "{:a 3 \"a\" 99 :c [99]}");
    assert_eq!(
        v,
        hash_map(vec![
            kw("a"),
            i(3),
            MalVal::Str("a".to_string()),
            i(99),
            kw("c"),
            vector(vec![i(99)]),
        ])
        .unwrap()
    );
}

#[test]
fn elements_are_evaluated_from_left_to_right() {
    let mut env = core_env();
    assert_eq!(run("[(def! x 1) (def! x 2) x]", &mut env), Ok(vector(vec![i(1), i(2), i(2)])));
    assert_eq!(run("x", &mut env), Ok(i(2)));
    assert_eq!(print(&run("{:a (def! y 1) :b (def! y 2)}", &mut env).unwrap()), "{:a 1 :b 2}");
    assert_eq!(run("y", &mut env), Ok(i(2)));
    assert_eq!(run("[(def! z 1) (+ 1) (def! z 2)]", &mut env), Err(EvalError::ArityError));
    assert_eq!(run("z", &mut env), Ok(i(1)));
    assert_eq!(run("[(nope) (+ 1)]", &mut env), Err(EvalError::NotFound("nope".to_string())));
}

#[test]
fn eval_ast_looks_for_no_special_form() {
    let mut env = core_env();
    let form = read("(def! x 5)").unwrap();
    assert_eq!(eval_ast(&form, &mut env), Ok(list(vec![name("def!"), name("x"), i(5)])));
    assert_eq!(env.find("x".to_string()), Ok(name("x")));
    let call = read("(+ 1 2)").unwrap();
    assert_eq!(
        eval_ast(&call, &mut env),
        Ok(list(vec![MalVal::Func(Builtin::Add), i(1), i(2)]))
    );
    assert_eq!(eval_ast(&name("+"), &mut env), Ok(MalVal::Func(Builtin::Add)));
    assert_eq!(eval_ast(&i(3), &mut env), Ok(i(3)));
}

#[test]
fn special_forms_go_before_bindings_of_their_names() {
    let mut env = core_env();
    env.set("def!".to_string(), MalVal::Func(Builtin::Add));
    assert_eq!(run("(def! x 5)", &mut env), Ok(i(5)));
    assert_eq!(run("x", &mut env), Ok(i(5)));
}

#[test]
fn rep_reads_evaluates_and_prints() {
    let mut env = core_env();
    assert_eq!(rep("(+ 1 2)", &mut env), Ok("3".to_string()));
    assert_eq!(rep("(def! a \"x\\ny\")", &mut env), Ok("\"x\\ny\"".to_string()));
    assert_eq!(rep("[a :b nil]", &mut env), Ok("[\"x\\ny\" :b nil]".to_string()));
    assert_eq!(rep("", &mut env), Err(MalErr::ErrString("no input".to_string())));
    assert_eq!(rep("(1 2", &mut env), Err(MalErr::ErrString("reader: end of input".to_string())));
    assert_eq!(rep("(abc 1)", &mut env), Err(MalErr::ErrString("'abc' not found".to_string())));
    assert_eq!(rep("(+ 1)", &mut env), Err(MalErr::ErrString("insufficient arguments".to_string())));
    assert_eq!(rep("a", &mut env), Ok("\"x\\ny\"".to_string()));
}
