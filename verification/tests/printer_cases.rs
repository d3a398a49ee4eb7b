use mal::printer::print_seq;
use mal::types::{
    error, format_error, hash_map, list, vector, Builtin, EvalError, MalErr, MalVal, MapKey,
    ReaderError,
};
use mal::{print, read};

fn number(i: i64) -> MalVal {
    MalVal::Int(i)
}

fn string(s: &str) -> MalVal {
    MalVal::Str(s.to_string())
}

#[test]
fn prints_atoms() {
    assert_eq!(print(&MalVal::Nil), "nil");
    assert_eq!(print(&MalVal::Bool(true)), "true");
    assert_eq!(print(&MalVal::Bool(false)), "false");
    assert_eq!(print(&MalVal::Sym("abc".to_string())), "abc");
    assert_eq!(print(&MalVal::Keyword("kw".to_string())), ":kw");
    assert_eq!(MalVal::Nil.pr_str(), "nil");
}

#[test]
fn prints_integers_in_decimal() {
    assert_eq!(print(&number(0)), "0");
    assert_eq!(print(&number(7)), "7");
    assert_eq!(print(&number(10)), "10");
    assert_eq!(print(&number(-1)), "-1");
    assert_eq!(print(&number(1234567890)), "1234567890");
    assert_eq!(print(&number(i64::MAX)), "9223372036854775807");
    assert_eq!(print(&number(i64::MIN)), "-9223372036854775808");
}

#[test]
fn prints_strings_between_quotes_with_escapes() {
    assert_eq!(print(&string("")), "\"\"");
    assert_eq!(print(&string("hi there")), "\"hi there\"");
    assert_eq!(print(&string("a\"b")), "\"a\\\"b\"");
    assert_eq!(print(&string("a\\b")), "\"a\\\\b\"");
    assert_eq!(print(&string("a\nb")), "\"a\\nb\"");
    assert_eq!(print(&string("tab\there")), "\"tab\there\"");
}

#[test]
fn prints_sequences_with_their_brackets() {
    assert_eq!(print(&list(vec![])), "()");
    assert_eq!(print(&vector(vec![])), "[]");
    assert_eq!(print(&hash_map(vec![]).unwrap()), "{}");
    assert_eq!(print(&list(vec![number(1)])), "(1)");
    assert_eq!(
        print(&list(vec![number(1), vector(vec![number(2), string("x")]), MalVal::Nil])),
        "(1 [2 \"x\"] nil)"
    );
}

#[test]
fn prints_hash_maps_in_the_order_of_their_keys() {
    let m = hash_map(vec![
        MalVal::Keyword("b".to_string()),
        number(2),
        string("a"),
        list(vec![number(1)]),
    ])
    .unwrap();
    assert_eq!(print(&m), "{:b 2 \"a\" (1)}");
}

#[test]
fn prints_opaque_tags() {
    assert_eq!(print(&MalVal::Func(Builtin::Add)), "#<function>");
    assert_eq!(print(&MalVal::Atom), "@");
}

#[test]
fn print_seq_joins_with_single_spaces() {
    assert_eq!(print_seq(&vec![]), "");
    assert_eq!(print_seq(&vec![number(1)]), "1");
    assert_eq!(print_seq(&vec![number(1), string("a b"), list(vec![])]), "1 \"a b\" ()");
}

#[test]
fn literals_print_read_and_print_the_same() {
    let literals = vec![
        MalVal::Nil,
        MalVal::Bool(true),
        MalVal::Bool(false),
        number(0),
        number(-17),
        number(i64::MIN),
        number(i64::MAX),
        string(""),
        string("plain"),
        string("with \"quotes\" and \\ and \n and ; ( ) , ~@"),
        string("\\n"),
        string("é\u{2003}☃"),
        MalVal::Sym("abc".to_string()),
        MalVal::Sym("a-b*c!".to_string()),
        MalVal::Sym("x~y@z".to_string()),
        MalVal::Sym("nil".to_string()),
        MalVal::Sym("12".to_string()),
        MalVal::Sym(":k".to_string()),
        MalVal::Keyword("kw".to_string()),
        MalVal::Keyword("".to_string()),
        MalVal::Keyword("12".to_string()),
    ];
    for x in literals {
        let printed = print(&x);
        let back = read(&printed).unwrap();
        assert_eq!(print(&back), printed);
    }
}

#[test]
fn literals_other_than_symbols_read_back_as_themselves() {
    let literals = vec![
        MalVal::Nil,
        MalVal::Bool(true),
        number(-9000),
        string("a\"b\\c\nd"),
        MalVal::Keyword("kw".to_string()),
    ];
    for x in literals {
        assert_eq!(read(&print(&x)), Ok(x));
    }
}

#[test]
fn a_symbol_that_writes_an_integer_otherwise_does_not_round_trip() {
    let x = MalVal::Sym("007".to_string());
    let back = read(&print(&x)).unwrap();
    assert_eq!(back, number(7));
    assert_eq!(print(&back), "7");
}

#[test]
fn values_are_named() {
    assert_eq!(MalVal::Nil.to_string(), "Nil");
    assert_eq!(string("s").to_string(), "s");
    assert_eq!(MalVal::Sym("x".to_string()).to_string(), "x");
    assert_eq!(MalVal::Keyword("k".to_string()).to_string(), "k");
    assert_eq!(MalVal::Bool(true).to_string(), "true");
    assert_eq!(MalVal::Bool(false).to_string(), "false");
    assert_eq!(number(-12).to_string(), "-12");
    assert_eq!(list(vec![]).to_string(), "List");
    assert_eq!(vector(vec![]).to_string(), "Vector");
    assert_eq!(hash_map(vec![]).unwrap().to_string(), "Hash");
    assert_eq!(MalVal::Func(Builtin::Mul).to_string(), "Func");
    assert_eq!(MalVal::Atom.to_string(), "Atom");
}

#[test]
fn keys_are_named_and_turned_into_values() {
    let ks = MapKey::Ks("s".to_string());
    let kw = MapKey::Kw("k".to_string());
    assert_eq!(ks.to_string(), "s");
    assert_eq!(kw.to_string(), ":k");
    assert_eq!(ks.mal_val(), string("s"));
    assert_eq!(kw.mal_val(), MalVal::Keyword("k".to_string()));
    assert!(ks.same(&MapKey::Ks("s".to_string())));
    assert!(!ks.same(&MapKey::Kw("s".to_string())));
    assert!(!kw.same(&MapKey::Kw("j".to_string())));
}

#[test]
fn failures_are_rendered() {
    assert_eq!(error("boom"), Err(MalErr::ErrString("boom".to_string())));
    assert_eq!(format_error(MalErr::ErrString("boom".to_string())), "boom");
    assert_eq!(
        format_error(MalErr::ErrMalVal(list(vec![number(1), string("x")]))),
        "(1 \"x\")"
    );
}

#[test]
fn reader_errors_have_messages() {
    assert_eq!(format_error(ReaderError::EmptyInput.failure()), "no input");
    assert_eq!(format_error(ReaderError::UnbalancedInput.failure()), "reader: end of input");
    assert_eq!(
        format_error(ReaderError::UnexpectedToken.failure()),
        "reader: unexpected closing delimiter"
    );
    assert_eq!(
        format_error(ReaderError::UnbalancedMap.failure()),
        "reader: hashmap is unbalanced"
    );
    assert_eq!(
        format_error(ReaderError::UnterminatedString.failure()),
        "expected '\"', got EOF"
    );
    assert_eq!(
        format_error(ReaderError::InvalidMapKey.failure()),
        "hashmap: key is not a string nor a keyword"
    );
}

#[test]
fn eval_errors_have_messages() {
    assert_eq!(format_error(EvalError::ArityError.failure()), "insufficient arguments");
    assert_eq!(format_error(EvalError::BindingMismatch.failure()), "let* bindings: mismatch");
    assert_eq!(format_error(EvalError::InvalidBinding.failure()), "binding is not a symbol");
    assert_eq!(
        format_error(EvalError::NotFound("abc".to_string()).failure()),
        "'abc' not found"
    );
    assert_eq!(format_error(EvalError::NotCallable.failure()), "not a function");
    assert_eq!(
        format_error(EvalError::TypeMismatch.failure()),
        "operand out of the function's domain"
    );
}

#[test]
fn a_clone_is_the_same_value() {
    let v = read("(1 \"two\" [3 {:four 4}] :five nil)").unwrap();
    let copy = v.clone();
    assert_eq!(copy, v);
    assert_eq!(print(&copy), "(1 \"two\" [3 {:four 4}] :five nil)");
    let key = MapKey::Kw("k".to_string());
    assert_eq!(key.clone(), key);
}
