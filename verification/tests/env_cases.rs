use mal::env::make_env;
use mal::types::{list, MalVal};

fn n(i: i64) -> MalVal {
    MalVal::Int(i)
}

fn s(name: &str) -> MalVal {
    MalVal::Sym(name.to_string())
}

#[test]
fn a_new_root_binds_nothing() {
    let env = make_env(None);
    assert_eq!(env.find("x".to_string()), Ok(s("x")));
    assert_eq!(env.get("def!".to_string()), Ok(s("def!")));
    assert_eq!(env.get("".to_string()), Ok(s("")));
}

#[test]
fn set_returns_the_value_and_binds_it() {
    let mut env = make_env(None);
    assert_eq!(env.set("x".to_string(), n(5)), n(5));
    assert_eq!(env.find("x".to_string()), Ok(n(5)));
    assert_eq!(env.get("x".to_string()), Ok(n(5)));
    assert_eq!(env.find("y".to_string()), Ok(s("y")));
}

#[test]
fn set_overwrites_in_the_current_frame() {
    let mut env = make_env(None);
    env.set("x".to_string(), n(1));
    env.set("y".to_string(), n(2));
    env.set("x".to_string(), list(vec![n(3)]));
    assert_eq!(env.find("x".to_string()), Ok(list(vec![n(3)])));
    assert_eq!(env.find("y".to_string()), Ok(n(2)));
}

#[test]
fn lookup_walks_outwards() {
    let mut root = make_env(None);
    root.set("a".to_string(), n(1));
    root.set("b".to_string(), n(2));
    let mut middle = make_env(Some(root));
    middle.set("b".to_string(), n(20));
    let mut inner = make_env(Some(middle));
    inner.set("c".to_string(), n(300));
    assert_eq!(inner.find("a".to_string()), Ok(n(1)));
    assert_eq!(inner.find("b".to_string()), Ok(n(20)));
    assert_eq!(inner.find("c".to_string()), Ok(n(300)));
    assert_eq!(inner.find("d".to_string()), Ok(s("d")));
}

#[test]
fn an_inner_binding_leaves_the_outer_frame_alone() {
    let mut root = make_env(None);
    root.set("x".to_string(), n(1));
    let mut child = make_env(Some(root));
    assert_eq!(child.find("x".to_string()), Ok(n(1)));
    child.set("x".to_string(), n(2));
    child.set("y".to_string(), n(3));
    assert_eq!(child.find("x".to_string()), Ok(n(2)));
    let root = child.into_outer().unwrap();
    assert_eq!(root.find("x".to_string()), Ok(n(1)));
    assert_eq!(root.find("y".to_string()), Ok(s("y")));
}

#[test]
fn a_root_has_no_outer_environment() {
    let mut root = make_env(None);
    root.set("x".to_string(), n(1));
    assert!(root.into_outer().is_none());
}

#[test]
fn names_are_told_apart_by_their_characters() {
    let mut env = make_env(None);
    env.set("ab".to_string(), n(1));
    env.set("a".to_string(), n(2));
    env.set("é".to_string(), n(3));
    env.set("Ab".to_string(), n(4));
    assert_eq!(env.find("ab".to_string()), Ok(n(1)));
    assert_eq!(env.find("a".to_string()), Ok(n(2)));
    assert_eq!(env.find("é".to_string()), Ok(n(3)));
    assert_eq!(env.find("Ab".to_string()), Ok(n(4)));
    assert_eq!(env.find("b".to_string()), Ok(s("b")));
}
