//! The core of a small Lisp: a reader that turns source text into values,
//! chained environments that give symbols their meaning, an evaluator for
//! the special forms `def!` and `let*` and for calls of the built-in
//! functions, and a printer that writes a value back as text.
//!
//! Every function states its result over the mathematical model of its
//! data: a value is seen as a [`types::Datum`], an environment as the
//! sequence of its frames, the current one first.

pub mod env;
pub mod evaluator;
pub mod laws;
pub mod lexer;
pub mod printer;
pub mod reader;
pub mod text;
pub mod types;

use crate::env::{Env, Scopes};
use crate::evaluator::{eval, eval_spec};
use crate::printer::pr;
use crate::reader::{read_str, read_str_spec};
use crate::types::{
    eval_message, read_outcome, reader_message, well_formed, MalErr, MalVal, ReaderError,
};
use vstd::prelude::*;

verus! {

/// Reads the first form of `text`.
pub fn read(text: &str) -> (r: Result<MalVal, ReaderError>)
    ensures
        read_outcome(r) == read_str_spec(text@),
        r matches Ok(v) ==> well_formed(v@),
{
    read_str(text.to_owned())
}

/// The canonical text of `ast`.
pub fn print(ast: &MalVal) -> (s: String)
    ensures
        s@ == pr(ast@),
{
    ast.pr_str()
}

/// What reading, evaluating and printing a text gives: the text of the
/// value, or the message of the failure.
pub open spec fn rep_spec(text: Seq<char>, env: Scopes) -> Result<Seq<char>, Seq<char>> {
    match read_str_spec(text) {
        Err(e) => Err(reader_message(e)),
        Ok(ast) => match eval_spec(ast, env).out {
            Ok(v) => Ok(pr(v)),
            Err(e) => Err(eval_message(e)),
        },
    }
}

/// The environment that reading, evaluating and printing a text leaves.
pub open spec fn rep_env(text: Seq<char>, env: Scopes) -> Scopes {
    match read_str_spec(text) {
        Err(e) => env,
        Ok(ast) => eval_spec(ast, env).env,
    }
}

/// Reads the first form of `text`, evaluates it in `env` and prints the
/// value.
pub fn rep(text: &str, env: &mut Env) -> (r: Result<String, MalErr>)
    ensures
        match r {
            Ok(s) => rep_spec(text@, old(env)@) == Ok::<Seq<char>, Seq<char>>(s@),
            Err(e) => e matches MalErr::ErrString(m) && rep_spec(text@, old(env)@) == Err::<
                Seq<char>,
                Seq<char>,
            >(m@),
        },
        final(env)@ == rep_env(text@, old(env)@),
{
    let ast = match read(text) {
        Ok(v) => v,
        Err(e) => {
            return Err(e.failure());
        },
    };
    match eval(&ast, env) {
        Ok(exp) => Ok(print(&exp)),
        Err(e) => Err(e.failure()),
    }
}

} // verus!
