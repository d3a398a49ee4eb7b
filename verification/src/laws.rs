//! What holds of the reader, the printer, the environments and the
//! evaluator together.

use crate::env::{bind, empty_frame, lookup, nested, scopes_well_formed, Scopes};
use crate::evaluator::{
    bind_pairs, def_name, eval_ast_spec, eval_entries, eval_items, eval_spec, let_name,
    same_outer,
};
use crate::lexer::{
    blank_end, is_plain, is_special, plain_end, string_body_end, token_end, tokens_from,
    tokens_of,
};
use crate::printer::{escape, escape_char, pr, pr_key, quoted};
use crate::reader::{
    is_closer, is_opener, is_string_literal, prefix_name, read_atom_spec, read_form_spec,
    read_str_spec, string_body_ok, unescape,
};
use crate::text::{all_digits, decimal, digits, digits_value, is_digit, parse_integer};
use crate::evaluator::call;
use crate::reader::{closer_of, read_items_spec, read_list_spec};
use crate::types::{
    all_well_formed, assoc, distinct_keys, hash_map_spec, key_datum, key_index, key_of,
    lemma_key_index, lemma_put_keeps_keys_distinct, put, well_formed, Datum, DatumKey,
    EvalFault,
};
use vstd::prelude::*;

verus! {

/// The digits of a number are digits, at least one, and write that number.
pub proof fn lemma_digits(n: nat)
    ensures
        digits(n).len() >= 1,
        all_digits(digits(n)),
        digits_value(digits(n)) == n,
    decreases n,
{
    if n < 10 {
        let s = digits(n);
        assert(s.drop_last() =~= Seq::<char>::empty());
        assert(digits_value(s.drop_last()) == 0);
    } else {
        lemma_digits(n / 10);
        let s = digits(n);
        assert(s.drop_last() =~= digits(n / 10));
        assert forall|i: int| 0 <= i < s.len() implies is_digit(#[trigger] s[i]) by {
            if i < s.len() - 1 {
                assert(s[i] == digits(n / 10)[i]);
            }
        }
    }
}

/// Reading the decimal text of an integer gives the integer back.
pub proof fn law_decimal_round_trip(i: i64)
    ensures
        parse_integer(decimal(i as int)) == Some(i),
{
    let s = decimal(i as int);
    if i < 0 {
        let n = (-(i as int)) as nat;
        lemma_digits(n);
        assert(s.skip(1) =~= digits(n));
    } else {
        lemma_digits(i as nat);
    }
}

/// Every character of a decimal text can stand in a plain token, and the
/// first one is no token by itself.
pub proof fn lemma_decimal_is_plain(i: i64)
    ensures
        decimal(i as int).len() >= 1,
        forall|k: int| 0 <= k < decimal(i as int).len() ==> is_plain(#[trigger] decimal(i as int)[k]),
        !is_special(decimal(i as int)[0]),
        is_digit(decimal(i as int)[0]) || decimal(i as int)[0] == '-',
{
    let s = decimal(i as int);
    if i < 0 {
        let n = (-(i as int)) as nat;
        lemma_digits(n);
        assert forall|k: int| 0 <= k < s.len() implies is_plain(#[trigger] s[k]) by {
            if k > 0 {
                assert(s[k] == digits(n)[k - 1]);
                assert(is_digit(digits(n)[k - 1]));
            }
        }
    } else {
        lemma_digits(i as nat);
        assert forall|k: int| 0 <= k < s.len() implies is_plain(#[trigger] s[k]) by {
            assert(is_digit(s[k]));
        }
        assert(is_digit(s[0]));
    }
}

/// What the printer writes between the quotes of a string can stand there,
/// and the reader makes the string of it again.
pub proof fn law_escape_round_trip(s: Seq<char>)
    ensures
        string_body_ok(escape(s)),
        unescape(escape(s)) == s,
    decreases s.len(),
{
    if s.len() > 0 {
        let c = s[0];
        let rest = escape(s.skip(1));
        let e = escape(s);
        law_escape_round_trip(s.skip(1));
        if c == '"' || c == '\\' || c == '\n' {
            assert(e.skip(2) =~= rest);
            assert(unescape(e) =~= seq![c] + s.skip(1));
        } else {
            assert(e.skip(1) =~= rest);
            assert(unescape(e) =~= seq![c] + s.skip(1));
        }
        assert(seq![c] + s.skip(1) =~= s);
    }
}

/// A run of plain characters goes on to the end of a text that holds
/// nothing else from there.
pub proof fn lemma_plain_to_the_end(t: Seq<char>, i: int)
    requires
        0 <= i <= t.len(),
        forall|k: int| i <= k < t.len() ==> is_plain(#[trigger] t[k]),
    ensures
        plain_end(t, i) == t.len(),
    decreases t.len() - i,
{
    if i < t.len() {
        lemma_plain_to_the_end(t, i + 1);
    }
}

/// A text of plain characters whose first is no token by itself is one
/// token.
pub proof fn lemma_plain_text_is_one_token(t: Seq<char>)
    requires
        t.len() > 0,
        forall|k: int| 0 <= k < t.len() ==> is_plain(#[trigger] t[k]),
        !is_special(t[0]),
    ensures
        tokens_of(t) == seq![t],
{
    assert(is_plain(t[0]));
    assert(blank_end(t, 0) == 0);
    lemma_plain_to_the_end(t, 1);
    assert(token_end(t, 0) == t.len());
    let n = t.len() as int;
    assert(blank_end(t, n) == n);
    assert(tokens_from(t, n) =~= Seq::<Seq<char>>::empty());
    assert(t.subrange(0, n) =~= t);
    assert(tokens_of(t) =~= seq![t]);
}

/// The inside of a printed string ends at its closing quote.
pub proof fn lemma_string_body_ends_at_quote(t: Seq<char>, i: int, s: Seq<char>)
    requires
        0 <= i <= t.len(),
        t.subrange(i, t.len() as int) == escape(s) + seq!['"'],
    ensures
        string_body_end(t, i) == t.len() - 1,
    decreases s.len(),
{
    let tail = escape(s) + seq!['"'];
    let n = t.len() as int;
    assert(forall|k: int| 0 <= k < tail.len() ==> t[i + k] == #[trigger] tail[k]) by {
        assert forall|k: int| 0 <= k < tail.len() implies t[i + k] == #[trigger] tail[k] by {
            assert(t.subrange(i, n)[k] == t[i + k]);
        }
    }
    if s.len() == 0 {
        assert(tail[0] == '"');
        assert(t[i] == '"');
    } else {
        let c = s[0];
        let rest = escape(s.skip(1));
        let after = rest + seq!['"'];
        assert(tail.len() == n - i);
        assert(tail =~= escape_char(c) + after);
        if c == '"' || c == '\\' || c == '\n' {
            assert forall|k: int| 0 <= k < after.len() implies t.subrange(i + 2, n)[k]
                == after[k] by {
                assert(t[i + 2 + k] == tail[2 + k]);
            }
            assert(tail[0] == '\\');
            assert(tail[1] != '\n');
            assert(t[i] == tail[0]);
            assert(t[i + 1] == tail[1]);
            assert(t.subrange(i + 2, n) =~= rest + seq!['"']);
            lemma_string_body_ends_at_quote(t, i + 2, s.skip(1));
        } else {
            assert forall|k: int| 0 <= k < after.len() implies t.subrange(i + 1, n)[k]
                == after[k] by {
                assert(t[i + 1 + k] == tail[1 + k]);
            }
            assert(tail[0] == c);
            assert(t[i] == tail[0]);
            assert(t.subrange(i + 1, n) =~= rest + seq!['"']);
            lemma_string_body_ends_at_quote(t, i + 1, s.skip(1));
        }
    }
}

/// The text of a string is one token.
pub proof fn lemma_string_text_is_one_token(s: Seq<char>)
    ensures
        tokens_of(quoted(s)) == seq![quoted(s)],
{
    let t = quoted(s);
    let n = t.len() as int;
    assert(t[0] == '"');
    assert(blank_end(t, 0) == 0);
    assert(t.subrange(1, n) =~= escape(s) + seq!['"']);
    lemma_string_body_ends_at_quote(t, 1, s);
    assert(t[n - 1] == '"');
    assert(token_end(t, 0) == n);
    assert(blank_end(t, n) == n);
    assert(tokens_from(t, n) =~= Seq::<Seq<char>>::empty());
    assert(t.subrange(0, n) =~= t);
    assert(tokens_of(t) =~= seq![t]);
}

/// A key of a hash map is printed as the string or keyword that it stands
/// for.
pub proof fn law_key_prints_as_its_value(k: DatumKey)
    ensures
        pr_key(k) == pr(key_datum(k)),
{
}

/// Whether every character of `s` can stand in a plain token.
pub open spec fn plain_name(s: Seq<char>) -> bool {
    forall|k: int| 0 <= k < s.len() ==> is_plain(#[trigger] s[k])
}

/// Whether `d` is a literal that can be written and read again: `nil`, a
/// boolean, an integer, a string, a keyword whose name is made of plain
/// characters, or a symbol whose name is made of plain characters, is not
/// empty, does not begin with a character that is a token by itself and,
/// where it writes an integer, writes it as the printer does.
pub open spec fn well_formed_literal(d: Datum) -> bool {
    match d {
        Datum::Nil => true,
        Datum::Bool(_) => true,
        Datum::Int(_) => true,
        Datum::Str(_) => true,
        Datum::Keyword(s) => plain_name(s),
        Datum::Sym(s) => {
            &&& s.len() > 0
            &&& plain_name(s)
            &&& !is_special(s[0])
            &&& (parse_integer(s) matches Some(v) ==> decimal(v as int) == s)
        },
        _ => false,
    }
}

/// A text whose first character is no token by itself is neither a
/// delimiter nor a prefix.
pub proof fn lemma_not_a_delimiter(t: Seq<char>)
    requires
        t.len() > 0,
        !is_special(t[0]),
    ensures
        !is_opener(t),
        !is_closer(t),
        prefix_name(t) is None,
        t != "^"@,
{
    assert(t != "("@) by {
        reveal_strlit("(");
    }
    assert(t != "["@) by {
        reveal_strlit("[");
    }
    assert(t != "{"@) by {
        reveal_strlit("{");
    }
    assert(t != ")"@) by {
        reveal_strlit(")");
    }
    assert(t != "]"@) by {
        reveal_strlit("]");
    }
    assert(t != "}"@) by {
        reveal_strlit("}");
    }
    assert(t != "~@"@) by {
        reveal_strlit("~@");
    }
    assert(t != "~"@) by {
        reveal_strlit("~");
    }
    assert(t != "@"@) by {
        reveal_strlit("@");
    }
    assert(t != "'"@) by {
        reveal_strlit("'");
    }
    assert(t != "`"@) by {
        reveal_strlit("`");
    }
    assert(t != "^"@) by {
        reveal_strlit("^");
    }
}

/// A text that is one token, and neither a delimiter nor a prefix, is read
/// as an atom.
pub proof fn lemma_one_token_is_an_atom(t: Seq<char>)
    requires
        tokens_of(t) == seq![t],
        t.len() > 0,
        !is_special(t[0]),
    ensures
        read_str_spec(t) == read_atom_spec(t),
{
    lemma_not_a_delimiter(t);
    let ts = tokens_of(t);
    assert(ts.len() == 1);
    assert(ts[0] == t);
    assert(read_form_spec(ts, 0).out == read_atom_spec(t));
}

/// Printing a literal, reading the text and printing what was read gives
/// the same text again. What is read is the literal itself, unless it is a
/// symbol.
pub proof fn law_literal_round_trip(x: Datum)
    requires
        well_formed_literal(x),
    ensures
        read_str_spec(pr(x)) matches Ok(y) && pr(y) == pr(x),
        !(x is Sym) ==> read_str_spec(pr(x)) == Ok::<Datum, crate::types::ReaderError>(x),
{
    reveal_strlit("nil");
    reveal_strlit("true");
    reveal_strlit("false");
    let t = pr(x);
    match x {
        Datum::Nil => {
            lemma_plain_text_is_one_token(t);
            lemma_one_token_is_an_atom(t);
        },
        Datum::Bool(b) => {
            lemma_plain_text_is_one_token(t);
            lemma_one_token_is_an_atom(t);
        },
        Datum::Int(i) => {
            lemma_decimal_is_plain(i);
            law_decimal_round_trip(i);
            lemma_plain_text_is_one_token(t);
            lemma_one_token_is_an_atom(t);
            assert(t != "nil"@ && t != "true"@ && t != "false"@);
        },
        Datum::Str(s) => {
            lemma_string_text_is_one_token(s);
            assert(t[0] == '"');
            lemma_one_token_is_an_atom(t);
            law_escape_round_trip(s);
            assert(!is_digit(t[0]));
            assert(parse_integer(t) is None);
            assert(t.subrange(1, t.len() - 1) =~= escape(s));
            assert(t.last() == '"');
            assert(is_string_literal(t));
        },
        Datum::Keyword(s) => {
            assert(t[0] == ':');
            assert forall|k: int| 0 <= k < t.len() implies is_plain(#[trigger] t[k]) by {
                if k > 0 {
                    assert(t[k] == s[k - 1]);
                }
            }
            lemma_plain_text_is_one_token(t);
            lemma_one_token_is_an_atom(t);
            assert(!is_digit(t[0]));
            assert(parse_integer(t) is None);
            assert(t.skip(1) =~= s);
        },
        Datum::Sym(s) => {
            lemma_plain_text_is_one_token(t);
            lemma_one_token_is_an_atom(t);
            assert(is_plain(s[0]));
            if s == "nil"@ || s == "true"@ || s == "false"@ {
            } else if parse_integer(s) is Some {
            } else if s[0] == ':' {
                assert(seq![':'] + s.skip(1) =~= s);
            } else {
            }
        },
        _ => {},
    }
}

/// A name means what it was last bound to in the current frame.
pub proof fn law_lookup_after_bind(scopes: Scopes, name: Seq<char>, v: Datum)
    requires
        scopes.len() >= 1,
    ensures
        lookup(bind(scopes, name, v), name) == v,
{
}

/// Binding a name changes what no other name means.
pub proof fn law_bind_leaves_other_names(
    scopes: Scopes,
    name: Seq<char>,
    v: Datum,
    other: Seq<char>,
)
    requires
        scopes.len() >= 1,
        other != name,
    ensures
        lookup(bind(scopes, name, v), other) == lookup(scopes, other),
{
    assert(bind(scopes, name, v).skip(1) =~= scopes.skip(1));
}

/// Binding a name changes the current frame and no other.
pub proof fn law_bind_changes_current_frame_only(scopes: Scopes, name: Seq<char>, v: Datum)
    requires
        scopes.len() >= 1,
    ensures
        same_outer(scopes, bind(scopes, name, v)),
{
    assert(bind(scopes, name, v).skip(1) =~= scopes.skip(1));
}

/// A name that no frame binds means the symbol of that name.
pub proof fn law_unbound_name_is_its_symbol(scopes: Scopes, name: Seq<char>)
    requires
        forall|i: int| 0 <= i < scopes.len() ==> !(#[trigger] scopes[i]).contains_key(name),
    ensures
        lookup(scopes, name) == Datum::Sym(name),
    decreases scopes.len(),
{
    if scopes.len() > 0 {
        let rest = scopes.skip(1);
        assert forall|i: int| 0 <= i < rest.len() implies !(#[trigger] rest[i]).contains_key(
            name,
        ) by {
            assert(rest[i] == scopes[i + 1]);
        }
        law_unbound_name_is_its_symbol(rest, name);
    }
}

/// In a new frame every name means what it means around it, until it is
/// bound there; a binding in the new frame hides the one around it and
/// leaves it in place.
pub proof fn law_inner_frame_shadows(scopes: Scopes, name: Seq<char>, v: Datum)
    ensures
        lookup(nested(scopes), name) == lookup(scopes, name),
        lookup(bind(nested(scopes), name, v), name) == v,
        bind(nested(scopes), name, v).skip(1) == scopes,
{
    assert(nested(scopes).skip(1) =~= scopes);
    assert(!empty_frame().contains_key(name));
    assert(bind(nested(scopes), name, v).skip(1) =~= scopes);
}

/// Evaluating a form changes the current frame at most.
pub proof fn law_eval_changes_current_frame_only(ast: Datum, env: Scopes)
    requires
        env.len() >= 1,
    ensures
        same_outer(env, eval_spec(ast, env).env),
        same_outer(env, eval_ast_spec(ast, env).env),
    decreases ast, 1int, 0int,
{
    match ast {
        Datum::List(xs) => {
            lemma_items_change_current_frame_only(xs, xs.len() as int, env);
            if xs.len() == 0 {
            } else if xs[0] == Datum::Sym(def_name()) {
                if xs.len() >= 3 {
                    match xs[1] {
                        Datum::Sym(name) => {
                            law_eval_changes_current_frame_only(xs[2], env);
                            let value = eval_spec(xs[2], env);
                            match value.out {
                                Ok(v) => {
                                    law_bind_changes_current_frame_only(value.env, name, v);
                                },
                                Err(e) => {},
                            }
                        },
                        _ => {},
                    }
                }
            } else if xs[0] == Datum::Sym(let_name()) {
            } else {
            }
        },
        Datum::Vector(xs) => {
            lemma_items_change_current_frame_only(xs, xs.len() as int, env);
        },
        Datum::Hash(es) => {
            lemma_entries_change_current_frame_only(es, es.len() as int, env);
        },
        _ => {},
    }
}

/// Evaluating the elements of a sequence changes the current frame at
/// most.
pub proof fn lemma_items_change_current_frame_only(xs: Seq<Datum>, n: int, env: Scopes)
    requires
        env.len() >= 1,
    ensures
        same_outer(env, eval_items(xs, n, env).env),
    decreases xs, 0int, n,
{
    if 0 < n <= xs.len() {
        lemma_items_change_current_frame_only(xs, n - 1, env);
        let before = eval_items(xs, n - 1, env);
        if before.out is Ok {
            law_eval_changes_current_frame_only(xs[n - 1], before.env);
        }
    }
}

/// Evaluating the values of a hash map changes the current frame at most.
pub proof fn lemma_entries_change_current_frame_only(
    es: Seq<(DatumKey, Datum)>,
    n: int,
    env: Scopes,
)
    requires
        env.len() >= 1,
    ensures
        same_outer(env, eval_entries(es, n, env).env),
    decreases es, 0int, n,
{
    if 0 < n <= es.len() {
        lemma_entries_change_current_frame_only(es, n - 1, env);
        let before = eval_entries(es, n - 1, env);
        if before.out is Ok {
            law_eval_changes_current_frame_only(es[n - 1].1, before.env);
        }
    }
}

/// After `(def! name form)` the name means the value of the form, which is
/// also what the special form returns.
pub proof fn law_def_then_lookup(name: Seq<char>, form: Datum, env: Scopes)
    requires
        env.len() >= 1,
        eval_spec(form, env).out is Ok,
    ensures
        ({
            let ast = Datum::List(seq![Datum::Sym(def_name()), Datum::Sym(name), form]);
            let after = eval_spec(ast, env);
            &&& after.out == eval_spec(form, env).out
            &&& eval_spec(Datum::Sym(name), after.env).out == after.out
        }),
{
    law_eval_changes_current_frame_only(form, env);
    let value = eval_spec(form, env);
    let v = value.out->Ok_0;
    law_lookup_after_bind(value.env, name, v);
    let xs = seq![Datum::Sym(def_name()), Datum::Sym(name), form];
    let after = eval_spec(Datum::List(xs), env);
    assert(xs.len() == 3 && xs[0] == Datum::Sym(def_name()) && xs[1] == Datum::Sym(name) && xs[2]
        == form);
    assert(after.out == value.out);
    assert(after.env == bind(value.env, name, v));
    assert(eval_spec(Datum::Sym(name), after.env) == eval_ast_spec(Datum::Sym(name), after.env));
    assert(eval_ast_spec(Datum::Sym(name), after.env).out == Ok::<Datum, EvalFault>(
        lookup(after.env, name),
    ));
}

/// `let*` leaves the environment as it found it, whatever its bindings and
/// its body do.
pub proof fn law_let_leaves_the_environment(xs: Seq<Datum>, env: Scopes)
    requires
        xs.len() >= 1,
        xs[0] == Datum::Sym(let_name()),
    ensures
        eval_spec(Datum::List(xs), env).env == env,
{
    assert(let_name() != def_name()) by {
        reveal_strlit("let*");
        reveal_strlit("def!");
        assert(let_name()[0] == 'l');
        assert(def_name()[0] == 'd');
    }
}

/// The values of the first entries of a hash map stand under the keys
/// that the entries had, in the same order.
pub proof fn lemma_entries_keep_keys(es: Seq<(DatumKey, Datum)>, n: int, env: Scopes)
    requires
        0 <= n <= es.len(),
    ensures
        eval_entries(es, n, env).out matches Ok(rs) ==> rs.len() == n && forall|i: int|
            0 <= i < n ==> (#[trigger] rs[i]).0 == es[i].0,
    decreases n,
{
    if n > 0 {
        lemma_entries_keep_keys(es, n - 1, env);
    }
}

/// The elements of a sequence evaluate to as many values.
pub proof fn lemma_items_keep_length(xs: Seq<Datum>, n: int, env: Scopes)
    requires
        0 <= n <= xs.len(),
    ensures
        eval_items(xs, n, env).out matches Ok(rs) ==> rs.len() == n,
    decreases n,
{
    if n > 0 {
        lemma_items_keep_length(xs, n - 1, env);
    }
}

/// A vector evaluates to a vector of as many elements: it never becomes a
/// list, and it is never called.
pub proof fn law_vector_stays_vector(xs: Seq<Datum>, env: Scopes)
    ensures
        eval_spec(Datum::Vector(xs), env).out matches Ok(v) ==> v is Vector && v->Vector_0.len()
            == xs.len(),
{
    lemma_items_keep_length(xs, xs.len() as int, env);
    let ast = Datum::Vector(xs);
    assert(eval_spec(ast, env) == eval_ast_spec(ast, env));
    let r = eval_items(xs, xs.len() as int, env);
    assert(eval_ast_spec(ast, env).out == match r.out {
        Ok(items) => Ok::<Datum, EvalFault>(Datum::Vector(items)),
        Err(e) => Err(e),
    });
}

/// A hash map evaluates to a hash map with the same keys in the same
/// order: keys are not evaluated. Keys that were distinct stay distinct.
pub proof fn law_hash_map_keeps_keys(es: Seq<(DatumKey, Datum)>, env: Scopes)
    ensures
        eval_spec(Datum::Hash(es), env).out matches Ok(v) ==> {
            &&& v is Hash
            &&& v->Hash_0.len() == es.len()
            &&& forall|i: int| 0 <= i < es.len() ==> (#[trigger] v->Hash_0[i]).0 == es[i].0
            &&& distinct_keys(es) ==> distinct_keys(v->Hash_0)
        },
{
    lemma_entries_keep_keys(es, es.len() as int, env);
    let ast = Datum::Hash(es);
    assert(eval_spec(ast, env) == eval_ast_spec(ast, env));
    let r = eval_entries(es, es.len() as int, env);
    assert(eval_ast_spec(ast, env).out == match r.out {
        Ok(entries) => Ok::<Datum, EvalFault>(Datum::Hash(entries)),
        Err(e) => Err(e),
    });
}

/// Giving a key a well-formed value keeps the values well formed.
pub proof fn lemma_put_keeps_values_well_formed(
    entries: Seq<(DatumKey, Datum)>,
    k: DatumKey,
    v: Datum,
)
    requires
        forall|i: int| 0 <= i < entries.len() ==> well_formed((#[trigger] entries[i]).1),
        well_formed(v),
    ensures
        forall|i: int|
            0 <= i < put(entries, k, v).len() ==> well_formed((#[trigger] put(entries, k, v)[i]).1),
{
    lemma_key_index(entries, k);
    let after = put(entries, k, v);
    let at = key_index(entries, k);
    assert forall|i: int| 0 <= i < after.len() implies well_formed((#[trigger] after[i]).1) by {
        if i != at {
            assert(after[i] == entries[i]);
        }
    }
}

/// The hash map made of well-formed values is well formed.
pub proof fn lemma_assoc_is_well_formed(items: Seq<Datum>, n: int)
    requires
        all_well_formed(items),
        0 <= 2 * n <= items.len(),
    ensures
        assoc(items, n) matches Some(entries) ==> distinct_keys(entries) && forall|i: int|
            0 <= i < entries.len() ==> well_formed((#[trigger] entries[i]).1),
    decreases n,
{
    if n > 0 {
        lemma_assoc_is_well_formed(items, n - 1);
        match (assoc(items, n - 1), key_of(items[2 * n - 2])) {
            (Some(entries), Some(k)) => {
                assert(well_formed(items[2 * n - 1]));
                lemma_put_keeps_keys_distinct(entries, k, items[2 * n - 1]);
                lemma_put_keeps_values_well_formed(entries, k, items[2 * n - 1]);
            },
            _ => {},
        }
    }
}

/// A hash map that is built of well-formed values is well formed.
pub proof fn law_hash_map_is_well_formed(items: Seq<Datum>)
    requires
        all_well_formed(items),
    ensures
        hash_map_spec(items) matches Ok(d) ==> well_formed(d),
{
    if items.len() % 2 == 0 {
        lemma_assoc_is_well_formed(items, items.len() as int / 2);
    }
}

/// What the reader reads is well formed.
pub proof fn law_read_is_well_formed(ts: Seq<Seq<char>>, pos: int)
    ensures
        read_form_spec(ts, pos).out matches Ok(d) ==> well_formed(d),
        read_list_spec(ts, pos).out matches Ok(d) ==> well_formed(d),
    decreases ts.len() - pos, 1int,
{
    if 0 <= pos < ts.len() {
        if is_opener(ts[pos]) {
            lemma_read_items_are_well_formed(ts, pos + 1, closer_of(ts[pos]));
            let items = read_items_spec(ts, pos + 1, closer_of(ts[pos]));
            match items.out {
                Ok(ds) => {
                    law_hash_map_is_well_formed(ds);
                },
                Err(e) => {},
            }
        } else if is_closer(ts[pos]) {
        } else if prefix_name(ts[pos]) is Some {
            law_read_is_well_formed(ts, pos + 1);
            let inner = read_form_spec(ts, pos + 1);
            match inner.out {
                Ok(d) => {
                    let xs = seq![Datum::Sym(prefix_name(ts[pos])->0), d];
                    assert(well_formed(xs[0]) && well_formed(xs[1]));
                    assert(well_formed(Datum::List(xs)));
                },
                Err(e) => {},
            }
        } else if ts[pos] == "^"@ {
            law_read_is_well_formed(ts, pos + 1);
            let meta = read_form_spec(ts, pos + 1);
            match meta.out {
                Ok(m) => {
                    if pos < meta.pos <= ts.len() {
                        law_read_is_well_formed(ts, meta.pos);
                        let value = read_form_spec(ts, meta.pos);
                        match value.out {
                            Ok(v) => {
                                let xs = seq![Datum::Sym("with-meta"@), v, m];
                                assert(well_formed(xs[0]) && well_formed(xs[1]) && well_formed(
                                    xs[2],
                                ));
                                assert(well_formed(Datum::List(xs)));
                            },
                            Err(e) => {},
                        }
                    }
                },
                Err(e) => {},
            }
        } else {
            assert(read_form_spec(ts, pos).out == read_atom_spec(ts[pos]));
        }
    }
}

/// The forms that the reader reads between delimiters are well formed.
pub proof fn lemma_read_items_are_well_formed(ts: Seq<Seq<char>>, pos: int, stop: Seq<char>)
    ensures
        read_items_spec(ts, pos, stop).out matches Ok(ds) ==> all_well_formed(ds),
    decreases ts.len() - pos, 2int,
{
    if 0 <= pos < ts.len() && ts[pos] != stop && !is_closer(ts[pos]) {
        law_read_is_well_formed(ts, pos);
        let first = read_form_spec(ts, pos);
        match first.out {
            Ok(d) => {
                if pos < first.pos <= ts.len() {
                    lemma_read_items_are_well_formed(ts, first.pos, stop);
                    let rest = read_items_spec(ts, first.pos, stop);
                    match rest.out {
                        Ok(ds) => {
                            let all = seq![d] + ds;
                            assert forall|i: int| 0 <= i < all.len() implies well_formed(
                                #[trigger] all[i],
                            ) by {
                                if i > 0 {
                                    assert(all[i] == ds[i - 1]);
                                }
                            }
                        },
                        Err(e) => {},
                    }
                }
            },
            Err(e) => {},
        }
    }
}

/// What a name means in a well-formed environment is well formed.
pub proof fn lemma_lookup_is_well_formed(env: Scopes, name: Seq<char>)
    requires
        scopes_well_formed(env),
    ensures
        well_formed(lookup(env, name)),
    decreases env.len(),
{
    if env.len() > 0 {
        if env[0].contains_key(name) {
        } else {
            let rest = env.skip(1);
            assert forall|i: int, other: Seq<char>|
                0 <= i < rest.len() && (#[trigger] rest[i].contains_key(other)) implies well_formed(
                rest[i][other],
            ) by {
                assert(rest[i] == env[i + 1]);
                assert(env[i + 1].contains_key(other));
            }
            lemma_lookup_is_well_formed(rest, name);
        }
    }
}

/// Binding a well-formed value keeps an environment well formed.
pub proof fn lemma_bind_keeps_well_formed(env: Scopes, name: Seq<char>, v: Datum)
    requires
        env.len() >= 1,
        scopes_well_formed(env),
        well_formed(v),
    ensures
        scopes_well_formed(bind(env, name, v)),
{
    let after = bind(env, name, v);
    assert forall|i: int, other: Seq<char>|
        0 <= i < after.len() && (#[trigger] after[i].contains_key(other)) implies well_formed(
        after[i][other],
    ) by {
        if i == 0 {
            if other != name {
                assert(env[0].contains_key(other));
            }
        } else {
            assert(after[i] == env[i]);
            assert(env[i].contains_key(other));
        }
    }
}

/// A new frame keeps an environment well formed.
pub proof fn lemma_nested_keeps_well_formed(env: Scopes)
    requires
        scopes_well_formed(env),
    ensures
        scopes_well_formed(nested(env)),
{
    let after = nested(env);
    assert forall|i: int, other: Seq<char>|
        0 <= i < after.len() && (#[trigger] after[i].contains_key(other)) implies well_formed(
        after[i][other],
    ) by {
        if i > 0 {
            assert(after[i] == env[i - 1]);
            assert(env[i - 1].contains_key(other));
        }
    }
}

/// Evaluating a well-formed form in a well-formed environment gives a
/// well-formed value and leaves a well-formed environment.
pub proof fn law_eval_keeps_well_formed(ast: Datum, env: Scopes)
    requires
        env.len() >= 1,
        well_formed(ast),
        scopes_well_formed(env),
    ensures
        scopes_well_formed(eval_spec(ast, env).env),
        eval_spec(ast, env).out matches Ok(v) ==> well_formed(v),
        scopes_well_formed(eval_ast_spec(ast, env).env),
        eval_ast_spec(ast, env).out matches Ok(v) ==> well_formed(v),
    decreases ast, 1int, 0int,
{
    match ast {
        Datum::Sym(s) => {
            lemma_lookup_is_well_formed(env, s);
        },
        Datum::List(xs) => {
            lemma_items_keep_well_formed(xs, xs.len() as int, env);
            if xs.len() == 0 {
            } else if xs[0] == Datum::Sym(def_name()) {
                if xs.len() >= 3 {
                    assert(well_formed(xs[2]));
                    match xs[1] {
                        Datum::Sym(name) => {
                            law_eval_keeps_well_formed(xs[2], env);
                            law_eval_changes_current_frame_only(xs[2], env);
                            let value = eval_spec(xs[2], env);
                            match value.out {
                                Ok(v) => {
                                    lemma_bind_keeps_well_formed(value.env, name, v);
                                },
                                Err(e) => {},
                            }
                        },
                        _ => {},
                    }
                }
            } else if xs[0] == Datum::Sym(let_name()) {
                if xs.len() >= 2 {
                    assert(well_formed(xs[1]));
                    if xs.len() >= 3 {
                        assert(well_formed(xs[2]));
                    }
                    match xs[1] {
                        Datum::List(bs) | Datum::Vector(bs) => {
                            if bs.len() % 2 == 0 {
                                assert(all_well_formed(bs));
                                lemma_nested_keeps_well_formed(env);
                                lemma_pairs_keep_well_formed(
                                    bs,
                                    bs.len() as int / 2,
                                    nested(env),
                                );
                                let bound = bind_pairs(bs, bs.len() as int / 2, nested(env));
                                if bound.out is Ok && xs.len() >= 3 {
                                    law_eval_keeps_well_formed(xs[2], bound.env);
                                }
                            }
                        },
                        _ => {},
                    }
                }
            } else {
                let evaluated = eval_ast_spec(ast, env);
                match evaluated.out {
                    Ok(Datum::List(items)) => {
                        assert(well_formed(call(items)->Ok_0) || call(items) is Err);
                    },
                    _ => {},
                }
            }
        },
        Datum::Vector(xs) => {
            lemma_items_keep_well_formed(xs, xs.len() as int, env);
        },
        Datum::Hash(es) => {
            lemma_entries_keep_well_formed(es, es.len() as int, env);
            lemma_entries_keep_keys(es, es.len() as int, env);
        },
        _ => {},
    }
}

/// Evaluating well-formed elements gives well-formed values.
pub proof fn lemma_items_keep_well_formed(xs: Seq<Datum>, n: int, env: Scopes)
    requires
        env.len() >= 1,
        all_well_formed(xs),
        scopes_well_formed(env),
    ensures
        scopes_well_formed(eval_items(xs, n, env).env),
        eval_items(xs, n, env).env.len() == env.len(),
        eval_items(xs, n, env).out matches Ok(vs) ==> all_well_formed(vs),
    decreases xs, 0int, n,
{
    if 0 < n <= xs.len() {
        lemma_items_keep_well_formed(xs, n - 1, env);
        let before = eval_items(xs, n - 1, env);
        match before.out {
            Ok(items) => {
                law_eval_keeps_well_formed(xs[n - 1], before.env);
                law_eval_changes_current_frame_only(xs[n - 1], before.env);
                let value = eval_spec(xs[n - 1], before.env);
                match value.out {
                    Ok(v) => {
                        let all = items.push(v);
                        assert forall|i: int| 0 <= i < all.len() implies well_formed(
                            #[trigger] all[i],
                        ) by {
                            if i < items.len() {
                                assert(all[i] == items[i]);
                            }
                        }
                    },
                    Err(e) => {},
                }
            },
            Err(e) => {},
        }
    }
}

/// Evaluating the well-formed values of a hash map gives well-formed
/// values.
pub proof fn lemma_entries_keep_well_formed(es: Seq<(DatumKey, Datum)>, n: int, env: Scopes)
    requires
        env.len() >= 1,
        forall|i: int| 0 <= i < es.len() ==> well_formed((#[trigger] es[i]).1),
        scopes_well_formed(env),
    ensures
        scopes_well_formed(eval_entries(es, n, env).env),
        eval_entries(es, n, env).env.len() == env.len(),
        eval_entries(es, n, env).out matches Ok(vs) ==> forall|i: int|
            0 <= i < vs.len() ==> well_formed((#[trigger] vs[i]).1),
    decreases es, 0int, n,
{
    if 0 < n <= es.len() {
        lemma_entries_keep_well_formed(es, n - 1, env);
        let before = eval_entries(es, n - 1, env);
        match before.out {
            Ok(entries) => {
                assert(well_formed(es[n - 1].1));
                law_eval_keeps_well_formed(es[n - 1].1, before.env);
                law_eval_changes_current_frame_only(es[n - 1].1, before.env);
                let value = eval_spec(es[n - 1].1, before.env);
                match value.out {
                    Ok(v) => {
                        let all = entries.push((es[n - 1].0, v));
                        assert forall|i: int| 0 <= i < all.len() implies well_formed(
                            (#[trigger] all[i]).1,
                        ) by {
                            if i < entries.len() {
                                assert(all[i] == entries[i]);
                            }
                        }
                    },
                    Err(e) => {},
                }
            },
            Err(e) => {},
        }
    }
}

/// Binding the values of well-formed forms keeps an environment well
/// formed.
pub proof fn lemma_pairs_keep_well_formed(bs: Seq<Datum>, n: int, env: Scopes)
    requires
        env.len() >= 1,
        all_well_formed(bs),
        scopes_well_formed(env),
    ensures
        scopes_well_formed(bind_pairs(bs, n, env).env),
        bind_pairs(bs, n, env).env.len() == env.len(),
    decreases bs, 0int, n,
{
    if 0 < n && 2 * n <= bs.len() {
        lemma_pairs_keep_well_formed(bs, n - 1, env);
        let before = bind_pairs(bs, n - 1, env);
        if before.out is Ok {
            match bs[2 * n - 2] {
                Datum::Sym(name) => {
                    assert(well_formed(bs[2 * n - 1]));
                    law_eval_keeps_well_formed(bs[2 * n - 1], before.env);
                    law_eval_changes_current_frame_only(bs[2 * n - 1], before.env);
                    let value = eval_spec(bs[2 * n - 1], before.env);
                    match value.out {
                        Ok(v) => {
                            lemma_bind_keeps_well_formed(value.env, name, v);
                        },
                        Err(e) => {},
                    }
                },
                _ => {},
            }
        }
    }
}

} // verus!
