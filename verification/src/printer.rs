//! The printer: the canonical text of a value.
//!
//! A string is written between double quotes. Inside them a double quote, a
//! backslash and a line feed are written as a backslash followed by `"`,
//! `\` and `n`; every other character stands for itself. The reader undoes
//! exactly this.

use crate::text::{decimal, push_decimal};
use crate::types::{
    entry_views, lemma_view_of_sequences, views, Datum, DatumKey, MalVal, MapKey,
};
use vstd::prelude::*;
use vstd::std_specs::iter::IteratorSpec;
use vstd::string::StringExecFns;

verus! {

broadcast use {vstd::std_specs::vec::group_vec_axioms, vstd::string::group_string_axioms};

/// How one character of a string is written between the quotes.
pub open spec fn escape_char(c: char) -> Seq<char> {
    if c == '"' {
        seq!['\\', '"']
    } else if c == '\\' {
        seq!['\\', '\\']
    } else if c == '\n' {
        seq!['\\', 'n']
    } else {
        seq![c]
    }
}

/// How the characters of a string are written between the quotes.
pub open spec fn escape(s: Seq<char>) -> Seq<char>
    decreases s.len(),
{
    if s.len() == 0 {
        Seq::empty()
    } else {
        escape_char(s[0]) + escape(s.skip(1))
    }
}

/// The text of a string: its escaped characters between double quotes.
pub open spec fn quoted(s: Seq<char>) -> Seq<char> {
    seq!['"'] + escape(s) + seq!['"']
}

/// The text of a key of a hash map: that of the string or keyword it
/// stands for.
pub open spec fn pr_key(k: DatumKey) -> Seq<char> {
    match k {
        DatumKey::Ks(s) => quoted(s),
        DatumKey::Kw(s) => seq![':'] + s,
    }
}

/// The canonical text of a value.
pub open spec fn pr(d: Datum) -> Seq<char>
    decreases d, 0int,
{
    match d {
        Datum::Nil => "nil"@,
        Datum::Str(s) => quoted(s),
        Datum::Bool(b) => if b {
            "true"@
        } else {
            "false"@
        },
        Datum::Int(i) => decimal(i as int),
        Datum::Sym(s) => s,
        Datum::Keyword(s) => seq![':'] + s,
        Datum::List(items) => seq!['('] + pr_items(items, items.len() as int) + seq![')'],
        Datum::Vector(items) => seq!['['] + pr_items(items, items.len() as int) + seq![']'],
        Datum::Hash(entries) => seq!['{'] + pr_entries(entries, entries.len() as int) + seq!['}'],
        Datum::Func(_) => "#<function>"@,
        Datum::Atom => "@"@,
    }
}

/// The texts of the first `n` values of `items`, with one space between
/// neighbours.
pub open spec fn pr_items(items: Seq<Datum>, n: int) -> Seq<char>
    decreases items, n,
{
    if n <= 0 || n > items.len() {
        Seq::empty()
    } else if n == 1 {
        pr(items[0])
    } else {
        pr_items(items, n - 1) + seq![' '] + pr(items[n - 1])
    }
}

/// The texts of the first `n` entries of a hash map: each key, a space and
/// its value, with one space between neighbours.
pub open spec fn pr_entries(entries: Seq<(DatumKey, Datum)>, n: int) -> Seq<char>
    decreases entries, n,
{
    if n <= 0 || n > entries.len() {
        Seq::empty()
    } else if n == 1 {
        pr_key(entries[0].0) + seq![' '] + pr(entries[0].1)
    } else {
        pr_entries(entries, n - 1) + seq![' '] + pr_key(entries[n - 1].0) + seq![' '] + pr(
            entries[n - 1].1,
        )
    }
}

/// The texts of `items`, with one space between neighbours.
pub open spec fn pr_seq(items: Seq<Datum>) -> Seq<char> {
    pr_items(items, items.len() as int)
}

/// Appends the escaped characters of `s` to `out`.
fn push_escaped(s: &str, out: &mut String)
    ensures
        final(out)@ == old(out)@ + escape(s@),
{
    let mut it = s.chars();
    let ghost mut seen: Seq<char> = Seq::empty();
    loop
        invariant
            it.obeys_prophetic_iter_laws(),
            it.decrease() is Some,
            seen + it.remaining() == s@,
            out@ + escape(it.remaining()) == old(out)@ + escape(s@),
        ensures
            out@ == old(out)@ + escape(s@),
        decreases it.decrease()->0,
    {
        let ghost rest = it.remaining();
        let ghost before = out@;
        match it.next() {
            Some(c) => {
                if c == '"' {
                    out.push('\\');
                    out.push('"');
                } else if c == '\\' {
                    out.push('\\');
                    out.push('\\');
                } else if c == '\n' {
                    out.push('\\');
                    out.push('n');
                } else {
                    out.push(c);
                }
                proof {
                    assert(rest.skip(1) =~= it.remaining());
                    assert(out@ =~= before + escape_char(c));
                    assert(out@ + escape(it.remaining()) =~= before + escape(rest));
                    seen = seen.push(c);
                    assert(seen + it.remaining() =~= s@);
                }
            },
            None => {
                assert(out@ + escape(rest) =~= out@);
                break;
            },
        }
    }
}

/// Appends the text of `key` to `out`.
fn pr_key_into(key: &MapKey, out: &mut String)
    ensures
        final(out)@ == old(out)@ + pr_key(key@),
{
    match key {
        MapKey::Ks(s) => {
            out.push('"');
            push_escaped(s.as_str(), out);
            out.push('"');
            assert(out@ =~= old(out)@ + pr_key(key@));
        },
        MapKey::Kw(s) => {
            out.push(':');
            out.append(s.as_str());
            assert(out@ =~= old(out)@ + pr_key(key@));
        },
    }
}

/// Appends the text of `v` to `out`.
fn pr_into(v: &MalVal, out: &mut String)
    ensures
        final(out)@ == old(out)@ + pr(v@),
    decreases v, 1int,
{
    proof {
        lemma_view_of_sequences(*v);
    }
    match v {
        MalVal::Nil => {
            out.append("nil");
        },
        MalVal::Str(s) => {
            out.push('"');
            push_escaped(s.as_str(), out);
            out.push('"');
            assert(out@ =~= old(out)@ + pr(v@));
        },
        MalVal::Bool(b) => {
            if *b {
                out.append("true");
            } else {
                out.append("false");
            }
        },
        MalVal::Int(i) => {
            push_decimal(*i, out);
        },
        MalVal::Sym(s) => {
            out.append(s.as_str());
        },
        MalVal::Keyword(s) => {
            out.push(':');
            out.append(s.as_str());
            assert(out@ =~= old(out)@ + pr(v@));
        },
        MalVal::List(items) => {
            out.push('(');
            assert(decreases_to!(*v => v->List_0));
            pr_items_into(items, out);
            out.push(')');
            assert(out@ =~= old(out)@ + pr(v@));
        },
        MalVal::Vector(items) => {
            out.push('[');
            assert(decreases_to!(*v => v->Vector_0));
            pr_items_into(items, out);
            out.push(']');
            assert(out@ =~= old(out)@ + pr(v@));
        },
        MalVal::Hash(entries) => {
            out.push('{');
            assert(decreases_to!(*v => v->Hash_0));
            pr_entries_into(entries, out);
            out.push('}');
            assert(out@ =~= old(out)@ + pr(v@));
        },
        MalVal::Func(_) => {
            out.append("#<function>");
        },
        MalVal::Atom => {
            out.append("@");
        },
    }
}

/// Appends the texts of `items`, separated by single spaces, to `out`.
fn pr_items_into(items: &Vec<MalVal>, out: &mut String)
    ensures
        final(out)@ == old(out)@ + pr_seq(views(items@)),
    decreases items, 0int,
{
    let ghost models = views(items@);
    let mut i: usize = 0;
    while i < items.len()
        invariant
            i <= items.len(),
            models == views(items@),
            out@ == old(out)@ + pr_items(models, i as int),
        decreases items.len() - i,
    {
        let ghost before = out@;
        if i > 0 {
            out.push(' ');
        }
        pr_into(&items[i], out);
        proof {
            assert(models[i as int] == items[i as int]@);
            assert(out@ =~= old(out)@ + pr_items(models, i + 1));
        }
        i += 1;
    }
}

/// Appends the texts of the entries of a hash map, separated by single
/// spaces, to `out`.
fn pr_entries_into(entries: &Vec<(MapKey, MalVal)>, out: &mut String)
    ensures
        final(out)@ == old(out)@ + pr_entries(entry_views(entries@), entries@.len() as int),
    decreases entries, 0int,
{
    let ghost models = entry_views(entries@);
    let mut i: usize = 0;
    while i < entries.len()
        invariant
            i <= entries.len(),
            models == entry_views(entries@),
            out@ == old(out)@ + pr_entries(models, i as int),
        decreases entries.len() - i,
    {
        if i > 0 {
            out.push(' ');
        }
        pr_key_into(&entries[i].0, out);
        out.push(' ');
        assert(decreases_to!(entries => entries[i as int]));
        assert(decreases_to!(entries[i as int] => entries[i as int].1));
        pr_into(&entries[i].1, out);
        proof {
            assert(models[i as int] == (entries[i as int].0@, entries[i as int].1@));
            assert(out@ =~= old(out)@ + pr_entries(models, i + 1));
        }
        i += 1;
    }
}

impl MalVal {
    /// The canonical text of this value.
    pub fn pr_str(&self) -> (s: String)
        ensures
            s@ == pr(self@),
    {
        let mut s = String::new();
        pr_into(self, &mut s);
        assert(s@ =~= pr(self@));
        s
    }
}

/// The texts of `v`, separated by single spaces.
pub fn print_seq(v: &Vec<MalVal>) -> (s: String)
    ensures
        s@ == pr_seq(views(v@)),
{
    let mut s = String::new();
    pr_items_into(v, &mut s);
    assert(s@ =~= pr_seq(views(v@)));
    s
}

} // verus!
