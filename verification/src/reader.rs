//! The reader: tokens to values.
//!
//! A form is an atom, a sequence between matching delimiters, or a prefix
//! token followed by the form that it applies to. Between its quotes a
//! string holds escapes: a backslash followed by `n` stands for a line
//! feed, a backslash followed by any other character stands for that
//! character, so `\"` is a double quote and `\\` a backslash.

use crate::laws::law_read_is_well_formed;
use crate::lexer::{texts, tokenize, tokens_of};
use crate::text::{from_chars, parse_integer, read_integer, same_text, to_chars};
use crate::types::{
    hash_map, hash_map_spec, list, read_outcome, vector, views, well_formed, Datum, MalArgs,
    MalVal, ReaderError,
};
use vstd::prelude::*;

verus! {

/// Whether `s` can stand between the quotes of a string: it holds no
/// double quote but behind a backslash, and every backslash has a
/// character behind it that is no line feed.
pub open spec fn string_body_ok(s: Seq<char>) -> bool
    decreases s.len(),
{
    if s.len() == 0 {
        true
    } else if s[0] == '"' {
        false
    } else if s[0] == '\\' {
        s.len() >= 2 && s[1] != '\n' && string_body_ok(s.skip(2))
    } else {
        string_body_ok(s.skip(1))
    }
}

/// Whether `t` is a whole string: an opening quote, an inside, a closing
/// quote.
pub open spec fn is_string_literal(t: Seq<char>) -> bool {
    t.len() >= 2 && t[0] == '"' && t.last() == '"' && string_body_ok(t.subrange(1, t.len() - 1))
}

/// The character that a backslash and `c` stand for.
pub open spec fn unescape_char(c: char) -> char {
    if c == 'n' {
        '\n'
    } else {
        c
    }
}

/// The characters that the inside of a string stands for.
pub open spec fn unescape(s: Seq<char>) -> Seq<char>
    decreases s.len(),
{
    if s.len() == 0 {
        Seq::empty()
    } else if s[0] == '\\' && s.len() >= 2 {
        seq![unescape_char(s[1])] + unescape(s.skip(2))
    } else {
        seq![s[0]] + unescape(s.skip(1))
    }
}

/// The value that an atom's token stands for, tried in this order: `nil`,
/// `true`, `false`; an integer that fits in 64 bits; a whole string; a
/// keyword, behind a colon; otherwise a symbol. A token that begins with a
/// double quote and is no whole string is refused.
pub open spec fn read_atom_spec(t: Seq<char>) -> Result<Datum, ReaderError> {
    if t == "nil"@ {
        Ok(Datum::Nil)
    } else if t == "true"@ {
        Ok(Datum::Bool(true))
    } else if t == "false"@ {
        Ok(Datum::Bool(false))
    } else if parse_integer(t) is Some {
        Ok(Datum::Int(parse_integer(t)->0))
    } else if is_string_literal(t) {
        Ok(Datum::Str(unescape(t.subrange(1, t.len() - 1))))
    } else if t.len() > 0 && t[0] == '"' {
        Err(ReaderError::UnterminatedString)
    } else if t.len() > 0 && t[0] == ':' {
        Ok(Datum::Keyword(t.skip(1)))
    } else {
        Ok(Datum::Sym(t))
    }
}

/// Whether `t` opens a sequence.
pub open spec fn is_opener(t: Seq<char>) -> bool {
    t == "("@ || t == "["@ || t == "{"@
}

/// Whether `t` closes a sequence.
pub open spec fn is_closer(t: Seq<char>) -> bool {
    t == ")"@ || t == "]"@ || t == "}"@
}

/// The token that closes what `t` opens.
pub open spec fn closer_of(t: Seq<char>) -> Seq<char> {
    if t == "("@ {
        ")"@
    } else if t == "["@ {
        "]"@
    } else {
        "}"@
    }
}

/// The symbol that a prefix token of one operand is short for.
pub open spec fn prefix_name(t: Seq<char>) -> Option<Seq<char>> {
    if t == "~@"@ {
        Some("splice-unquote"@)
    } else if t == "~"@ {
        Some("unquote"@)
    } else if t == "@"@ {
        Some("deref"@)
    } else if t == "'"@ {
        Some("quote"@)
    } else if t == "`"@ {
        Some("quasiquote"@)
    } else {
        None
    }
}

/// What reading one form gives, and where the reader then stands.
pub struct Parsed {
    pub out: Result<Datum, ReaderError>,
    pub pos: int,
}

/// What reading the forms of a sequence gives, and where the reader then
/// stands.
pub struct ParsedItems {
    pub out: Result<Seq<Datum>, ReaderError>,
    pub pos: int,
}

/// The sequence whose opening delimiter is the token at `pos`.
pub open spec fn read_list_spec(ts: Seq<Seq<char>>, pos: int) -> Parsed
    decreases ts.len() - pos, 0int,
{
    if pos < 0 || pos >= ts.len() {
        Parsed { out: Err(ReaderError::UnbalancedInput), pos }
    } else if !is_opener(ts[pos]) {
        Parsed { out: Err(ReaderError::UnexpectedToken), pos }
    } else {
        let items = read_items_spec(ts, pos + 1, closer_of(ts[pos]));
        match items.out {
            Err(e) => Parsed { out: Err(e), pos: items.pos },
            Ok(ds) => Parsed {
                out: if ts[pos] == "("@ {
                    Ok(Datum::List(ds))
                } else if ts[pos] == "["@ {
                    Ok(Datum::Vector(ds))
                } else {
                    hash_map_spec(ds)
                },
                pos: items.pos,
            },
        }
    }
}

/// The form that begins with the token at `pos`.
pub open spec fn read_form_spec(ts: Seq<Seq<char>>, pos: int) -> Parsed
    decreases ts.len() - pos, 1int,
{
    if pos < 0 || pos >= ts.len() {
        Parsed { out: Err(ReaderError::UnbalancedInput), pos }
    } else if is_opener(ts[pos]) {
        read_list_spec(ts, pos)
    } else if is_closer(ts[pos]) {
        Parsed { out: Err(ReaderError::UnexpectedToken), pos }
    } else if prefix_name(ts[pos]) is Some {
        let inner = read_form_spec(ts, pos + 1);
        match inner.out {
            Err(e) => inner,
            Ok(d) => Parsed {
                out: Ok(Datum::List(seq![Datum::Sym(prefix_name(ts[pos])->0), d])),
                pos: inner.pos,
            },
        }
    } else if ts[pos] == "^"@ {
        let meta = read_form_spec(ts, pos + 1);
        match meta.out {
            Err(e) => meta,
            Ok(m) => if pos < meta.pos <= ts.len() {
                let value = read_form_spec(ts, meta.pos);
                match value.out {
                    Err(e) => value,
                    Ok(v) => Parsed {
                        out: Ok(Datum::List(seq![Datum::Sym("with-meta"@), v, m])),
                        pos: value.pos,
                    },
                }
            } else {
                meta
            },
        }
    } else {
        Parsed { out: read_atom_spec(ts[pos]), pos: pos + 1 }
    }
}

/// The forms from `pos` up to the token `stop`, which is read too.
pub open spec fn read_items_spec(ts: Seq<Seq<char>>, pos: int, stop: Seq<char>) -> ParsedItems
    decreases ts.len() - pos, 2int,
{
    if pos < 0 || pos >= ts.len() {
        ParsedItems { out: Err(ReaderError::UnbalancedInput), pos }
    } else if ts[pos] == stop {
        ParsedItems { out: Ok(Seq::empty()), pos: pos + 1 }
    } else if is_closer(ts[pos]) {
        ParsedItems { out: Err(ReaderError::UnbalancedInput), pos }
    } else {
        let first = read_form_spec(ts, pos);
        match first.out {
            Err(e) => ParsedItems { out: Err(e), pos: first.pos },
            Ok(d) => if pos < first.pos <= ts.len() {
                let rest = read_items_spec(ts, first.pos, stop);
                match rest.out {
                    Err(e) => rest,
                    Ok(ds) => ParsedItems { out: Ok(seq![d] + ds), pos: rest.pos },
                }
            } else {
                ParsedItems { out: Err(ReaderError::UnbalancedInput), pos }
            },
        }
    }
}

/// The value that a text stands for: its first form. A text without a
/// token is refused.
pub open spec fn read_str_spec(text: Seq<char>) -> Result<Datum, ReaderError> {
    if tokens_of(text).len() == 0 {
        Err(ReaderError::EmptyInput)
    } else {
        read_form_spec(tokens_of(text), 0).out
    }
}

/// The model of a [`Reader`]: its tokens and the place of the next one.
pub struct ReaderView {
    pub tokens: Seq<Seq<char>>,
    pub position: int,
}

/// A sequence of tokens and a place in it.
pub struct Reader {
    tokens: Vec<String>,
    position: usize,
}

impl View for Reader {
    type V = ReaderView;

    closed spec fn view(&self) -> ReaderView {
        ReaderView { tokens: texts(self.tokens@), position: self.position as int }
    }
}

impl Reader {
    /// A reader that stands before the first of `tokens`.
    pub fn new(tokens: Vec<String>) -> (r: Reader)
        ensures
            r@.tokens == texts(tokens@),
            r@.position == 0,
    {
        Reader { tokens, position: 0 }
    }

    /// The token at place `i`. Past the last token the input has ended.
    pub fn get(&self, i: usize) -> (r: Result<String, ReaderError>)
        ensures
            i < self@.tokens.len() ==> (r matches Ok(t) && t@ == self@.tokens[i as int]),
            i >= self@.tokens.len() ==> r == Err::<String, ReaderError>(
                ReaderError::UnbalancedInput,
            ),
    {
        if i < self.tokens.len() {
            Ok(self.tokens[i].clone())
        } else {
            Err(ReaderError::UnbalancedInput)
        }
    }

    /// The next token; the reader moves past it. At the end of the tokens
    /// the reader stays where it is.
    pub fn next(&mut self) -> (r: Result<String, ReaderError>)
        ensures
            final(self)@.tokens == old(self)@.tokens,
            0 <= old(self)@.position < old(self)@.tokens.len() ==> (r matches Ok(t) && t@ == old(
                self,
            )@.tokens[old(self)@.position]) && final(self)@.position == old(self)@.position + 1,
            old(self)@.position >= old(self)@.tokens.len() ==> r == Err::<String, ReaderError>(
                ReaderError::UnbalancedInput,
            ) && final(self)@.position == old(self)@.position,
    {
        let r = self.get(self.position);
        if self.position < self.tokens.len() {
            self.position = self.position + 1;
        }
        r
    }

    /// The next token; the reader stays where it is.
    pub fn peek(&mut self) -> (r: Result<String, ReaderError>)
        ensures
            final(self)@ == old(self)@,
            0 <= old(self)@.position < old(self)@.tokens.len() ==> (r matches Ok(t) && t@ == old(
                self,
            )@.tokens[old(self)@.position]),
            old(self)@.position >= old(self)@.tokens.len() ==> r == Err::<String, ReaderError>(
                ReaderError::UnbalancedInput,
            ),
    {
        self.get(self.position)
    }
}

/// The characters that a whole string stands for; nothing if `chars` is no
/// whole string.
fn read_string(chars: &Vec<char>) -> (r: Option<String>)
    ensures
        is_string_literal(chars@) ==> (r matches Some(s) && s@ == unescape(
            chars@.subrange(1, chars@.len() - 1),
        )),
        !is_string_literal(chars@) ==> r is None,
{
    let n = chars.len();
    if n < 2 || chars[0] != '"' || chars[n - 1] != '"' {
        return None;
    }
    let ghost body = chars@.subrange(1, n - 1);
    let end = n - 1;
    let mut out = String::new();
    let mut k: usize = 1;
    assert(body.skip(0) =~= body);
    while k < end
        invariant
            1 <= k <= end,
            end == n - 1,
            n == chars.len(),
            body == chars@.subrange(1, n - 1),
            is_string_literal(chars@) == string_body_ok(body.skip(k - 1)),
            out@ + unescape(body.skip(k - 1)) == unescape(body),
        decreases end - k,
    {
        let ghost rest = body.skip(k - 1);
        let c = chars[k];
        assert(rest[0] == c);
        if c == '"' {
            return None;
        } else if c == '\\' {
            if k + 1 < end && chars[k + 1] != '\n' {
                let d = chars[k + 1];
                assert(rest[1] == d);
                assert(rest.skip(2) =~= body.skip(k + 1));
                out.push(
                    if d == 'n' {
                        '\n'
                    } else {
                        d
                    },
                );
                assert(out@ + unescape(body.skip(k + 1)) =~= unescape(body));
                k += 2;
            } else {
                assert(k + 1 < end ==> rest[1] == chars[k + 1]);
                return None;
            }
        } else {
            assert(rest.skip(1) =~= body.skip(k as int));
            out.push(c);
            assert(out@ + unescape(body.skip(k as int)) =~= unescape(body));
            k += 1;
        }
    }
    assert(out@ + unescape(body.skip(k - 1)) =~= out@);
    Some(out)
}

/// The atom at `pos`, if a token stands there.
pub open spec fn read_atom_at(ts: Seq<Seq<char>>, pos: int) -> Parsed {
    if 0 <= pos < ts.len() {
        Parsed { out: read_atom_spec(ts[pos]), pos: pos + 1 }
    } else {
        Parsed { out: Err(ReaderError::UnbalancedInput), pos }
    }
}

/// Reads the next token as an atom: see [`read_atom_spec`].
pub fn read_atom(r: &mut Reader) -> (res: Result<MalVal, ReaderError>)
    ensures
        final(r)@.tokens == old(r)@.tokens,
        read_outcome(res) == read_atom_at(old(r)@.tokens, old(r)@.position).out,
        final(r)@.position == read_atom_at(old(r)@.tokens, old(r)@.position).pos,
{
    let token = match r.next() {
        Ok(t) => t,
        Err(e) => {
            return Err(e);
        },
    };
    let t = token.as_str();
    if same_text(t, "nil") {
        return Ok(MalVal::Nil);
    }
    if same_text(t, "true") {
        return Ok(MalVal::Bool(true));
    }
    if same_text(t, "false") {
        return Ok(MalVal::Bool(false));
    }
    let chars = to_chars(t);
    match read_integer(&chars) {
        Some(i) => {
            return Ok(MalVal::Int(i));
        },
        None => {},
    }
    match read_string(&chars) {
        Some(s) => {
            return Ok(MalVal::Str(s));
        },
        None => {},
    }
    if chars.len() > 0 && chars[0] == '"' {
        Err(ReaderError::UnterminatedString)
    } else if chars.len() > 0 && chars[0] == ':' {
        let name = from_chars(&chars, 1, chars.len());
        assert(name@ =~= chars@.skip(1));
        Ok(MalVal::Keyword(name))
    } else {
        Ok(MalVal::Sym(token))
    }
}

/// Reads the operand of a prefix token and wraps it: the list of the
/// symbol `name` and the operand. The reader stands on the prefix token.
fn read_prefixed(r: &mut Reader, name: &str) -> (res: Result<MalVal, ReaderError>)
    requires
        0 <= old(r)@.position < old(r)@.tokens.len(),
        prefix_name(old(r)@.tokens[old(r)@.position]) == Some(name@),
        !is_opener(old(r)@.tokens[old(r)@.position]),
        !is_closer(old(r)@.tokens[old(r)@.position]),
    ensures
        final(r)@.tokens == old(r)@.tokens,
        read_outcome(res) == read_form_spec(old(r)@.tokens, old(r)@.position).out,
        final(r)@.position == read_form_spec(old(r)@.tokens, old(r)@.position).pos,
        res is Ok ==> old(r)@.position < final(r)@.position <= old(r)@.tokens.len(),
    decreases old(r)@.tokens.len() - old(r)@.position, 0int,
{
    let _ = r.next();
    let inner = match read_form(r) {
        Ok(v) => v,
        Err(e) => {
            return Err(e);
        },
    };
    let mut items: MalArgs = Vec::new();
    items.push(MalVal::Sym(name.to_owned()));
    items.push(inner);
    let v = list(items);
    assert(views(items@) =~= seq![Datum::Sym(name@), inner@]);
    Ok(v)
}

/// Reads the next form: see [`read_form_spec`].
pub fn read_form(r: &mut Reader) -> (res: Result<MalVal, ReaderError>)
    ensures
        final(r)@.tokens == old(r)@.tokens,
        read_outcome(res) == read_form_spec(old(r)@.tokens, old(r)@.position).out,
        final(r)@.position == read_form_spec(old(r)@.tokens, old(r)@.position).pos,
        res is Ok ==> old(r)@.position < final(r)@.position <= old(r)@.tokens.len(),
    decreases old(r)@.tokens.len() - old(r)@.position, 1int,
{
    let token = match r.peek() {
        Ok(t) => t,
        Err(e) => {
            return Err(e);
        },
    };
    let t = token.as_str();
    if same_text(t, "(") || same_text(t, "[") || same_text(t, "{") {
        read_list(r)
    } else if same_text(t, ")") || same_text(t, "]") || same_text(t, "}") {
        Err(ReaderError::UnexpectedToken)
    } else if same_text(t, "~@") {
        read_prefixed(r, "splice-unquote")
    } else if same_text(t, "~") {
        read_prefixed(r, "unquote")
    } else if same_text(t, "@") {
        read_prefixed(r, "deref")
    } else if same_text(t, "'") {
        read_prefixed(r, "quote")
    } else if same_text(t, "`") {
        read_prefixed(r, "quasiquote")
    } else if same_text(t, "^") {
        let _ = r.next();
        let meta = match read_form(r) {
            Ok(v) => v,
            Err(e) => {
                return Err(e);
            },
        };
        let value = match read_form(r) {
            Ok(v) => v,
            Err(e) => {
                return Err(e);
            },
        };
        let mut items: MalArgs = Vec::new();
        items.push(MalVal::Sym("with-meta".to_owned()));
        items.push(value);
        items.push(meta);
        let v = list(items);
        assert(views(items@) =~= seq![Datum::Sym("with-meta"@), value@, meta@]);
        Ok(v)
    } else {
        read_atom(r)
    }
}

/// The forms read so far, put before what reading the rest gives.
pub open spec fn items_after(done: Seq<Datum>, rest: ParsedItems) -> ParsedItems {
    match rest.out {
        Ok(ds) => ParsedItems { out: Ok(done + ds), pos: rest.pos },
        Err(e) => rest,
    }
}

/// Reads a sequence, from its opening delimiter to the matching closing
/// one: see [`read_list_spec`].
pub fn read_list(r: &mut Reader) -> (res: Result<MalVal, ReaderError>)
    ensures
        final(r)@.tokens == old(r)@.tokens,
        read_outcome(res) == read_list_spec(old(r)@.tokens, old(r)@.position).out,
        final(r)@.position == read_list_spec(old(r)@.tokens, old(r)@.position).pos,
        res is Ok ==> old(r)@.position < final(r)@.position <= old(r)@.tokens.len(),
    decreases old(r)@.tokens.len() - old(r)@.position, 0int,
{
    let start = match r.peek() {
        Ok(t) => t,
        Err(e) => {
            return Err(e);
        },
    };
    let round = same_text(start.as_str(), "(");
    let square = same_text(start.as_str(), "[");
    let stop = if round {
        ")"
    } else if square {
        "]"
    } else if same_text(start.as_str(), "{") {
        "}"
    } else {
        return Err(ReaderError::UnexpectedToken);
    };
    let _ = r.next();
    let ghost ts = r@.tokens;
    let ghost first = r@.position;
    let mut seq: MalArgs = Vec::new();
    assert(views(seq@) =~= Seq::empty());
    loop
        invariant_except_break
            read_items_spec(ts, first, stop@) == items_after(
                views(seq@),
                read_items_spec(ts, r@.position, stop@),
            ),
        invariant
            r@.tokens == ts,
            ts == old(r)@.tokens,
            first == old(r)@.position + 1,
            first <= r@.position,
            0 <= old(r)@.position < ts.len(),
            is_opener(ts[old(r)@.position]),
            round == (ts[old(r)@.position] == "("@),
            square == (ts[old(r)@.position] == "["@),
            stop@ == closer_of(ts[old(r)@.position]),
            is_closer(stop@),
        ensures
            r@.tokens == ts,
            read_items_spec(ts, first, stop@).out == Ok::<Seq<Datum>, ReaderError>(views(seq@)),
            r@.position == read_items_spec(ts, first, stop@).pos,
            first < r@.position <= ts.len(),
        decreases ts.len() - r@.position,
    {
        let n = match r.peek() {
            Ok(t) => t,
            Err(e) => {
                return Err(e);
            },
        };
        if same_text(n.as_str(), stop) {
            let _ = r.next();
            assert(views(seq@) + Seq::<Datum>::empty() =~= views(seq@));
            break;
        }
        if same_text(n.as_str(), ")") || same_text(n.as_str(), "]") || same_text(n.as_str(), "}") {
            return Err(ReaderError::UnbalancedInput);
        }
        let ghost before = views(seq@);
        let ghost here = r@.position;
        let mv = match read_form(r) {
            Ok(v) => v,
            Err(e) => {
                return Err(e);
            },
        };
        seq.push(mv);
        proof {
            assert(views(seq@) =~= before.push(mv@));
            let rest = read_items_spec(ts, r@.position, stop@);
            match rest.out {
                Ok(ds) => {
                    assert(before + (seq![mv@] + ds) =~= views(seq@) + ds);
                },
                Err(e) => {},
            }
        }
    }
    if round {
        Ok(list(seq))
    } else if square {
        Ok(vector(seq))
    } else {
        hash_map(seq)
    }
}

/// Reads the first form of a text: see [`read_str_spec`].
pub fn read_str(s: String) -> (res: Result<MalVal, ReaderError>)
    ensures
        read_outcome(res) == read_str_spec(s@),
        res matches Ok(v) ==> well_formed(v@),
{
    proof {
        law_read_is_well_formed(tokens_of(s@), 0);
    }
    let tokens = tokenize(&s);
    if tokens.len() == 0 {
        return Err(ReaderError::EmptyInput);
    }
    let mut reader = Reader::new(tokens);
    read_form(&mut reader)
}

} // verus!
