//! The values of the language, the keys of its hash maps, its errors, and
//! the mathematical model that the contracts of this crate speak about.

use crate::laws::law_hash_map_is_well_formed;
use crate::printer::pr;
use crate::text::{decimal, integer_text};
use std::rc::Rc;
use vstd::prelude::*;
use vstd::string::StringExecFns;

verus! {

broadcast use vstd::std_specs::vec::group_vec_axioms;

/// The model of a [`MapKey`].
pub enum DatumKey {
    Ks(Seq<char>),
    Kw(Seq<char>),
}

/// The model of a [`MalVal`]: strings are sequences of characters, lists and
/// vectors are sequences of models, a hash map is the sequence of its
/// entries in the order in which their keys were first inserted.
pub enum Datum {
    Nil,
    Str(Seq<char>),
    Bool(bool),
    Int(i64),
    Sym(Seq<char>),
    Keyword(Seq<char>),
    List(Seq<Datum>),
    Vector(Seq<Datum>),
    Hash(Seq<(DatumKey, Datum)>),
    Func(Builtin),
    Atom,
}

/// A key of a hash map: a string or a keyword.
#[derive(Debug, PartialEq, Eq, Hash)]
pub enum MapKey {
    Ks(String),
    Kw(String),
}

/// The native functions that a value can hold.
#[derive(Debug, Clone, Copy, PartialEq, Eq, Structural)]
pub enum Builtin {
    Add,
    Sub,
    Mul,
    Div,
}

/// A value of the language. Lists, vectors and hash maps are shared, never
/// copied: a clone of a value holds the same sequence.
#[derive(Debug, PartialEq, Eq)]
pub enum MalVal {
    Nil,
    Str(String),
    Bool(bool),
    Int(i64),
    Sym(String),
    Keyword(String),
    List(Rc<Vec<MalVal>>),
    Vector(Rc<Vec<MalVal>>),
    Hash(Rc<Vec<(MapKey, MalVal)>>),
    Func(Builtin),
    Atom,
}

pub type MalArgs = Vec<MalVal>;

impl View for MapKey {
    type V = DatumKey;

    open spec fn view(&self) -> DatumKey {
        match self {
            MapKey::Ks(s) => DatumKey::Ks(s@),
            MapKey::Kw(s) => DatumKey::Kw(s@),
        }
    }
}

impl MalVal {
    /// The model of this value.
    pub open spec fn view(&self) -> Datum
        decreases self,
    {
        match self {
            MalVal::Nil => Datum::Nil,
            MalVal::Str(s) => Datum::Str(s@),
            MalVal::Bool(b) => Datum::Bool(*b),
            MalVal::Int(i) => Datum::Int(*i),
            MalVal::Sym(s) => Datum::Sym(s@),
            MalVal::Keyword(s) => Datum::Keyword(s@),
            MalVal::List(items) => Datum::List(
                Seq::new(
                    items@.len(),
                    |i: int|
                        if 0 <= i < items@.len() {
                            items@[i].view()
                        } else {
                            Datum::Nil
                        },
                ),
            ),
            MalVal::Vector(items) => Datum::Vector(
                Seq::new(
                    items@.len(),
                    |i: int|
                        if 0 <= i < items@.len() {
                            items@[i].view()
                        } else {
                            Datum::Nil
                        },
                ),
            ),
            MalVal::Hash(entries) => Datum::Hash(
                Seq::new(
                    entries@.len(),
                    |i: int|
                        if 0 <= i < entries@.len() {
                            (entries@[i].0@, entries@[i].1.view())
                        } else {
                            (DatumKey::Ks(Seq::empty()), Datum::Nil)
                        },
                ),
            ),
            MalVal::Func(f) => Datum::Func(*f),
            MalVal::Atom => Datum::Atom,
        }
    }
}

/// The models of a sequence of values, in order.
pub open spec fn views(items: Seq<MalVal>) -> Seq<Datum> {
    Seq::new(items.len(), |i: int| items[i]@)
}

/// The models of the entries of a hash map, in order.
pub open spec fn entry_views(entries: Seq<(MapKey, MalVal)>) -> Seq<(DatumKey, Datum)> {
    Seq::new(entries.len(), |i: int| (entries[i].0@, entries[i].1@))
}

/// What the model of a list, a vector and a hash map is, over `views` and
/// `entry_views`.
pub proof fn lemma_view_of_sequences(v: MalVal)
    ensures
        v matches MalVal::List(items) ==> v@ == Datum::List(views(items@)),
        v matches MalVal::Vector(items) ==> v@ == Datum::Vector(views(items@)),
        v matches MalVal::Hash(entries) ==> v@ == Datum::Hash(entry_views(entries@)),
{
    match v {
        MalVal::List(items) => {
            assert(v@->List_0 =~= views(items@));
        },
        MalVal::Vector(items) => {
            assert(v@->Vector_0 =~= views(items@));
        },
        MalVal::Hash(entries) => {
            assert(v@->Hash_0 =~= entry_views(entries@));
        },
        _ => {},
    }
}

/// A clone of a key is the same key.
impl Clone for MapKey {
    fn clone(&self) -> (r: Self)
        ensures
            r == *self,
    {
        match self {
            MapKey::Ks(s) => MapKey::Ks(s.clone()),
            MapKey::Kw(s) => MapKey::Kw(s.clone()),
        }
    }
}

/// `Rc::clone` of the standard library hands back a second handle to the
/// same allocation: what it points to is what `rc` points to.
#[verifier::external_body]
fn share<T>(rc: &Rc<T>) -> (r: Rc<T>)
    ensures
        r == *rc,
{
    Rc::clone(rc)
}

/// A clone of a value is the same value: strings are copied, lists,
/// vectors and hash maps are shared.
impl Clone for MalVal {
    fn clone(&self) -> (r: Self)
        ensures
            r == *self,
    {
        match self {
            MalVal::Nil => MalVal::Nil,
            MalVal::Str(s) => MalVal::Str(s.clone()),
            MalVal::Bool(b) => MalVal::Bool(*b),
            MalVal::Int(i) => MalVal::Int(*i),
            MalVal::Sym(s) => MalVal::Sym(s.clone()),
            MalVal::Keyword(s) => MalVal::Keyword(s.clone()),
            MalVal::List(items) => MalVal::List(share(items)),
            MalVal::Vector(items) => MalVal::Vector(share(items)),
            MalVal::Hash(entries) => MalVal::Hash(share(entries)),
            MalVal::Func(f) => MalVal::Func(*f),
            MalVal::Atom => MalVal::Atom,
        }
    }
}

/// The list that holds `items`.
pub fn list(items: MalArgs) -> (v: MalVal)
    ensures
        v@ == Datum::List(views(items@)),
{
    let v = MalVal::List(Rc::new(items));
    proof {
        lemma_view_of_sequences(v);
    }
    v
}

/// The vector that holds `items`.
pub fn vector(items: MalArgs) -> (v: MalVal)
    ensures
        v@ == Datum::Vector(views(items@)),
{
    let v = MalVal::Vector(Rc::new(items));
    proof {
        lemma_view_of_sequences(v);
    }
    v
}

/// Why a text could not be read.
#[derive(Debug, Clone, Copy, PartialEq, Eq, Structural)]
pub enum ReaderError {
    /// The text holds no token.
    EmptyInput,
    /// The tokens end where a form or a closing delimiter must follow, or a
    /// sequence is closed by the delimiter of another kind.
    UnbalancedInput,
    /// A closing delimiter stands where a form must begin.
    UnexpectedToken,
    /// A hash map is written with an odd number of forms.
    UnbalancedMap,
    /// A string has no closing quote.
    UnterminatedString,
    /// A key of a hash map is neither a string nor a keyword.
    InvalidMapKey,
}

/// Why a form could not be evaluated.
#[derive(Debug, PartialEq, Eq)]
pub enum EvalError {
    /// A special form or a function got fewer forms than it needs.
    ArityError,
    /// The bindings of `let*` are odd in number.
    BindingMismatch,
    /// What is to be bound is not a symbol, or the bindings of `let*` are
    /// neither a list nor a vector.
    InvalidBinding,
    /// The head of a call is a symbol that no frame binds.
    NotFound(String),
    /// The head of a call is neither a function nor a symbol.
    NotCallable,
    /// A function got an argument that it cannot take, or its result does
    /// not fit an integer.
    TypeMismatch,
}

/// The model of an [`EvalError`].
pub enum EvalFault {
    ArityError,
    BindingMismatch,
    InvalidBinding,
    NotFound(Seq<char>),
    NotCallable,
    TypeMismatch,
}

impl View for EvalError {
    type V = EvalFault;

    open spec fn view(&self) -> EvalFault {
        match self {
            EvalError::ArityError => EvalFault::ArityError,
            EvalError::BindingMismatch => EvalFault::BindingMismatch,
            EvalError::InvalidBinding => EvalFault::InvalidBinding,
            EvalError::NotFound(name) => EvalFault::NotFound(name@),
            EvalError::NotCallable => EvalFault::NotCallable,
            EvalError::TypeMismatch => EvalFault::TypeMismatch,
        }
    }
}

/// A failure as its caller sees it: a message, or a value.
#[derive(Debug, PartialEq, Eq)]
pub enum MalErr {
    ErrString(String),
    ErrMalVal(MalVal),
}

pub type MalRet = Result<MalVal, MalErr>;

/// The model of what reading returned.
pub open spec fn read_outcome(r: Result<MalVal, ReaderError>) -> Result<Datum, ReaderError> {
    match r {
        Ok(v) => Ok(v@),
        Err(e) => Err(e),
    }
}

/// The model of what evaluating returned.
pub open spec fn eval_outcome(r: Result<MalVal, EvalError>) -> Result<Datum, EvalFault> {
    match r {
        Ok(v) => Ok(v@),
        Err(e) => Err(e@),
    }
}

/// The failure whose message is `s`.
pub fn error(s: &str) -> (r: MalRet)
    ensures
        r matches Err(MalErr::ErrString(m)) && m@ == s@,
{
    Err(MalErr::ErrString(s.to_owned()))
}

/// The message of a failure: its text, or the text of the value it holds.
pub open spec fn failure_text(e: MalErr) -> Seq<char> {
    match e {
        MalErr::ErrString(s) => s@,
        MalErr::ErrMalVal(v) => pr(v@),
    }
}

/// The message of `e`.
pub fn format_error(e: MalErr) -> (s: String)
    ensures
        s@ == failure_text(e),
{
    match e {
        MalErr::ErrString(s) => s,
        MalErr::ErrMalVal(mv) => mv.pr_str(),
    }
}

/// The message of a reader's error.
pub open spec fn reader_message(e: ReaderError) -> Seq<char> {
    match e {
        ReaderError::EmptyInput => "no input"@,
        ReaderError::UnbalancedInput => "reader: end of input"@,
        ReaderError::UnexpectedToken => "reader: unexpected closing delimiter"@,
        ReaderError::UnbalancedMap => "reader: hashmap is unbalanced"@,
        ReaderError::UnterminatedString => "expected '\"', got EOF"@,
        ReaderError::InvalidMapKey => "hashmap: key is not a string nor a keyword"@,
    }
}

/// The message of an evaluator's error.
pub open spec fn eval_message(e: EvalFault) -> Seq<char> {
    match e {
        EvalFault::ArityError => "insufficient arguments"@,
        EvalFault::BindingMismatch => "let* bindings: mismatch"@,
        EvalFault::InvalidBinding => "binding is not a symbol"@,
        EvalFault::NotFound(name) => seq!['\''] + name + "' not found"@,
        EvalFault::NotCallable => "not a function"@,
        EvalFault::TypeMismatch => "operand out of the function's domain"@,
    }
}

impl ReaderError {
    /// The failure that a caller sees for this error.
    pub fn failure(&self) -> (e: MalErr)
        ensures
            e matches MalErr::ErrString(m) && m@ == reader_message(*self),
    {
        let text = match self {
            ReaderError::EmptyInput => "no input",
            ReaderError::UnbalancedInput => "reader: end of input",
            ReaderError::UnexpectedToken => "reader: unexpected closing delimiter",
            ReaderError::UnbalancedMap => "reader: hashmap is unbalanced",
            ReaderError::UnterminatedString => "expected '\"', got EOF",
            ReaderError::InvalidMapKey => "hashmap: key is not a string nor a keyword",
        };
        MalErr::ErrString(text.to_owned())
    }
}

impl EvalError {
    /// The failure that a caller sees for this error.
    pub fn failure(&self) -> (e: MalErr)
        ensures
            e matches MalErr::ErrString(m) && m@ == eval_message(self@),
    {
        let text = match self {
            EvalError::ArityError => "insufficient arguments".to_owned(),
            EvalError::BindingMismatch => "let* bindings: mismatch".to_owned(),
            EvalError::InvalidBinding => "binding is not a symbol".to_owned(),
            EvalError::NotFound(name) => {
                let mut text = String::new();
                text.push('\'');
                text.append(name.as_str());
                text.append("' not found");
                assert(text@ =~= eval_message(self@));
                text
            },
            EvalError::NotCallable => "not a function".to_owned(),
            EvalError::TypeMismatch => "operand out of the function's domain".to_owned(),
        };
        MalErr::ErrString(text)
    }
}

/// The name of a key of a hash map: a string as it is, a keyword behind a
/// colon.
pub open spec fn key_name(k: DatumKey) -> Seq<char> {
    match k {
        DatumKey::Ks(s) => s,
        DatumKey::Kw(s) => seq![':'] + s,
    }
}

/// The name of a value: what a string, symbol or keyword holds, the decimal
/// text of an integer, `true` or `false`, and for any other value the name
/// of its kind.
pub open spec fn name_of(d: Datum) -> Seq<char> {
    match d {
        Datum::Nil => "Nil"@,
        Datum::Str(s) => s,
        Datum::Sym(s) => s,
        Datum::Keyword(s) => s,
        Datum::Bool(b) => if b {
            "true"@
        } else {
            "false"@
        },
        Datum::Int(i) => decimal(i as int),
        Datum::List(_) => "List"@,
        Datum::Vector(_) => "Vector"@,
        Datum::Hash(_) => "Hash"@,
        Datum::Func(_) => "Func"@,
        Datum::Atom => "Atom"@,
    }
}

/// The value that a key stands for.
pub open spec fn key_datum(k: DatumKey) -> Datum {
    match k {
        DatumKey::Ks(s) => Datum::Str(s),
        DatumKey::Kw(s) => Datum::Keyword(s),
    }
}

/// The key that a value can be, if it is a string or a keyword.
pub open spec fn key_of(d: Datum) -> Option<DatumKey> {
    match d {
        Datum::Str(s) => Some(DatumKey::Ks(s)),
        Datum::Keyword(s) => Some(DatumKey::Kw(s)),
        _ => None,
    }
}

impl MapKey {
    /// The name of this key.
    pub fn to_string(&self) -> (s: String)
        ensures
            s@ == key_name(self@),
    {
        match self {
            MapKey::Ks(s) => s.clone(),
            MapKey::Kw(s) => {
                let mut text = String::new();
                text.push(':');
                text.append(s.as_str());
                assert(text@ =~= key_name(self@));
                text
            },
        }
    }

    /// The value that this key stands for.
    pub fn mal_val(&self) -> (v: MalVal)
        ensures
            v@ == key_datum(self@),
    {
        match self {
            MapKey::Ks(s) => MalVal::Str(s.clone()),
            MapKey::Kw(s) => MalVal::Keyword(s.clone()),
        }
    }

    /// Whether two keys are the same key.
    pub fn same(&self, other: &MapKey) -> (r: bool)
        ensures
            r == (self@ == other@),
    {
        match (self, other) {
            (MapKey::Ks(a), MapKey::Ks(b)) => *a == *b,
            (MapKey::Kw(a), MapKey::Kw(b)) => *a == *b,
            _ => false,
        }
    }
}

impl MalVal {
    /// The name of this value.
    pub fn to_string(&self) -> (s: String)
        ensures
            s@ == name_of(self@),
    {
        match self {
            MalVal::Nil => "Nil".to_owned(),
            MalVal::Str(s) => s.clone(),
            MalVal::Sym(s) => s.clone(),
            MalVal::Keyword(s) => s.clone(),
            MalVal::Bool(b) => if *b {
                "true".to_owned()
            } else {
                "false".to_owned()
            },
            MalVal::Int(i) => integer_text(*i),
            MalVal::List(_) => "List".to_owned(),
            MalVal::Vector(_) => "Vector".to_owned(),
            MalVal::Hash(_) => "Hash".to_owned(),
            MalVal::Func(_) => "Func".to_owned(),
            MalVal::Atom => "Atom".to_owned(),
        }
    }
}

/// Where `k` first stands in `entries`, or their number if it stands
/// nowhere.
pub open spec fn key_index(entries: Seq<(DatumKey, Datum)>, k: DatumKey) -> int
    decreases entries.len(),
{
    if entries.len() == 0 || entries[0].0 == k {
        0
    } else {
        1 + key_index(entries.skip(1), k)
    }
}

/// The entries after `k` got the value `v`: the entry of `k` holds `v` where
/// it stood, or a new entry comes last.
pub open spec fn put(entries: Seq<(DatumKey, Datum)>, k: DatumKey, v: Datum) -> Seq<
    (DatumKey, Datum),
> {
    let i = key_index(entries, k);
    if i < entries.len() {
        entries.update(i, (k, v))
    } else {
        entries.push((k, v))
    }
}

/// The entries that the first `n` pairs of `items` make, each pair a key
/// and its value, later pairs overwriting earlier ones; none if one of
/// these keys is neither a string nor a keyword.
pub open spec fn assoc(items: Seq<Datum>, n: int) -> Option<Seq<(DatumKey, Datum)>>
    decreases n,
{
    if n <= 0 {
        Some(Seq::empty())
    } else {
        match (assoc(items, n - 1), key_of(items[2 * n - 2])) {
            (Some(entries), Some(k)) => Some(put(entries, k, items[2 * n - 1])),
            _ => None,
        }
    }
}

/// The hash map that a sequence of alternating keys and values makes.
pub open spec fn hash_map_spec(items: Seq<Datum>) -> Result<Datum, ReaderError> {
    if items.len() % 2 != 0 {
        Err(ReaderError::UnbalancedMap)
    } else {
        match assoc(items, items.len() as int / 2) {
            Some(entries) => Ok(Datum::Hash(entries)),
            None => Err(ReaderError::InvalidMapKey),
        }
    }
}

/// Whether no key stands twice in `entries`.
pub open spec fn distinct_keys(entries: Seq<(DatumKey, Datum)>) -> bool {
    forall|i: int, j: int|
        0 <= i < j < entries.len() ==> (#[trigger] entries[i]).0 != (#[trigger] entries[j]).0
}

/// Whether every hash map in `d`, at any depth, holds each of its keys
/// once.
pub open spec fn well_formed(d: Datum) -> bool
    decreases d,
{
    match d {
        Datum::List(xs) => forall|i: int| 0 <= i < xs.len() ==> well_formed(#[trigger] xs[i]),
        Datum::Vector(xs) => forall|i: int| 0 <= i < xs.len() ==> well_formed(#[trigger] xs[i]),
        Datum::Hash(es) => distinct_keys(es) && forall|i: int|
            0 <= i < es.len() ==> well_formed((#[trigger] es[i]).1),
        _ => true,
    }
}

/// Whether every value of `xs` is well formed.
pub open spec fn all_well_formed(xs: Seq<Datum>) -> bool {
    forall|i: int| 0 <= i < xs.len() ==> well_formed(#[trigger] xs[i])
}

/// `key_index` is the first place that holds the key.
pub proof fn lemma_key_index(entries: Seq<(DatumKey, Datum)>, k: DatumKey)
    ensures
        0 <= key_index(entries, k) <= entries.len(),
        key_index(entries, k) < entries.len() ==> entries[key_index(entries, k)].0 == k,
        forall|j: int| 0 <= j < key_index(entries, k) ==> (#[trigger] entries[j]).0 != k,
    decreases entries.len(),
{
    if entries.len() == 0 || entries[0].0 == k {
    } else {
        let rest = entries.skip(1);
        lemma_key_index(rest, k);
        assert forall|j: int| 0 <= j < key_index(entries, k) implies (#[trigger] entries[j]).0
            != k by {
            if j > 0 {
                assert(entries[j] == rest[j - 1]);
            }
        }
    }
}

/// The first place that holds the key is `key_index`.
pub proof fn lemma_key_index_is(entries: Seq<(DatumKey, Datum)>, k: DatumKey, i: int)
    requires
        0 <= i <= entries.len(),
        i < entries.len() ==> entries[i].0 == k,
        forall|j: int| 0 <= j < i ==> (#[trigger] entries[j]).0 != k,
    ensures
        key_index(entries, k) == i,
{
    lemma_key_index(entries, k);
    let found = key_index(entries, k);
    if found < i {
        assert(entries[found].0 != k);
    }
}

/// Giving a key a value keeps the keys apart.
pub proof fn lemma_put_keeps_keys_distinct(
    entries: Seq<(DatumKey, Datum)>,
    k: DatumKey,
    v: Datum,
)
    requires
        distinct_keys(entries),
    ensures
        distinct_keys(put(entries, k, v)),
{
    lemma_key_index(entries, k);
    let i = key_index(entries, k);
    let after = put(entries, k, v);
    assert forall|a: int, b: int| 0 <= a < b < after.len() implies (#[trigger] after[a]).0 != (
    #[trigger] after[b]).0 by {
        if i < entries.len() {
            assert(after[a].0 == entries[a].0);
            assert(after[b].0 == entries[b].0);
        } else {
            if b < entries.len() {
                assert(after[a] == entries[a]);
                assert(after[b] == entries[b]);
            } else {
                assert(after[a] == entries[a]);
            }
        }
    }
}

/// The entries that pairs make hold no key twice.
pub proof fn lemma_assoc_keys_distinct(items: Seq<Datum>, n: int)
    ensures
        assoc(items, n) matches Some(entries) ==> distinct_keys(entries),
    decreases n,
{
    if n > 0 {
        lemma_assoc_keys_distinct(items, n - 1);
        match (assoc(items, n - 1), key_of(items[2 * n - 2])) {
            (Some(entries), Some(k)) => {
                lemma_put_keeps_keys_distinct(entries, k, items[2 * n - 1]);
            },
            _ => {},
        }
    }
}

/// Once a key is refused, more pairs do not mend it.
pub proof fn lemma_assoc_stays_none(items: Seq<Datum>, n: int, m: int)
    requires
        assoc(items, n) is None,
        n <= m,
    ensures
        assoc(items, m) is None,
    decreases m - n,
{
    if n < m {
        lemma_assoc_stays_none(items, n, m - 1);
    }
}

/// Gives `key` the value `val` in `entries`.
fn put_entry(entries: &mut Vec<(MapKey, MalVal)>, key: MapKey, val: MalVal)
    ensures
        entry_views(final(entries)@) == put(entry_views(old(entries)@), key@, val@),
{
    let ghost before = entry_views(entries@);
    let n = entries.len();
    let mut i: usize = 0;
    while i < n && !entries[i].0.same(&key)
        invariant
            i <= n,
            n == entries.len(),
            before == entry_views(entries@),
            forall|j: int| 0 <= j < i ==> (#[trigger] before[j]).0 != key@,
        decreases n - i,
    {
        assert(before[i as int].0 == entries[i as int].0@);
        i += 1;
    }
    proof {
        if i < n {
            assert(before[i as int].0 == entries[i as int].0@);
        }
        lemma_key_index_is(before, key@, i as int);
    }
    if i < n {
        entries.set(i, (key, val));
    } else {
        entries.push((key, val));
    }
    assert(entry_views(entries@) =~= put(before, key@, val@));
}

/// The hash map that `kvs` makes, a sequence of alternating keys and
/// values. Where a key comes again, its new value takes the place of the
/// old one. An odd number of forms is refused, and so is a key that is
/// neither a string nor a keyword.
pub fn hash_map(kvs: MalArgs) -> (r: Result<MalVal, ReaderError>)
    ensures
        read_outcome(r) == hash_map_spec(views(kvs@)),
        r matches Ok(MalVal::Hash(entries)) ==> distinct_keys(entry_views(entries@)),
        all_well_formed(views(kvs@)) ==> (r matches Ok(v) ==> well_formed(v@)),
{
    proof {
        if all_well_formed(views(kvs@)) {
            law_hash_map_is_well_formed(views(kvs@));
        }
    }
    let n = kvs.len();
    if n % 2 != 0 {
        return Err(ReaderError::UnbalancedMap);
    }
    let ghost items = views(kvs@);
    let pairs = n / 2;
    let mut entries: Vec<(MapKey, MalVal)> = Vec::new();
    let mut i: usize = 0;
    assert(entry_views(entries@) =~= Seq::empty());
    while i < pairs
        invariant
            i <= pairs,
            pairs * 2 == kvs.len(),
            items == views(kvs@),
            assoc(items, i as int) == Some(entry_views(entries@)),
        decreases pairs - i,
    {
        let key = match &kvs[2 * i] {
            MalVal::Str(s) => MapKey::Ks(s.clone()),
            MalVal::Keyword(s) => MapKey::Kw(s.clone()),
            _ => {
                proof {
                    assert(key_of(items[2 * i as int]) is None);
                    assert(assoc(items, i + 1) is None);
                    lemma_assoc_stays_none(items, i + 1, pairs as int);
                }
                return Err(ReaderError::InvalidMapKey);
            },
        };
        let val = kvs[2 * i + 1].clone();
        assert(key_of(items[2 * i as int]) == Some(key@));
        put_entry(&mut entries, key, val);
        i += 1;
    }
    let v = MalVal::Hash(Rc::new(entries));
    proof {
        lemma_view_of_sequences(v);
        lemma_assoc_keys_distinct(items, pairs as int);
    }
    Ok(v)
}

} // verus!
