//! Environments: a frame that binds names to values, and the frames around
//! it. The model of an environment is the sequence of its frames, the
//! current frame first and the root last.

use crate::types::{well_formed, Datum, EvalError, MalVal};
use fnv::FnvHashMap;
use vstd::prelude::*;

verus! {

/// `fnv::FnvHasher`, the hasher of a frame's table. Nothing is said of it.
#[verifier::external_type_specification]
#[verifier::external_body]
pub struct ExFnvHasher(fnv::FnvHasher);

/// `BuildHasherDefault` of the standard library, through which
/// `fnv::FnvHashMap` makes its hashers. Nothing is said of it.
#[verifier::external_type_specification]
#[verifier::external_body]
#[verifier::reject_recursive_types(H)]
pub struct ExBuildHasherDefault<H>(core::hash::BuildHasherDefault<H>);

/// What a frame's table holds: under the characters of each name that has
/// an entry, the model of the value stored there.
pub uninterp spec fn bindings(table: FnvHashMap<String, MalVal>) -> Map<Seq<char>, Datum>;

/// The model of one frame.
pub type Frame = Map<Seq<char>, Datum>;

/// The model of an environment.
pub type Scopes = Seq<Map<Seq<char>, Datum>>;

/// The frame that binds nothing.
pub open spec fn empty_frame() -> Frame {
    Map::empty()
}

/// `FnvHashMap::default()`: the table that `Default` makes for a
/// `HashMap` with the hasher of `fnv` has no entry.
#[verifier::external_body]
fn table_new() -> (table: FnvHashMap<String, MalVal>)
    ensures
        bindings(table) == empty_frame(),
{
    FnvHashMap::default()
}

/// `HashMap::insert` on a table of `fnv`: afterwards `name` has the entry
/// `val`, whether or not it had one before, and every other name has what
/// it had.
#[verifier::external_body]
fn table_insert(table: &mut FnvHashMap<String, MalVal>, name: String, val: MalVal)
    ensures
        bindings(*final(table)) == bindings(*old(table)).insert(name@, val@),
{
    table.insert(name, val);
}

/// `HashMap::get` on a table of `fnv`: the value stored under `name`, or
/// nothing if `name` has no entry.
#[verifier::external_body]
fn table_get<'a>(table: &'a FnvHashMap<String, MalVal>, name: &String) -> (r: Option<&'a MalVal>)
    ensures
        r matches Some(v) ==> bindings(*table).contains_key(name@) && v@ == bindings(*table)[name@],
        r is None ==> !bindings(*table).contains_key(name@),
{
    table.get(name)
}

/// The frames of a new environment around `outer`: an empty frame, then
/// those of `outer`.
pub open spec fn nested(outer: Scopes) -> Scopes {
    seq![empty_frame()] + outer
}

/// The frames after `name` got the value `v` in the current frame.
pub open spec fn bind(scopes: Scopes, name: Seq<char>, v: Datum) -> Scopes {
    scopes.update(0, scopes[0].insert(name, v))
}

/// What `name` means: the value under it in the first frame that binds it,
/// or the symbol itself where no frame does.
pub open spec fn lookup(scopes: Scopes, name: Seq<char>) -> Datum
    decreases scopes.len(),
{
    if scopes.len() == 0 {
        Datum::Sym(name)
    } else if scopes[0].contains_key(name) {
        scopes[0][name]
    } else {
        lookup(scopes.skip(1), name)
    }
}

/// Whether every value that an environment holds is well formed.
pub open spec fn scopes_well_formed(env: Scopes) -> bool {
    forall|i: int, name: Seq<char>|
        0 <= i < env.len() && (#[trigger] env[i].contains_key(name)) ==> well_formed(env[i][name])
}

/// A frame of bindings and the environment around it.
#[derive(Debug)]
pub struct Env {
    data: FnvHashMap<String, MalVal>,
    outer: Option<Box<Env>>,
}

/// A new environment around `outer`, or a root if there is none. Its own
/// frame is empty.
pub fn make_env(outer: Option<Env>) -> (env: Env)
    ensures
        outer matches Some(o) ==> env@ == nested(o@),
        outer is None ==> env@ == seq![empty_frame()],
{
    Env {
        data: table_new(),
        outer: match outer {
            Some(o) => Some(Box::new(o)),
            None => None,
        },
    }
}

impl Env {
    /// The frames of this environment, the current one first.
    pub closed spec fn view(&self) -> Scopes
        decreases self,
    {
        match self.outer {
            None => seq![bindings(self.data)],
            Some(o) => seq![bindings(self.data)] + o.view(),
        }
    }

    /// An environment has at least its own frame.
    pub proof fn lemma_has_frame(&self)
        ensures
            self@.len() >= 1,
    {
    }

    /// Binds `sym` to `val` in the current frame, whatever it was bound to
    /// there, and leaves the frames around it alone. Returns the value.
    pub fn set(&mut self, sym: String, val: MalVal) -> (r: MalVal)
        ensures
            r == val,
            final(self)@ == bind(old(self)@, sym@, val@),
    {
        let dup = val.clone();
        table_insert(&mut self.data, sym, val);
        assert(self@ =~= bind(old(self)@, sym@, val@));
        dup
    }

    /// What `sym` is bound to in the first frame that binds it, from the
    /// current frame outwards; the symbol itself where no frame binds it.
    pub fn find(&self, sym: String) -> (r: Result<MalVal, EvalError>)
        ensures
            r matches Ok(v) && v@ == lookup(self@, sym@),
        decreases self,
    {
        match table_get(&self.data, &sym) {
            Some(v) => Ok(v.clone()),
            None => match &self.outer {
                Some(o) => {
                    assert(self@.skip(1) =~= o@);
                    o.find(sym)
                },
                None => {
                    assert(self@.skip(1) =~= Seq::empty());
                    assert(lookup(self@.skip(1), sym@) == Datum::Sym(sym@));
                    Ok(MalVal::Sym(sym))
                },
            },
        }
    }

    /// The same as [`Env::find`].
    pub fn get(&self, sym: String) -> (r: Result<MalVal, EvalError>)
        ensures
            r matches Ok(v) && v@ == lookup(self@, sym@),
    {
        self.find(sym)
    }

    /// Gives up the current frame and hands back the environment around
    /// it, if there is one.
    pub fn into_outer(self) -> (outer: Option<Env>)
        ensures
            self@.len() == 1 ==> outer is None,
            self@.len() != 1 ==> (outer matches Some(o) && o@ == self@.skip(1)),
    {
        match self.outer {
            Some(o) => {
                assert(self@.skip(1) =~= o@);
                proof {
                    o.lemma_has_frame();
                }
                Some(*o)
            },
            None => None,
        }
    }
}

} // verus!
