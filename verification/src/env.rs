use crate::types::{LispTerm, NativeFn, Term};
use vstd::hash_map::StringHashMap;
use vstd::prelude::*;

verus! {

/// The scopes of an environment as a value: one map from names to terms for
/// each frame, the outermost frame first and the innermost last.
pub type Scopes = Seq<Map<Seq<char>, Term>>;

/// The term that a name stands for: the one bound in the innermost frame
/// that binds the name, or nothing where no frame does.
pub open spec fn lookup(scopes: Scopes, name: Seq<char>) -> Option<Term>
    decreases scopes.len(),
{
    if scopes.len() == 0 {
        None
    } else if scopes.last().contains_key(name) {
        Some(scopes.last()[name])
    } else {
        lookup(scopes.drop_last(), name)
    }
}

/// The scopes after a name is bound in the innermost frame. Another binding
/// of the name in that frame is replaced; the outer frames stay as they are.
pub open spec fn bind(scopes: Scopes, name: Seq<char>, value: Term) -> Scopes {
    if scopes.len() == 0 {
        scopes
    } else {
        scopes.update(scopes.len() - 1, scopes.last().insert(name, value))
    }
}

/// The frame of one scope as a value.
pub open spec fn frame_view(frame: StringHashMap<LispTerm>) -> Map<Seq<char>, Term> {
    frame@.map_values(|term: LispTerm| term@)
}

/// A stack of frames, each binding names to terms.
pub struct Env {
    frames: Vec<StringHashMap<LispTerm>>,
}

impl View for Env {
    type V = Scopes;

    closed spec fn view(&self) -> Scopes {
        Seq::new(self.frames@.len(), |i: int| frame_view(self.frames@[i]))
    }
}

impl Env {
    /// An environment of one empty frame, the root.
    pub fn new() -> (env: Env)
        ensures
            env@ == seq![Map::<Seq<char>, Term>::empty()],
    {
        let mut frames: Vec<StringHashMap<LispTerm>> = Vec::new();
        frames.push(StringHashMap::new());
        let env = Env { frames };
        assert(env@ =~= seq![Map::<Seq<char>, Term>::empty()]) by {
            assert(frame_view(env.frames@[0]) =~= Map::<Seq<char>, Term>::empty());
        }
        env
    }

    /// The number of frames, the root included.
    pub fn depth(&self) -> (n: usize)
        ensures
            n == self@.len(),
    {
        self.frames.len()
    }

    /// Binds the name to a copy of the term in the innermost frame. There
    /// must be a frame to bind it in.
    pub fn set(&mut self, name: &str, term: &LispTerm)
        requires
            old(self)@.len() > 0,
        ensures
            final(self)@ == bind(old(self)@, name@, term@),
    {
        let ghost before = self@;
        let mut frame = self.frames.pop().unwrap();
        let ghost inner = frame_view(frame);
        frame.insert(String::from_str(name), term.clone());
        assert(frame_view(frame) =~= inner.insert(name@, term@));
        self.frames.push(frame);
        assert(self@ =~= bind(before, name@, term@));
    }

    /// The term bound to the name in the innermost frame that binds it.
    pub fn get(&self, name: &str) -> (res: Option<&LispTerm>)
        ensures
            match res {
                Some(term) => lookup(self@, name@) == Some(term@),
                None => lookup(self@, name@) is None,
            },
    {
        let mut i: usize = self.frames.len();
        assert(self@.take(i as int) =~= self@);
        while i > 0
            invariant
                i <= self.frames.len(),
                lookup(self@, name@) == lookup(self@.take(i as int), name@),
            decreases i,
        {
            i -= 1;
            assert(self@.take(i + 1).drop_last() =~= self@.take(i as int));
            assert(self@.take(i + 1).last() == frame_view(self.frames@[i as int]));
            if let Some(term) = self.frames[i].get(name) {
                return Some(term);
            }
        }
        None
    }

    /// Opens a new, empty innermost frame.
    pub fn push_frame(&mut self)
        ensures
            final(self)@ == old(self)@.push(Map::<Seq<char>, Term>::empty()),
    {
        let ghost before = self@;
        let frame: StringHashMap<LispTerm> = StringHashMap::new();
        assert(frame_view(frame) =~= Map::<Seq<char>, Term>::empty());
        self.frames.push(frame);
        assert(self@ =~= before.push(Map::<Seq<char>, Term>::empty()));
    }

    /// Closes the innermost frame. Without a frame, nothing changes.
    pub fn pop_frame(&mut self)
        ensures
            final(self)@ == if old(self)@.len() > 0 {
                old(self)@.drop_last()
            } else {
                old(self)@
            },
    {
        let ghost before = self@;
        self.frames.pop();
        proof {
            if before.len() > 0 {
                assert(self@ =~= before.drop_last());
            } else {
                assert(self@ =~= before);
            }
        }
    }
}

/// The root frame of the default environment: the four arithmetic built-ins
/// under their usual names.
pub open spec fn default_frame() -> Map<Seq<char>, Term> {
    Map::<Seq<char>, Term>::empty().insert("+"@, Term::Func(NativeFn::Add)).insert(
        "-"@,
        Term::Func(NativeFn::Sub),
    ).insert("*"@, Term::Func(NativeFn::Mul)).insert("/"@, Term::Func(NativeFn::Div))
}

/// The environment that an interpreter starts with: a root frame that binds
/// `+`, `-`, `*` and `/` to the arithmetic built-ins.
pub fn default_env() -> (env: Env)
    ensures
        env@ == seq![default_frame()],
{
    let mut env = Env::new();
    env.set("+", &LispTerm::Func(NativeFn::Add));
    env.set("-", &LispTerm::Func(NativeFn::Sub));
    env.set("*", &LispTerm::Func(NativeFn::Mul));
    env.set("/", &LispTerm::Func(NativeFn::Div));
    assert(env@ =~= seq![default_frame()]);
    env
}

} // verus!
