//! Lexical environments: a stack of scopes that bind names to values, each
//! binding assignable or not; lookups search from the innermost scope out.
use vstd::prelude::*;
use crate::assoc::AssocMap;

verus! {

/// A value bound to a name, and whether it may be assigned.
#[derive(Clone, Debug)]
pub struct Binding<V> {
    pub value: V,
    pub mutable: bool,
}

/// Why an environment refuses an operation.
#[derive(Debug)]
pub enum EnvError {
    /// Only the outermost scope is left, and it is not popped.
    GlobalScope,
    /// Assignment to a variable bound without `mut`.
    Immutable { name: String },
    /// Assignment to a name bound in no scope.
    Undefined { name: String },
}

/// The message of an environment error.
pub open spec fn env_error_text(e: EnvError) -> Seq<char> {
    match e {
        EnvError::GlobalScope => "internal error: attempted to pop global scope"@,
        EnvError::Immutable { name } => "cannot assign to immutable variable `"@ + name@ + "`"@,
        EnvError::Undefined { name } => "undefined variable `"@ + name@ + "`"@,
    }
}

impl EnvError {
    /// The message of the error.
    pub fn message(&self) -> (r: String)
        ensures
            r@ == env_error_text(*self),
    {
        let mut m = String::new();
        match self {
            EnvError::GlobalScope => m.append("internal error: attempted to pop global scope"),
            EnvError::Immutable { name } => {
                m.append("cannot assign to immutable variable `");
                m.append(name.as_str());
                m.append("`");
            },
            EnvError::Undefined { name } => {
                m.append("undefined variable `");
                m.append(name.as_str());
                m.append("`");
            },
        }
        assert(m@ =~= env_error_text(*self));
        m
    }
}

/// The binding a name has in a stack of frames: the one in the innermost
/// frame that binds it.
pub open spec fn frames_lookup<V>(frames: Seq<Map<Seq<char>, Binding<V>>>, name: Seq<char>) -> Option<Binding<V>>
    decreases frames.len(),
{
    if frames.len() == 0 {
        None
    } else if frames.last().contains_key(name) {
        Some(frames.last()[name])
    } else {
        frames_lookup(frames.drop_last(), name)
    }
}

/// The position of the innermost frame that binds a name, or -1.
pub open spec fn innermost<V>(frames: Seq<Map<Seq<char>, Binding<V>>>, name: Seq<char>) -> int
    decreases frames.len(),
{
    if frames.len() == 0 {
        -1
    } else if frames.last().contains_key(name) {
        frames.len() - 1
    } else {
        innermost(frames.drop_last(), name)
    }
}

/// A stack of scopes, the innermost last.
#[derive(Clone, Debug)]
pub struct Env<V> {
    scopes: Vec<AssocMap<String, Binding<V>>>,
}

impl<V> Env<V> {
    /// The scopes as maps from names to bindings, the innermost last.
    pub closed spec fn frames(&self) -> Seq<Map<Seq<char>, Binding<V>>> {
        Seq::new(self.scopes@.len(), |i: int| self.scopes@[i]@)
    }

    /// The binding a name has here.
    pub open spec fn lookup(&self, name: Seq<char>) -> Option<Binding<V>> {
        frames_lookup(self.frames(), name)
    }

    /// An environment of one empty scope.
    pub fn new() -> (r: Self)
        ensures
            r.frames() == seq![Map::<Seq<char>, Binding<V>>::empty()],
    {
        let mut scopes: Vec<AssocMap<String, Binding<V>>> = Vec::new();
        scopes.push(AssocMap::new());
        let r = Env { scopes };
        assert(r.frames() =~= seq![Map::<Seq<char>, Binding<V>>::empty()]);
        r
    }

    /// Enters a new, empty, innermost scope.
    pub fn push_scope(&mut self)
        ensures
            final(self).frames() == old(self).frames().push(Map::empty()),
    {
        self.scopes.push(AssocMap::new());
        assert(self.frames() =~= old(self).frames().push(Map::empty()));
    }

    /// Leaves the innermost scope; the outermost one is never left.
    pub fn pop_scope(&mut self) -> (r: Result<(), EnvError>)
        ensures
            old(self).frames().len() <= 1 ==> (r matches Err(EnvError::GlobalScope) && final(self).frames()
                == old(self).frames()),
            old(self).frames().len() > 1 ==> r is Ok && final(self).frames() == old(self).frames().drop_last(),
    {
        if self.scopes.len() <= 1 {
            return Err(EnvError::GlobalScope);
        }
        self.scopes.pop();
        assert(self.frames() =~= old(self).frames().drop_last());
        Ok(())
    }

    /// Binds a name in the innermost scope, replacing a binding of it there.
    pub fn define(&mut self, name: String, value: V, mutable: bool)
        ensures
            old(self).frames().len() > 0 ==> final(self).frames() == old(self).frames().update(
                old(self).frames().len() - 1,
                old(self).frames().last().insert(name@, Binding { value, mutable }),
            ),
            old(self).frames().len() == 0 ==> final(self).frames() == old(self).frames(),
            old(self).frames().len() > 0 ==> final(self).lookup(name@) == Some(Binding { value, mutable }),
    {
        let n = self.scopes.len();
        if n == 0 {
            return;
        }
        let ghost key = name@;
        let mut scope = self.scopes.pop().unwrap();
        scope.insert(name, Binding { value, mutable });
        self.scopes.push(scope);
        assert(self.frames() =~= old(self).frames().update(
            old(self).frames().len() - 1,
            old(self).frames().last().insert(key, Binding { value, mutable }),
        ));
        assert(self.frames().last().contains_key(key));
    }

    /// The names bound in the outermost scope, each once.
    pub fn global_names(&self) -> (r: Vec<String>)
        ensures
            self.frames().len() == 0 ==> r@.len() == 0,
            self.frames().len() > 0 ==> forall|k: Seq<char>| #[trigger] self.frames()[0].contains_key(k) <==> exists|
                i: int,
            | 0 <= i < r@.len() && r@[i]@ == k,
    {
        let mut out: Vec<String> = Vec::new();
        if self.scopes.len() == 0 {
            return out;
        }
        let g = &self.scopes[0];
        let n = g.len();
        let mut i: usize = 0;
        while i < n
            invariant
                n == g.entries().len(),
                i <= n,
                out@.len() == i,
                forall|j: int| 0 <= j < i ==> #[trigger] out@[j]@ == g.entries()[j].0@,
            decreases n - i,
        {
            let (k, _) = g.entry(i);
            out.push(k.clone());
            i = i + 1;
        }
        proof {
            assert(self.frames()[0] == g@);
            assert forall|k: Seq<char>| #[trigger] self.frames()[0].contains_key(k) implies exists|i: int|
                0 <= i < out@.len() && out@[i]@ == k by {
                let p = crate::assoc::key_pos(g.entries(), k);
                assert(out@[p]@ == g.entries()[p].0@);
            }
            assert forall|k: Seq<char>| (exists|i: int| 0 <= i < out@.len() && out@[i]@ == k) implies #[trigger] self.frames()[0].contains_key(k) by {
                let i = choose|i: int| 0 <= i < out@.len() && out@[i]@ == k;
                assert(out@[i]@ == g.entries()[i].0@);
            }
        }
        out
    }

    /// The value a name has in the outermost scope.
    pub fn global_get(&self, name: &str) -> (r: Option<&V>)
        ensures
            self.frames().len() > 0 && self.frames()[0].contains_key(name@) ==> r == Some(&self.frames()[0][name@].value),
            !(self.frames().len() > 0 && self.frames()[0].contains_key(name@)) ==> r is None,
    {
        if self.scopes.len() == 0 {
            return None;
        }
        let key = name.to_owned();
        assert(self.frames()[0] == self.scopes@[0]@);
        match self.scopes[0].get(&key) {
            Some(b) => Some(&b.value),
            None => None,
        }
    }

    /// Binds a name in the outermost scope, replacing a binding of it there.
    pub fn define_global(&mut self, name: String, value: V, mutable: bool)
        ensures
            old(self).frames().len() > 0 ==> final(self).frames() == old(self).frames().update(
                0,
                old(self).frames()[0].insert(name@, Binding { value, mutable }),
            ),
            old(self).frames().len() == 0 ==> final(self).frames() == old(self).frames(),
    {
        if self.scopes.len() == 0 {
            return;
        }
        let ghost key = name@;
        let mut scopes: Vec<AssocMap<String, Binding<V>>> = Vec::new();
        std::mem::swap(&mut scopes, &mut self.scopes);
        let mut g = scopes.remove(0);
        g.insert(name, Binding { value, mutable });
        scopes.insert(0, g);
        self.scopes = scopes;
        assert(self.frames() =~= old(self).frames().update(
            0,
            old(self).frames()[0].insert(key, Binding { value, mutable }),
        ));
    }

    /// The value bound to a name, searching from the innermost scope out.
    pub fn get(&self, name: &str) -> (r: Option<&V>)
        ensures
            match self.lookup(name@) {
                Some(b) => r == Some(&b.value),
                None => r is None,
            },
    {
        let key = name.to_owned();
        let mut i = self.scopes.len();
        assert(self.frames().take(i as int) =~= self.frames());
        while i > 0
            invariant
                i <= self.scopes@.len(),
                key@ == name@,
                frames_lookup(self.frames(), name@) == frames_lookup(self.frames().take(i as int), name@),
            decreases i,
        {
            let ghost fr = self.frames().take(i as int);
            assert(fr.drop_last() =~= self.frames().take(i - 1));
            assert(fr.last() == self.scopes@[i - 1]@);
            match self.scopes[i - 1].get(&key) {
                Some(b) => {
                    return Some(&b.value);
                },
                None => {},
            }
            i = i - 1;
        }
        None
    }

    /// Assigns a value to the innermost binding of a name, which must be
    /// mutable; the binding stays mutable.
    pub fn set(&mut self, name: &str, value: V) -> (r: Result<(), EnvError>)
        ensures
            match old(self).lookup(name@) {
                None => r matches Err(EnvError::Undefined { name: n }) && n@ == name@ && final(self).frames()
                    == old(self).frames(),
                Some(b) => if b.mutable {
                    r is Ok && final(self).frames() == old(self).frames().update(
                        innermost(old(self).frames(), name@),
                        old(self).frames()[innermost(old(self).frames(), name@)].insert(
                            name@,
                            Binding { value, mutable: true },
                        ),
                    )
                } else {
                    r matches Err(EnvError::Immutable { name: n }) && n@ == name@ && final(self).frames() == old(
                        self,
                    ).frames()
                },
            },
            r is Ok ==> final(self).lookup(name@) == Some(Binding { value, mutable: true }),
            r is Ok ==> forall|other: Seq<char>| other != name@ ==> #[trigger] final(self).lookup(other) == old(
                self,
            ).lookup(other),
    {
        let key = name.to_owned();
        let mut i = self.scopes.len();
        let ghost frames0 = self.frames();
        proof {
            lemma_innermost(frames0, name@);
            assert(frames0.take(i as int) =~= frames0);
        }
        while i > 0
            invariant
                i <= self.scopes@.len(),
                key@ == name@,
                self.frames() == frames0,
                frames0 == old(self).frames(),
                frames_lookup(frames0, name@) == frames_lookup(frames0.take(i as int), name@),
                innermost(frames0, name@) == innermost(frames0.take(i as int), name@),
            decreases i,
        {
            let ghost fr = frames0.take(i as int);
            assert(fr.drop_last() =~= frames0.take(i - 1));
            assert(fr.last() == self.scopes@[i - 1]@);
            let found = match self.scopes[i - 1].get(&key) {
                Some(b) => Some(b.mutable),
                None => None,
            };
            match found {
                Some(true) => {
                    let mut scope = self.scopes.remove(i - 1);
                    scope.insert(key, Binding { value, mutable: true });
                    self.scopes.insert(i - 1, scope);
                    proof {
                        let j = (i - 1) as int;
                        let nb = Binding { value, mutable: true };
                        assert(self.frames() =~= frames0.update(j, frames0[j].insert(name@, nb)));
                        lemma_set_lookup(frames0, name@, j, nb);
                    }
                    return Ok(());
                },
                Some(false) => {
                    return Err(EnvError::Immutable { name: name.to_owned() });
                },
                None => {},
            }
            i = i - 1;
        }
        assert(frames0.take(0) =~= Seq::<Map<Seq<char>, Binding<V>>>::empty());
        Err(EnvError::Undefined { name: name.to_owned() })
    }
}

impl<V> Default for Env<V> {
    /// An environment of one empty scope.
    fn default() -> (r: Self)
        ensures
            r.frames() == seq![Map::<Seq<char>, Binding<V>>::empty()],
    {
        Self::new()
    }
}

/// The innermost frame that binds a name gives its binding.
proof fn lemma_innermost<V>(frames: Seq<Map<Seq<char>, Binding<V>>>, name: Seq<char>)
    ensures
        -1 <= innermost(frames, name) < frames.len(),
        innermost(frames, name) == -1 <==> frames_lookup(frames, name) is None,
        innermost(frames, name) >= 0 ==> frames[innermost(frames, name)].contains_key(name) && frames_lookup(
            frames,
            name,
        ) == Some(frames[innermost(frames, name)][name]),
        forall|k: int| innermost(frames, name) < k < frames.len() ==> !(#[trigger] frames[k]).contains_key(name),
    decreases frames.len(),
{
    if frames.len() > 0 && !frames.last().contains_key(name) {
        lemma_innermost(frames.drop_last(), name);
        assert forall|k: int| innermost(frames, name) < k < frames.len() implies !(#[trigger] frames[k]).contains_key(
            name,
        ) by {
            if k < frames.len() - 1 {
                assert(frames[k] == frames.drop_last()[k]);
            } else {
                assert(frames[k] == frames.last());
            }
        }
    }
}

/// Rebinding a name in its innermost frame changes its lookup to the new
/// binding and no other name's lookup.
proof fn lemma_set_lookup<V>(frames: Seq<Map<Seq<char>, Binding<V>>>, name: Seq<char>, j: int, b: Binding<V>)
    requires
        j == innermost(frames, name),
        0 <= j < frames.len(),
    ensures
        frames_lookup(frames.update(j, frames[j].insert(name, b)), name) == Some(b),
        forall|other: Seq<char>| other != name ==> #[trigger] frames_lookup(
            frames.update(j, frames[j].insert(name, b)),
            other,
        ) == frames_lookup(frames, other),
    decreases frames.len(),
{
    let f2 = frames.update(j, frames[j].insert(name, b));
    if j == frames.len() - 1 {
        assert(f2.drop_last() =~= frames.drop_last());
        assert forall|other: Seq<char>| other != name implies #[trigger] frames_lookup(f2, other) == frames_lookup(
            frames,
            other,
        ) by {
            assert(f2.last() == frames.last().insert(name, b));
        }
    } else {
        let g = frames.drop_last();
        assert(!frames.last().contains_key(name));
        assert(g[j] == frames[j]);
        lemma_set_lookup(g, name, j, b);
        assert(f2.drop_last() =~= g.update(j, g[j].insert(name, b)));
        assert(f2.last() == frames.last());
        assert forall|other: Seq<char>| other != name implies #[trigger] frames_lookup(f2, other) == frames_lookup(
            frames,
            other,
        ) by {
            assert(frames_lookup(g.update(j, g[j].insert(name, b)), other) == frames_lookup(g, other));
        }
    }
}

/// Leaving a scope forgets what was bound in it: entering a scope, binding
/// names there, and leaving it again gives every name its binding from before.
pub proof fn lemma_scope_forgets<V>(frames: Seq<Map<Seq<char>, Binding<V>>>, inner: Map<Seq<char>, Binding<V>>, name: Seq<char>)
    ensures
        frames_lookup(frames.push(inner).drop_last(), name) == frames_lookup(frames, name),
{
    assert(frames.push(inner).drop_last() =~= frames);
}

/// An inner binding hides an outer one of the same name: a name bound in the
/// innermost scope looks up to that binding, whatever the outer scopes hold.
pub proof fn lemma_inner_shadows<V>(frames: Seq<Map<Seq<char>, Binding<V>>>, inner: Map<Seq<char>, Binding<V>>, name: Seq<char>)
    requires
        inner.contains_key(name),
    ensures
        frames_lookup(frames.push(inner), name) == Some(inner[name]),
{
}

} // verus!
